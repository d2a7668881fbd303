//! The persistent cache format.
//!
//! A cache file holds one array of records, each record an object with
//! a `path` field, a `short_name` field, and an optional `prefix`
//! field, all double-quoted strings in which `"` and `\` are escaped
//! with a backslash.  The encoder below emits exactly one canonical
//! text for every sequence of records, the parser accepts exactly the
//! canonical texts, and the round trip is proved exact.

use vstd::prelude::*;

use crate::record::ProjectRecord;
use crate::record::RecordView;

verus! {

/// A field character as it appears on disk: `"` and `\` gain a
/// leading backslash, every other character stands for itself.
pub open spec fn esc_char(c: char) -> Seq<char> {
    if c == '"' || c == '\\' {
        seq!['\\', c]
    } else {
        seq![c]
    }
}

/// A whole field as it appears on disk, closing quote excluded.
pub open spec fn esc(s: Seq<char>) -> Seq<char>
    decreases s.len(),
{
    if s.len() == 0 {
        Seq::<char>::empty()
    } else {
        esc_char(s[0]) + esc(s.drop_first())
    }
}

/// The text of one quoted field, as the parser consumes it: the
/// escaped content followed by the closing quote.
pub open spec fn enc_str(x: Seq<char>) -> Seq<char> {
    esc(x) + "\""@
}

/// The text of one record.
pub open spec fn enc_record(rv: RecordView) -> Seq<char> {
    "{\"path\": \""@ + enc_str(rv.path) + ", \"short_name\": \""@ + enc_str(rv.short_name)
        + (match rv.prefix {
        Some(p) => ", \"prefix\": \""@ + enc_str(p),
        None => Seq::<char>::empty(),
    }) + "}"@
}

/// The text of a sequence of records, `, `-separated.
pub open spec fn enc_records(s: Seq<RecordView>) -> Seq<char>
    decreases s.len(),
{
    if s.len() == 0 {
        Seq::<char>::empty()
    } else if s.len() == 1 {
        enc_record(s[0])
    } else {
        enc_record(s[0]) + ", "@ + enc_records(s.drop_first())
    }
}

/// The whole cache file for a sequence of records.
pub open spec fn spec_encode(s: Seq<RecordView>) -> Seq<char> {
    "["@ + enc_records(s) + "]"@
}

pub proof fn lemma_esc_push(s: Seq<char>, c: char)
    ensures
        esc(s.push(c)) == esc(s) + esc_char(c),
    decreases s.len(),
{
    if s.len() == 0 {
        let t = s.push(c);
        assert(t[0] == c);
        assert(t.drop_first() =~= Seq::<char>::empty());
        assert(esc(t) == esc_char(t[0]) + esc(t.drop_first()));
        assert(esc(Seq::<char>::empty()) == Seq::<char>::empty());
        assert(esc(t) =~= esc(s) + esc_char(c));
    } else {
        assert(s.push(c)[0] == s[0]);
        assert(s.push(c).drop_first() =~= s.drop_first().push(c));
        lemma_esc_push(s.drop_first(), c);
        assert(esc(s.push(c)) =~= esc(s) + esc_char(c));
    }
}

pub proof fn lemma_enc_records_snoc(s: Seq<RecordView>, r: RecordView)
    ensures
        enc_records(s.push(r)) == if s.len() == 0 {
            enc_record(r)
        } else {
            enc_records(s) + ", "@ + enc_records(seq![r])
        },
    decreases s.len(),
{
    if s.len() == 0 {
        assert(s.push(r)[0] == r);
    } else if s.len() == 1 {
        assert(s.push(r)[0] == s[0]);
        assert(s.push(r).drop_first() =~= seq![r]);
        assert(enc_records(seq![r]) == enc_record(r));
    } else {
        assert(s.push(r)[0] == s[0]);
        assert(s.push(r).drop_first() =~= s.drop_first().push(r));
        lemma_enc_records_snoc(s.drop_first(), r);
        assert(enc_records(s.push(r)) =~= enc_records(s) + ", "@ + enc_records(seq![r]));
    }
}

/// `t` occurs verbatim in `s` at position `pos`.
pub open spec fn lit_at(s: Seq<char>, pos: int, t: Seq<char>) -> bool {
    &&& 0 <= pos
    &&& pos + t.len() <= s.len()
    &&& s.subrange(pos, pos + t.len()) == t
}

/// A fixed literal parsed at `pos`: the position just after it on a
/// match, nothing otherwise.
pub open spec fn spec_parse_lit(s: Seq<char>, pos: int, t: Seq<char>) -> Option<int> {
    if lit_at(s, pos, t) {
        Some(pos + t.len())
    } else {
        None
    }
}

/// A quoted field parsed at `pos`: the content up to the first
/// unescaped quote, and the position just after that quote.
pub open spec fn spec_parse_str(s: Seq<char>, pos: int) -> Option<(Seq<char>, int)>
    decreases s.len() - pos,
{
    if pos < 0 || pos >= s.len() {
        None
    } else if s[pos] == '"' {
        Some((Seq::<char>::empty(), pos + 1))
    } else if s[pos] == '\\' {
        if pos + 1 < s.len() && (s[pos + 1] == '"' || s[pos + 1] == '\\') {
            match spec_parse_str(s, pos + 2) {
                Some((t, e)) => Some((seq![s[pos + 1]] + t, e)),
                None => None,
            }
        } else {
            None
        }
    } else {
        match spec_parse_str(s, pos + 1) {
            Some((t, e)) => Some((seq![s[pos]] + t, e)),
            None => None,
        }
    }
}

pub proof fn lemma_lit_at_split(s: Seq<char>, pos: int, a: Seq<char>, b: Seq<char>)
    requires
        lit_at(s, pos, a + b),
    ensures
        lit_at(s, pos, a),
        lit_at(s, pos + a.len(), b),
{
    assert(s.subrange(pos, pos + a.len()) =~= (a + b).subrange(0, a.len() as int));
    assert((a + b).subrange(0, a.len() as int) =~= a);
    assert(s.subrange(pos + a.len(), pos + a.len() + b.len()) =~= (a + b).subrange(
        a.len() as int,
        (a + b).len() as int,
    ));
    assert((a + b).subrange(a.len() as int, (a + b).len() as int) =~= b);
}

/// Parsing a quoted field succeeds on, and exactly consumes, the
/// encoding of any content `x`.
pub proof fn lemma_parse_str_complete(s: Seq<char>, pos: int, x: Seq<char>)
    requires
        lit_at(s, pos, enc_str(x)),
    ensures
        spec_parse_str(s, pos) == Some((x, pos + enc_str(x).len())),
    decreases x.len(),
{
    reveal_strlit("\"");
    assert(("\""@).len() == 1);
    lemma_lit_at_split(s, pos, esc(x), "\""@);
    if x.len() == 0 {
        assert(esc(x) =~= Seq::<char>::empty());
        assert(s.subrange(pos, pos + 1)[0] == s[pos]);
        assert(s[pos] == '"');
    } else {
        let c = x[0];
        let rest = x.drop_first();
        assert(esc(x) == esc_char(c) + esc(rest));
        assert(enc_str(x) =~= esc_char(c) + enc_str(rest));
        lemma_lit_at_split(s, pos, esc_char(c), enc_str(rest));
        if c == '"' || c == '\\' {
            assert(s.subrange(pos, pos + 2)[0] == s[pos]);
            assert(s.subrange(pos, pos + 2)[1] == s[pos + 1]);
            assert(s[pos] == '\\');
            assert(s[pos + 1] == c);
            lemma_parse_str_complete(s, pos + 2, rest);
            assert(seq![s[pos + 1]] + rest =~= x);
        } else {
            assert(s.subrange(pos, pos + 1)[0] == s[pos]);
            assert(s[pos] == c);
            assert(s[pos] != '"' && s[pos] != '\\');
            lemma_parse_str_complete(s, pos + 1, rest);
            assert(seq![s[pos]] + rest =~= x);
        }
    }
}

/// Whatever a quoted-field parse returns was the encoding of its
/// result, exactly up to the returned position.
pub proof fn lemma_parse_str_sound(s: Seq<char>, pos: int)
    requires
        spec_parse_str(s, pos) is Some,
    ensures
        ({
            let (x, e) = spec_parse_str(s, pos)->0;
            lit_at(s, pos, enc_str(x)) && e == pos + enc_str(x).len()
        }),
    decreases s.len() - pos,
{
    reveal_strlit("\"");
    assert(("\""@).len() == 1);
    assert(("\""@)[0] == '"');
    let (x, e) = spec_parse_str(s, pos)->0;
    if s[pos] == '"' {
        assert(esc(x) =~= Seq::<char>::empty());
        assert(s.subrange(pos, pos + 1) =~= "\""@);
        assert(enc_str(x) =~= "\""@);
    } else if s[pos] == '\\' {
        let (t, e2) = spec_parse_str(s, pos + 2)->0;
        lemma_parse_str_sound(s, pos + 2);
        assert(x == seq![s[pos + 1]] + t);
        assert(x[0] == s[pos + 1]);
        assert(x.drop_first() =~= t);
        assert(esc(x) == esc_char(x[0]) + esc(t));
        assert(esc_char(x[0]) == seq!['\\', x[0]]);
        let ln = enc_str(x).len();
        assert forall|j: int| 0 <= j < ln implies s.subrange(pos, pos + ln)[j] == enc_str(x)[j] by {
            assert(s.subrange(pos, pos + ln)[j] == s[pos + j]);
            if j >= 2 {
                assert(s[pos + j] == s.subrange(pos + 2, pos + 2 + enc_str(t).len())[j - 2]);
                assert(enc_str(x)[j] == enc_str(t)[j - 2]);
            }
        }
        assert(s.subrange(pos, pos + enc_str(x).len()) =~= enc_str(x));
    } else {
        let (t, e2) = spec_parse_str(s, pos + 1)->0;
        lemma_parse_str_sound(s, pos + 1);
        assert(x == seq![s[pos]] + t);
        assert(x[0] == s[pos]);
        assert(x.drop_first() =~= t);
        assert(esc(x) == esc_char(x[0]) + esc(t));
        let ln = enc_str(x).len();
        assert forall|j: int| 0 <= j < ln implies s.subrange(pos, pos + ln)[j] == enc_str(x)[j] by {
            assert(s.subrange(pos, pos + ln)[j] == s[pos + j]);
            if j >= 1 {
                assert(s[pos + j] == s.subrange(pos + 1, pos + 1 + enc_str(t).len())[j - 1]);
                assert(enc_str(x)[j] == enc_str(t)[j - 1]);
            }
        }
        assert(s.subrange(pos, pos + enc_str(x).len()) =~= enc_str(x));
    }
}

/// One record parsed at `pos`: its fields and the position just
/// after its closing brace.
pub open spec fn spec_parse_record(s: Seq<char>, pos: int) -> Option<(RecordView, int)> {
    match spec_parse_lit(s, pos, "{\"path\": \""@) {
        None => None,
        Some(p1) => match spec_parse_str(s, p1) {
            None => None,
            Some((path, p2)) => match spec_parse_lit(s, p2, ", \"short_name\": \""@) {
                None => None,
                Some(p3) => match spec_parse_str(s, p3) {
                    None => None,
                    Some((sn, p4)) => match spec_parse_lit(s, p4, ", \"prefix\": \""@) {
                        Some(p5) => match spec_parse_str(s, p5) {
                            None => None,
                            Some((px, p6)) => match spec_parse_lit(s, p6, "}"@) {
                                Some(p7) => Some(
                                    (RecordView { path, short_name: sn, prefix: Some(px) }, p7),
                                ),
                                None => None,
                            },
                        },
                        None => match spec_parse_lit(s, p4, "}"@) {
                            Some(p5) => Some(
                                (RecordView { path, short_name: sn, prefix: None }, p5),
                            ),
                            None => None,
                        },
                    },
                },
            },
        },
    }
}

/// A nonempty `, `-separated run of records parsed at `pos`.
pub open spec fn spec_parse_records(s: Seq<char>, pos: int) -> Option<(Seq<RecordView>, int)>
    decreases s.len() - pos,
{
    match spec_parse_record(s, pos) {
        None => None,
        Some((rv, p)) => if p <= pos || p > s.len() {
            None
        } else {
            match spec_parse_lit(s, p, ", "@) {
                Some(p2) => match spec_parse_records(s, p2) {
                    Some((tail, e)) => Some((seq![rv] + tail, e)),
                    None => None,
                },
                None => Some((seq![rv], p)),
            }
        },
    }
}

/// A whole cache file: the bracketed record list, which must span the
/// entire text.
pub open spec fn spec_decode(s: Seq<char>) -> Option<Seq<RecordView>> {
    match spec_parse_lit(s, 0, "["@) {
        None => None,
        Some(p) => match spec_parse_lit(s, p, "]"@) {
            Some(p2) => if p2 == s.len() {
                Some(Seq::<RecordView>::empty())
            } else {
                None
            },
            None => match spec_parse_records(s, p) {
                None => None,
                Some((rvs, e)) => match spec_parse_lit(s, e, "]"@) {
                    Some(e2) => if e2 == s.len() {
                        Some(rvs)
                    } else {
                        None
                    },
                    None => None,
                },
            },
        },
    }
}

proof fn keys_facts()
    ensures
        ("{\"path\": \""@).len() == 10,
        (", \"short_name\": \""@).len() == 17,
        (", \"prefix\": \""@).len() == 13,
        ("}"@).len() == 1,
        ("["@).len() == 1,
        ("]"@).len() == 1,
        (", "@).len() == 2,
        ("\""@).len() == 1,
        ("{\"path\": \""@)[0] == '{',
        (", \"prefix\": \""@)[0] == ',',
        ("}"@)[0] == '}',
        ("["@)[0] == '[',
        ("]"@)[0] == ']',
        (", "@)[0] == ',',
{
    reveal_strlit("{\"path\": \"");
    reveal_strlit(", \"short_name\": \"");
    reveal_strlit(", \"prefix\": \"");
    reveal_strlit("}");
    reveal_strlit("[");
    reveal_strlit("]");
    reveal_strlit(", ");
    reveal_strlit("\"");
}

pub proof fn lemma_lit_at_join(s: Seq<char>, pos: int, a: Seq<char>, b: Seq<char>)
    requires
        lit_at(s, pos, a),
        lit_at(s, pos + a.len(), b),
    ensures
        lit_at(s, pos, a + b),
{
    let ln = a.len() + b.len();
    assert forall|j: int| 0 <= j < ln implies s.subrange(pos, pos + ln)[j] == (a + b)[j] by {
        assert(s.subrange(pos, pos + ln)[j] == s[pos + j]);
        if j < a.len() {
            assert(s.subrange(pos, pos + a.len())[j] == s[pos + j]);
        } else {
            assert(s.subrange(pos + a.len(), pos + a.len() + b.len())[j - a.len()] == s[pos + j]);
        }
    }
    assert(s.subrange(pos, pos + ln) =~= a + b);
}

/// The canonical record text is never empty.
pub proof fn lemma_enc_record_len(rv: RecordView)
    ensures
        enc_record(rv).len() > 0,
{
    keys_facts();
}

/// Parsing a record succeeds on, and exactly consumes, the encoding
/// of any record.
pub proof fn lemma_parse_record_complete(s: Seq<char>, pos: int, rv: RecordView)
    requires
        lit_at(s, pos, enc_record(rv)),
    ensures
        spec_parse_record(s, pos) == Some((rv, pos + enc_record(rv).len())),
{
    keys_facts();
    let a1 = "{\"path\": \""@;
    let a2 = enc_str(rv.path);
    let a3 = ", \"short_name\": \""@;
    let a4 = enc_str(rv.short_name);
    let a7 = "}"@;
    match rv.prefix {
        Some(px) => {
            let a5 = ", \"prefix\": \""@;
            let a6 = enc_str(px);
            assert(enc_record(rv) =~= a1 + (a2 + (a3 + (a4 + (a5 + (a6 + a7))))));
            lemma_lit_at_split(s, pos, a1, a2 + (a3 + (a4 + (a5 + (a6 + a7)))));
            let p1 = pos + a1.len();
            lemma_lit_at_split(s, p1, a2, a3 + (a4 + (a5 + (a6 + a7))));
            lemma_parse_str_complete(s, p1, rv.path);
            let p2 = p1 + a2.len();
            lemma_lit_at_split(s, p2, a3, a4 + (a5 + (a6 + a7)));
            let p3 = p2 + a3.len();
            lemma_lit_at_split(s, p3, a4, a5 + (a6 + a7));
            lemma_parse_str_complete(s, p3, rv.short_name);
            let p4 = p3 + a4.len();
            lemma_lit_at_split(s, p4, a5, a6 + a7);
            let p5 = p4 + a5.len();
            lemma_lit_at_split(s, p5, a6, a7);
            lemma_parse_str_complete(s, p5, px);
            let p6 = p5 + a6.len();
            assert(spec_parse_lit(s, p6, a7) == Some(p6 + 1));
        },
        None => {
            assert(enc_record(rv) =~= a1 + (a2 + (a3 + (a4 + a7))));
            lemma_lit_at_split(s, pos, a1, a2 + (a3 + (a4 + a7)));
            let p1 = pos + a1.len();
            lemma_lit_at_split(s, p1, a2, a3 + (a4 + a7));
            lemma_parse_str_complete(s, p1, rv.path);
            let p2 = p1 + a2.len();
            lemma_lit_at_split(s, p2, a3, a4 + a7);
            let p3 = p2 + a3.len();
            lemma_lit_at_split(s, p3, a4, a7);
            lemma_parse_str_complete(s, p3, rv.short_name);
            let p4 = p3 + a4.len();
            assert(s.subrange(p4, p4 + 1)[0] == s[p4]);
            assert(s[p4] == '}');
            let a5 = ", \"prefix\": \""@;
            assert(spec_parse_lit(s, p4, a5) is None) by {
                if lit_at(s, p4, a5) {
                    assert(s.subrange(p4, p4 + a5.len())[0] == s[p4]);
                }
            }
            assert(spec_parse_lit(s, p4, a7) == Some(p4 + 1));
        },
    }
}

/// Whatever a record parse returns was the encoding of its result,
/// exactly up to the returned position.
pub proof fn lemma_parse_record_sound(s: Seq<char>, pos: int)
    requires
        spec_parse_record(s, pos) is Some,
    ensures
        ({
            let (rv, e) = spec_parse_record(s, pos)->0;
            lit_at(s, pos, enc_record(rv)) && e == pos + enc_record(rv).len()
        }),
{
    keys_facts();
    let (rv, e) = spec_parse_record(s, pos)->0;
    let a1 = "{\"path\": \""@;
    let a3 = ", \"short_name\": \""@;
    let a7 = "}"@;
    let p1 = spec_parse_lit(s, pos, a1)->0;
    let (path, p2) = spec_parse_str(s, p1)->0;
    lemma_parse_str_sound(s, p1);
    let p3 = spec_parse_lit(s, p2, a3)->0;
    let (sn, p4) = spec_parse_str(s, p3)->0;
    lemma_parse_str_sound(s, p3);
    lemma_lit_at_join(s, pos, a1, enc_str(path));
    lemma_lit_at_join(s, pos, a1 + enc_str(path), a3);
    lemma_lit_at_join(s, pos, a1 + enc_str(path) + a3, enc_str(sn));
    match spec_parse_lit(s, p4, ", \"prefix\": \""@) {
        Some(p5) => {
            let a5 = ", \"prefix\": \""@;
            let (px, p6) = spec_parse_str(s, p5)->0;
            lemma_parse_str_sound(s, p5);
            lemma_lit_at_join(s, pos, a1 + enc_str(path) + a3 + enc_str(sn), a5);
            lemma_lit_at_join(s, pos, a1 + enc_str(path) + a3 + enc_str(sn) + a5, enc_str(px));
            lemma_lit_at_join(
                s,
                pos,
                a1 + enc_str(path) + a3 + enc_str(sn) + a5 + enc_str(px),
                a7,
            );
            assert(enc_record(rv) =~= a1 + enc_str(path) + a3 + enc_str(sn) + a5 + enc_str(px)
                + a7);
        },
        None => {
            lemma_lit_at_join(s, pos, a1 + enc_str(path) + a3 + enc_str(sn), a7);
            assert(enc_record(rv) =~= a1 + enc_str(path) + a3 + enc_str(sn) + a7);
        },
    }
}

/// Parsing a record run succeeds on, and exactly consumes, the
/// encoding of any nonempty record sequence that a `]` follows.
pub proof fn lemma_parse_records_complete(s: Seq<char>, pos: int, rv: Seq<RecordView>)
    requires
        rv.len() >= 1,
        lit_at(s, pos, enc_records(rv)),
        pos + enc_records(rv).len() < s.len(),
        s[pos + enc_records(rv).len()] == ']',
    ensures
        spec_parse_records(s, pos) == Some((rv, pos + enc_records(rv).len())),
    decreases rv.len(),
{
    keys_facts();
    let sep = ", "@;
    if rv.len() == 1 {
        assert(enc_records(rv) == enc_record(rv[0]));
        lemma_parse_record_complete(s, pos, rv[0]);
        lemma_enc_record_len(rv[0]);
        let p = pos + enc_record(rv[0]).len();
        assert(s[p] == ']');
        assert(spec_parse_lit(s, p, sep) is None) by {
            if lit_at(s, p, sep) {
                assert(s.subrange(p, p + sep.len())[0] == s[p]);
            }
        }
        assert(seq![rv[0]] =~= rv);
    } else {
        let tail = rv.drop_first();
        assert(enc_records(rv) == enc_record(rv[0]) + sep + enc_records(tail));
        assert(enc_records(rv) =~= enc_record(rv[0]) + (sep + enc_records(tail)));
        lemma_lit_at_split(s, pos, enc_record(rv[0]), sep + enc_records(tail));
        lemma_parse_record_complete(s, pos, rv[0]);
        lemma_enc_record_len(rv[0]);
        let p = pos + enc_record(rv[0]).len();
        lemma_lit_at_split(s, p, sep, enc_records(tail));
        let p2 = p + sep.len();
        lemma_parse_records_complete(s, p2, tail);
        assert(seq![rv[0]] + tail =~= rv);
    }
}

/// Whatever a record-run parse returns was the encoding of its
/// result, exactly up to the returned position.
pub proof fn lemma_parse_records_sound(s: Seq<char>, pos: int)
    requires
        spec_parse_records(s, pos) is Some,
    ensures
        ({
            let (rvs, e) = spec_parse_records(s, pos)->0;
            rvs.len() >= 1 && lit_at(s, pos, enc_records(rvs)) && e == pos + enc_records(rvs).len()
        }),
    decreases s.len() - pos,
{
    keys_facts();
    let sep = ", "@;
    let (rvs, e) = spec_parse_records(s, pos)->0;
    let (rv, p) = spec_parse_record(s, pos)->0;
    lemma_parse_record_sound(s, pos);
    match spec_parse_lit(s, p, sep) {
        Some(p2) => {
            let (tail, e2) = spec_parse_records(s, p2)->0;
            lemma_parse_records_sound(s, p2);
            assert(rvs == seq![rv] + tail);
            assert(rvs[0] == rv);
            assert(rvs.drop_first() =~= tail);
            lemma_lit_at_join(s, pos, enc_record(rv), sep);
            lemma_lit_at_join(s, pos, enc_record(rv) + sep, enc_records(tail));
            assert(enc_records(rvs) == enc_record(rv) + sep + enc_records(tail));
        },
        None => {
            assert(rvs == seq![rv]);
            assert(rvs[0] == rv);
            assert(enc_records(rvs) == enc_record(rv));
        },
    }
}

/// Decoding succeeds on, and returns exactly, whatever was encoded.
pub proof fn lemma_decode_complete(s: Seq<char>, rv: Seq<RecordView>)
    requires
        s == spec_encode(rv),
    ensures
        spec_decode(s) == Some(rv),
{
    keys_facts();
    let lb = "["@;
    let rb = "]"@;
    let body = enc_records(rv);
    assert(lit_at(s, 0, lb)) by {
        assert(s.subrange(0, 1) =~= lb);
    }
    if rv.len() == 0 {
        assert(body =~= Seq::<char>::empty());
        assert(s.len() == 2);
        assert(s[1] == rb[0]) by {
            assert(s[1] == (lb + body + rb)[1]);
        }
        assert(lit_at(s, 1, rb)) by {
            assert(s.subrange(1, 2) =~= rb);
        }
    } else {
        lemma_enc_record_len(rv[0]);
        assert(enc_records(rv)[0] == enc_record(rv[0])[0]) by {
            if rv.len() == 1 {
            } else {
                assert(enc_records(rv) == enc_record(rv[0]) + ", "@ + enc_records(rv.drop_first()));
            }
        }
        assert(enc_record(rv[0])[0] == '{') by {
            assert(enc_record(rv[0])[0] == ("{\"path\": \""@)[0]);
        }
        assert(s[1] == '{') by {
            assert(s[1] == (lb + body + rb)[1]);
        }
        assert(spec_parse_lit(s, 1, rb) is None) by {
            if lit_at(s, 1, rb) {
                assert(s.subrange(1, 2)[0] == s[1]);
            }
        }
        assert(lit_at(s, 1, body)) by {
            assert(s.subrange(1, 1 + body.len() as int) =~= body);
        }
        assert(s[1 + body.len() as int] == ']') by {
            assert(s[1 + body.len() as int] == (lb + body + rb)[1 + body.len() as int]);
        }
        lemma_parse_records_complete(s, 1, rv);
        assert(lit_at(s, 1 + body.len() as int, rb)) by {
            assert(s.subrange(1 + body.len() as int, 2 + body.len() as int) =~= rb);
        }
    }
}

/// Whatever decoding accepts was the canonical encoding of its
/// result.
pub proof fn lemma_decode_sound(s: Seq<char>)
    requires
        spec_decode(s) is Some,
    ensures
        s == spec_encode(spec_decode(s)->0),
{
    keys_facts();
    let lb = "["@;
    let rb = "]"@;
    let rvs = spec_decode(s)->0;
    match spec_parse_lit(s, 1, rb) {
        Some(p2) => {
            assert(s.len() == 2);
            assert(rvs =~= Seq::<RecordView>::empty());
            assert(enc_records(rvs) =~= Seq::<char>::empty());
            lemma_lit_at_join(s, 0, lb, rb);
            assert(lb + rb =~= spec_encode(rvs));
            assert(s =~= s.subrange(0, 2));
        },
        None => {
            let (got, e) = spec_parse_records(s, 1)->0;
            lemma_parse_records_sound(s, 1);
            assert(rvs == got);
            lemma_lit_at_join(s, 0, lb, enc_records(rvs));
            lemma_lit_at_join(s, 0, lb + enc_records(rvs), rb);
            assert(lb + enc_records(rvs) + rb =~= spec_encode(rvs));
            assert(s =~= s.subrange(0, s.len() as int));
        },
    }
}

/// Distinct record sequences never share an encoding.
pub proof fn lemma_encode_injective(a: Seq<RecordView>, b: Seq<RecordView>)
    requires
        spec_encode(a) == spec_encode(b),
    ensures
        a == b,
{
    lemma_decode_complete(spec_encode(a), a);
    lemma_decode_complete(spec_encode(b), b);
}

/// Appends the escaped form of `field` to `out`.
fn append_escaped(out: &mut String, field: &str)
    ensures
        final(out)@ == old(out)@ + esc(field@),
{
    let n = field.unicode_len();
    let mut i: usize = 0;
    while i < n
        invariant
            i <= n,
            n == field@.len(),
            out@ == old(out)@ + esc(field@.take(i as int)),
        decreases n - i,
    {
        let c = field.get_char(i);
        if c == '"' || c == '\\' {
            out.append("\\");
        }
        let piece = field.substring_char(i, i + 1);
        out.append(piece);
        proof {
            reveal_strlit("\\");
            assert(piece@ =~= seq![field@[i as int]]);
            assert(field@.take((i + 1) as int) =~= field@.take(i as int).push(field@[i as int]));
            lemma_esc_push(field@.take(i as int), field@[i as int]);
            assert(out@ =~= old(out)@ + esc(field@.take((i + 1) as int)));
        }
        i = i + 1;
    }
    proof {
        assert(field@.take(n as int) =~= field@);
    }
}

/// Appends one quoted field: escaped content, then the closing quote.
fn append_quoted(out: &mut String, field: &str)
    ensures
        final(out)@ == old(out)@ + enc_str(field@),
{
    append_escaped(out, field);
    out.append("\"");
    proof {
        assert(out@ =~= old(out)@ + enc_str(field@));
    }
}

/// Appends the canonical text of one record.
fn append_record(out: &mut String, rec: &ProjectRecord)
    ensures
        final(out)@ == old(out)@ + enc_record(rec@),
{
    out.append("{\"path\": \"");
    append_quoted(out, rec.path.as_str());
    out.append(", \"short_name\": \"");
    append_quoted(out, rec.short_name.as_str());
    match &rec.prefix {
        Some(p) => {
            out.append(", \"prefix\": \"");
            append_quoted(out, p.as_str());
        },
        None => {},
    }
    out.append("}");
    proof {
        assert(out@ =~= old(out)@ + enc_record(rec@));
    }
}

/// Serializes a sequence of records into the canonical cache text.
pub fn encode_records(items: &Vec<ProjectRecord>) -> (r: String)
    ensures
        r@ == spec_encode(items.deep_view()),
{
    let ghost dv = items.deep_view();
    proof {
        assert(dv.len() == items@.len());
    }
    let mut out = String::new();
    out.append("[");
    let mut i: usize = 0;
    while i < items.len()
        invariant
            i <= items.len(),
            dv == items.deep_view(),
            dv.len() == items@.len(),
            out@ == "["@ + enc_records(dv.take(i as int)),
        decreases items.len() - i,
    {
        if i > 0 {
            out.append(", ");
        }
        append_record(&mut out, &items[i]);
        proof {
            assert(items[i as int].deep_view() == dv[i as int]);
            lemma_enc_records_snoc(dv.take(i as int), dv[i as int]);
            assert(dv.take((i + 1) as int) =~= dv.take(i as int).push(dv[i as int]));
            assert(enc_records(seq![dv[i as int]]) == enc_record(dv[i as int]));
            assert(out@ =~= "["@ + enc_records(dv.take((i + 1) as int)));
        }
        i = i + 1;
    }
    out.append("]");
    proof {
        assert(dv.take(dv.len() as int) =~= dv);
        assert(out@ =~= spec_encode(dv));
    }
    out
}

/// Matches the fixed text `lit` at character position `pos`.
fn parse_lit(s: &str, pos: usize, lit: &str) -> (r: Option<usize>)
    requires
        pos <= s@.len(),
    ensures
        r is Some <==> spec_parse_lit(s@, pos as int, lit@) is Some,
        r matches Some(e) ==> spec_parse_lit(s@, pos as int, lit@) == Some(e as int),
{
    let n = s.unicode_len();
    let m = lit.unicode_len();
    if m > n - pos {
        return None;
    }
    let mut j: usize = 0;
    while j < m
        invariant
            j <= m,
            m == lit@.len(),
            n == s@.len(),
            pos + m <= n,
            forall|k: int| 0 <= k < j ==> s@[pos + k] == lit@[k],
        decreases m - j,
    {
        if s.get_char(pos + j) != lit.get_char(j) {
            proof {
                if lit_at(s@, pos as int, lit@) {
                    assert(s@.subrange(pos as int, pos + lit@.len())[j as int] == s@[pos + j]);
                }
            }
            return None;
        }
        j = j + 1;
    }
    proof {
        assert(s@.subrange(pos as int, pos + lit@.len()) =~= lit@);
    }
    Some(pos + m)
}

/// Parses one quoted field at `pos`: the unescaped content and the
/// position just after the closing quote.
fn parse_str(s: &str, pos: usize) -> (r: Option<(String, usize)>)
    requires
        pos <= s@.len(),
    ensures
        r is Some <==> spec_parse_str(s@, pos as int) is Some,
        r matches Some(p) ==> spec_parse_str(s@, pos as int) == Some((p.0@, p.1 as int)),
    decreases s@.len() - pos,
{
    let n = s.unicode_len();
    if pos >= n {
        return None;
    }
    let c = s.get_char(pos);
    if c == '"' {
        Some((String::new(), pos + 1))
    } else if c == '\\' {
        if pos + 1 < n {
            let c2 = s.get_char(pos + 1);
            if c2 == '"' || c2 == '\\' {
                match parse_str(s, pos + 2) {
                    Some((t, e)) => {
                        let mut out = s.substring_char(pos + 1, pos + 2).to_owned();
                        out.append(t.as_str());
                        proof {
                            assert(out@ =~= seq![s@[pos + 1]] + t@);
                        }
                        Some((out, e))
                    },
                    None => None,
                }
            } else {
                None
            }
        } else {
            None
        }
    } else {
        match parse_str(s, pos + 1) {
            Some((t, e)) => {
                let mut out = s.substring_char(pos, pos + 1).to_owned();
                out.append(t.as_str());
                proof {
                    assert(out@ =~= seq![s@[pos as int]] + t@);
                }
                Some((out, e))
            },
            None => None,
        }
    }
}

/// Parses one record at `pos`.
fn parse_record(s: &str, pos: usize) -> (r: Option<(ProjectRecord, usize)>)
    requires
        pos <= s@.len(),
    ensures
        r is Some <==> spec_parse_record(s@, pos as int) is Some,
        r matches Some(p) ==> spec_parse_record(s@, pos as int) == Some((p.0@, p.1 as int)),
{
    let p1 = match parse_lit(s, pos, "{\"path\": \"") {
        Some(p) => p,
        None => {
            return None;
        },
    };
    let (path, p2) = match parse_str(s, p1) {
        Some(v) => v,
        None => {
            return None;
        },
    };
    proof {
        lemma_parse_str_sound(s@, p1 as int);
    }
    let p3 = match parse_lit(s, p2, ", \"short_name\": \"") {
        Some(p) => p,
        None => {
            return None;
        },
    };
    let (sn, p4) = match parse_str(s, p3) {
        Some(v) => v,
        None => {
            return None;
        },
    };
    proof {
        lemma_parse_str_sound(s@, p3 as int);
    }
    match parse_lit(s, p4, ", \"prefix\": \"") {
        Some(p5) => {
            let (px, p6) = match parse_str(s, p5) {
                Some(v) => v,
                None => {
                    return None;
                },
            };
            proof {
                lemma_parse_str_sound(s@, p5 as int);
            }
            match parse_lit(s, p6, "}") {
                Some(p7) => {
                    let rec = ProjectRecord { path, short_name: sn, prefix: Some(px) };
                    Some((rec, p7))
                },
                None => None,
            }
        },
        None => {
            match parse_lit(s, p4, "}") {
                Some(p5) => {
                    let rec = ProjectRecord { path, short_name: sn, prefix: None };
                    Some((rec, p5))
                },
                None => None,
            }
        },
    }
}

/// Parses a nonempty `, `-separated run of records at `pos`.
fn parse_records(s: &str, pos: usize) -> (r: Option<(Vec<ProjectRecord>, usize)>)
    requires
        pos <= s@.len(),
    ensures
        r is Some <==> spec_parse_records(s@, pos as int) is Some,
        r matches Some(p) ==> spec_parse_records(s@, pos as int) == Some(
            (p.0.deep_view(), p.1 as int),
        ),
    decreases s@.len() - pos,
{
    let (rec, p) = match parse_record(s, pos) {
        Some(v) => v,
        None => {
            return None;
        },
    };
    proof {
        lemma_parse_record_sound(s@, pos as int);
        lemma_enc_record_len(rec@);
    }
    match parse_lit(s, p, ", ") {
        Some(p2) => {
            match parse_records(s, p2) {
                Some((tail, e)) => {
                    let ghost tdv = tail.deep_view();
                    let ghost tsq = tail@;
                    let mut tail = tail;
                    let mut out: Vec<ProjectRecord> = Vec::new();
                    out.push(rec);
                    out.append(&mut tail);
                    proof {
                        assert forall|i: int| 0 <= i < out@.len() implies out.deep_view()[i] == (
                        seq![rec@] + tdv)[i] by {
                            if i == 0 {
                                assert(out@[0] == rec);
                            } else {
                                assert(out@[i] == tsq[i - 1]);
                                assert(tdv[i - 1] == tsq[i - 1].deep_view());
                            }
                        }
                        assert(out.deep_view() =~= seq![rec@] + tdv);
                    }
                    Some((out, e))
                },
                None => None,
            }
        },
        None => {
            let mut out: Vec<ProjectRecord> = Vec::new();
            out.push(rec);
            proof {
                assert(out.deep_view() =~= seq![rec@]);
            }
            Some((out, p))
        },
    }
}

/// Parses a whole cache file, which must consist of exactly one
/// bracketed record list.
fn parse_file(s: &str) -> (r: Option<Vec<ProjectRecord>>)
    ensures
        r is Some <==> spec_decode(s@) is Some,
        r matches Some(v) ==> spec_decode(s@) == Some(v.deep_view()),
{
    let n = s.unicode_len();
    let p = match parse_lit(s, 0, "[") {
        Some(v) => v,
        None => {
            return None;
        },
    };
    match parse_lit(s, p, "]") {
        Some(p2) => {
            if p2 == n {
                let out: Vec<ProjectRecord> = Vec::new();
                proof {
                    assert(out.deep_view() =~= Seq::<RecordView>::empty());
                }
                Some(out)
            } else {
                None
            }
        },
        None => {
            let (vs, e) = match parse_records(s, p) {
                Some(v) => v,
                None => {
                    return None;
                },
            };
            proof {
                lemma_parse_records_sound(s@, p as int);
            }
            match parse_lit(s, e, "]") {
                Some(e2) => {
                    if e2 == n {
                        Some(vs)
                    } else {
                        None
                    }
                },
                None => None,
            }
        },
    }
}

/// Deserializes a cache file.  Succeeds exactly on the canonical
/// encodings, and then returns exactly what was encoded.
pub fn decode(s: &str) -> (r: Option<Vec<ProjectRecord>>)
    ensures
        r matches Some(v) ==> s@ == spec_encode(v.deep_view()),
        (exists|rv: Seq<RecordView>| s@ == spec_encode(rv)) ==> r is Some,
        r is None ==> forall|rv: Seq<RecordView>| s@ != spec_encode(rv),
        r is Some ==> forall|rv: Seq<RecordView>|
            s@ == spec_encode(rv) ==> (r->0).deep_view() == rv,
{
    let r = parse_file(s);
    proof {
        if spec_decode(s@) is Some {
            lemma_decode_sound(s@);
        }
        if exists|rv: Seq<RecordView>| s@ == spec_encode(rv) {
            let rv = choose|rv: Seq<RecordView>| s@ == spec_encode(rv);
            lemma_decode_complete(s@, rv);
        }
        if r is Some {
            assert forall|rv: Seq<RecordView>| s@ == spec_encode(rv) implies (r->0).deep_view()
                == rv by {
                lemma_encode_injective((r->0).deep_view(), rv);
            }
        }
    }
    r
}

} // verus!
