//! Project records and session-name derivation.
//!
//! A project is identified by its absolute path.  Its session name is
//! derived from the path alone: the last two nonempty `/`-separated
//! components, joined with `/`.  A configured root may add an optional
//! prefix, which is carried separately on the record.

use vstd::prelude::*;

verus! {

/// `s` with every trailing `/` removed.
pub open spec fn strip_trailing_seps(s: Seq<char>) -> Seq<char>
    decreases s.len(),
{
    if s.len() > 0 && s.last() == '/' {
        strip_trailing_seps(s.drop_last())
    } else {
        s
    }
}

/// The index just after the last `/` of `s`; 0 when `s` has none.
pub open spec fn after_last_sep(s: Seq<char>) -> int
    decreases s.len(),
{
    if s.len() == 0 {
        0
    } else if s.last() == '/' {
        s.len() as int
    } else {
        after_last_sep(s.drop_last())
    }
}

/// The last nonempty component of `s`; empty when `s` has no
/// nonempty component.
pub open spec fn last_component(s: Seq<char>) -> Seq<char> {
    let t = strip_trailing_seps(s);
    t.subrange(after_last_sep(t), t.len() as int)
}

/// Everything of `s` before its last nonempty component, trailing
/// separator included.
pub open spec fn parent_part(s: Seq<char>) -> Seq<char> {
    let t = strip_trailing_seps(s);
    t.subrange(0, after_last_sep(t))
}

/// A session name can be derived exactly when the path has at least
/// two nonempty components.
pub open spec fn session_name_defined(s: Seq<char>) -> bool {
    last_component(s).len() > 0 && last_component(parent_part(s)).len() > 0
}

/// The derived session name: the second-to-last nonempty component,
/// a `/`, and the last nonempty component.
pub open spec fn spec_session_name(s: Seq<char>) -> Seq<char> {
    last_component(parent_part(s)) + seq!['/'] + last_component(s)
}

/// Locates the last nonempty component of `path`'s first `end`
/// characters: returns its start and end as character indices.
fn scan_component(path: &str, end: usize) -> (res: (usize, usize))
    requires
        end <= path@.len(),
    ensures
        res.0 <= res.1 <= end,
        strip_trailing_seps(path@.take(end as int)) == path@.take(res.1 as int),
        after_last_sep(path@.take(res.1 as int)) == res.0 as int,
        last_component(path@.take(end as int)) == path@.subrange(res.0 as int, res.1 as int),
        parent_part(path@.take(end as int)) == path@.take(res.0 as int),
{
    let ghost s_end = path@.take(end as int);
    let mut j: usize = end;
    while j > 0 && path.get_char(j - 1) == '/'
        invariant
            j <= end <= path@.len(),
            strip_trailing_seps(s_end) == strip_trailing_seps(path@.take(j as int)),
        decreases j,
    {
        proof {
            assert(path@.take(j as int).last() == path@[j - 1]);
            assert(path@.take(j as int).drop_last() =~= path@.take(j - 1));
        }
        j = j - 1;
    }
    proof {
        assert(strip_trailing_seps(path@.take(j as int)) == path@.take(j as int)) by {
            if j > 0 {
                assert(path@.take(j as int).last() == path@[j - 1]);
            }
        }
    }
    let mut i: usize = j;
    while i > 0 && path.get_char(i - 1) != '/'
        invariant
            i <= j <= path@.len(),
            strip_trailing_seps(s_end) == path@.take(j as int),
            after_last_sep(path@.take(j as int)) == after_last_sep(path@.take(i as int)),
        decreases i,
    {
        proof {
            assert(path@.take(i as int).last() == path@[i - 1]);
            assert(path@.take(i as int).drop_last() =~= path@.take(i - 1));
        }
        i = i - 1;
    }
    proof {
        if i > 0 {
            assert(path@.take(i as int).last() == path@[i - 1]);
        }
        assert(after_last_sep(path@.take(i as int)) == i as int);
        let t = path@.take(j as int);
        assert(t.subrange(i as int, t.len() as int) =~= path@.subrange(i as int, j as int));
        assert(t.subrange(0, i as int) =~= path@.take(i as int));
    }
    (i, j)
}

/// Derives the session name for `path`: the last two nonempty
/// `/`-separated components joined with `/`.  Returns `None` when the
/// path has fewer than two nonempty components.
pub fn compute_session_name(path: &str) -> (r: Option<String>)
    ensures
        r is Some <==> session_name_defined(path@),
        r matches Some(name) ==> name@ == spec_session_name(path@),
{
    let n = path.unicode_len();
    proof {
        assert(path@.take(n as int) =~= path@);
    }
    let (i1, j1) = scan_component(path, n);
    let (i2, j2) = scan_component(path, i1);
    if j1 > i1 && j2 > i2 {
        let file = path.substring_char(i1, j1);
        let parent = path.substring_char(i2, j2);
        let mut name = parent.to_owned();
        name.append("/");
        name.append(file);
        proof {
            reveal_strlit("/");
            assert("/"@ =~= seq!['/']);
            assert(name@ =~= spec_session_name(path@));
        }
        Some(name)
    } else {
        None
    }
}

/// The absolute path text for a component sequence: each component
/// preceded by one `/`.
pub open spec fn spec_join_path(cs: Seq<Seq<char>>) -> Seq<char>
    decreases cs.len(),
{
    if cs.len() == 0 {
        Seq::<char>::empty()
    } else {
        spec_join_path(cs.drop_last()) + seq!['/'] + cs.last()
    }
}

/// Renders a component sequence as an absolute path.
pub fn join_path(components: &Vec<String>) -> (r: String)
    ensures
        r@ == spec_join_path(components.deep_view()),
{
    let ghost dv = components.deep_view();
    proof {
        assert(dv.len() == components@.len());
    }
    let mut out = String::new();
    let mut i: usize = 0;
    while i < components.len()
        invariant
            i <= components.len(),
            dv == components.deep_view(),
            dv.len() == components@.len(),
            out@ == spec_join_path(dv.take(i as int)),
        decreases components.len() - i,
    {
        out.append("/");
        out.append(components[i].as_str());
        proof {
            reveal_strlit("/");
            assert("/"@ =~= seq!['/']);
            assert(dv.take((i + 1) as int).drop_last() =~= dv.take(i as int));
            assert(dv.take((i + 1) as int).last() == dv[i as int]);
            assert(components@[i as int]@ == dv[i as int]);
            assert(out@ =~= spec_join_path(dv.take((i + 1) as int)));
        }
        i = i + 1;
    }
    proof {
        assert(dv.take(dv.len() as int) =~= dv);
    }
    out
}

/// The mathematical value of a [`ProjectRecord`].
pub ghost struct RecordView {
    pub path: Seq<char>,
    pub short_name: Seq<char>,
    pub prefix: Option<Seq<char>>,
}

/// One discovered project: its canonical absolute path, the session
/// name derived from that path, and the optional session-name prefix
/// of the root it was found under.  Identity is the path alone.
#[derive(Debug, PartialEq, Eq)]
pub struct ProjectRecord {
    pub path: String,
    pub short_name: String,
    pub prefix: Option<String>,
}

impl View for ProjectRecord {
    type V = RecordView;

    open spec fn view(&self) -> RecordView {
        RecordView {
            path: self.path@,
            short_name: self.short_name@,
            prefix: self.prefix.deep_view(),
        }
    }
}

impl DeepView for ProjectRecord {
    type V = RecordView;

    open spec fn deep_view(&self) -> RecordView {
        self.view()
    }
}

impl Clone for ProjectRecord {
    fn clone(&self) -> (r: Self)
        ensures
            r@ == self@,
    {
        ProjectRecord {
            path: self.path.clone(),
            short_name: self.short_name.clone(),
            prefix: match &self.prefix {
                Some(p) => Some(p.clone()),
                None => None,
            },
        }
    }
}

impl ProjectRecord {
    /// The name under which a multiplexer session for this project is
    /// keyed: the optional prefix followed by the derived short name.
    pub open spec fn spec_full_session_name(&self) -> Seq<char> {
        match self@.prefix {
            Some(p) => p + self@.short_name,
            None => self@.short_name,
        }
    }

    /// Builds the session key for this record.
    pub fn full_session_name(&self) -> (r: String)
        ensures
            r@ == self.spec_full_session_name(),
    {
        match &self.prefix {
            Some(p) => {
                let mut out = p.clone();
                out.append(self.short_name.as_str());
                out
            },
            None => self.short_name.clone(),
        }
    }
}

/// A configured search root: a path to scan, and an optional prefix
/// applied to the session names of projects found under it.  Owned
/// by configuration; read-only during a run.
#[derive(Debug)]
pub struct RootSpec {
    pub root: String,
    pub prefix: Option<String>,
}

impl RootSpec {
    /// Builds the record for a project directory found under this
    /// root, carrying the root's session-name prefix.
    pub fn make_record_under(&self, path: String) -> (r: Option<ProjectRecord>)
        ensures
            r is Some <==> session_name_defined(path@),
            r matches Some(rec) ==> rec@ == (RecordView {
                path: path@,
                short_name: spec_session_name(path@),
                prefix: self.prefix.deep_view(),
            }),
    {
        let prefix = match &self.prefix {
            Some(p) => Some(p.clone()),
            None => None,
        };
        make_record(path, prefix)
    }
}

/// Builds the record for a discovered project directory.  Returns
/// `None` exactly when no session name can be derived from the path.
pub fn make_record(path: String, prefix: Option<String>) -> (r: Option<ProjectRecord>)
    ensures
        r is Some <==> session_name_defined(path@),
        r matches Some(rec) ==> rec@ == (RecordView {
            path: path@,
            short_name: spec_session_name(path@),
            prefix: prefix.deep_view(),
        }),
{
    match compute_session_name(path.as_str()) {
        Some(short_name) => Some(ProjectRecord { path, short_name, prefix }),
        None => None,
    }
}

} // verus!
