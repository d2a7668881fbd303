//! Path-walking rules and a model of discovery traversal.
//!
//! The walker prunes dependency and build directories (the skip
//! rule), reports a directory that contains the version-control
//! marker subdirectory as a project root, and does not descend below
//! a reported project (the stop rule).  [`classify_dir`] is the
//! per-directory decision the scanning tasks apply; [`discover_tree`]
//! runs the same rules over an in-memory directory tree and is the
//! model on which the traversal laws are proved.

use vstd::prelude::*;

verus! {

/// The last component names that are pruned outright: virtual-env,
/// dependency and bytecode-cache directories, and `.jj`-suffixed
/// store directories.
pub open spec fn is_skip_name(s: Seq<char>) -> bool {
    ||| s == ".venv"@
    ||| s == "venv"@
    ||| s == "node_modules"@
    ||| s == "__pycache__"@
    ||| has_jj_extension(s)
}

/// A nonempty stem followed by the `.jj` extension.
pub open spec fn has_jj_extension(s: Seq<char>) -> bool {
    s.len() >= 4 && s.subrange(s.len() - 3, s.len() as int) == ".jj"@
}

/// The name of the marker subdirectory whose presence makes a
/// directory a project root.
pub open spec fn is_marker_name(s: Seq<char>) -> bool {
    s == ".git"@
}

/// Character-for-character string comparison.
fn str_eq(a: &str, b: &str) -> (r: bool)
    ensures
        r == (a@ == b@),
{
    let n = a.unicode_len();
    if n != b.unicode_len() {
        return false;
    }
    let mut i: usize = 0;
    while i < n
        invariant
            i <= n,
            n == a@.len(),
            n == b@.len(),
            forall|k: int| 0 <= k < i ==> a@[k] == b@[k],
        decreases n - i,
    {
        if a.get_char(i) != b.get_char(i) {
            return false;
        }
        i = i + 1;
    }
    proof {
        assert(a@ =~= b@);
    }
    true
}

/// Whether a directory with this last component name is pruned.
pub fn is_skip_dir_name(name: &str) -> (r: bool)
    ensures
        r == is_skip_name(name@),
{
    if str_eq(name, ".venv") || str_eq(name, "venv") || str_eq(name, "node_modules") || str_eq(
        name,
        "__pycache__",
    ) {
        return true;
    }
    let n = name.unicode_len();
    if n >= 4 {
        let tail = name.substring_char(n - 3, n);
        str_eq(tail, ".jj")
    } else {
        false
    }
}

/// Whether this entry name is the project marker.
pub fn is_marker_dir_name(name: &str) -> (r: bool)
    ensures
        r == is_marker_name(name@),
{
    str_eq(name, ".git")
}

/// The marker subdirectory's name, for callers that probe the
/// filesystem for it.
pub fn marker_dir_name() -> (r: String)
    ensures
        is_marker_name(r@),
{
    ".git".to_owned()
}

/// What a scanning task does with one directory.
#[derive(Debug, Clone, Copy, PartialEq, Eq, Structural)]
pub enum WalkDecision {
    /// Recurse into the directory's entries.
    DescendInto,
    /// Prune the directory entirely.
    SkipSubtree,
    /// Report the directory as a project root and do not recurse
    /// below it.
    ReportProject,
}

/// The decision for one directory, given its last component name and
/// whether it contains the marker subdirectory.
pub open spec fn spec_classify(name: Seq<char>, has_marker: bool) -> WalkDecision {
    if is_skip_name(name) {
        WalkDecision::SkipSubtree
    } else if has_marker {
        WalkDecision::ReportProject
    } else {
        WalkDecision::DescendInto
    }
}

/// Classifies one directory: the skip rule prunes it, otherwise the
/// marker makes it a reported project and a leaf of the traversal,
/// otherwise the walk descends.
pub fn classify_dir(name: &str, has_marker: bool) -> (r: WalkDecision)
    ensures
        r == spec_classify(name@, has_marker),
{
    if is_skip_dir_name(name) {
        WalkDecision::SkipSubtree
    } else if has_marker {
        WalkDecision::ReportProject
    } else {
        WalkDecision::DescendInto
    }
}

/// An in-memory directory tree: the traversal model.  Only
/// directories appear; `has_marker` says whether the directory
/// contains the marker subdirectory.
#[derive(Debug)]
pub struct DirTree {
    pub name: String,
    pub has_marker: bool,
    pub subdirs: Vec<DirTree>,
}

/// The project paths that scanning `t` under `base` reports, in
/// traversal order; a path is its sequence of components.  Each
/// directory is treated exactly as [`spec_classify`] decides.
pub open spec fn spec_discovered(t: DirTree, base: Seq<Seq<char>>) -> Seq<Seq<Seq<char>>>
    decreases t, 0int,
{
    match spec_classify(t.name@, t.has_marker) {
        WalkDecision::SkipSubtree => Seq::<Seq<Seq<char>>>::empty(),
        WalkDecision::ReportProject => seq![base.push(t.name@)],
        WalkDecision::DescendInto => spec_discovered_from(t.subdirs@, 0, base.push(t.name@)),
    }
}

/// The reports of the subtrees `ts[i..]`, concatenated in order.
pub open spec fn spec_discovered_from(ts: Seq<DirTree>, i: int, base: Seq<Seq<char>>) -> Seq<
    Seq<Seq<char>>,
>
    decreases ts, ts.len() - i,
{
    if i < 0 || i >= ts.len() {
        Seq::<Seq<Seq<char>>>::empty()
    } else {
        spec_discovered(ts[i], base) + spec_discovered_from(ts, i + 1, base)
    }
}

/// Copies a component path.
fn clone_path(p: &Vec<String>) -> (r: Vec<String>)
    ensures
        r.deep_view() == p.deep_view(),
{
    let mut r: Vec<String> = Vec::new();
    let mut i: usize = 0;
    while i < p.len()
        invariant
            i <= p.len(),
            r@.len() == i,
            forall|k: int| 0 <= k < i ==> r@[k]@ == p@[k]@,
        decreases p.len() - i,
    {
        r.push(p[i].clone());
        i = i + 1;
    }
    proof {
        assert forall|k: int| 0 <= k < r@.len() implies r.deep_view()[k] == p.deep_view()[k] by {
            assert(r@[k]@ == p@[k]@);
        }
        assert(r.deep_view() =~= p.deep_view());
    }
    r
}

/// Walks the tree `t` under the path `base`, applying the skip and
/// stop rules, and appends every reported project path to `out`.
pub fn discover_tree(t: &DirTree, base: &Vec<String>, out: &mut Vec<Vec<String>>)
    ensures
        final(out).deep_view() == old(out).deep_view() + spec_discovered(*t, base.deep_view()),
    decreases *t,
{
    let ghost base0 = out.deep_view();
    let decision = classify_dir(t.name.as_str(), t.has_marker);
    if matches!(decision, WalkDecision::SkipSubtree) {
        proof {
            assert(base0 + spec_discovered(*t, base.deep_view()) =~= base0);
        }
        return ;
    }
    if matches!(decision, WalkDecision::ReportProject) {
        let mut p = clone_path(base);
        let ghost p0sq = p@;
        let ghost p0dv = p.deep_view();
        p.push(t.name.clone());
        let ghost pv = p.deep_view();
        proof {
            assert forall|k: int| 0 <= k < p@.len() implies p.deep_view()[k] == base.deep_view()
                .push(t.name@)[k] by {
                if k < p0sq.len() {
                    assert(p@[k] == p0sq[k]);
                    assert(p0dv[k] == p0sq[k].deep_view());
                }
            }
            assert(pv =~= base.deep_view().push(t.name@));
        }
        let ghost predv = out.deep_view();
        let ghost presq = out@;
        out.push(p);
        proof {
            assert forall|k: int| 0 <= k < out@.len() implies out.deep_view()[k] == predv.push(
                pv,
            )[k] by {
                if k < presq.len() {
                    assert(out@[k] == presq[k]);
                }
            }
            assert(out.deep_view() =~= predv.push(pv));
            assert(out.deep_view() =~= base0 + spec_discovered(*t, base.deep_view()));
        }
        return ;
    }
    let mut nb = clone_path(base);
    let ghost nb0sq = nb@;
    let ghost nb0dv = nb.deep_view();
    nb.push(t.name.clone());
    let ghost nbv = base.deep_view().push(t.name@);
    proof {
        assert forall|k: int| 0 <= k < nb@.len() implies nb.deep_view()[k] == nbv[k] by {
            if k < nb0sq.len() {
                assert(nb@[k] == nb0sq[k]);
                assert(nb0dv[k] == nb0sq[k].deep_view());
            }
        }
        assert(nb.deep_view() =~= nbv);
    }
    let mut i: usize = 0;
    while i < t.subdirs.len()
        invariant
            i <= t.subdirs.len(),
            nb.deep_view() == nbv,
            out.deep_view() + spec_discovered_from(t.subdirs@, i as int, nbv) == base0
                + spec_discovered_from(t.subdirs@, 0, nbv),
        decreases t.subdirs.len() - i,
    {
        discover_tree(&t.subdirs[i], &nb, out);
        proof {
            assert(out.deep_view() + spec_discovered_from(t.subdirs@, (i + 1) as int, nbv) =~= base0
                + spec_discovered_from(t.subdirs@, 0, nbv));
        }
        i = i + 1;
    }
    proof {
        assert(spec_discovered_from(t.subdirs@, t.subdirs@.len() as int, nbv)
            =~= Seq::<Seq<Seq<char>>>::empty());
        assert(out.deep_view() =~= base0 + spec_discovered(*t, base.deep_view()));
    }
}

/// A well-formed tree: at every level, sibling names are distinct.
pub open spec fn wf_tree(t: DirTree) -> bool
    decreases t, 0int,
{
    wf_forest(t.subdirs@, 0)
}

/// Well-formedness of the subtrees `ts[i..]`.
pub open spec fn wf_forest(ts: Seq<DirTree>, i: int) -> bool
    decreases ts, ts.len() - i,
{
    if i < 0 || i >= ts.len() {
        true
    } else {
        &&& wf_tree(ts[i])
        &&& (forall|l: int| i < l < ts.len() ==> ts[i].name@ != ts[l].name@)
        &&& wf_forest(ts, i + 1)
    }
}

/// No two paths of `s` are the same.
pub open spec fn all_distinct(s: Seq<Seq<Seq<char>>>) -> bool {
    forall|a: int, b: int| 0 <= a < b < s.len() ==> s[a] != s[b]
}

/// Every reported path extends `base` by at least one component, the
/// first of which is the scanned tree's own (never skip-named) name.
pub proof fn lemma_discovered_shape(t: DirTree, base: Seq<Seq<char>>)
    ensures
        forall|m: int|
            0 <= m < spec_discovered(t, base).len() ==> {
                let p = #[trigger] spec_discovered(t, base)[m];
                p.len() > base.len() && p.subrange(0, base.len() as int) == base && p[base.len() as int]
                    == t.name@ && !is_skip_name(t.name@)
            },
    decreases t, 0int,
{
    if is_skip_name(t.name@) {
    } else if t.has_marker {
        let p = base.push(t.name@);
        assert(p.subrange(0, base.len() as int) =~= base);
    } else {
        let nb = base.push(t.name@);
        lemma_from_shape(t.subdirs@, 0, nb);
        assert forall|m: int| 0 <= m < spec_discovered(t, base).len() implies {
            let p = #[trigger] spec_discovered(t, base)[m];
            p.len() > base.len() && p.subrange(0, base.len() as int) == base && p[base.len() as int]
                == t.name@ && !is_skip_name(t.name@)
        } by {
            let p = spec_discovered(t, base)[m];
            assert(p == spec_discovered_from(t.subdirs@, 0, nb)[m]);
            assert(p.len() > nb.len() && p.subrange(0, nb.len() as int) == nb);
            assert(p.subrange(0, base.len() as int) =~= base) by {
                assert forall|k: int| 0 <= k < base.len() implies p.subrange(
                    0,
                    base.len() as int,
                )[k] == base[k] by {
                    assert(p.subrange(0, nb.len() as int)[k] == p[k]);
                }
            }
            assert(p[base.len() as int] == p.subrange(0, nb.len() as int)[base.len() as int]);
        }
    }
}

/// The shape facts for the concatenated reports of `ts[i..]`: each
/// path extends `base` with the name of one of those subtrees.
pub proof fn lemma_from_shape(ts: Seq<DirTree>, i: int, base: Seq<Seq<char>>)
    ensures
        forall|m: int|
            0 <= m < spec_discovered_from(ts, i, base).len() ==> {
                let p = #[trigger] spec_discovered_from(ts, i, base)[m];
                p.len() > base.len() && p.subrange(0, base.len() as int) == base && exists|k: int|
                    i <= k < ts.len() && p[base.len() as int] == #[trigger] ts[k].name@
            },
    decreases ts, ts.len() - i,
{
    if i < 0 || i >= ts.len() {
    } else {
        lemma_discovered_shape(ts[i], base);
        lemma_from_shape(ts, i + 1, base);
        let h = spec_discovered(ts[i], base);
        let tl = spec_discovered_from(ts, i + 1, base);
        assert forall|m: int| 0 <= m < spec_discovered_from(ts, i, base).len() implies {
            let p = #[trigger] spec_discovered_from(ts, i, base)[m];
            p.len() > base.len() && p.subrange(0, base.len() as int) == base && exists|k: int|
                i <= k < ts.len() && p[base.len() as int] == #[trigger] ts[k].name@
        } by {
            let p = spec_discovered_from(ts, i, base)[m];
            if m < h.len() {
                assert(p == h[m]);
                assert(p[base.len() as int] == ts[i].name@);
            } else {
                assert(p == tl[m - h.len()]);
                let k = choose|k: int|
                    i + 1 <= k < ts.len() && tl[m - h.len()][base.len() as int] == ts[k].name@;
                assert(i <= k < ts.len() && p[base.len() as int] == ts[k].name@);
            }
        }
    }
}

/// Discovery reports every project at most once: under a tree whose
/// sibling names are distinct at every level, no path is reported
/// twice, however many nested markers the tree holds.
pub proof fn lemma_discovered_distinct(t: DirTree, base: Seq<Seq<char>>)
    requires
        wf_tree(t),
    ensures
        all_distinct(spec_discovered(t, base)),
    decreases t, 0int,
{
    if is_skip_name(t.name@) {
    } else if t.has_marker {
    } else {
        lemma_from_distinct(t.subdirs@, 0, base.push(t.name@));
    }
}

/// Distinctness for the concatenated reports of `ts[i..]`.
pub proof fn lemma_from_distinct(ts: Seq<DirTree>, i: int, base: Seq<Seq<char>>)
    requires
        wf_forest(ts, i),
    ensures
        all_distinct(spec_discovered_from(ts, i, base)),
    decreases ts, ts.len() - i,
{
    if i < 0 || i >= ts.len() {
    } else {
        lemma_discovered_distinct(ts[i], base);
        lemma_from_distinct(ts, i + 1, base);
        lemma_discovered_shape(ts[i], base);
        lemma_from_shape(ts, i + 1, base);
        let s = spec_discovered_from(ts, i, base);
        let h = spec_discovered(ts[i], base);
        let tl = spec_discovered_from(ts, i + 1, base);
        assert forall|a: int, b: int| 0 <= a < b < s.len() implies s[a] != s[b] by {
            if b < h.len() {
                assert(s[a] == h[a] && s[b] == h[b]);
            } else if a >= h.len() {
                assert(s[a] == tl[a - h.len()] && s[b] == tl[b - h.len()]);
            } else {
                assert(s[a] == h[a] && s[b] == tl[b - h.len()]);
                assert(h[a][base.len() as int] == ts[i].name@);
                let k = choose|k: int|
                    i + 1 <= k < ts.len() && tl[b - h.len()][base.len() as int] == ts[k].name@;
                assert(ts[i].name@ != ts[k].name@);
                if s[a] == s[b] {
                    assert(s[a][base.len() as int] == s[b][base.len() as int]);
                }
            }
        }
    }
}

/// `p` names a directory strictly above `q`.
pub open spec fn strictly_above(p: Seq<Seq<char>>, q: Seq<Seq<char>>) -> bool {
    p.len() < q.len() && q.subrange(0, p.len() as int) == p
}

/// The stop rule, globally: no reported project lies below another —
/// a marker nested beneath a reported project is never reported.
pub proof fn lemma_no_nested_reports(t: DirTree, base: Seq<Seq<char>>)
    requires
        wf_tree(t),
    ensures
        forall|a: int, b: int|
            0 <= a < spec_discovered(t, base).len() && 0 <= b < spec_discovered(t, base).len()
                ==> !strictly_above(
                #[trigger] spec_discovered(t, base)[a],
                #[trigger] spec_discovered(t, base)[b],
            ),
    decreases t, 0int,
{
    if is_skip_name(t.name@) {
    } else if t.has_marker {
    } else {
        lemma_no_nested_in_forest(t.subdirs@, 0, base.push(t.name@));
        assert forall|a: int, b: int|
            0 <= a < spec_discovered(t, base).len() && 0 <= b < spec_discovered(t, base).len()
                implies !strictly_above(
            #[trigger] spec_discovered(t, base)[a],
            #[trigger] spec_discovered(t, base)[b],
        ) by {
            let nb = base.push(t.name@);
            assert(spec_discovered(t, base)[a] == spec_discovered_from(t.subdirs@, 0, nb)[a]);
            assert(spec_discovered(t, base)[b] == spec_discovered_from(t.subdirs@, 0, nb)[b]);
        }
    }
}

/// Prefix-freedom for the concatenated reports of `ts[i..]`.
pub proof fn lemma_no_nested_in_forest(ts: Seq<DirTree>, i: int, base: Seq<Seq<char>>)
    requires
        wf_forest(ts, i),
    ensures
        forall|a: int, b: int|
            0 <= a < spec_discovered_from(ts, i, base).len() && 0 <= b < spec_discovered_from(
                ts,
                i,
                base,
            ).len() ==> !strictly_above(
                #[trigger] spec_discovered_from(ts, i, base)[a],
                #[trigger] spec_discovered_from(ts, i, base)[b],
            ),
    decreases ts, ts.len() - i,
{
    if i < 0 || i >= ts.len() {
    } else {
        lemma_no_nested_reports(ts[i], base);
        lemma_no_nested_in_forest(ts, i + 1, base);
        lemma_discovered_shape(ts[i], base);
        lemma_from_shape(ts, i + 1, base);
        let s = spec_discovered_from(ts, i, base);
        let h = spec_discovered(ts[i], base);
        let tl = spec_discovered_from(ts, i + 1, base);
        assert forall|a: int, b: int| 0 <= a < s.len() && 0 <= b < s.len() implies !strictly_above(
            #[trigger] s[a],
            #[trigger] s[b],
        ) by {
            if a < h.len() && b < h.len() {
                assert(s[a] == h[a] && s[b] == h[b]);
            } else if a >= h.len() && b >= h.len() {
                assert(s[a] == tl[a - h.len()] && s[b] == tl[b - h.len()]);
            } else {
                assert(s[a] == if a < h.len() {
                    h[a]
                } else {
                    tl[a - h.len()]
                });
                assert(s[b] == if b < h.len() {
                    h[b]
                } else {
                    tl[b - h.len()]
                });
                // One path carries `ts[i]`'s name at the branch
                // index, the other a different sibling's name, so
                // neither lies above the other.
                if strictly_above(s[a], s[b]) {
                    assert(s[b].subrange(0, s[a].len() as int)[base.len() as int]
                        == s[b][base.len() as int]);
                    assert(s[a][base.len() as int] == s[b][base.len() as int]);
                    if a < h.len() {
                        let kq = choose|k: int|
                            i + 1 <= k < ts.len() && tl[b - h.len()][base.len() as int]
                                == ts[k].name@;
                        assert(s[a][base.len() as int] == ts[i].name@);
                        assert(s[b][base.len() as int] == ts[kq].name@);
                        assert(ts[i].name@ != ts[kq].name@);
                    } else {
                        let kq = choose|k: int|
                            i + 1 <= k < ts.len() && tl[a - h.len()][base.len() as int]
                                == ts[k].name@;
                        assert(s[a][base.len() as int] == ts[kq].name@);
                        assert(s[b][base.len() as int] == ts[i].name@);
                        assert(ts[i].name@ != ts[kq].name@);
                    }
                }
            }
        }
    }
}

/// The skip rule: a skip-named directory contributes nothing, even
/// when it holds a marker somewhere below.
pub proof fn lemma_skip_rule(t: DirTree, base: Seq<Seq<char>>)
    requires
        is_skip_name(t.name@),
    ensures
        spec_discovered(t, base) == Seq::<Seq<Seq<char>>>::empty(),
{
}

/// The stop rule: a marker-bearing directory is reported as exactly
/// one project and nothing below it is scanned, whatever its
/// subtrees hold.
pub proof fn lemma_stop_rule(t: DirTree, base: Seq<Seq<char>>)
    requires
        !is_skip_name(t.name@),
        t.has_marker,
    ensures
        spec_discovered(t, base) == seq![base.push(t.name@)],
{
}

/// No reported path passes through a skip-named directory: every
/// component a discovery run appends below its root is unskipped.
pub proof fn lemma_no_skip_in_paths(t: DirTree, base: Seq<Seq<char>>)
    ensures
        forall|m: int, j: int|
            0 <= m < spec_discovered(t, base).len() && base.len() <= j < spec_discovered(
                t,
                base,
            )[m].len() ==> !is_skip_name(spec_discovered(t, base)[m][j]),
    decreases t, 0int,
{
    if is_skip_name(t.name@) {
    } else if t.has_marker {
        let p = base.push(t.name@);
        assert forall|m: int, j: int|
            0 <= m < spec_discovered(t, base).len() && base.len() <= j < spec_discovered(
                t,
                base,
            )[m].len() implies !is_skip_name(spec_discovered(t, base)[m][j]) by {
            assert(spec_discovered(t, base)[m] == p);
            assert(j == base.len());
        }
    } else {
        let nb = base.push(t.name@);
        lemma_no_skip_in_forest(t.subdirs@, 0, nb);
        lemma_from_shape(t.subdirs@, 0, nb);
        assert forall|m: int, j: int|
            0 <= m < spec_discovered(t, base).len() && base.len() <= j < spec_discovered(
                t,
                base,
            )[m].len() implies !is_skip_name(spec_discovered(t, base)[m][j]) by {
            let p = spec_discovered(t, base)[m];
            assert(p == spec_discovered_from(t.subdirs@, 0, nb)[m]);
            if j == base.len() {
                assert(p.subrange(0, nb.len() as int)[j] == p[j]);
                assert(p[j] == nb[j]);
            } else {
                assert(spec_discovered_from(t.subdirs@, 0, nb)[m][j] == p[j]);
            }
        }
    }
}

/// The skip fact for the concatenated reports of `ts[i..]`.
pub proof fn lemma_no_skip_in_forest(ts: Seq<DirTree>, i: int, base: Seq<Seq<char>>)
    ensures
        forall|m: int, j: int|
            0 <= m < spec_discovered_from(ts, i, base).len() && base.len() <= j
                < spec_discovered_from(ts, i, base)[m].len() ==> !is_skip_name(
                spec_discovered_from(ts, i, base)[m][j],
            ),
    decreases ts, ts.len() - i,
{
    if i < 0 || i >= ts.len() {
    } else {
        lemma_no_skip_in_paths(ts[i], base);
        lemma_no_skip_in_forest(ts, i + 1, base);
        let s = spec_discovered_from(ts, i, base);
        let h = spec_discovered(ts[i], base);
        let tl = spec_discovered_from(ts, i + 1, base);
        assert forall|m: int, j: int|
            0 <= m < s.len() && base.len() <= j < s[m].len() implies !is_skip_name(s[m][j]) by {
            if m < h.len() {
                assert(s[m] == h[m]);
            } else {
                assert(s[m] == tl[m - h.len()]);
            }
        }
    }
}

} // verus!
