//! The discovery pipeline: from reported project directories to the
//! deduplicated stream of new selector items.
//!
//! Every scanning task funnels its reports through
//! [`process_discovered`]: build the record for the path, insert it
//! into the shared cache, and forward it to the selector only when it
//! was new.  The lemmas below show that a run forwards each path at
//! most once, and that a second pass over an unchanged tree forwards
//! nothing.

use vstd::prelude::*;

use crate::cache::Cache;
use crate::cache::contains_path;
use crate::cache::insert_dedup;
use crate::record::ProjectRecord;
use crate::record::RecordView;
use crate::record::join_path;
use crate::record::make_record;
use crate::record::session_name_defined;
use crate::record::spec_join_path;
use crate::record::spec_session_name;
use crate::walker::DirTree;
use crate::walker::discover_tree;
use crate::walker::spec_discovered;

verus! {

/// The record built for a discovered path under a root with the
/// given prefix.
pub open spec fn rec_of(path: Seq<char>, prefix: Option<Seq<char>>) -> RecordView {
    RecordView { path, short_name: spec_session_name(path), prefix }
}

/// Whether processing `path` against cache contents `c` forwards an
/// item: a record could be built and its path was not cached yet.
pub open spec fn forwards(c: Seq<RecordView>, path: Seq<char>) -> bool {
    session_name_defined(path) && !contains_path(c, path)
}

/// The cache contents after one path is processed.
pub open spec fn step_cache(c: Seq<RecordView>, path: Seq<char>, prefix: Option<Seq<char>>) -> Seq<
    RecordView,
> {
    if session_name_defined(path) {
        insert_dedup(c, rec_of(path, prefix))
    } else {
        c
    }
}

/// The cache contents after a whole batch of paths is processed in
/// order.
pub open spec fn batch_cache(
    c: Seq<RecordView>,
    paths: Seq<Seq<char>>,
    prefix: Option<Seq<char>>,
) -> Seq<RecordView>
    decreases paths.len(),
{
    if paths.len() == 0 {
        c
    } else {
        batch_cache(step_cache(c, paths[0], prefix), paths.drop_first(), prefix)
    }
}

/// The records a whole batch forwards to the selector, in order.
pub open spec fn batch_forwarded(
    c: Seq<RecordView>,
    paths: Seq<Seq<char>>,
    prefix: Option<Seq<char>>,
) -> Seq<RecordView>
    decreases paths.len(),
{
    if paths.len() == 0 {
        Seq::<RecordView>::empty()
    } else {
        let rest = batch_forwarded(step_cache(c, paths[0], prefix), paths.drop_first(), prefix);
        if forwards(c, paths[0]) {
            seq![rec_of(paths[0], prefix)] + rest
        } else {
            rest
        }
    }
}

/// Processes one reported project directory: builds its record,
/// inserts it into the cache, and hands back the record exactly when
/// it was new and is therefore owed to the selector.  A path from
/// which no session name can be derived is dropped.
pub fn process_discovered(cache: &mut Cache, path: String, prefix: Option<String>) -> (r: Option<
    ProjectRecord,
>)
    requires
        old(cache).wf(),
    ensures
        final(cache).wf(),
        final(cache)@ == step_cache(old(cache)@, path@, prefix.deep_view()),
        r is Some <==> forwards(old(cache)@, path@),
        r matches Some(rec) ==> rec@ == rec_of(path@, prefix.deep_view()),
{
    match make_record(path, prefix) {
        None => None,
        Some(rec) => {
            let fwd = rec.clone();
            if cache.add_to_cache(rec) {
                Some(fwd)
            } else {
                None
            }
        },
    }
}

pub proof fn lemma_batch_cache_snoc(
    c: Seq<RecordView>,
    paths: Seq<Seq<char>>,
    p: Seq<char>,
    prefix: Option<Seq<char>>,
)
    ensures
        batch_cache(c, paths.push(p), prefix) == step_cache(
            batch_cache(c, paths, prefix),
            p,
            prefix,
        ),
        batch_forwarded(c, paths.push(p), prefix) == batch_forwarded(c, paths, prefix) + (
        if forwards(batch_cache(c, paths, prefix), p) {
            seq![rec_of(p, prefix)]
        } else {
            Seq::<RecordView>::empty()
        }),
    decreases paths.len(),
{
    if paths.len() == 0 {
        assert(paths.push(p)[0] == p);
        assert(paths.push(p).drop_first() =~= Seq::<Seq<char>>::empty());
        assert(batch_forwarded(step_cache(c, p, prefix), Seq::<Seq<char>>::empty(), prefix)
            == Seq::<RecordView>::empty());
        assert(batch_cache(step_cache(c, p, prefix), Seq::<Seq<char>>::empty(), prefix)
            == step_cache(c, p, prefix));
        assert(batch_forwarded(c, Seq::<Seq<char>>::empty(), prefix)
            == Seq::<RecordView>::empty());
        if forwards(c, p) {
            assert(batch_forwarded(c, paths.push(p), prefix) =~= batch_forwarded(c, paths, prefix)
                + seq![rec_of(p, prefix)]);
        } else {
            assert(batch_forwarded(c, paths.push(p), prefix) =~= batch_forwarded(c, paths, prefix)
                + Seq::<RecordView>::empty());
        }
    } else {
        assert(paths.push(p)[0] == paths[0]);
        assert(paths.push(p).drop_first() =~= paths.drop_first().push(p));
        lemma_batch_cache_snoc(step_cache(c, paths[0], prefix), paths.drop_first(), p, prefix);
        if forwards(c, paths[0]) {
            assert(batch_forwarded(c, paths.push(p), prefix) =~= batch_forwarded(c, paths, prefix)
                + (if forwards(batch_cache(c, paths, prefix), p) {
                seq![rec_of(p, prefix)]
            } else {
                Seq::<RecordView>::empty()
            }));
        } else {
            assert(batch_forwarded(c, paths.push(p), prefix) =~= batch_forwarded(c, paths, prefix)
                + (if forwards(batch_cache(c, paths, prefix), p) {
                seq![rec_of(p, prefix)]
            } else {
                Seq::<RecordView>::empty()
            }));
        }
    }
}

/// Processes a batch of reported project directories in order,
/// returning exactly the records owed to the selector.
pub fn process_batch(cache: &mut Cache, paths: &Vec<String>, prefix: Option<&String>) -> (out: Vec<
    ProjectRecord,
>)
    requires
        old(cache).wf(),
    ensures
        final(cache).wf(),
        final(cache)@ == batch_cache(old(cache)@, paths.deep_view(), prefix.deep_view()),
        out.deep_view() == batch_forwarded(old(cache)@, paths.deep_view(), prefix.deep_view()),
{
    let ghost c0 = cache@;
    let ghost dv = paths.deep_view();
    let ghost pv = prefix.deep_view();
    proof {
        assert(dv.len() == paths@.len());
    }
    let mut out: Vec<ProjectRecord> = Vec::new();
    let mut i: usize = 0;
    while i < paths.len()
        invariant
            i <= paths.len(),
            dv == paths.deep_view(),
            pv == prefix.deep_view(),
            dv.len() == paths@.len(),
            cache.wf(),
            cache@ == batch_cache(c0, dv.take(i as int), pv),
            out.deep_view() == batch_forwarded(c0, dv.take(i as int), pv),
        decreases paths.len() - i,
    {
        let path = paths[i].clone();
        let pfx: Option<String> = match prefix {
            Some(p) => Some(p.clone()),
            None => None,
        };
        proof {
            assert(path@ == dv[i as int]);
            assert(pfx.deep_view() == pv);
        }
        let ghost outdv = out.deep_view();
        let ghost outsq = out@;
        let r = process_discovered(cache, path, pfx);
        match r {
            Some(rec) => {
                out.push(rec);
                proof {
                    assert forall|k: int| 0 <= k < out@.len() implies out.deep_view()[k]
                        == outdv.push(rec@)[k] by {
                        if k < outsq.len() {
                            assert(out@[k] == outsq[k]);
                        }
                    }
                    assert(out.deep_view() =~= outdv.push(rec@));
                }
            },
            None => {},
        }
        proof {
            lemma_batch_cache_snoc(c0, dv.take(i as int), dv[i as int], pv);
            assert(dv.take((i + 1) as int) =~= dv.take(i as int).push(dv[i as int]));
            if forwards(batch_cache(c0, dv.take(i as int), pv), dv[i as int]) {
                assert(out.deep_view() =~= batch_forwarded(c0, dv.take((i + 1) as int), pv));
            } else {
                assert(out.deep_view() =~= batch_forwarded(c0, dv.take((i + 1) as int), pv));
            }
        }
        i = i + 1;
    }
    proof {
        assert(dv.take(dv.len() as int) =~= dv);
    }
    out
}

/// The path texts that scanning the tree model reports, in order.
pub open spec fn joined_reports(t: DirTree) -> Seq<Seq<char>> {
    spec_discovered(t, Seq::<Seq<char>>::empty()).map_values(
        |p: Seq<Seq<char>>| spec_join_path(p),
    )
}

/// One whole scanning task over the tree model: walks the tree,
/// renders every reported project as an absolute path, and funnels
/// each through the shared cache, returning exactly the records owed
/// to the selector.
pub fn discover_projects(t: &DirTree, cache: &mut Cache, prefix: Option<&String>) -> (out: Vec<
    ProjectRecord,
>)
    requires
        old(cache).wf(),
    ensures
        final(cache).wf(),
        final(cache)@ == batch_cache(old(cache)@, joined_reports(*t), prefix.deep_view()),
        out.deep_view() == batch_forwarded(old(cache)@, joined_reports(*t), prefix.deep_view()),
{
    let base: Vec<String> = Vec::new();
    proof {
        assert(base.deep_view() =~= Seq::<Seq<char>>::empty());
    }
    let mut found: Vec<Vec<String>> = Vec::new();
    proof {
        assert(found.deep_view() =~= Seq::<Seq<Seq<char>>>::empty());
    }
    discover_tree(t, &base, &mut found);
    let ghost fdv = found.deep_view();
    proof {
        assert(fdv =~= spec_discovered(*t, Seq::<Seq<char>>::empty()));
        assert(fdv.len() == found@.len());
    }
    let mut paths: Vec<String> = Vec::new();
    let mut i: usize = 0;
    while i < found.len()
        invariant
            i <= found.len(),
            fdv == found.deep_view(),
            fdv.len() == found@.len(),
            paths@.len() == i,
            forall|k: int| 0 <= k < i ==> (#[trigger] paths@[k])@ == spec_join_path(fdv[k]),
        decreases found.len() - i,
    {
        let p = join_path(&found[i]);
        proof {
            assert(found@[i as int].deep_view() == fdv[i as int]);
        }
        paths.push(p);
        i = i + 1;
    }
    proof {
        assert forall|k: int| 0 <= k < paths@.len() implies paths.deep_view()[k] == joined_reports(
            *t,
        )[k] by {
            assert(paths@[k]@ == spec_join_path(fdv[k]));
        }
        assert(paths.deep_view() =~= joined_reports(*t));
    }
    process_batch(cache, &paths, prefix)
}

/// Whatever a cache contains, it still contains after any insertion.
pub proof fn lemma_insert_keeps(c: Seq<RecordView>, rv: RecordView, q: Seq<char>)
    requires
        contains_path(c, q),
    ensures
        contains_path(insert_dedup(c, rv), q),
{
    let i = choose|i: int| 0 <= i < c.len() && c[i].path == q;
    if !contains_path(c, rv.path) {
        assert(c.push(rv)[i] == c[i]);
    }
}

/// A batch never removes a cached path.
pub proof fn lemma_batch_keeps(
    c: Seq<RecordView>,
    paths: Seq<Seq<char>>,
    prefix: Option<Seq<char>>,
    q: Seq<char>,
)
    requires
        contains_path(c, q),
    ensures
        contains_path(batch_cache(c, paths, prefix), q),
    decreases paths.len(),
{
    if paths.len() == 0 {
    } else {
        if session_name_defined(paths[0]) {
            lemma_insert_keeps(c, rec_of(paths[0], prefix), q);
        }
        lemma_batch_keeps(step_cache(c, paths[0], prefix), paths.drop_first(), prefix, q);
    }
}

/// After a batch, every usable path of the batch is cached.
pub proof fn lemma_batch_covers(c: Seq<RecordView>, paths: Seq<Seq<char>>, prefix: Option<Seq<char>>)
    ensures
        forall|k: int|
            0 <= k < paths.len() && session_name_defined(#[trigger] paths[k]) ==> contains_path(
                batch_cache(c, paths, prefix),
                paths[k],
            ),
    decreases paths.len(),
{
    if paths.len() == 0 {
    } else {
        let c1 = step_cache(c, paths[0], prefix);
        lemma_batch_covers(c1, paths.drop_first(), prefix);
        assert forall|k: int|
            0 <= k < paths.len() && session_name_defined(#[trigger] paths[k]) implies contains_path(
            batch_cache(c, paths, prefix),
            paths[k],
        ) by {
            if k == 0 {
                assert(contains_path(c1, paths[0])) by {
                    if !contains_path(c, paths[0]) {
                        let rv = rec_of(paths[0], prefix);
                        assert(c.push(rv)[c.len() as int] == rv);
                    } else {
                        lemma_insert_keeps(c, rec_of(paths[0], prefix), paths[0]);
                    }
                }
                lemma_batch_keeps(c1, paths.drop_first(), prefix, paths[0]);
            } else {
                assert(paths.drop_first()[k - 1] == paths[k]);
            }
        }
    }
}

/// A batch whose usable paths are all cached already forwards
/// nothing and changes nothing.
pub proof fn lemma_covered_batch_is_noop(
    c: Seq<RecordView>,
    paths: Seq<Seq<char>>,
    prefix: Option<Seq<char>>,
)
    requires
        forall|k: int|
            0 <= k < paths.len() && session_name_defined(#[trigger] paths[k]) ==> contains_path(
                c,
                paths[k],
            ),
    ensures
        batch_forwarded(c, paths, prefix) == Seq::<RecordView>::empty(),
        batch_cache(c, paths, prefix) == c,
    decreases paths.len(),
{
    if paths.len() == 0 {
        assert(batch_forwarded(c, paths, prefix) =~= Seq::<RecordView>::empty());
    } else {
        assert(!forwards(c, paths[0]));
        assert(step_cache(c, paths[0], prefix) == c);
        assert forall|k: int|
            0 <= k < paths.drop_first().len() && session_name_defined(
                #[trigger] paths.drop_first()[k],
            ) implies contains_path(c, paths.drop_first()[k]) by {
            assert(paths.drop_first()[k] == paths[k + 1]);
        }
        lemma_covered_batch_is_noop(c, paths.drop_first(), prefix);
    }
}

/// Idempotence of discovery: running the same batch a second time
/// against the cache the first run left behind forwards no item and
/// leaves the cache as it was.
pub proof fn lemma_second_pass_forwards_nothing(
    c: Seq<RecordView>,
    paths: Seq<Seq<char>>,
    prefix: Option<Seq<char>>,
)
    ensures
        ({
            let c1 = batch_cache(c, paths, prefix);
            batch_forwarded(c1, paths, prefix) == Seq::<RecordView>::empty() && batch_cache(
                c1,
                paths,
                prefix,
            ) == c1
        }),
{
    lemma_batch_covers(c, paths, prefix);
    lemma_covered_batch_is_noop(batch_cache(c, paths, prefix), paths, prefix);
}

/// The stream a batch sends to the selector never repeats a path,
/// and never resends one that the seed already delivered.
pub proof fn lemma_forwarded_unique(
    c: Seq<RecordView>,
    paths: Seq<Seq<char>>,
    prefix: Option<Seq<char>>,
)
    ensures
        forall|a: int, b: int|
            0 <= a < b < batch_forwarded(c, paths, prefix).len() ==> batch_forwarded(
                c,
                paths,
                prefix,
            )[a].path != batch_forwarded(c, paths, prefix)[b].path,
        forall|a: int|
            0 <= a < batch_forwarded(c, paths, prefix).len() ==> !contains_path(
                c,
                #[trigger] batch_forwarded(c, paths, prefix)[a].path,
            ),
    decreases paths.len(),
{
    if paths.len() == 0 {
    } else {
        let c1 = step_cache(c, paths[0], prefix);
        let rest = batch_forwarded(c1, paths.drop_first(), prefix);
        lemma_forwarded_unique(c1, paths.drop_first(), prefix);
        let s = batch_forwarded(c, paths, prefix);
        if forwards(c, paths[0]) {
            let rv = rec_of(paths[0], prefix);
            assert(contains_path(c1, paths[0])) by {
                assert(c.push(rv)[c.len() as int] == rv);
            }
            assert(s == seq![rv] + rest);
            assert forall|a: int, b: int| 0 <= a < b < s.len() implies s[a].path != s[b].path by {
                if a == 0 {
                    assert(s[b] == rest[b - 1]);
                    assert(!contains_path(c1, rest[b - 1].path));
                } else {
                    assert(s[a] == rest[a - 1] && s[b] == rest[b - 1]);
                }
            }
            assert forall|a: int| 0 <= a < s.len() implies !contains_path(c, s[a].path) by {
                if a > 0 {
                    assert(s[a] == rest[a - 1]);
                    assert(!contains_path(c1, rest[a - 1].path));
                    if contains_path(c, s[a].path) {
                        lemma_insert_keeps(c, rv, s[a].path);
                    }
                }
            }
        } else {
            assert(s == rest);
            assert forall|a: int| 0 <= a < s.len() implies !contains_path(c, s[a].path) by {
                assert(!contains_path(c1, rest[a].path));
                if contains_path(c, s[a].path) {
                    if session_name_defined(paths[0]) {
                        lemma_insert_keeps(c, rec_of(paths[0], prefix), s[a].path);
                    }
                }
            }
        }
    }
}

/// How many of a run of insertions for one path report `Inserted`.
pub open spec fn adds_inserted_count(c: Seq<RecordView>, recs: Seq<RecordView>) -> int
    decreases recs.len(),
{
    if recs.len() == 0 {
        0
    } else {
        (if contains_path(c, recs[0].path) {
            0int
        } else {
            1int
        }) + adds_inserted_count(insert_dedup(c, recs[0]), recs.drop_first())
    }
}

/// The dedup invariant: of any run of insertions for one path — the
/// serialization order of concurrent `add_to_cache` calls — exactly
/// one reports `Inserted` when the path was new, and none when it
/// was already cached.
pub proof fn lemma_add_exactly_once(c: Seq<RecordView>, recs: Seq<RecordView>, p: Seq<char>)
    requires
        recs.len() >= 1,
        forall|k: int| 0 <= k < recs.len() ==> (#[trigger] recs[k]).path == p,
    ensures
        adds_inserted_count(c, recs) == if contains_path(c, p) {
            0int
        } else {
            1int
        },
    decreases recs.len(),
{
    let c1 = insert_dedup(c, recs[0]);
    assert(contains_path(c1, p)) by {
        if !contains_path(c, p) {
            assert(c.push(recs[0])[c.len() as int] == recs[0]);
        } else {
            lemma_insert_keeps(c, recs[0], p);
        }
    }
    if recs.len() == 1 {
        assert(adds_inserted_count(c1, recs.drop_first()) == 0);
    } else {
        assert forall|k: int| 0 <= k < recs.drop_first().len() implies (#[trigger] recs.drop_first()[k]).path
            == p by {
            assert(recs.drop_first()[k] == recs[k + 1]);
        }
        lemma_add_exactly_once(c1, recs.drop_first(), p);
    }
}

} // verus!
