//! The deduplicated project cache.
//!
//! A [`Cache`] owns a set of project records, unique by path.  It is
//! seeded from the persisted cache file at start, grows during a run
//! as discovery reports projects, and is serialized once on exit.
//! `add_to_cache` is the check-and-insert that decides whether a
//! freshly discovered project is forwarded to the selector.

use vstd::prelude::*;

use crate::codec;
use crate::record::ProjectRecord;
use crate::record::RecordView;

verus! {

/// The failure of reading a cache file that is present: its content
/// is not a canonical cache text.
#[derive(Debug, Clone, Copy, PartialEq, Eq, Structural)]
pub enum CacheError {
    Corrupt,
}

/// No two records of `s` share a path.
pub open spec fn unique_paths(s: Seq<RecordView>) -> bool {
    forall|i: int, j: int| 0 <= i < j < s.len() ==> s[i].path != s[j].path
}

/// Whether some record of `s` has path `p`.
pub open spec fn contains_path(s: Seq<RecordView>, p: Seq<char>) -> bool {
    exists|i: int| 0 <= i < s.len() && s[i].path == p
}

/// `s` with `rv` appended unless `rv`'s path is already present.
pub open spec fn insert_dedup(s: Seq<RecordView>, rv: RecordView) -> Seq<RecordView> {
    if contains_path(s, rv.path) {
        s
    } else {
        s.push(rv)
    }
}

/// `s` with every record whose path occurred earlier dropped.
pub open spec fn dedup_records(s: Seq<RecordView>) -> Seq<RecordView>
    decreases s.len(),
{
    if s.len() == 0 {
        Seq::<RecordView>::empty()
    } else {
        insert_dedup(dedup_records(s.drop_last()), s.last())
    }
}

/// On a sequence that is already unique by path, deduplication keeps
/// every record in place.
pub proof fn lemma_dedup_identity(s: Seq<RecordView>)
    requires
        unique_paths(s),
    ensures
        dedup_records(s) == s,
    decreases s.len(),
{
    if s.len() == 0 {
        assert(dedup_records(s) =~= s);
    } else {
        let front = s.drop_last();
        lemma_dedup_identity(front);
        assert(!contains_path(front, s.last().path)) by {
            if contains_path(front, s.last().path) {
                let i = choose|i: int| 0 <= i < front.len() && front[i].path == s.last().path;
                assert(s[i].path == s[s.len() - 1].path);
            }
        }
        assert(front.push(s.last()) =~= s);
    }
}

/// The set of previously discovered projects, unique by path.
#[derive(Debug)]
pub struct Cache {
    items: Vec<ProjectRecord>,
}

impl View for Cache {
    type V = Seq<RecordView>;

    closed spec fn view(&self) -> Seq<RecordView> {
        self.items.deep_view()
    }
}

impl Cache {
    /// Well-formed: paths are unique.
    pub open spec fn wf(&self) -> bool {
        unique_paths(self@)
    }

    /// An empty cache.
    pub fn new() -> (c: Cache)
        ensures
            c@ == Seq::<RecordView>::empty(),
            c.wf(),
    {
        let c = Cache { items: Vec::new() };
        proof {
            assert(c@ =~= Seq::<RecordView>::empty());
        }
        c
    }

    pub fn is_empty(&self) -> (r: bool)
        ensures
            r == (self@.len() == 0),
    {
        self.items.len() == 0
    }

    pub fn len(&self) -> (r: usize)
        ensures
            r == self@.len(),
    {
        self.items.len()
    }

    /// Whether a record with this path is already cached.
    pub fn contains(&self, path: &String) -> (r: bool)
        ensures
            r == contains_path(self@, path@),
    {
        let mut k: usize = 0;
        while k < self.items.len()
            invariant
                k <= self.items.len(),
                self@.len() == self.items.len(),
                forall|m: int| 0 <= m < k ==> self@[m].path != path@,
            decreases self.items.len() - k,
        {
            if self.items[k].path == *path {
                proof {
                    assert(self@[k as int].path == path@);
                }
                return true;
            }
            k = k + 1;
        }
        false
    }

    /// Atomic check-and-insert, keyed by path: inserts the record and
    /// returns `true` exactly when no record with its path was
    /// present; otherwise leaves the cache unchanged.
    pub fn add_to_cache(&mut self, rec: ProjectRecord) -> (inserted: bool)
        requires
            old(self).wf(),
        ensures
            final(self).wf(),
            inserted == !contains_path(old(self)@, rec@.path),
            inserted ==> final(self)@ == old(self)@.push(rec@),
            !inserted ==> final(self)@ == old(self)@,
    {
        if self.contains(&rec.path) {
            false
        } else {
            let ghost pre = self@;
            let ghost recv = rec@;
            self.items.push(rec);
            proof {
                assert(self@ =~= pre.push(recv));
                assert forall|i: int, j: int| 0 <= i < j < self@.len() implies self@[i].path
                    != self@[j].path by {
                    if j == self@.len() - 1 {
                        assert(self@[i] == pre[i]);
                        assert(!contains_path(pre, recv.path));
                    }
                }
            }
            true
        }
    }

    /// A snapshot copy of the current records, for seeding the
    /// selector before live discovery results arrive.
    pub fn initial_items(&self) -> (out: Vec<ProjectRecord>)
        ensures
            out.deep_view() == self@,
    {
        let mut out: Vec<ProjectRecord> = Vec::new();
        let mut k: usize = 0;
        while k < self.items.len()
            invariant
                k <= self.items.len(),
                self@.len() == self.items.len(),
                out@.len() == k,
                forall|i: int| 0 <= i < k ==> out@[i]@ == self@[i],
            decreases self.items.len() - k,
        {
            let item = self.items[k].clone();
            proof {
                assert(item@ == self@[k as int]);
            }
            out.push(item);
            k = k + 1;
        }
        proof {
            assert forall|i: int| 0 <= i < out@.len() implies out.deep_view()[i] == self@[i] by {
                assert(out@[i]@ == self@[i]);
            }
            assert(out.deep_view() =~= self@);
        }
        out
    }

    /// Serializes the full current set into the canonical cache
    /// text, for the single write-back at the end of a run.
    pub fn save(&self) -> (r: String)
        ensures
            r@ == codec::spec_encode(self@),
    {
        codec::encode_records(&self.items)
    }

    /// Builds the cache a run starts from.  `contents` is the cache
    /// file's text, or `None` when no file exists: a missing file
    /// yields an empty cache, a present but non-canonical file is
    /// rejected as [`CacheError::Corrupt`] rather than silently
    /// discarded.  With `clear` set, a well-formed load is emptied in
    /// memory, still subject to the final save.
    pub fn open(contents: Option<&String>, clear: bool) -> (r: Result<Cache, CacheError>)
        ensures
            r matches Ok(c) ==> c.wf(),
            contents is None ==> r is Ok,
            contents is None ==> (r matches Ok(c) ==> c@ == Seq::<RecordView>::empty()),
            contents matches Some(s) ==> ((r is Ok) <==> (exists|rv: Seq<RecordView>|
                s@ == codec::spec_encode(rv))),
            clear ==> (r matches Ok(c) ==> c@ == Seq::<RecordView>::empty()),
            !clear ==> (contents matches Some(s) ==> (r matches Ok(c) ==> (forall|
                rv: Seq<RecordView>,
            | s@ == codec::spec_encode(rv) ==> c@ == dedup_records(rv)))),
    {
        let mut c = Cache::new();
        match contents {
            None => Ok(c),
            Some(s) => {
                match codec::decode(s.as_str()) {
                    None => Err(CacheError::Corrupt),
                    Some(recs) => {
                        if clear {
                            return Ok(c);
                        }
                        let ghost dv = recs.deep_view();
                        proof {
                            assert(dv.len() == recs@.len());
                        }
                        let mut k: usize = 0;
                        while k < recs.len()
                            invariant
                                k <= recs.len(),
                                dv == recs.deep_view(),
                                dv.len() == recs@.len(),
                                c.wf(),
                                c@ == dedup_records(dv.take(k as int)),
                            decreases recs.len() - k,
                        {
                            let rec = recs[k].clone();
                            proof {
                                assert(rec@ == dv[k as int]);
                            }
                            c.add_to_cache(rec);
                            proof {
                                assert(dv.take((k + 1) as int).drop_last() =~= dv.take(k as int));
                                assert(dv.take((k + 1) as int).last() == dv[k as int]);
                            }
                            k = k + 1;
                        }
                        proof {
                            assert(dv.take(dv.len() as int) =~= dv);
                        }
                        Ok(c)
                    },
                }
            },
        }
    }

    /// Empties the cache in memory, keeping nothing.
    pub fn clear(&mut self)
        ensures
            final(self)@ == Seq::<RecordView>::empty(),
            final(self).wf(),
    {
        self.items = Vec::new();
        proof {
            assert(self@ =~= Seq::<RecordView>::empty());
        }
    }
}

/// Cache round trip: a saved well-formed cache decodes back to
/// exactly the records that were saved — same paths, same derived
/// names — and re-inserting them changes nothing.
pub proof fn lemma_cache_round_trip(v: Seq<RecordView>)
    requires
        unique_paths(v),
    ensures
        codec::spec_decode(codec::spec_encode(v)) == Some(v),
        dedup_records(v) == v,
{
    codec::lemma_decode_complete(codec::spec_encode(v), v);
    lemma_dedup_identity(v);
}

} // verus!
