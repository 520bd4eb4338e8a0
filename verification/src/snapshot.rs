//! Snapshots: the fingerprints of a tree's entries, keyed by path.
//!
//! A snapshot keeps its entries in a vector ordered by path, so that every
//! path occurs at most once and walking the vector visits the paths in order.

use vstd::prelude::*;
use crate::fingerprint::{Metadata, MetadataView};
use crate::path::{
    lemma_path_lt_irreflexive, lemma_path_lt_transitive, lemma_path_lt_trichotomy, path_lt, Order,
    RelPath,
};

verus! {

/// Each path comes before all that follow it.
pub open spec fn sorted(s: Seq<Seq<Seq<u8>>>) -> bool {
    forall|i: int, j: int| 0 <= i < j < s.len() ==> path_lt(#[trigger] s[i], #[trigger] s[j])
}

/// In an ordered sequence a path stands at one position only.
pub proof fn lemma_sorted_index(s: Seq<Seq<Seq<u8>>>, i: int)
    requires
        sorted(s),
        0 <= i < s.len(),
    ensures
        s.contains(s[i]),
        s.index_of(s[i]) == i,
{
    let j = s.index_of(s[i]);
    assert(0 <= j < s.len() && s[j] == s[i]);
    lemma_path_lt_irreflexive(s[i]);
    if j < i {
        assert(path_lt(s[j], s[i]));
    } else if i < j {
        assert(path_lt(s[i], s[j]));
    }
}

/// Two ordered sequences that hold the same paths are the same sequence.
pub proof fn lemma_sorted_unique(s: Seq<Seq<Seq<u8>>>, t: Seq<Seq<Seq<u8>>>)
    requires
        sorted(s),
        sorted(t),
        forall|p: Seq<Seq<u8>>| s.contains(p) <==> t.contains(p),
    ensures
        s == t,
    decreases s.len(),
{
    if s.len() == 0 {
        if t.len() > 0 {
            assert(t.contains(t[0]));
        }
        assert(s =~= t);
    } else {
        assert(s.contains(s[0]));
        assert(t.contains(s[0]));
        assert(t.len() > 0);
        assert(t.contains(t[0]));
        assert(s.contains(t[0]));
        let i = t.index_of(s[0]);
        let j = s.index_of(t[0]);
        lemma_path_lt_irreflexive(s[0]);
        lemma_path_lt_trichotomy(s[0], t[0]);
        if i > 0 {
            assert(path_lt(t[0], t[i]));
        }
        if j > 0 {
            assert(path_lt(s[0], s[j]));
        }
        assert(s[0] == t[0]);
        let s1 = s.drop_first();
        let t1 = t.drop_first();
        assert(sorted(s1)) by {
            assert forall|a: int, b: int| 0 <= a < b < s1.len() implies path_lt(
                #[trigger] s1[a],
                #[trigger] s1[b],
            ) by {
                assert(path_lt(s[a + 1], s[b + 1]));
            }
        }
        assert(sorted(t1)) by {
            assert forall|a: int, b: int| 0 <= a < b < t1.len() implies path_lt(
                #[trigger] t1[a],
                #[trigger] t1[b],
            ) by {
                assert(path_lt(t[a + 1], t[b + 1]));
            }
        }
        assert forall|p: Seq<Seq<u8>>| s1.contains(p) <==> t1.contains(p) by {
            if s1.contains(p) {
                let a = s1.index_of(p);
                assert(s[a + 1] == p);
                assert(path_lt(s[0], s[a + 1]));
                assert(s.contains(p));
                let b = t.index_of(p);
                assert(b != 0);
                assert(t1[b - 1] == p);
            }
            if t1.contains(p) {
                let a = t1.index_of(p);
                assert(t[a + 1] == p);
                assert(path_lt(t[0], t[a + 1]));
                assert(t.contains(p));
                let b = s.index_of(p);
                assert(b != 0);
                assert(s1[b - 1] == p);
            }
        }
        lemma_sorted_unique(s1, t1);
        assert(s =~= seq![s[0]] + s1);
        assert(t =~= seq![t[0]] + t1);
    }
}

/// One entry of a snapshot.
#[derive(Debug)]
pub struct SnapshotEntry {
    pub path: RelPath,
    pub meta: Metadata,
}

/// The fingerprints of a tree's entries, ordered by path.
#[derive(Debug)]
pub struct Snapshot {
    pub entries: Vec<SnapshotEntry>,
}

impl View for Snapshot {
    type V = Map<Seq<Seq<u8>>, MetadataView>;

    /// The snapshot as a map from path to fingerprint.
    open spec fn view(&self) -> Map<Seq<Seq<u8>>, MetadataView> {
        Map::new(
            |p: Seq<Seq<u8>>| self.paths().contains(p),
            |p: Seq<Seq<u8>>| self.entries@[self.paths().index_of(p)].meta@,
        )
    }
}

impl Snapshot {
    /// The paths of the entries, in the order in which they are stored.
    pub open spec fn paths(&self) -> Seq<Seq<Seq<u8>>> {
        Seq::new(self.entries@.len(), |i: int| self.entries@[i].path@)
    }

    /// The entries are ordered by path; so no path occurs twice.
    pub open spec fn wf(&self) -> bool {
        sorted(self.paths())
    }

    /// What the map holds for the entry at a position.
    pub proof fn lemma_entry(&self, i: int)
        requires
            self.wf(),
            0 <= i < self.entries@.len(),
        ensures
            self@.contains_key(self.entries@[i].path@),
            self@[self.entries@[i].path@] == self.entries@[i].meta@,
    {
        lemma_sorted_index(self.paths(), i);
    }

    /// The empty snapshot.
    pub fn new() -> (s: Snapshot)
        ensures
            s.wf(),
            s@ == Map::<Seq<Seq<u8>>, MetadataView>::empty(),
            s.paths() == Seq::<Seq<Seq<u8>>>::empty(),
    {
        let s = Snapshot { entries: Vec::new() };
        assert(s.paths() =~= Seq::<Seq<Seq<u8>>>::empty());
        assert(s@ =~= Map::<Seq<Seq<u8>>, MetadataView>::empty());
        s
    }

    /// The number of entries.
    pub fn len(&self) -> (n: usize)
        ensures
            n == self.paths().len(),
    {
        self.entries.len()
    }

    /// Where `path` stands, or would stand, among the entries, and whether
    /// it is there.
    pub fn search(&self, path: &RelPath) -> (r: (usize, bool))
        requires
            self.wf(),
        ensures
            r.0 <= self.paths().len(),
            forall|j: int| 0 <= j < r.0 ==> path_lt(#[trigger] self.paths()[j], path@),
            r.1 ==> r.0 < self.paths().len() && self.paths()[r.0 as int] == path@,
            !r.1 ==> forall|j: int|
                r.0 <= j < self.paths().len() ==> path_lt(path@, #[trigger] self.paths()[j]),
            r.1 == self@.contains_key(path@),
    {
        let ghost paths = self.paths();
        let mut lo: usize = 0;
        let mut hi: usize = self.entries.len();
        while lo < hi
            invariant
                paths == self.paths(),
                sorted(paths),
                lo <= hi <= paths.len(),
                forall|j: int| 0 <= j < lo ==> path_lt(#[trigger] paths[j], path@),
                forall|j: int| hi <= j < paths.len() ==> path_lt(path@, #[trigger] paths[j]),
            decreases hi - lo,
        {
            let mid: usize = lo + (hi - lo) / 2;
            match self.entries[mid].path.compare(path) {
                Order::Less => {
                    assert forall|j: int| 0 <= j < mid + 1 implies path_lt(
                        #[trigger] paths[j],
                        path@,
                    ) by {
                        if j < mid {
                            lemma_path_lt_transitive(paths[j], paths[mid as int], path@);
                        }
                    }
                    lo = mid + 1;
                },
                Order::Greater => {
                    assert forall|j: int| mid <= j < paths.len() implies path_lt(
                        path@,
                        #[trigger] paths[j],
                    ) by {
                        if mid < j {
                            lemma_path_lt_transitive(path@, paths[mid as int], paths[j]);
                        }
                    }
                    hi = mid;
                },
                Order::Equal => {
                    assert(paths[mid as int] == path@);
                    assert(paths.contains(path@));
                    return (mid, true);
                },
            }
        }
        proof {
            if paths.contains(path@) {
                let j = paths.index_of(path@);
                lemma_path_lt_irreflexive(path@);
                if j < lo {
                    assert(path_lt(paths[j], path@));
                } else {
                    assert(path_lt(path@, paths[j]));
                }
            }
        }
        (lo, false)
    }

    /// The fingerprint recorded for `path`, if there is one.
    pub fn get(&self, path: &RelPath) -> (r: Option<&Metadata>)
        requires
            self.wf(),
        ensures
            match r {
                Some(m) => self@.contains_key(path@) && m@ == self@[path@],
                None => !self@.contains_key(path@),
            },
    {
        let (i, found): (usize, bool) = self.search(path);
        if found {
            proof {
                self.lemma_entry(i as int);
            }
            Some(&self.entries[i].meta)
        } else {
            None
        }
    }

    /// Records `meta` for `path`, in place of what was recorded for it
    /// before, if anything.
    pub fn insert(&mut self, path: RelPath, meta: Metadata)
        requires
            old(self).wf(),
        ensures
            final(self).wf(),
            final(self)@ == old(self)@.insert(path@, meta@),
    {
        let (i, found): (usize, bool) = self.search(&path);
        let ghost before = old(self).paths();
        let ghost p = path@;
        let ghost m = meta@;
        if found {
            self.entries.set(i, SnapshotEntry { path, meta });
            proof {
                assert(self.paths() =~= before);
                assert forall|q: Seq<Seq<u8>>| #[trigger]
                    self@.contains_key(q) implies self@[q] == old(self)@.insert(p, m)[q] by {
                    let k = before.index_of(q);
                    lemma_sorted_index(before, k);
                    lemma_sorted_index(before, i as int);
                }
                assert(self@ =~= old(self)@.insert(p, m));
            }
        } else {
            self.entries.insert(i, SnapshotEntry { path, meta });
            proof {
                let after = self.paths();
                assert(after =~= before.insert(i as int, p));
                assert forall|a: int, b: int| 0 <= a < b < after.len() implies path_lt(
                    #[trigger] after[a],
                    #[trigger] after[b],
                ) by {
                    if b < i {
                        assert(path_lt(before[a], before[b]));
                    } else if b == i {
                        assert(path_lt(before[a], p));
                    } else if a < i {
                        assert(path_lt(before[a], p));
                        assert(path_lt(p, before[b - 1]));
                        lemma_path_lt_transitive(before[a], p, before[b - 1]);
                    } else if a == i {
                        assert(path_lt(p, before[b - 1]));
                    } else {
                        assert(path_lt(before[a - 1], before[b - 1]));
                    }
                }
                assert forall|q: Seq<Seq<u8>>|
                    self@.contains_key(q) <==> old(self)@.insert(p, m).contains_key(q) by {
                    if after.contains(q) {
                        let k = after.index_of(q);
                        if k < i {
                            assert(before[k] == q);
                        } else if k > i {
                            assert(before[k - 1] == q);
                        }
                    }
                    if before.contains(q) {
                        let k = before.index_of(q);
                        if k < i {
                            assert(after[k] == q);
                        } else {
                            assert(after[k + 1] == q);
                        }
                    }
                    if q == p {
                        assert(after[i as int] == q);
                    }
                }
                assert forall|q: Seq<Seq<u8>>| #[trigger]
                    self@.contains_key(q) implies self@[q] == old(self)@.insert(p, m)[q] by {
                    let k = after.index_of(q);
                    lemma_sorted_index(after, k);
                    if k < i {
                        lemma_sorted_index(before, k);
                    } else if k > i {
                        lemma_sorted_index(before, k - 1);
                    }
                }
                assert(self@ =~= old(self)@.insert(p, m));
            }
        }
    }
}

} // verus!
