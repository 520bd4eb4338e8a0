//! The diff of a current tree against its pristine baseline.
//!
//! Every path of the two trees is classified by the fingerprints recorded
//! for it: added, modified, removed, or unchanged.

use vstd::prelude::*;
use crate::fingerprint::{Metadata, MetadataView};
use crate::path::{lemma_path_lt_trichotomy, path_lt, RelPath};
use crate::snapshot::{sorted, Snapshot};
use crate::tree::{walk, DirTree, WalkError};

verus! {

/// The paths that differ between a pristine and a current tree, each list
/// ordered by path.
#[derive(Debug)]
pub struct Diff {
    /// Paths in the current tree only.
    pub added: Vec<RelPath>,
    /// Paths in both trees whose fingerprints differ.
    pub modified: Vec<RelPath>,
    /// Paths in the pristine tree only.
    pub removed: Vec<RelPath>,
}

/// A diff as plain values.
pub struct DiffView {
    pub added: Seq<Seq<Seq<u8>>>,
    pub modified: Seq<Seq<Seq<u8>>>,
    pub removed: Seq<Seq<Seq<u8>>>,
}

/// The paths of a list, as plain values.
pub open spec fn path_views(v: Seq<RelPath>) -> Seq<Seq<Seq<u8>>> {
    Seq::new(v.len(), |i: int| v[i]@)
}

impl View for Diff {
    type V = DiffView;

    open spec fn view(&self) -> DiffView {
        DiffView {
            added: path_views(self.added@),
            modified: path_views(self.modified@),
            removed: path_views(self.removed@),
        }
    }
}

/// One of the three trees that a diff is taken of.
#[derive(Clone, Copy, Debug, PartialEq, Eq, Structural)]
pub enum TreeRole {
    Pristine,
    Current,
    New,
}

/// Why no diff could be computed.
#[derive(Debug)]
pub enum DiffError {
    /// An entry of one of the trees could not be fingerprinted.
    Walk { tree: TreeRole, error: WalkError },
    /// A path is in both trees, with an fs-verity digest in one and without
    /// in the other.
    VerityMismatch { path: RelPath },
}

/// One of the two fingerprints has an fs-verity digest and the other has
/// none.
pub open spec fn inconsistent(old: MetadataView, new: MetadataView) -> bool {
    (old.verity is Some) != (new.verity is Some)
}

/// The fingerprints tell of a change. Where both carry an fs-verity digest
/// the digests alone decide; else the metadata hash and the content hash do.
pub open spec fn changed(old: MetadataView, new: MetadataView) -> bool {
    if old.verity is Some && new.verity is Some {
        old.verity != new.verity
    } else {
        old.metadata_hash != new.metadata_hash || old.content_hash != new.content_hash
    }
}

/// `p` is in the current snapshot only.
pub open spec fn is_added(
    pristine: Map<Seq<Seq<u8>>, MetadataView>,
    current: Map<Seq<Seq<u8>>, MetadataView>,
    p: Seq<Seq<u8>>,
) -> bool {
    current.contains_key(p) && !pristine.contains_key(p)
}

/// `p` is in both snapshots, with fingerprints that tell of a change.
pub open spec fn is_modified(
    pristine: Map<Seq<Seq<u8>>, MetadataView>,
    current: Map<Seq<Seq<u8>>, MetadataView>,
    p: Seq<Seq<u8>>,
) -> bool {
    current.contains_key(p) && pristine.contains_key(p) && changed(pristine[p], current[p])
}

/// `p` is in the pristine snapshot only.
pub open spec fn is_removed(
    pristine: Map<Seq<Seq<u8>>, MetadataView>,
    current: Map<Seq<Seq<u8>>, MetadataView>,
    p: Seq<Seq<u8>>,
) -> bool {
    pristine.contains_key(p) && !current.contains_key(p)
}

/// `p` is in both snapshots, with an fs-verity digest in exactly one.
pub open spec fn is_inconsistent(
    pristine: Map<Seq<Seq<u8>>, MetadataView>,
    current: Map<Seq<Seq<u8>>, MetadataView>,
    p: Seq<Seq<u8>>,
) -> bool {
    current.contains_key(p) && pristine.contains_key(p) && inconsistent(pristine[p], current[p])
}

/// Some path is in both snapshots with an fs-verity digest in exactly one.
pub open spec fn has_inconsistency(
    pristine: Map<Seq<Seq<u8>>, MetadataView>,
    current: Map<Seq<Seq<u8>>, MetadataView>,
) -> bool {
    exists|p: Seq<Seq<u8>>| is_inconsistent(pristine, current, p)
}

/// `p` is the first path, in the order of paths, that is in both snapshots
/// with an fs-verity digest in exactly one.
pub open spec fn is_first_inconsistency(
    pristine: Map<Seq<Seq<u8>>, MetadataView>,
    current: Map<Seq<Seq<u8>>, MetadataView>,
    p: Seq<Seq<u8>>,
) -> bool {
    &&& is_inconsistent(pristine, current, p)
    &&& forall|q: Seq<Seq<u8>>| is_inconsistent(pristine, current, q) ==> !path_lt(q, p)
}

/// `d` is the diff of `current` against `pristine`: each list is ordered by
/// path and holds exactly the paths of its class.
pub open spec fn is_diff_of(
    d: DiffView,
    pristine: Map<Seq<Seq<u8>>, MetadataView>,
    current: Map<Seq<Seq<u8>>, MetadataView>,
) -> bool {
    &&& sorted(d.added)
    &&& sorted(d.modified)
    &&& sorted(d.removed)
    &&& forall|p: Seq<Seq<u8>>| d.added.contains(p) <==> is_added(pristine, current, p)
    &&& forall|p: Seq<Seq<u8>>| d.modified.contains(p) <==> is_modified(pristine, current, p)
    &&& forall|p: Seq<Seq<u8>>| d.removed.contains(p) <==> is_removed(pristine, current, p)
}

/// `out` holds, in order, those of the first `i` paths of `paths` that
/// satisfy `pred`.
spec fn collected(
    out: Seq<Seq<Seq<u8>>>,
    paths: Seq<Seq<Seq<u8>>>,
    i: int,
    pred: spec_fn(Seq<Seq<u8>>) -> bool,
) -> bool {
    &&& sorted(out)
    &&& forall|p: Seq<Seq<u8>>|
        out.contains(p) <==> pred(p) && exists|j: int| 0 <= j < i && paths[j] == p
    &&& forall|k: int, j: int|
        0 <= k < out.len() && i <= j < paths.len() ==> path_lt(#[trigger] out[k], #[trigger] paths[j])
}

/// Nothing is collected from no paths.
proof fn lemma_collected_start(
    paths: Seq<Seq<Seq<u8>>>,
    pred: spec_fn(Seq<Seq<u8>>) -> bool,
)
    ensures
        collected(Seq::empty(), paths, 0, pred),
{
}

/// Going on by one path keeps what was collected, with that path added if
/// it satisfies `pred`.
proof fn lemma_collected_step(
    out: Seq<Seq<Seq<u8>>>,
    paths: Seq<Seq<Seq<u8>>>,
    i: int,
    pred: spec_fn(Seq<Seq<u8>>) -> bool,
)
    requires
        sorted(paths),
        0 <= i < paths.len(),
        collected(out, paths, i, pred),
    ensures
        pred(paths[i]) ==> collected(out.push(paths[i]), paths, i + 1, pred),
        !pred(paths[i]) ==> collected(out, paths, i + 1, pred),
{
    let x = paths[i];
    if pred(x) {
        let next = out.push(x);
        assert forall|a: int, b: int| 0 <= a < b < next.len() implies path_lt(
            #[trigger] next[a],
            #[trigger] next[b],
        ) by {
            if b < out.len() {
                assert(path_lt(out[a], out[b]));
            } else {
                assert(path_lt(out[a], paths[i]));
            }
        }
        assert forall|p: Seq<Seq<u8>>|
            next.contains(p) <==> pred(p) && exists|j: int| 0 <= j < i + 1 && paths[j] == p by {
            if next.contains(p) {
                let k = next.index_of(p);
                if k < out.len() {
                    assert(out[k] == p);
                    assert(out.contains(p));
                    let j = choose|j: int| 0 <= j < i && paths[j] == p;
                    assert(0 <= j < i + 1 && paths[j] == p);
                } else {
                    assert(paths[i] == p);
                }
            }
            if pred(p) && exists|j: int| 0 <= j < i + 1 && paths[j] == p {
                let j = choose|j: int| 0 <= j < i + 1 && paths[j] == p;
                if j < i {
                    assert(out.contains(p));
                    let k = out.index_of(p);
                    assert(next[k] == p);
                } else {
                    assert(next[out.len() as int] == p);
                }
            }
        }
        assert forall|k: int, j: int|
            0 <= k < next.len() && i + 1 <= j < paths.len() implies path_lt(
            #[trigger] next[k],
            #[trigger] paths[j],
        ) by {
            if k < out.len() {
                assert(path_lt(out[k], paths[j]));
            } else {
                assert(path_lt(paths[i], paths[j]));
            }
        }
    } else {
        assert forall|p: Seq<Seq<u8>>|
            out.contains(p) <==> pred(p) && exists|j: int| 0 <= j < i + 1 && paths[j] == p by {
            if out.contains(p) {
                let j = choose|j: int| 0 <= j < i && paths[j] == p;
                assert(0 <= j < i + 1 && paths[j] == p);
            }
            if pred(p) && exists|j: int| 0 <= j < i + 1 && paths[j] == p {
                let j = choose|j: int| 0 <= j < i + 1 && paths[j] == p;
                assert(j < i);
            }
        }
    }
}

/// Once all paths are passed, what was collected holds exactly the paths
/// among them that satisfy `pred`.
proof fn lemma_collected_all(
    out: Seq<Seq<Seq<u8>>>,
    paths: Seq<Seq<Seq<u8>>>,
    pred: spec_fn(Seq<Seq<u8>>) -> bool,
)
    requires
        collected(out, paths, paths.len() as int, pred),
    ensures
        sorted(out),
        forall|p: Seq<Seq<u8>>| out.contains(p) <==> pred(p) && paths.contains(p),
{
    assert forall|p: Seq<Seq<u8>>| out.contains(p) <==> pred(p) && paths.contains(p) by {
        if out.contains(p) {
            let j = choose|j: int| 0 <= j < paths.len() && paths[j] == p;
            assert(paths[j] == p);
        }
        if pred(p) && paths.contains(p) {
            let j = paths.index_of(p);
            assert(0 <= j < paths.len() && paths[j] == p);
        }
    }
}

/// Tells whether exactly one of two fingerprints has an fs-verity digest.
pub fn verity_inconsistent(old: &Metadata, new: &Metadata) -> (b: bool)
    ensures
        b == inconsistent(old@, new@),
{
    old.verity.is_some() != new.verity.is_some()
}

/// Tells whether two fingerprints of one path tell of a change.
pub fn fingerprint_changed(old: &Metadata, new: &Metadata) -> (b: bool)
    ensures
        b == changed(old@, new@),
{
    match (&old.verity, &new.verity) {
        (Some(v1), Some(v2)) => !(*v1 == *v2),
        _ => !(old.metadata_hash == new.metadata_hash) || !(old.content_hash
            == new.content_hash),
    }
}

/// The diff of the snapshot `current` against the snapshot `pristine`.
///
/// Fails if and only if some path is in both with an fs-verity digest in
/// exactly one, and then names the first such path.
pub fn diff_snapshots(pristine: &Snapshot, current: &Snapshot) -> (r: Result<Diff, DiffError>)
    requires
        pristine.wf(),
        current.wf(),
    ensures
        r is Err <==> has_inconsistency(pristine@, current@),
        r matches Ok(d) ==> is_diff_of(d@, pristine@, current@),
        r matches Err(e) ==> e matches DiffError::VerityMismatch { path }
            && is_first_inconsistency(pristine@, current@, path@),
{
    let ghost pm = pristine@;
    let ghost cm = current@;
    let ghost cpaths = current.paths();
    let ghost ppaths = pristine.paths();
    let ghost added_pred = |p: Seq<Seq<u8>>| is_added(pm, cm, p);
    let ghost modified_pred = |p: Seq<Seq<u8>>| is_modified(pm, cm, p);
    let ghost removed_pred = |p: Seq<Seq<u8>>| is_removed(pm, cm, p);
    let mut added: Vec<RelPath> = Vec::new();
    let mut modified: Vec<RelPath> = Vec::new();
    let mut i: usize = 0;
    proof {
        lemma_collected_start(cpaths, added_pred);
        lemma_collected_start(cpaths, modified_pred);
        assert(path_views(added@) =~= Seq::empty());
        assert(path_views(modified@) =~= Seq::empty());
    }
    while i < current.entries.len()
        invariant
            pristine.wf(),
            current.wf(),
            pm == pristine@,
            cm == current@,
            cpaths == current.paths(),
            added_pred == (|p: Seq<Seq<u8>>| is_added(pm, cm, p)),
            modified_pred == (|p: Seq<Seq<u8>>| is_modified(pm, cm, p)),
            i <= cpaths.len(),
            collected(path_views(added@), cpaths, i as int, added_pred),
            collected(path_views(modified@), cpaths, i as int, modified_pred),
            forall|j: int| 0 <= j < i ==> !is_inconsistent(pm, cm, #[trigger] cpaths[j]),
        decreases cpaths.len() - i,
    {
        let entry = &current.entries[i];
        let ghost p = entry.path@;
        proof {
            assert(cpaths[i as int] == p);
            current.lemma_entry(i as int);
            lemma_collected_step(path_views(added@), cpaths, i as int, added_pred);
            lemma_collected_step(path_views(modified@), cpaths, i as int, modified_pred);
        }
        match pristine.get(&entry.path) {
            None => {
                let copy = entry.path.duplicate();
                proof {
                    assert(path_views(added@.push(copy)) =~= path_views(added@).push(p));
                }
                added.push(copy);
            },
            Some(old_meta) => {
                if verity_inconsistent(old_meta, &entry.meta) {
                    let path = entry.path.duplicate();
                    proof {
                        assert(is_inconsistent(pm, cm, p));
                        assert forall|q: Seq<Seq<u8>>|
                            is_inconsistent(pm, cm, q) implies !path_lt(q, p) by {
                            let j = cpaths.index_of(q);
                            assert(cpaths[j] == q);
                            lemma_path_lt_trichotomy(q, p);
                            if j > i {
                                assert(path_lt(cpaths[i as int], cpaths[j]));
                            }
                        }
                    }
                    return Err(DiffError::VerityMismatch { path });
                }
                if fingerprint_changed(old_meta, &entry.meta) {
                    let copy = entry.path.duplicate();
                    proof {
                        assert(path_views(modified@.push(copy)) =~= path_views(modified@).push(
                            p,
                        ));
                    }
                    modified.push(copy);
                }
            },
        }
        i = i + 1;
    }
    let mut removed: Vec<RelPath> = Vec::new();
    let mut k: usize = 0;
    proof {
        lemma_collected_start(ppaths, removed_pred);
        assert(path_views(removed@) =~= Seq::empty());
    }
    while k < pristine.entries.len()
        invariant
            pristine.wf(),
            current.wf(),
            pm == pristine@,
            cm == current@,
            ppaths == pristine.paths(),
            removed_pred == (|p: Seq<Seq<u8>>| is_removed(pm, cm, p)),
            k <= ppaths.len(),
            collected(path_views(removed@), ppaths, k as int, removed_pred),
        decreases ppaths.len() - k,
    {
        let entry = &pristine.entries[k];
        let ghost p = entry.path@;
        proof {
            assert(ppaths[k as int] == p);
            pristine.lemma_entry(k as int);
            lemma_collected_step(path_views(removed@), ppaths, k as int, removed_pred);
        }
        if current.get(&entry.path).is_none() {
            let copy = entry.path.duplicate();
            proof {
                assert(path_views(removed@.push(copy)) =~= path_views(removed@).push(p));
            }
            removed.push(copy);
        }
        k = k + 1;
    }
    let d = Diff { added, modified, removed };
    proof {
        lemma_collected_all(d@.added, cpaths, added_pred);
        lemma_collected_all(d@.modified, cpaths, modified_pred);
        lemma_collected_all(d@.removed, ppaths, removed_pred);
        assert forall|p: Seq<Seq<u8>>| !is_inconsistent(pm, cm, p) by {
            if is_inconsistent(pm, cm, p) {
                let j = cpaths.index_of(p);
                assert(cpaths[j] == p);
            }
        }
    }
    Ok(d)
}

/// The tree that a role stands for.
pub open spec fn tree_of(
    role: TreeRole,
    pristine_etc: DirTree,
    current_etc: DirTree,
    new_etc: DirTree,
) -> DirTree {
    match role {
        TreeRole::Pristine => pristine_etc,
        TreeRole::Current => current_etc,
        TreeRole::New => new_etc,
    }
}

/// The diff of the tree `current_etc` against the tree `pristine_etc`.
///
/// All three trees are walked and fingerprinted; the snapshot of `new_etc`
/// takes no part in the classification. A diff, when one is returned, is the
/// diff of the two snapshots. The hash function may fail on any entry: the
/// error then names the tree and the entry. With every entry fingerprinted,
/// the diff fails exactly if some path has an fs-verity digest in one of the
/// two trees and none in the other.
pub fn compute_diff(pristine_etc: &DirTree, current_etc: &DirTree, new_etc: &DirTree) -> (r:
    Result<Diff, DiffError>)
    requires
        pristine_etc.wf(),
        current_etc.wf(),
        new_etc.wf(),
    ensures
        r matches Ok(d) ==> is_diff_of(d@, pristine_etc.snapshot(), current_etc.snapshot()),
        r is Ok ==> !has_inconsistency(pristine_etc.snapshot(), current_etc.snapshot()),
        r matches Err(DiffError::VerityMismatch { path }) ==> is_first_inconsistency(
            pristine_etc.snapshot(),
            current_etc.snapshot(),
            path@,
        ),
        r matches Err(DiffError::Walk { tree, error }) ==> tree_of(
            tree,
            *pristine_etc,
            *current_etc,
            *new_etc,
        ).fingerprint_at(error.path@) is Some,
{
    let pristine_etc_files = match walk(pristine_etc) {
        Ok(s) => s,
        Err(error) => {
            return Err(DiffError::Walk { tree: TreeRole::Pristine, error });
        },
    };
    let current_etc_files = match walk(current_etc) {
        Ok(s) => s,
        Err(error) => {
            return Err(DiffError::Walk { tree: TreeRole::Current, error });
        },
    };
    let _new_etc_files = match walk(new_etc) {
        Ok(s) => s,
        Err(error) => {
            return Err(DiffError::Walk { tree: TreeRole::New, error });
        },
    };
    diff_snapshots(&pristine_etc_files, &current_etc_files)
}

} // verus!
