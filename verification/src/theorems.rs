//! What holds of every diff.

use vstd::prelude::*;
use crate::diff::{
    changed, has_inconsistency, is_added, is_diff_of, is_inconsistent, is_modified, is_removed,
    DiffView,
};
use crate::digest::{hex_encode, lemma_hex_encode_injective, sha256};
use crate::fingerprint::{lemma_metadata_preimage_injective, metadata_preimage, MetadataView};
use crate::path::{lemma_path_lt_irreflexive, path_lt};
use crate::snapshot::{lemma_sorted_unique, sorted};
use crate::tree::{lemma_resolve_through, DirTree, FileData, Node};

verus! {

/// A list ordered by path holds no path twice.
pub proof fn lemma_sorted_no_duplicates(s: Seq<Seq<Seq<u8>>>)
    requires
        sorted(s),
    ensures
        s.no_duplicates(),
{
    assert forall|i: int, j: int| 0 <= i < s.len() && 0 <= j < s.len() && i != j implies s[i]
        != s[j] by {
        lemma_path_lt_irreflexive(s[i]);
        if i < j {
            assert(path_lt(s[i], s[j]));
        } else {
            assert(path_lt(s[j], s[i]));
        }
    }
}

/// A snapshot has no inconsistency with itself, and its diff against itself
/// is empty.
pub proof fn lemma_diff_of_same(s: Map<Seq<Seq<u8>>, MetadataView>, d: DiffView)
    requires
        is_diff_of(d, s, s),
    ensures
        !has_inconsistency(s, s),
        d.added.len() == 0,
        d.modified.len() == 0,
        d.removed.len() == 0,
{
    if d.added.len() > 0 {
        assert(d.added.contains(d.added[0]));
    }
    if d.modified.len() > 0 {
        assert(d.modified.contains(d.modified[0]));
    }
    if d.removed.len() > 0 {
        assert(d.removed.contains(d.removed[0]));
    }
}

/// A tree has no inconsistency with itself, and its diff against itself is
/// empty.
pub proof fn lemma_diff_of_same_tree(t: DirTree, d: DiffView)
    requires
        is_diff_of(d, t.snapshot(), t.snapshot()),
    ensures
        !has_inconsistency(t.snapshot(), t.snapshot()),
        d.added.len() == 0,
        d.modified.len() == 0,
        d.removed.len() == 0,
{
    lemma_diff_of_same(t.snapshot(), d);
}

/// Two snapshots have one diff only: any two diffs of them are equal in
/// every list.
pub proof fn lemma_diff_unique(
    d1: DiffView,
    d2: DiffView,
    pristine: Map<Seq<Seq<u8>>, MetadataView>,
    current: Map<Seq<Seq<u8>>, MetadataView>,
)
    requires
        is_diff_of(d1, pristine, current),
        is_diff_of(d2, pristine, current),
    ensures
        d1 == d2,
{
    lemma_sorted_unique(d1.added, d2.added);
    lemma_sorted_unique(d1.modified, d2.modified);
    lemma_sorted_unique(d1.removed, d2.removed);
}

/// No path is in two lists of a diff, and no list holds a path twice.
pub proof fn lemma_lists_disjoint(
    d: DiffView,
    pristine: Map<Seq<Seq<u8>>, MetadataView>,
    current: Map<Seq<Seq<u8>>, MetadataView>,
    p: Seq<Seq<u8>>,
)
    requires
        is_diff_of(d, pristine, current),
    ensures
        !(d.added.contains(p) && d.modified.contains(p)),
        !(d.added.contains(p) && d.removed.contains(p)),
        !(d.modified.contains(p) && d.removed.contains(p)),
        d.added.no_duplicates(),
        d.modified.no_duplicates(),
        d.removed.no_duplicates(),
{
    lemma_sorted_no_duplicates(d.added);
    lemma_sorted_no_duplicates(d.modified);
    lemma_sorted_no_duplicates(d.removed);
}

/// A path in the current snapshot only is listed as added and nowhere else.
pub proof fn lemma_added_only(
    d: DiffView,
    pristine: Map<Seq<Seq<u8>>, MetadataView>,
    current: Map<Seq<Seq<u8>>, MetadataView>,
    p: Seq<Seq<u8>>,
)
    requires
        is_diff_of(d, pristine, current),
        current.contains_key(p),
        !pristine.contains_key(p),
    ensures
        d.added.contains(p),
        !d.modified.contains(p),
        !d.removed.contains(p),
{
    assert(is_added(pristine, current, p));
}

/// A path in the pristine snapshot only is listed as removed and nowhere
/// else.
pub proof fn lemma_removed_only(
    d: DiffView,
    pristine: Map<Seq<Seq<u8>>, MetadataView>,
    current: Map<Seq<Seq<u8>>, MetadataView>,
    p: Seq<Seq<u8>>,
)
    requires
        is_diff_of(d, pristine, current),
        pristine.contains_key(p),
        !current.contains_key(p),
    ensures
        d.removed.contains(p),
        !d.added.contains(p),
        !d.modified.contains(p),
{
    assert(is_removed(pristine, current, p));
}

/// A path in both snapshots, without an fs-verity digest in either, whose
/// content hashes differ is listed as modified and nowhere else.
pub proof fn lemma_content_change_modified(
    d: DiffView,
    pristine: Map<Seq<Seq<u8>>, MetadataView>,
    current: Map<Seq<Seq<u8>>, MetadataView>,
    p: Seq<Seq<u8>>,
)
    requires
        is_diff_of(d, pristine, current),
        pristine.contains_key(p),
        current.contains_key(p),
        pristine[p].verity is None,
        current[p].verity is None,
        pristine[p].content_hash != current[p].content_hash,
    ensures
        d.modified.contains(p),
        !d.added.contains(p),
        !d.removed.contains(p),
{
    assert(is_modified(pristine, current, p));
}

/// A path in both snapshots, without an fs-verity digest in either, whose
/// metadata hashes differ is listed as modified and nowhere else.
pub proof fn lemma_metadata_change_modified(
    d: DiffView,
    pristine: Map<Seq<Seq<u8>>, MetadataView>,
    current: Map<Seq<Seq<u8>>, MetadataView>,
    p: Seq<Seq<u8>>,
)
    requires
        is_diff_of(d, pristine, current),
        pristine.contains_key(p),
        current.contains_key(p),
        pristine[p].verity is None,
        current[p].verity is None,
        pristine[p].metadata_hash != current[p].metadata_hash,
    ensures
        d.modified.contains(p),
        !d.added.contains(p),
        !d.removed.contains(p),
{
    assert(is_modified(pristine, current, p));
}

/// A path in both snapshots with different fs-verity digests is listed as
/// modified; with equal digests it is in no list, whatever the other hashes
/// are.
pub proof fn lemma_verity_decides(
    d: DiffView,
    pristine: Map<Seq<Seq<u8>>, MetadataView>,
    current: Map<Seq<Seq<u8>>, MetadataView>,
    p: Seq<Seq<u8>>,
)
    requires
        is_diff_of(d, pristine, current),
        pristine.contains_key(p),
        current.contains_key(p),
        pristine[p].verity is Some,
        current[p].verity is Some,
    ensures
        d.modified.contains(p) <==> pristine[p].verity != current[p].verity,
        !d.added.contains(p),
        !d.removed.contains(p),
{
    assert(is_modified(pristine, current, p) <==> pristine[p].verity != current[p].verity);
}

/// A path with an fs-verity digest in exactly one of the two snapshots
/// leaves them without a diff.
pub proof fn lemma_one_sided_verity_inconsistent(
    pristine: Map<Seq<Seq<u8>>, MetadataView>,
    current: Map<Seq<Seq<u8>>, MetadataView>,
    p: Seq<Seq<u8>>,
)
    requires
        pristine.contains_key(p),
        current.contains_key(p),
        (pristine[p].verity is Some) != (current[p].verity is Some),
    ensures
        has_inconsistency(pristine, current),
{
    assert(is_inconsistent(pristine, current, p));
}

/// What a tree's snapshot holds for a path is the fingerprint of the entry
/// that the path leads to.
pub proof fn lemma_snapshot_entry(t: DirTree, p: Seq<Seq<u8>>)
    ensures
        t.snapshot().contains_key(p) <==> t.fingerprint_at(p) is Some,
        t.snapshot().contains_key(p) ==> t.snapshot()[p] == t.fingerprint_at(p)->0,
{
    assert(p.skip(0) =~= p);
}

/// The bytes that identify the content of an entry without an fs-verity
/// digest: a file's bytes or a symlink's target.
pub open spec fn content_bytes(node: Node) -> Seq<u8> {
    match node {
        Node::File { data: FileData::Bytes(bytes), .. } => bytes@,
        Node::Symlink { target, .. } => target@,
        _ => Seq::empty(),
    }
}

/// The entry is a regular file without an fs-verity digest, or a symlink.
pub open spec fn is_hashed_content(node: Node) -> bool {
    match node {
        Node::File { data: FileData::Bytes(_), .. } => true,
        Node::Symlink { .. } => true,
        _ => false,
    }
}

/// The fingerprints of two entries whose content is hashed tell of a
/// change exactly if the digests of the contents differ or those of the
/// metadata bytes do.
pub proof fn lemma_changed_by_digests(a: Node, b: Node)
    requires
        is_hashed_content(a),
        is_hashed_content(b),
    ensures
        a.fingerprint() is Some,
        b.fingerprint() is Some,
        changed(a.fingerprint()->0, b.fingerprint()->0) <==> sha256(content_bytes(a)) != sha256(
            content_bytes(b),
        ) || sha256(metadata_preimage(a.meta())) != sha256(metadata_preimage(b.meta())),
{
    let fa = a.fingerprint()->0;
    let fb = b.fingerprint()->0;
    assert(fa.content_hash == hex_encode(sha256(content_bytes(a))));
    assert(fb.content_hash == hex_encode(sha256(content_bytes(b))));
    if fa.content_hash == fb.content_hash {
        lemma_hex_encode_injective(sha256(content_bytes(a)), sha256(content_bytes(b)));
    }
    if fa.metadata_hash == fb.metadata_hash {
        lemma_hex_encode_injective(
            sha256(metadata_preimage(a.meta())),
            sha256(metadata_preimage(b.meta())),
        );
    }
}

/// Two entries that differ in type or permission bits, or, unless they are
/// directories, in size, have different metadata bytes to hash.
pub proof fn lemma_metadata_bytes_differ(a: Node, b: Node)
    requires
        a.meta().kind != b.meta().kind || a.meta().mode != b.meta().mode || (!(a.meta().kind is Dir)
            && a.meta().len != b.meta().len),
    ensures
        metadata_preimage(a.meta()) != metadata_preimage(b.meta()),
{
    if metadata_preimage(a.meta()) == metadata_preimage(b.meta()) {
        lemma_metadata_preimage_injective(a.meta(), b.meta());
    }
}

/// A path that leads to a fingerprinted entry in the current tree and to
/// none in the pristine tree is listed as added and nowhere else.
pub proof fn lemma_tree_added(d: DiffView, pristine: DirTree, current: DirTree, p: Seq<Seq<u8>>)
    requires
        is_diff_of(d, pristine.snapshot(), current.snapshot()),
        current.fingerprint_at(p) is Some,
        pristine.fingerprint_at(p) is None,
    ensures
        d.added.contains(p),
        !d.modified.contains(p),
        !d.removed.contains(p),
{
    lemma_snapshot_entry(pristine, p);
    lemma_snapshot_entry(current, p);
    lemma_added_only(d, pristine.snapshot(), current.snapshot(), p);
}

/// A path that leads to a fingerprinted entry in the pristine tree and to
/// none in the current tree is listed as removed and nowhere else.
pub proof fn lemma_tree_removed(d: DiffView, pristine: DirTree, current: DirTree, p: Seq<Seq<u8>>)
    requires
        is_diff_of(d, pristine.snapshot(), current.snapshot()),
        pristine.fingerprint_at(p) is Some,
        current.fingerprint_at(p) is None,
    ensures
        d.removed.contains(p),
        !d.added.contains(p),
        !d.modified.contains(p),
{
    lemma_snapshot_entry(pristine, p);
    lemma_snapshot_entry(current, p);
    lemma_removed_only(d, pristine.snapshot(), current.snapshot(), p);
}

/// A path that leads in both trees to a file without an fs-verity digest or
/// to a symlink is listed as modified exactly if the two entries differ in
/// the digest of their content or in the digest of their metadata bytes;
/// it is never listed as added or removed.
pub proof fn lemma_tree_modified(
    d: DiffView,
    pristine: DirTree,
    current: DirTree,
    p: Seq<Seq<u8>>,
)
    requires
        is_diff_of(d, pristine.snapshot(), current.snapshot()),
        pristine.resolve(p) is Some,
        current.resolve(p) is Some,
        is_hashed_content(pristine.resolve(p)->0),
        is_hashed_content(current.resolve(p)->0),
    ensures
        d.modified.contains(p) <==> sha256(content_bytes(pristine.resolve(p)->0)) != sha256(
            content_bytes(current.resolve(p)->0),
        ) || sha256(metadata_preimage(pristine.resolve(p)->0.meta())) != sha256(
            metadata_preimage(current.resolve(p)->0.meta()),
        ),
        !d.added.contains(p),
        !d.removed.contains(p),
{
    lemma_snapshot_entry(pristine, p);
    lemma_snapshot_entry(current, p);
    lemma_changed_by_digests(pristine.resolve(p)->0, current.resolve(p)->0);
    assert(is_modified(pristine.snapshot(), current.snapshot(), p) <==> changed(
        pristine.snapshot()[p],
        current.snapshot()[p],
    ));
}

/// The entry is a regular file with an fs-verity digest.
pub open spec fn has_verity(node: Node) -> bool {
    node matches Node::File { data: FileData::Verity(_), .. }
}

/// Two trees in which a path leads to fingerprinted entries of which exactly
/// one has an fs-verity digest have no diff.
pub proof fn lemma_tree_one_sided_verity(pristine: DirTree, current: DirTree, p: Seq<Seq<u8>>)
    requires
        pristine.fingerprint_at(p) is Some,
        current.fingerprint_at(p) is Some,
        has_verity(pristine.resolve(p)->0) != has_verity(current.resolve(p)->0),
    ensures
        has_inconsistency(pristine.snapshot(), current.snapshot()),
{
    lemma_snapshot_entry(pristine, p);
    lemma_snapshot_entry(current, p);
    lemma_one_sided_verity_inconsistent(pristine.snapshot(), current.snapshot(), p);
}

/// Only a regular file with an fs-verity digest has one in its fingerprint,
/// and then no content hash; a directory has no content hash either.
pub proof fn lemma_fingerprint_shape(node: Node)
    requires
        node.fingerprint() is Some,
    ensures
        node.fingerprint()->0.verity is Some <==> has_verity(node),
        has_verity(node) || node is Dir ==> node.fingerprint()->0.content_hash.len() == 0,
        node.fingerprint()->0.metadata_hash == hex_encode(sha256(metadata_preimage(node.meta()))),
{
}

/// Two files are identified by the same digest or the same bytes.
pub open spec fn same_data(x: FileData, y: FileData) -> bool {
    match (x, y) {
        (FileData::Verity(a), FileData::Verity(b)) => a@ == b@,
        (FileData::Bytes(a), FileData::Bytes(b)) => a@ == b@,
        _ => false,
    }
}

/// Two entries are of the same type and hold the same: the same metadata
/// and content, and for directories the same entries in whatever order.
pub open spec fn same_node(x: Node, y: Node) -> bool
    decreases x,
{
    match (x, y) {
        (Node::Dir { mode: m1, tree: t1 }, Node::Dir { mode: m2, tree: t2 }) => m1 == m2
            && same_listing(t1, t2),
        (
            Node::File { len: l1, mode: m1, data: d1 },
            Node::File { len: l2, mode: m2, data: d2 },
        ) => l1 == l2 && m1 == m2 && same_data(d1, d2),
        (
            Node::Symlink { len: l1, mode: m1, target: t1 },
            Node::Symlink { len: l2, mode: m2, target: t2 },
        ) => l1 == l2 && m1 == m2 && t1@ == t2@,
        (Node::Other, Node::Other) => true,
        _ => false,
    }
}

/// Two directories list the same names, in whatever order, and under each
/// name the same entry.
pub open spec fn same_listing(a: DirTree, b: DirTree) -> bool
    decreases a,
{
    &&& forall|i: int|
        0 <= i < a.entries@.len() ==> exists|j: int|
            0 <= j < b.entries@.len() && (#[trigger] b.entries@[j]).name@ == (
            #[trigger] a.entries@[i]).name@ && same_node(a.entries@[i].node, b.entries@[j].node)
    &&& forall|j: int|
        0 <= j < b.entries@.len() ==> exists|i: int|
            0 <= i < a.entries@.len() && (#[trigger] a.entries@[i]).name@ == (
            #[trigger] b.entries@[j]).name@
}

/// Entries that hold the same have the same fingerprint.
pub proof fn lemma_same_node_fingerprint(x: Node, y: Node)
    requires
        same_node(x, y),
    ensures
        x.fingerprint() == y.fingerprint(),
{
}

/// Paths lead to the same fingerprints in two trees that list the same, in
/// whatever order each directory is listed.
pub proof fn lemma_same_listing_fingerprints(a: DirTree, b: DirTree, p: Seq<Seq<u8>>)
    requires
        a.wf(),
        b.wf(),
        same_listing(a, b),
    ensures
        a.fingerprint_at(p) == b.fingerprint_at(p),
    decreases p.len(),
{
    if p.len() > 0 {
        if a.names().contains(p[0]) {
            let i = a.names().index_of(p[0]);
            assert(a.entries@[i].name@ == p[0]);
            let j = choose|j: int|
                0 <= j < b.entries@.len() && (#[trigger] b.entries@[j]).name@
                    == a.entries@[i].name@ && same_node(a.entries@[i].node, b.entries@[j].node);
            lemma_resolve_through(a, i, p);
            lemma_resolve_through(b, j, p);
            let x = a.entries@[i].node;
            let y = b.entries@[j].node;
            lemma_same_node_fingerprint(x, y);
            if p.len() > 1 {
                match (x, y) {
                    (Node::Dir { tree: t1, .. }, Node::Dir { tree: t2, .. }) => {
                        lemma_same_listing_fingerprints(t1, t2, p.drop_first());
                    },
                    _ => {},
                }
            }
        } else if b.names().contains(p[0]) {
            let j = b.names().index_of(p[0]);
            assert(b.entries@[j].name@ == p[0]);
            let i = choose|i: int|
                0 <= i < a.entries@.len() && (#[trigger] a.entries@[i]).name@
                    == b.entries@[j].name@;
            assert(a.names()[i] == p[0]);
        }
    }
}

/// The order in which directories are listed has no effect on the snapshot
/// of a tree: trees that list the same have the same snapshot.
pub proof fn lemma_snapshot_ignores_order(a: DirTree, b: DirTree)
    requires
        a.wf(),
        b.wf(),
        same_listing(a, b),
    ensures
        a.snapshot() == b.snapshot(),
{
    assert forall|p: Seq<Seq<u8>>| a.fingerprint_at(p) == b.fingerprint_at(p) by {
        lemma_same_listing_fingerprints(a, b, p);
    }
    assert forall|p: Seq<Seq<u8>>|
        (#[trigger] a.snapshot().dom().contains(p)) == b.snapshot().dom().contains(p) && (
        a.snapshot().dom().contains(p) ==> a.snapshot()[p] == b.snapshot()[p]) by {
        lemma_snapshot_entry(a, p);
        lemma_snapshot_entry(b, p);
    }
    assert(a.snapshot() =~= b.snapshot());
}

} // verus!
