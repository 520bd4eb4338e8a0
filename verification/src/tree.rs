//! A directory tree as plain values, and the walk that fingerprints it.

use vstd::prelude::*;
use crate::digest::{hex_encode, hex_string, sha256};
use crate::fingerprint::{
    compute_metadata_hash, content_hash, metadata_preimage, EntryMeta, FileKind, HashError,
    Metadata, MetadataView,
};
use crate::path::{compare_names, Order, RelPath};
use crate::snapshot::Snapshot;

verus! {

/// What identifies the content of a regular file.
#[derive(Debug)]
pub enum FileData {
    /// The fs-verity digest that the kernel keeps for the file, in
    /// hexadecimal. The content of such a file is not read.
    Verity(String),
    /// The bytes of the file.
    Bytes(Vec<u8>),
}

/// One filesystem entry without its name.
#[derive(Debug)]
pub enum Node {
    Dir { mode: u32, tree: DirTree },
    File { len: u64, mode: u32, data: FileData },
    /// A symlink with the bytes of its target, which is never followed.
    Symlink { len: u64, mode: u32, target: Vec<u8> },
    /// A socket, FIFO, device or anything else that is not fingerprinted.
    Other,
}

/// A named entry of a directory.
#[derive(Debug)]
pub struct Entry {
    pub name: Vec<u8>,
    pub node: Node,
}

/// The entries of a directory, each with all that lies below it.
#[derive(Debug)]
pub struct DirTree {
    pub entries: Vec<Entry>,
}

impl Node {
    /// The metadata that is hashed for this entry.
    pub open spec fn meta(self) -> EntryMeta {
        match self {
            Node::Dir { mode, .. } => EntryMeta { kind: FileKind::Dir, len: 0, mode },
            Node::File { len, mode, .. } => EntryMeta { kind: FileKind::File, len, mode },
            Node::Symlink { len, mode, .. } => EntryMeta { kind: FileKind::Symlink, len, mode },
            Node::Other => EntryMeta { kind: FileKind::Other, len: 0, mode: 0 },
        }
    }

    /// The fingerprint of this entry; none for an entry of an unsupported
    /// type.
    pub open spec fn fingerprint(self) -> Option<MetadataView> {
        let metadata_hash = hex_encode(sha256(metadata_preimage(self.meta())));
        match self {
            Node::Dir { .. } => Some(
                MetadataView { content_hash: Seq::empty(), metadata_hash, verity: None },
            ),
            Node::File { data: FileData::Verity(digest), .. } => Some(
                MetadataView {
                    content_hash: Seq::empty(),
                    metadata_hash,
                    verity: Some(digest@),
                },
            ),
            Node::File { data: FileData::Bytes(bytes), .. } => Some(
                MetadataView {
                    content_hash: hex_encode(sha256(bytes@)),
                    metadata_hash,
                    verity: None,
                },
            ),
            Node::Symlink { target, .. } => Some(
                MetadataView {
                    content_hash: hex_encode(sha256(target@)),
                    metadata_hash,
                    verity: None,
                },
            ),
            Node::Other => None,
        }
    }
}

impl DirTree {
    /// The names of the entries, in the order in which they are listed.
    pub open spec fn names(self) -> Seq<Seq<u8>> {
        Seq::new(self.entries@.len(), |i: int| self.entries@[i].name@)
    }

    /// In this directory and in every directory below it no name is listed
    /// twice.
    pub open spec fn wf(self) -> bool
        decreases self,
    {
        &&& self.names().no_duplicates()
        &&& forall|i: int|
            0 <= i < self.entries@.len() ==> match (#[trigger] self.entries@[i]).node {
                Node::Dir { tree, .. } => tree.wf(),
                _ => true,
            }
    }

    /// The entry listed under `name`, if there is one.
    pub open spec fn child(self, name: Seq<u8>) -> Option<Node> {
        if self.names().contains(name) {
            Some(self.entries@[self.names().index_of(name)].node)
        } else {
            None
        }
    }

    /// The entry that `path` leads to from this directory: each component
    /// but the last names a directory to enter, the last names the entry.
    /// The empty path leads to no entry.
    pub open spec fn resolve(self, path: Seq<Seq<u8>>) -> Option<Node>
        decreases path.len(),
    {
        if path.len() == 0 {
            None
        } else {
            match self.child(path[0]) {
                None => None,
                Some(node) => if path.len() == 1 {
                    Some(node)
                } else {
                    match node {
                        Node::Dir { tree, .. } => tree.resolve(path.drop_first()),
                        _ => None,
                    }
                },
            }
        }
    }

    /// The fingerprint of the entry that `path` leads to, if it leads to one
    /// that is fingerprinted.
    pub open spec fn fingerprint_at(self, path: Seq<Seq<u8>>) -> Option<MetadataView> {
        match self.resolve(path) {
            Some(node) => node.fingerprint(),
            None => None,
        }
    }

    /// The snapshot of this tree when it is mounted at `prefix`: for every
    /// path that leads from this directory to a fingerprinted entry, `prefix`
    /// followed by that path is mapped to the entry's fingerprint.
    pub open spec fn snapshot_at(self, prefix: Seq<Seq<u8>>) -> Map<Seq<Seq<u8>>, MetadataView> {
        Map::new(
            |p: Seq<Seq<u8>>|
                prefix.is_prefix_of(p) && self.fingerprint_at(p.skip(prefix.len() as int)) is Some,
            |p: Seq<Seq<u8>>| self.fingerprint_at(p.skip(prefix.len() as int))->0,
        )
    }

    /// The snapshot of this tree: every path that leads to a fingerprinted
    /// entry, mapped to that entry's fingerprint.
    pub open spec fn snapshot(self) -> Map<Seq<Seq<u8>>, MetadataView> {
        self.snapshot_at(Seq::empty())
    }

    /// The part of `snapshot_at(prefix)` that lies in and below the first
    /// `k` entries.
    spec fn partial_at(self, prefix: Seq<Seq<u8>>, k: int) -> Map<
        Seq<Seq<u8>>,
        MetadataView,
    > {
        Map::new(
            |p: Seq<Seq<u8>>|
                self.snapshot_at(prefix).contains_key(p) && self.names().index_of(
                    p[prefix.len() as int],
                ) < k,
            |p: Seq<Seq<u8>>| self.snapshot_at(prefix)[p],
        )
    }
}

/// What one entry that stands at `path` adds to a snapshot: its own
/// fingerprint, if it has one, and for a directory all that lies below it.
spec fn entry_snapshot(path: Seq<Seq<u8>>, node: Node) -> Map<Seq<Seq<u8>>, MetadataView> {
    let own = match node.fingerprint() {
        Some(fp) => Map::<Seq<Seq<u8>>, MetadataView>::empty().insert(path, fp),
        None => Map::<Seq<Seq<u8>>, MetadataView>::empty(),
    };
    match node {
        Node::Dir { tree, .. } => own.union_prefer_right(tree.snapshot_at(path)),
        _ => own,
    }
}

/// Where a path leads whose first component is the name of the entry at
/// position `i`.
pub proof fn lemma_resolve_through(dir: DirTree, i: int, path: Seq<Seq<u8>>)
    requires
        dir.wf(),
        0 <= i < dir.entries@.len(),
        path.len() > 0,
        path[0] == dir.entries@[i].name@,
    ensures
        dir.child(path[0]) == Some(dir.entries@[i].node),
        path.len() == 1 ==> dir.resolve(path) == Some(dir.entries@[i].node),
        path.len() > 1 ==> dir.resolve(path) == match dir.entries@[i].node {
            Node::Dir { tree, .. } => tree.resolve(path.drop_first()),
            _ => None,
        },
{
    let names = dir.names();
    assert(names[i] == path[0]);
    assert(names.contains(path[0]));
    let j = names.index_of(path[0]);
    assert(names[j] == names[i]);
    assert(j == i);
}

/// A path that leads somewhere starts with the name of an entry.
pub proof fn lemma_resolve_first(dir: DirTree, path: Seq<Seq<u8>>)
    requires
        dir.resolve(path) is Some,
    ensures
        path.len() > 0,
        dir.names().contains(path[0]),
        0 <= dir.names().index_of(path[0]) < dir.entries@.len(),
        dir.names()[dir.names().index_of(path[0])] == path[0],
{
}

/// With no entry taken the partial snapshot is empty, and with all of them
/// taken it is the whole snapshot.
proof fn lemma_partial_bounds(dir: DirTree, prefix: Seq<Seq<u8>>)
    ensures
        dir.partial_at(prefix, 0) == Map::<Seq<Seq<u8>>, MetadataView>::empty(),
        dir.partial_at(prefix, dir.entries@.len() as int) == dir.snapshot_at(prefix),
{
    assert forall|p: Seq<Seq<u8>>| dir.snapshot_at(prefix).contains_key(p) implies 0
        <= dir.names().index_of(#[trigger] p[prefix.len() as int]) < dir.entries@.len() by {
        let rest = p.skip(prefix.len() as int);
        lemma_resolve_first(dir, rest);
        assert(rest[0] == p[prefix.len() as int]);
    }
    assert(dir.partial_at(prefix, 0) =~= Map::<Seq<Seq<u8>>, MetadataView>::empty());
    assert(dir.partial_at(prefix, dir.entries@.len() as int) =~= dir.snapshot_at(prefix));
}

/// Taking one more entry adds to the partial snapshot what that entry adds
/// to a snapshot.
proof fn lemma_partial_step(dir: DirTree, prefix: Seq<Seq<u8>>, i: int)
    requires
        dir.wf(),
        0 <= i < dir.entries@.len(),
    ensures
        dir.partial_at(prefix, i + 1) == dir.partial_at(prefix, i).union_prefer_right(
            entry_snapshot(prefix.push(dir.entries@[i].name@), dir.entries@[i].node),
        ),
{
    let n = prefix.len() as int;
    let name = dir.entries@[i].name@;
    let node = dir.entries@[i].node;
    let here = prefix.push(name);
    let added = entry_snapshot(here, node);
    let left = dir.partial_at(prefix, i + 1);
    let right = dir.partial_at(prefix, i).union_prefer_right(added);
    let names = dir.names();
    assert(names[i] == name);
    assert forall|p: Seq<Seq<u8>>|
        (#[trigger] left.dom().contains(p)) == right.dom().contains(p) && (left.dom().contains(p)
            ==> left[p] == right[p]) by {
        if prefix.is_prefix_of(p) && p.len() > n {
            let rest = p.skip(n);
            assert(rest[0] == p[n]);
            if p[n] == name {
                lemma_resolve_through(dir, i, rest);
                assert(here.is_prefix_of(p)) by {
                    assert(p.subrange(0, n + 1) =~= here);
                }
                assert(p.skip(n + 1) =~= rest.drop_first());
                if rest.len() == 1 {
                    assert(p =~= here);
                    assert(p.skip(n + 1).len() == 0);
                } else {
                    assert(p != here);
                }
            } else {
                assert(!here.is_prefix_of(p)) by {
                    if here.is_prefix_of(p) {
                        assert(p.subrange(0, n + 1)[n] == here[n]);
                    }
                }
                assert(p != here);
                if dir.snapshot_at(prefix).contains_key(p) {
                    lemma_resolve_first(dir, rest);
                    let k = names.index_of(p[n]);
                    assert(k != i);
                }
            }
        } else {
            if prefix.is_prefix_of(p) {
                assert(p.len() == n);
                assert(p.skip(n).len() == 0);
            }
            assert(!here.is_prefix_of(p)) by {
                if here.is_prefix_of(p) {
                    assert(p.len() >= n + 1);
                    assert(p.subrange(0, n + 1) == here);
                    assert forall|k: int| 0 <= k < n implies p[k] == prefix[k] by {
                        assert(p.subrange(0, n + 1)[k] == here[k]);
                    }
                    assert(p.subrange(0, n) =~= prefix);
                }
            }
            assert(p != here);
        }
    }
    assert(left =~= right);
}

/// An entry could not be fingerprinted.
#[derive(Debug)]
pub struct WalkError {
    /// The path of the entry, from the root of the walk.
    pub path: RelPath,
    pub cause: HashError,
}

impl Node {
    /// The metadata that is hashed for this entry.
    pub fn entry_meta(&self) -> (m: EntryMeta)
        ensures
            m == self.meta(),
    {
        match self {
            Node::Dir { mode, .. } => EntryMeta { kind: FileKind::Dir, len: 0, mode: *mode },
            Node::File { len, mode, .. } => EntryMeta {
                kind: FileKind::File,
                len: *len,
                mode: *mode,
            },
            Node::Symlink { len, mode, .. } => EntryMeta {
                kind: FileKind::Symlink,
                len: *len,
                mode: *mode,
            },
            Node::Other => EntryMeta { kind: FileKind::Other, len: 0, mode: 0 },
        }
    }

    /// Fingerprints this entry. A directory gets no content hash. A regular
    /// file with an fs-verity digest gets that digest and no content hash; one
    /// without gets the hash of its bytes. A symlink gets the hash of its
    /// target. An entry of any other type gets no fingerprint at all.
    pub fn compute_fingerprint(&self) -> (r: Result<Option<Metadata>, HashError>)
        ensures
            r matches Ok(found) ==> match found {
                Some(m) => self.fingerprint() == Some(m@),
                None => self.fingerprint() is None,
            },
            self.fingerprint() is None ==> r is Ok,
    {
        if let Node::Other = self {
            return Ok(None);
        }
        let meta = self.entry_meta();
        let metadata_hash = match compute_metadata_hash(&meta) {
            Ok(d) => hex_string(d.as_slice()),
            Err(e) => {
                return Err(e);
            },
        };
        match self {
            Node::Dir { .. } => Ok(Some(Metadata::new(String::new(), metadata_hash, None))),
            Node::File { data: FileData::Verity(digest), .. } => Ok(
                Some(
                    Metadata::new(String::new(), metadata_hash, Some(digest.clone())),
                ),
            ),
            Node::File { data: FileData::Bytes(bytes), .. } => match content_hash(
                bytes.as_slice(),
            ) {
                Ok(hash) => Ok(Some(Metadata::new(hash, metadata_hash, None))),
                Err(e) => Err(e),
            },
            Node::Symlink { target, .. } => match content_hash(target.as_slice()) {
                Ok(hash) => Ok(Some(Metadata::new(hash, metadata_hash, None))),
                Err(e) => Err(e),
            },
            Node::Other => Ok(None),
        }
    }
}

/// Walks `dir` depth first and records in `list` the fingerprint of every
/// entry in and below it, under `path` followed by the entry's path from
/// `dir`. A directory is recorded before its entries are visited; entries of
/// unsupported types are passed over. When the hash function fails the walk
/// stops with the path of the entry that it failed on, and what `list` then
/// holds is of no use.
pub fn recurse_dir(dir: &DirTree, path: RelPath, list: &mut Snapshot) -> (r: Result<
    (),
    WalkError,
>)
    requires
        dir.wf(),
        old(list).wf(),
    ensures
        final(list).wf(),
        r is Ok ==> final(list)@ == old(list)@.union_prefer_right(dir.snapshot_at(path@)),
        r matches Err(e) ==> path@.is_prefix_of(e.path@) && dir.fingerprint_at(
            e.path@.skip(path@.len() as int),
        ) is Some,
    decreases dir,
{
    let ghost prefix = path@;
    let mut cursor = path;
    let ghost start = list@;
    let mut i: usize = 0;
    proof {
        lemma_partial_bounds(*dir, prefix);
        assert(start.union_prefer_right(dir.partial_at(prefix, 0)) =~= start);
    }
    while i < dir.entries.len()
        invariant
            dir.wf(),
            list.wf(),
            path@ == prefix,
            cursor@ == prefix,
            i <= dir.entries@.len(),
            list@ == start.union_prefer_right(dir.partial_at(prefix, i as int)),
        decreases dir.entries@.len() - i,
    {
        let entry = &dir.entries[i];
        cursor.push(entry.name.as_slice());
        let ghost here = cursor@;
        proof {
            lemma_partial_step(*dir, prefix, i as int);
            assert(here.skip(prefix.len() as int) =~= seq![entry.name@]);
            lemma_resolve_through(*dir, i as int, seq![entry.name@]);
        }
        match entry.node.compute_fingerprint() {
            Err(cause) => {
                return Err(WalkError { path: cursor, cause });
            },
            Ok(Some(meta)) => {
                list.insert(cursor.duplicate(), meta);
            },
            Ok(None) => {},
        }
        if let Node::Dir { tree, .. } = &entry.node {
            match recurse_dir(tree, cursor.duplicate(), list) {
                Err(e) => {
                    proof {
                        let n = prefix.len() as int;
                        let rest = e.path@.skip(n);
                        assert(e.path@.subrange(0, n + 1) == here);
                        assert(prefix.is_prefix_of(e.path@)) by {
                            assert forall|k: int| 0 <= k < n implies e.path@[k] == prefix[k] by {
                                assert(e.path@.subrange(0, n + 1)[k] == here[k]);
                            }
                            assert(e.path@.subrange(0, n) =~= prefix);
                        }
                        assert(rest[0] == entry.name@) by {
                            assert(e.path@.subrange(0, n + 1)[n] == here[n]);
                        }
                        assert(rest.drop_first() =~= e.path@.skip(n + 1));
                        lemma_resolve_through(*dir, i as int, rest);
                    }
                    return Err(e);
                },
                Ok(()) => {},
            }
        }
        proof {
            assert(list@ =~= start.union_prefer_right(dir.partial_at(prefix, i + 1)));
        }
        cursor.pop();
        assert(cursor@ =~= prefix);
        i = i + 1;
    }
    Ok(())
}

/// The snapshot of a tree.
pub fn walk(dir: &DirTree) -> (r: Result<Snapshot, WalkError>)
    requires
        dir.wf(),
    ensures
        r matches Ok(s) ==> s.wf() && s@ == dir.snapshot(),
        r matches Err(e) ==> dir.fingerprint_at(e.path@) is Some,
{
    let mut list = Snapshot::new();
    match recurse_dir(dir, RelPath::new(), &mut list) {
        Ok(()) => {
            assert(list@ =~= dir.snapshot());
            Ok(list)
        },
        Err(e) => {
            assert(e.path@.skip(0) =~= e.path@);
            Err(e)
        },
    }
}

impl Node {
    /// If this is a directory, its tree lists no name twice at any level.
    pub open spec fn wf(self) -> bool {
        match self {
            Node::Dir { tree, .. } => tree.wf(),
            _ => true,
        }
    }

    /// Tells whether this entry, if it is a directory, lists no name twice
    /// at any level.
    pub fn is_wf(&self) -> (b: bool)
        ensures
            b == self.wf(),
        decreases self,
    {
        match self {
            Node::Dir { tree, .. } => tree.is_wf(),
            _ => true,
        }
    }
}

impl DirTree {
    /// A directory without entries.
    pub fn new() -> (dir: DirTree)
        ensures
            dir.wf(),
            dir.entries@.len() == 0,
    {
        DirTree { entries: Vec::new() }
    }

    /// The position of the first of the first `end` entries that is listed
    /// under `name`.
    fn position_before(&self, name: &[u8], end: usize) -> (r: Option<usize>)
        requires
            end <= self.entries@.len(),
        ensures
            match r {
                Some(j) => j < end && self.names()[j as int] == name@,
                None => forall|j: int| 0 <= j < end ==> self.names()[j] != name@,
            },
    {
        let mut j: usize = 0;
        while j < end
            invariant
                j <= end <= self.entries@.len(),
                forall|k: int| 0 <= k < j ==> self.names()[k] != name@,
            decreases end - j,
        {
            if compare_names(self.entries[j].name.as_slice(), name) == Order::Equal {
                return Some(j);
            }
            j = j + 1;
        }
        None
    }

    /// Tells whether an entry is listed under `name`.
    pub fn contains_name(&self, name: &[u8]) -> (b: bool)
        ensures
            b == self.names().contains(name@),
    {
        self.position_before(name, self.entries.len()).is_some()
    }

    /// Lists `node` under `name`, unless the name is taken; tells whether it
    /// was listed.
    pub fn add(&mut self, name: Vec<u8>, node: Node) -> (added: bool)
        requires
            old(self).wf(),
            node.wf(),
        ensures
            final(self).wf(),
            added == !old(self).names().contains(name@),
            added ==> final(self).entries@ == old(self).entries@.push(Entry { name, node }),
            !added ==> final(self).entries@ == old(self).entries@,
    {
        if self.contains_name(name.as_slice()) {
            return false;
        }
        self.entries.push(Entry { name, node });
        proof {
            assert(self.names() =~= old(self).names().push(name@));
            assert(old(self).names().no_duplicates());
            assert forall|i: int, j: int|
                0 <= i < self.names().len() && 0 <= j < self.names().len() && i
                    != j implies self.names()[i] != self.names()[j] by {
                if i < old(self).names().len() && j < old(self).names().len() {
                    assert(old(self).names()[i] != old(self).names()[j]);
                } else if i < old(self).names().len() {
                    assert(old(self).names().contains(old(self).names()[i]));
                } else {
                    assert(old(self).names().contains(old(self).names()[j]));
                }
            }
            assert forall|i: int| 0 <= i < self.entries@.len() implies match (
            #[trigger] self.entries@[i]).node {
                Node::Dir { tree, .. } => tree.wf(),
                _ => true,
            } by {
                if i < old(self).entries@.len() {
                    assert(self.entries@[i] == old(self).entries@[i]);
                }
            }
        }
        true
    }

    /// Tells whether in this directory and in every directory below it no
    /// name is listed twice.
    pub fn is_wf(&self) -> (b: bool)
        ensures
            b == self.wf(),
        decreases self,
    {
        let mut i: usize = 0;
        while i < self.entries.len()
            invariant
                i <= self.entries@.len(),
                forall|a: int, b: int| 0 <= a < b < i ==> self.names()[a] != self.names()[b],
                forall|k: int|
                    0 <= k < i ==> match (#[trigger] self.entries@[k]).node {
                        Node::Dir { tree, .. } => tree.wf(),
                        _ => true,
                    },
            decreases self.entries@.len() - i,
        {
            if let Some(j) = self.position_before(self.entries[i].name.as_slice(), i) {
                assert(self.names()[j as int] == self.names()[i as int]);
                return false;
            }
            if let Node::Dir { tree, .. } = &self.entries[i].node {
                if !tree.is_wf() {
                    return false;
                }
            }
            i = i + 1;
        }
        true
    }
}

} // verus!
