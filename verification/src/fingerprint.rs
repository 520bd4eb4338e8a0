//! Fingerprints of single filesystem entries.
//!
//! An entry is fingerprinted by a hash of its metadata and by either a hash of
//! its content or, where the kernel keeps one, its fs-verity digest.

use vstd::prelude::*;
use vstd::bytes::{lemma_auto_spec_u64_to_from_le_bytes, spec_u64_to_le_bytes, u64_to_le_bytes};
use openssl::error::ErrorStack;
use crate::digest::{hex_encode, hex_string, sha256, sha256_digest};

verus! {

/// The hash function failed.
#[derive(Debug)]
pub struct HashError {
    /// What OpenSSL reported.
    pub cause: ErrorStack,
}

/// The type of a filesystem entry.
#[derive(Clone, Copy, Debug, PartialEq, Eq, Structural)]
pub enum FileKind {
    File,
    Dir,
    Symlink,
    /// A socket, FIFO, device or anything else.
    Other,
}

/// What the metadata hash reads of an entry's metadata.
#[derive(Clone, Copy, Debug, PartialEq, Eq, Structural)]
pub struct EntryMeta {
    pub kind: FileKind,
    /// The size in bytes.
    pub len: u64,
    /// The permission bits.
    pub mode: u32,
}

/// The fingerprint of one entry.
#[derive(Debug)]
pub struct Metadata {
    /// Hexadecimal hash of the content; empty where none is taken.
    pub content_hash: String,
    /// Hexadecimal hash of the metadata.
    pub metadata_hash: String,
    /// Hexadecimal fs-verity digest, for a regular file that has one.
    pub verity: Option<String>,
}

/// A fingerprint as plain values.
pub struct MetadataView {
    pub content_hash: Seq<char>,
    pub metadata_hash: Seq<char>,
    pub verity: Option<Seq<char>>,
}

impl View for Metadata {
    type V = MetadataView;

    open spec fn view(&self) -> MetadataView {
        MetadataView {
            content_hash: self.content_hash@,
            metadata_hash: self.metadata_hash@,
            verity: match self.verity {
                Some(v) => Some(v@),
                None => None,
            },
        }
    }
}

impl Metadata {
    pub fn new(content_hash: String, metadata_hash: String, verity: Option<String>) -> (m: Self)
        ensures
            m.content_hash == content_hash,
            m.metadata_hash == metadata_hash,
            m.verity == verity,
    {
        Self { content_hash, metadata_hash, verity }
    }

    /// A copy of this fingerprint.
    pub fn duplicate(&self) -> (m: Self)
        ensures
            m@ == self@,
    {
        let verity = match &self.verity {
            Some(v) => Some(v.clone()),
            None => None,
        };
        Self {
            content_hash: self.content_hash.clone(),
            metadata_hash: self.metadata_hash.clone(),
            verity,
        }
    }
}

/// Three bytes that say, each as 0 or 1, whether the entry is a regular file,
/// a directory, a symlink.
pub open spec fn kind_bytes(kind: FileKind) -> Seq<u8> {
    seq![
        if kind is File { 1u8 } else { 0u8 },
        if kind is Dir { 1u8 } else { 0u8 },
        if kind is Symlink { 1u8 } else { 0u8 },
    ]
}

/// The bytes that the metadata hash is taken over: the type bytes, then for
/// anything but a directory the size as 8 little-endian bytes, then the
/// permission bits as 8 little-endian bytes.
pub open spec fn metadata_preimage(meta: EntryMeta) -> Seq<u8> {
    kind_bytes(meta.kind) + (if meta.kind is Dir {
        Seq::<u8>::empty()
    } else {
        spec_u64_to_le_bytes(meta.len)
    }) + spec_u64_to_le_bytes(meta.mode as u64)
}

/// The bytes hashed for two entries are the same only if the entries agree in
/// type and permission bits and, unless they are directories, in size.
pub proof fn lemma_metadata_preimage_injective(a: EntryMeta, b: EntryMeta)
    requires
        metadata_preimage(a) == metadata_preimage(b),
    ensures
        a.kind == b.kind,
        a.mode == b.mode,
        !(a.kind is Dir) ==> a.len == b.len,
{
    lemma_auto_spec_u64_to_from_le_bytes();
    let pa = metadata_preimage(a);
    let pb = metadata_preimage(b);
    let ma = spec_u64_to_le_bytes(a.mode as u64);
    let mb = spec_u64_to_le_bytes(b.mode as u64);
    assert(pa.len() == pb.len());
    assert(kind_bytes(a.kind) =~= pa.take(3));
    assert(kind_bytes(b.kind) =~= pb.take(3));
    assert(kind_bytes(a.kind)[0] == kind_bytes(b.kind)[0]);
    assert(kind_bytes(a.kind)[1] == kind_bytes(b.kind)[1]);
    assert(kind_bytes(a.kind)[2] == kind_bytes(b.kind)[2]);
    assert((a.kind is Dir) == (b.kind is Dir));
    assert(ma =~= pa.skip(pa.len() - 8));
    assert(mb =~= pb.skip(pb.len() - 8));
    assert(a.mode as u64 == b.mode as u64);
    if !(a.kind is Dir) {
        assert(spec_u64_to_le_bytes(a.len) =~= pa.subrange(3, 11));
        assert(spec_u64_to_le_bytes(b.len) =~= pb.subrange(3, 11));
    }
}

/// Appends a copy of `more` to `buf`.
fn append_bytes(buf: &mut Vec<u8>, more: &[u8])
    ensures
        final(buf)@ == old(buf)@ + more@,
{
    let mut i: usize = 0;
    while i < more.len()
        invariant
            i <= more.len(),
            buf@ == old(buf)@ + more@.take(i as int),
        decreases more.len() - i,
    {
        buf.push(more[i]);
        assert(more@.take(i + 1) =~= more@.take(i as int).push(more@[i as int]));
        assert(buf@ =~= old(buf)@ + more@.take(i + 1));
        i = i + 1;
    }
    assert(more@.take(i as int) =~= more@);
}

/// The SHA-256 digest of `data`, or the hash function's failure.
pub fn digest(data: &[u8]) -> (r: Result<Vec<u8>, HashError>)
    ensures
        r matches Ok(d) ==> d@ == sha256(data@),
{
    let outcome: Result<Vec<u8>, ErrorStack> = sha256_digest(data);
    // Whatever the hash function answered is handed on: a digest as it
    // came, a failure as a `HashError`.
    digest_outcome(outcome)
}

/// The content hash of a byte string (a file's content or a symlink's
/// target): the hexadecimal text of its SHA-256 digest.
pub fn content_hash(data: &[u8]) -> (r: Result<String, HashError>)
    ensures
        r matches Ok(s) ==> s@ == hex_encode(sha256(data@)),
{
    let outcome: Result<Vec<u8>, HashError> = digest(data);
    // The text is made of the digest alone, and only where there is one: a
    // failure is handed on as it came.
    content_hash_outcome(outcome)
}

/// The digest of an entry's metadata: SHA-256 over its metadata bytes.
pub fn compute_metadata_hash(meta: &EntryMeta) -> (r: Result<Vec<u8>, HashError>)
    ensures
        r matches Ok(d) ==> d@ == sha256(metadata_preimage(*meta)),
{
    let bytes = metadata_bytes(meta);
    digest(bytes.as_slice())
}

/// The bytes that the metadata hash of an entry is taken over.
pub fn metadata_bytes(meta: &EntryMeta) -> (bytes: Vec<u8>)
    ensures
        bytes@ == metadata_preimage(*meta),
{
    let mut ty: Vec<u8> = Vec::new();
    ty.push(if matches!(meta.kind, FileKind::File) { 1u8 } else { 0u8 });
    ty.push(if matches!(meta.kind, FileKind::Dir) { 1u8 } else { 0u8 });
    ty.push(if matches!(meta.kind, FileKind::Symlink) { 1u8 } else { 0u8 });
    assert(ty@ =~= kind_bytes(meta.kind));
    if !matches!(meta.kind, FileKind::Dir) {
        let len_bytes = u64_to_le_bytes(meta.len);
        append_bytes(&mut ty, len_bytes.as_slice());
    }
    let mode: u64 = meta.mode as u64;
    let mode_bytes = u64_to_le_bytes(mode);
    append_bytes(&mut ty, mode_bytes.as_slice());
    assert(ty@ =~= metadata_preimage(*meta));
    ty
}

/// What becomes of an answer of the hash function: a digest is handed on as
/// it came, a failure as a `HashError` that holds it.
pub fn digest_outcome(outcome: Result<Vec<u8>, ErrorStack>) -> (r: Result<Vec<u8>, HashError>)
    ensures
        match outcome {
            Ok(d) => r == Ok::<Vec<u8>, HashError>(d),
            Err(cause) => r == Err::<Vec<u8>, HashError>(HashError { cause }),
        },
{
    match outcome {
        Ok(d) => Ok(d),
        Err(cause) => Err(HashError { cause }),
    }
}

/// The content hash that a digest gives, its lowercase hexadecimal text; a
/// failure to hash is handed on as it came.
pub fn content_hash_outcome(outcome: Result<Vec<u8>, HashError>) -> (r: Result<String, HashError>)
    ensures
        match outcome {
            Ok(d) => r matches Ok(s) && s@ == hex_encode(d@),
            Err(e) => r == Err::<String, HashError>(e),
        },
{
    match outcome {
        Ok(d) => Ok(hex_string(d.as_slice())),
        Err(e) => Err(e),
    }
}

} // verus!
