use bootc_core::fingerprint::{
    compute_metadata_hash, content_hash, content_hash_outcome, digest, digest_outcome,
    metadata_bytes, EntryMeta, FileKind, HashError, Metadata,
};
use openssl::error::ErrorStack;

fn hex(bytes: &[u8]) -> String {
    bytes.iter().map(|b| format!("{:02x}", b)).collect()
}

fn metadata_hash(kind: FileKind, len: u64, mode: u32) -> String {
    hex(&compute_metadata_hash(&EntryMeta { kind, len, mode }).unwrap())
}

#[test]
fn metadata_hash_of_a_regular_file() {
    // sha256 of 01 00 00, 5 as 8 little-endian bytes, 0o644 as 8 little-endian bytes
    assert_eq!(
        metadata_hash(FileKind::File, 5, 0o644),
        "7f2b69983862e1e4d911177995bd8b64f2b2e853a53f3a5f4f18deff70df4f3b"
    );
    assert_eq!(
        metadata_hash(FileKind::File, 5, 0o400),
        "2ad6ac4bf7138f23d864217e107ad3e436041cda45a90799f2db6c512a7f5ce3"
    );
}

#[test]
fn metadata_hash_of_a_directory_leaves_the_size_out() {
    // sha256 of 00 01 00, 0o755 as 8 little-endian bytes
    let expected = "a2312eb367494c7659901bf2bb08ff5a331288c05db1486a14bd0159dbf3518c";
    assert_eq!(metadata_hash(FileKind::Dir, 4096, 0o755), expected);
    assert_eq!(metadata_hash(FileKind::Dir, 0, 0o755), expected);
    assert_ne!(metadata_hash(FileKind::Dir, 0, 0o700), expected);
}

#[test]
fn metadata_hash_of_a_symlink_and_of_other_types() {
    assert_eq!(
        metadata_hash(FileKind::Symlink, 7, 0o777),
        "feb8ee0e2fe199b735ff7da14398387ff8850e95b8cad509bc97ca59e2073fb4"
    );
    assert_eq!(
        metadata_hash(FileKind::Other, 0, 0o600),
        "3b7a3412c5844c27ab17eb5ea5c1da5718a6c7992c2483ba924067ef9f3da370"
    );
}

#[test]
fn metadata_hash_tells_size_type_and_permission_bits_apart() {
    let base = metadata_hash(FileKind::File, 5, 0o644);
    assert_ne!(metadata_hash(FileKind::File, 6, 0o644), base);
    assert_ne!(metadata_hash(FileKind::File, 5, 0o645), base);
    assert_ne!(metadata_hash(FileKind::Symlink, 5, 0o644), base);
    assert_eq!(metadata_hash(FileKind::File, 5, 0o644), base);
}

#[test]
fn digest_is_sha256() {
    assert_eq!(
        hex(&digest(b"").unwrap()),
        "e3b0c44298fc1c149afbf4c8996fb92427ae41e4649b934ca495991b7852b855"
    );
    assert_eq!(
        hex(&digest(b"hello").unwrap()),
        "2cf24dba5fb0a30e26e83b2ac5b9e29e1b161e5c1fa7425e73043362938b9824"
    );
    assert_eq!(digest(b"hello").unwrap().len(), 32);
}

#[test]
fn content_hash_is_lowercase_hex_of_sha256() {
    assert_eq!(
        content_hash(b"a-file1").unwrap(),
        "bd1390787557b85bd4871d708231df916c396caac97ecf540792d7c2fcc179d3"
    );
    assert_eq!(
        content_hash(b"/etc/passwd").unwrap(),
        "74acf31844532670be412c65b8251ee55d072549080b1cffdbea6b1a192230a0"
    );
}

#[test]
fn metadata_new_keeps_its_parts() {
    let m = Metadata::new("c".to_string(), "m".to_string(), Some("v".to_string()));
    assert_eq!(m.content_hash, "c");
    assert_eq!(m.metadata_hash, "m");
    assert_eq!(m.verity.as_deref(), Some("v"));
    let copy = m.duplicate();
    assert_eq!(copy.content_hash, "c");
    assert_eq!(copy.metadata_hash, "m");
    assert_eq!(copy.verity.as_deref(), Some("v"));
    let none = Metadata::new(String::new(), "m".to_string(), None).duplicate();
    assert_eq!(none.verity, None);
}

#[test]
fn metadata_bytes_are_type_size_and_permission_bits() {
    assert_eq!(
        metadata_bytes(&EntryMeta { kind: FileKind::File, len: 5, mode: 0o644 }),
        [1, 0, 0, 5, 0, 0, 0, 0, 0, 0, 0, 0xa4, 0x01, 0, 0, 0, 0, 0, 0]
    );
    assert_eq!(
        metadata_bytes(&EntryMeta { kind: FileKind::Symlink, len: 0x0102, mode: 0o777 }),
        [0, 0, 1, 0x02, 0x01, 0, 0, 0, 0, 0, 0, 0xff, 0x01, 0, 0, 0, 0, 0, 0]
    );
    assert_eq!(
        metadata_bytes(&EntryMeta { kind: FileKind::Other, len: u64::MAX, mode: u32::MAX }),
        [0, 0, 0, 255, 255, 255, 255, 255, 255, 255, 255, 255, 255, 255, 255, 0, 0, 0, 0]
    );
}

#[test]
fn metadata_bytes_of_a_directory_hold_no_size() {
    let bytes = metadata_bytes(&EntryMeta { kind: FileKind::Dir, len: 4096, mode: 0o755 });
    assert_eq!(bytes, [0, 1, 0, 0xed, 0x01, 0, 0, 0, 0, 0, 0]);
    assert_eq!(bytes, metadata_bytes(&EntryMeta { kind: FileKind::Dir, len: 0, mode: 0o755 }));
}

#[test]
fn metadata_hash_is_the_digest_of_the_metadata_bytes() {
    let meta = EntryMeta { kind: FileKind::File, len: 5, mode: 0o644 };
    assert_eq!(
        compute_metadata_hash(&meta).unwrap(),
        digest(&metadata_bytes(&meta)).unwrap()
    );
}

#[test]
fn a_digest_is_handed_on_and_a_failure_becomes_a_hash_error() {
    assert_eq!(digest_outcome(Ok(vec![1, 2, 3])).unwrap(), [1, 2, 3]);
    assert_eq!(digest_outcome(Ok(vec![])).unwrap(), []);
    let failed = digest_outcome(Err(ErrorStack::get()));
    assert!(matches!(failed, Err(HashError { .. })));
}

#[test]
fn content_hash_outcome_is_the_hex_text_of_the_digest() {
    assert_eq!(content_hash_outcome(Ok(vec![0x00, 0x0f, 0xa0, 0xff])).unwrap(), "000fa0ff");
    assert_eq!(content_hash_outcome(Ok(vec![])).unwrap(), "");
    let failed = content_hash_outcome(Err(HashError { cause: ErrorStack::get() }));
    assert!(failed.is_err());
}
