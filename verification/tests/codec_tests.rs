use gitloggraph::git_id::{GitId, IdentityHash, NotHexError};

#[test]
fn decodes_lowercase_hex() {
    let id = GitId::try_from(b"48656c6c6f").unwrap();
    assert_eq!(id.as_bytes(), &vec![0x48u8, 0x65, 0x6c, 0x6c, 0x6f]);
}

#[test]
fn decodes_uppercase_hex() {
    let id = GitId::try_from(b"AF09").unwrap();
    assert_eq!(id.as_bytes(), &vec![0xafu8, 0x09]);
}

#[test]
fn odd_length_pads_low_nibble() {
    let id = GitId::try_from(b"abc").unwrap();
    assert_eq!(id.as_bytes(), &vec![0xabu8, 0xc0]);
}

#[test]
fn empty_input_decodes_empty() {
    let id = GitId::try_from(b"").unwrap();
    assert!(id.as_bytes().is_empty());
}

#[test]
fn non_hex_byte_is_rejected() {
    assert_eq!(GitId::try_from(b"zz").unwrap_err(), NotHexError);
    assert_eq!(GitId::try_from(b"a0g1").unwrap_err(), NotHexError);
    assert_eq!(GitId::try_from(b"a b").unwrap_err(), NotHexError);
}

#[test]
fn hash_reads_first_eight_bytes_little_endian() {
    let id = GitId::try_from(b"0102030405060708090a").unwrap();
    assert_eq!(id.hash(), 0x0807060504030201u64);
}

#[test]
fn identity_hash_passes_key_through() {
    let mut h = IdentityHash::new();
    assert_eq!(h.finish(), 0);
    h.write_u64(0x1234_5678_9abc_def0);
    assert_eq!(h.finish(), 0x1234_5678_9abc_def0);
}

#[test]
fn hash_of_decoded_id_feeds_identity_hash() {
    let id = GitId::try_from(b"f0debc9a78563412ffff").unwrap();
    let mut h = IdentityHash::new();
    h.write_u64(id.hash());
    assert_eq!(h.finish(), 0x1234_5678_9abc_def0);
}
