use codegraph_kit::hash::{hash_contents, FileHash};

#[test]
fn file_hash_display_is_lowercase_hex() {
    let bytes = [0xab_u8; 32];
    let hash = FileHash::new(bytes);
    let s = hash.to_string();
    assert_eq!(s.len(), 64);
    assert!(s.chars().all(|c| c.is_ascii_hexdigit() && (!c.is_alphabetic() || c.is_lowercase())));
    assert_eq!(s, "ab".repeat(32));
}

#[test]
fn file_hash_as_ref_returns_underlying_bytes() {
    let bytes = [0x42_u8; 32];
    let hash = FileHash::new(bytes);
    let slice: &[u8] = hash.as_ref();
    assert_eq!(slice, &bytes[..]);
}

#[test]
fn file_hash_equality() {
    assert_eq!(FileHash::new([0; 32]), FileHash::new([0; 32]));
    assert_ne!(FileHash::new([0; 32]), FileHash::new([1; 32]));
}

#[test]
fn file_hash_text_puts_high_nibble_first() {
    let mut bytes = [0u8; 32];
    bytes[0] = 0x0f;
    bytes[1] = 0xa0;
    bytes[31] = 0x9c;
    let s = FileHash::new(bytes).to_string();
    assert!(s.starts_with("0fa0"));
    assert!(s.ends_with("9c"));
}

#[test]
fn file_hash_as_bytes_round_trips() {
    let mut bytes = [7u8; 32];
    bytes[3] = 200;
    assert_eq!(FileHash::new(bytes).as_bytes(), &bytes);
}

#[test]
fn hash_contents_is_sha256() {
    let h = hash_contents(b"abc");
    assert_eq!(
        h.to_string(),
        "ba7816bf8f01cfea414140de5dae2223b00361a396177a9cb410ff61f20015ad"
    );
    let empty = hash_contents(b"");
    assert_eq!(
        empty.to_string(),
        "e3b0c44298fc1c149afbf4c8996fb92427ae41e4649b934ca495991b7852b855"
    );
}

#[test]
fn hash_contents_differs_for_different_contents() {
    assert_ne!(hash_contents(b"fn a() {}"), hash_contents(b"fn b() {}"));
    assert_eq!(hash_contents(b"same"), hash_contents(b"same"));
}

#[test]
fn file_hash_debug_text_names_the_type_and_hex() {
    let h = FileHash::new([0xab; 32]);
    assert_eq!(h.debug_text(), format!("FileHash({})", "ab".repeat(32)));
}
