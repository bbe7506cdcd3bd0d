use dumpling::store::derived_file_name;

/// The derived name is the lowercase hex of the content's SHA-256
/// digest plus the entry extension; checked against the well-known
/// digest of "abc".
#[test]
fn derived_name_known_digest() {
    let content: Vec<u8> = b"abc".to_vec();
    assert_eq!(
        derived_file_name(&content),
        "ba7816bf8f01cfea414140de5dae2223b00361a396177a9cb410ff61f20015ad.toml"
    );
}

/// The well-known digest of the empty input.
#[test]
fn derived_name_empty_content() {
    let content: Vec<u8> = Vec::new();
    assert_eq!(
        derived_file_name(&content),
        "e3b0c44298fc1c149afbf4c8996fb92427ae41e4649b934ca495991b7852b855.toml"
    );
}

/// Identical content derives the identical name; distinct content
/// derives a distinct name.
#[test]
fn derived_name_deterministic() {
    let a: Vec<u8> = b"title = \"x\"\n".to_vec();
    let b: Vec<u8> = b"title = \"y\"\n".to_vec();
    assert_eq!(derived_file_name(&a), derived_file_name(&a));
    assert_ne!(derived_file_name(&a), derived_file_name(&b));
}
