use version_control::utils::{calculate_hash_bytes, generate_commit_id, to_hex_lower};

#[test]
fn hash_of_empty_content() {
    assert_eq!(
        calculate_hash_bytes(b""),
        "e3b0c44298fc1c149afbf4c8996fb92427ae41e4649b934ca495991b7852b855"
    );
}

#[test]
fn hash_of_hello() {
    assert_eq!(
        calculate_hash_bytes(b"hello"),
        "2cf24dba5fb0a30e26e83b2ac5b9e29e1b161e5c1fa7425e73043362938b9824"
    );
}

#[test]
fn hash_of_abc_has_64_lowercase_digits() {
    let h = calculate_hash_bytes(b"abc");
    assert_eq!(h, "ba7816bf8f01cfea414140de5dae2223b00361a396177a9cb410ff61f20015ad");
    assert_eq!(h.len(), 64);
    assert!(h.chars().all(|c| c.is_ascii_digit() || ('a'..='f').contains(&c)));
}

#[test]
fn hex_encoding_of_bytes() {
    assert_eq!(to_hex_lower(&[0x00, 0x0a, 0xff, 0x10]), "000aff10");
    assert_eq!(to_hex_lower(&[]), "");
}

#[test]
fn commit_ids_are_hyphenated_v4_uuids() {
    let id = generate_commit_id();
    assert_eq!(id.len(), 36);
    for (i, c) in id.chars().enumerate() {
        if i == 8 || i == 13 || i == 18 || i == 23 {
            assert_eq!(c, '-');
        } else {
            assert!(c.is_ascii_digit() || ('a'..='f').contains(&c));
        }
    }
    assert_eq!(id.chars().nth(14), Some('4'));
    assert!(matches!(id.chars().nth(19), Some('8') | Some('9') | Some('a') | Some('b')));
}

#[test]
fn commit_ids_differ() {
    assert_ne!(generate_commit_id(), generate_commit_id());
}
