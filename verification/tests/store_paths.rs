use snix_refs::nixbase32;
use snix_refs::nixhash::{CAHash, NixHash};
use snix_refs::store_path::{
    build_ca_path, build_output_path, build_text_path, validate_name, BuildStorePathError,
    StorePathError,
};

#[test]
fn nixbase32_known_values() {
    assert_eq!(nixbase32::encode_bytes(&[]), b"".to_vec());
    assert_eq!(nixbase32::encode_bytes(&[0x1f]), b"0z".to_vec());
    let digest: Vec<u8> = vec![
        0x8a, 0x12, 0x32, 0x15, 0x22, 0xfd, 0x91, 0xef, 0xbd, 0x60, 0xeb, 0xb2, 0x48, 0x1a, 0xf8,
        0x85, 0x80, 0xf6, 0x16, 0x00,
    ];
    assert_eq!(nixbase32::encode_bytes(&digest), b"00bgd045z0d4icpbc2yyz4gx48ak44la".to_vec());
    assert_eq!(nixbase32::encode_len(20), 32);
    assert_eq!(nixbase32::encode_len(32), 52);
}

#[test]
fn build_text_path_with_zero_references() {
    // builtins.toFile "foo" "bar"
    let p = build_text_path(b"foo", b"bar", &[]).expect("valid name");
    assert_eq!(p.to_absolute_path(), "/nix/store/vxjiwkjkn7x4079qvh1jkl5pn05j2aw0-foo");
}

#[test]
fn build_text_path_with_one_reference() {
    // builtins.toFile "baz" "${builtins.toFile "foo" "bar"}"
    let inner = build_text_path(b"foo", b"bar", &[]).unwrap().to_absolute_path();
    let p = build_text_path(b"baz", inner.as_bytes(), &[inner.as_bytes().to_vec()]).unwrap();
    assert_eq!(p.to_absolute_path(), "/nix/store/5xd714cbfnkz02h2vbsj4fm03x3f15nf-baz");
}

#[test]
fn invalid_names_are_rejected() {
    assert_eq!(validate_name(b""), Err(StorePathError::InvalidLength));
    assert_eq!(validate_name(&[b'a'; 212]), Err(StorePathError::InvalidLength));
    assert_eq!(validate_name(&[b'a'; 211]), Ok(()));
    assert_eq!(validate_name(b"foo bar"), Err(StorePathError::InvalidName(b"foo bar".to_vec(), 3)));
    assert_eq!(validate_name(b".hidden"), Err(StorePathError::InvalidName(b".hidden".to_vec(), 0)));
    assert_eq!(validate_name(b"hello-2.12.1.drv"), Ok(()));
    assert!(matches!(
        build_text_path(b"foo/bar", b"", &[]),
        Err(BuildStorePathError::InvalidStorePath(StorePathError::InvalidName(_, 3)))
    ));
}

#[test]
fn content_addresses_restrict_references() {
    let sha1 = NixHash::Sha1([0u8; 20]);
    // references are not allowed for flat or non-SHA-256 NAR hashes
    assert_eq!(
        build_ca_path(b"x", &CAHash::Flat(sha1.clone()), &[b"/nix/store/a".to_vec()], false),
        Err(BuildStorePathError::InvalidReference)
    );
    assert_eq!(
        build_ca_path(b"x", &CAHash::Nar(sha1.clone()), &[b"/nix/store/a".to_vec()], false),
        Err(BuildStorePathError::InvalidReference)
    );
    // self-references only with SHA-256 NAR hashes
    assert_eq!(
        build_ca_path(b"x", &CAHash::Text([0u8; 32]), &[], true),
        Err(BuildStorePathError::InvalidReference)
    );
    assert!(build_ca_path(b"x", &CAHash::Nar(NixHash::Sha256([0u8; 32])), &[], true).is_ok());
    // a self-reference changes the path
    let a = build_ca_path(b"x", &CAHash::Nar(NixHash::Sha256([0u8; 32])), &[], true).unwrap();
    let b = build_ca_path(b"x", &CAHash::Nar(NixHash::Sha256([0u8; 32])), &[], false).unwrap();
    assert_ne!(a.to_absolute_path(), b.to_absolute_path());
}

#[test]
fn output_paths_end_in_the_name() {
    let p = build_output_path(&[1u8; 32], b"out", b"hello-2.12.1").unwrap();
    let s = p.to_absolute_path();
    assert!(s.starts_with("/nix/store/"));
    assert!(s.ends_with("-hello-2.12.1"));
    assert_eq!(s.len(), "/nix/store/".len() + 32 + 1 + "hello-2.12.1".len());
    let q = build_output_path(&[1u8; 32], b"dev", b"hello-2.12.1").unwrap();
    assert_ne!(s, q.to_absolute_path());
}

#[test]
fn nixbase32_distinct_digests_give_distinct_encodings() {
    let base = [0u8; 20];
    let mut seen = std::collections::BTreeSet::new();
    assert!(seen.insert(nixbase32::encode_bytes(&base)));
    for i in 0..20 {
        for bit in 0..8 {
            let mut d = base;
            d[i] ^= 1 << bit;
            assert!(seen.insert(nixbase32::encode_bytes(&d)), "byte {} bit {}", i, bit);
        }
    }
    assert_eq!(seen.len(), 161);
}
