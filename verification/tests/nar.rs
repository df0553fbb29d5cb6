use snix_refs::nar::{is_executable, nar, NarEntry, NarNode};
use snix_refs::nar_hash::{calculate_nar_hash, format_nar_hash};
use snix_refs::nixhash::{HashAlgo, NixHash};

fn wire(s: &[u8]) -> Vec<u8> {
    let mut v = (s.len() as u64).to_le_bytes().to_vec();
    v.extend_from_slice(s);
    while v.len() % 8 != 0 {
        v.push(0);
    }
    v
}

fn regular(contents: &[u8]) -> NarNode {
    NarNode::Regular { executable: false, contents: contents.to_vec() }
}

#[test]
fn empty_file_nar_hash() {
    let (hash, size) = calculate_nar_hash(&regular(b""), None).unwrap();
    assert_eq!(size, 112);
    assert_eq!(format_nar_hash(&hash), "sha256:0ip26j2h11n1kgkz36rl4akv694yz65hr72q4kv4b3lxcbi65b3p");
}

#[test]
fn regular_file_archive_bytes() {
    let mut expected = wire(b"nix-archive-1");
    for t in [&b"("[..], b"type", b"regular", b"contents", b"Hello World!", b")"] {
        expected.extend(wire(t));
    }
    assert_eq!(nar(&regular(b"Hello World!")), expected);
    let (hash, size) = calculate_nar_hash(&regular(b"Hello World!"), None).unwrap();
    assert_eq!(size, 128);
    assert_eq!(format_nar_hash(&hash), "sha256:0h40zg6hakjv951nyhdad7mv9za56m3za5gnpiw5s1hbwcxzdrq3");
}

#[test]
fn executable_and_symlink_archive_bytes() {
    let mut expected = wire(b"nix-archive-1");
    for t in [&b"("[..], b"type", b"regular", b"executable", b"", b"contents", b"x", b")"] {
        expected.extend(wire(t));
    }
    assert_eq!(nar(&NarNode::Regular { executable: true, contents: b"x".to_vec() }), expected);

    let mut expected = wire(b"nix-archive-1");
    for t in [&b"("[..], b"type", b"symlink", b"target", b"/nix/store/x", b")"] {
        expected.extend(wire(t));
    }
    assert_eq!(nar(&NarNode::Symlink { target: b"/nix/store/x".to_vec() }), expected);
}

#[test]
fn directory_entries_are_sorted_and_dots_skipped() {
    let dir = NarNode::Directory {
        entries: vec![
            NarEntry { name: b"b".to_vec(), node: regular(b"2") },
            NarEntry { name: b".".to_vec(), node: regular(b"dot") },
            NarEntry { name: b"a".to_vec(), node: regular(b"1") },
            NarEntry { name: b"..".to_vec(), node: regular(b"dotdot") },
        ],
    };
    let mut expected = wire(b"nix-archive-1");
    for t in [&b"("[..], b"type", b"directory"] {
        expected.extend(wire(t));
    }
    for (name, contents) in [(&b"a"[..], &b"1"[..]), (b"b", b"2")] {
        for t in [&b"entry"[..], b"(", b"name", name, b"node", b"(", b"type", b"regular", b"contents", contents, b")", b")"] {
            expected.extend(wire(t));
        }
    }
    expected.extend(wire(b")"));
    assert_eq!(nar(&dir), expected);
}

#[test]
fn executable_bits() {
    assert!(is_executable(0o755));
    assert!(is_executable(0o001));
    assert!(!is_executable(0o644));
}

#[test]
fn format_other_algorithms() {
    assert_eq!(format_nar_hash(&NixHash::Md5([0u8; 16])), format!("md5:{}", "0".repeat(26)));
    assert_eq!(format_nar_hash(&NixHash::Sha1([0u8; 20])), format!("sha1:{}", "0".repeat(32)));
    assert_eq!(format_nar_hash(&NixHash::Sha512(Box::new([0u8; 64]))), format!("sha512:{}", "0".repeat(103)));
}

#[test]
fn hash_test_hash_known_path() {
    // This test is skipped if the path doesn't exist
    let path = std::path::Path::new("/nix/store/9bwryidal9q3g91cjm6xschfn4ikd82q-hello-2.12.1");
    if !path.exists() {
        return;
    }
    panic!("the tree at {:?} would have to be read into a NarNode first", path);
}

#[test]
fn nar_hash_under_each_algorithm() {
    let (h256, size) = calculate_nar_hash(&regular(b""), Some(HashAlgo::Sha256)).unwrap();
    assert_eq!(size, 112);
    assert_eq!(
        String::from_utf8(h256.to_nix_hex_bytes()).unwrap(),
        "sha256:77ac62e2629d8e45f624589c0c8bf99e24b3a722349bf1e79bc186008534e246"
    );
    let (h512, size) = calculate_nar_hash(&regular(b"Hello World!"), Some(HashAlgo::Sha512)).unwrap();
    assert_eq!(size, 128);
    assert_eq!(h512.algo(), HashAlgo::Sha512);
    assert_eq!(
        String::from_utf8(h512.to_nix_hex_bytes()).unwrap(),
        "sha512:f238a9e9460aba64ed3913d77accda5d2e7a2ff11d2481f38800b34ad64e069a291e214edc06972e119899f5d386767f7525c4f204f84b0f556363af461af436"
    );
}

#[test]
fn nar_hash_md5_and_sha1() {
    let (h, size) = calculate_nar_hash(&regular(b""), Some(HashAlgo::Md5)).unwrap();
    assert_eq!(size, 112);
    assert_eq!(String::from_utf8(h.to_nix_hex_bytes()).unwrap(), "md5:dbe35227fd596019bace4c5d38d1be23");
    let (h, _) = calculate_nar_hash(&regular(b""), Some(HashAlgo::Sha1)).unwrap();
    assert_eq!(String::from_utf8(h.to_nix_hex_bytes()).unwrap(), "sha1:09b89219a952ebc45146c792f08e24458bb6ee2a");
}

#[test]
fn distinct_hashes_format_differently() {
    let hashes = vec![
        NixHash::Md5([0u8; 16]),
        NixHash::Sha1([0u8; 20]),
        NixHash::Sha256([0u8; 32]),
        NixHash::Sha256([1u8; 32]),
        NixHash::Sha512(Box::new([0u8; 64])),
    ];
    for (i, a) in hashes.iter().enumerate() {
        for (j, b) in hashes.iter().enumerate() {
            assert_eq!(format_nar_hash(a) == format_nar_hash(b), i == j);
        }
    }
}
