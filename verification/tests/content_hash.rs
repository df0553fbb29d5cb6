use snix_refs::content_hash::{
    calculate_nar_hash, format_nar_hash, pass1_rewrite_pattern, rewrite_pattern_from_map,
    rewrite_to_ca_pass1, self_mask_pattern, validate_hash_str, HashError, IoErrorKind, STORE_PATH_HASH_LEN,
};
use snix_refs::nar::{nar, NarEntry, NarNode};
use snix_refs::nixbase32;
use snix_refs::refscan::{check_matches, rewrite_in_place, Match, RewritePattern};
use snix_refs::store_path::StorePath;

// 32-char ASCII strings standing in for nixbase32 store-path hashes.
const HASH_SELF: &str = "aaaaaaaaaaaaaaaaaaaaaaaaaaaaaaaa";
const HASH_DEP: &str = "bbbbbbbbbbbbbbbbbbbbbbbbbbbbbbbb";
const HASH_CA_DEP: &str = "cccccccccccccccccccccccccccccccc";

/// Stand-in for the multi-pattern searcher: leftmost, non-overlapping
/// occurrences, the first listed needle winning at a position.
fn find(needles: &[Vec<u8>], hay: &[u8]) -> Vec<Match> {
    let mut out = Vec::new();
    let mut i = 0;
    'outer: while i < hay.len() {
        for (idx, n) in needles.iter().enumerate() {
            if !n.is_empty() && hay[i..].starts_with(n) {
                out.push(Match { pat_idx: idx, start: i });
                i += n.len();
                continue 'outer;
            }
        }
        i += 1;
    }
    out
}

fn needles(p: &RewritePattern) -> Vec<Vec<u8>> {
    p.entries().iter().map(|e| e.needle.clone()).collect()
}

/// The output directory `out` holding one file `payload`, ingested with the
/// dependency rewrites applied to its contents.
fn fake_output(contents: &str, pattern: &RewritePattern) -> NarNode {
    let mut bytes = contents.as_bytes().to_vec();
    let found = find(&needles(pattern), &bytes);
    assert!(check_matches(&needles(pattern), &bytes, &found));
    rewrite_in_place(pattern, &mut bytes, 0, &found);
    NarNode::Directory {
        entries: vec![NarEntry {
            name: b"payload".to_vec(),
            node: NarNode::Regular { executable: false, contents: bytes },
        }],
    }
}

fn pass1(
    contents: &str,
    name: &str,
    deps: &[(String, String)],
    self_ia_hash: &str,
    refs: &[String],
) -> Result<StorePath, HashError> {
    let pattern = pass1_rewrite_pattern(deps, self_ia_hash)?;
    let tree = fake_output(contents, &pattern);
    let nar_bytes = nar(&tree);
    let self_pattern = self_mask_pattern(self_ia_hash);
    let found = find(&needles(&self_pattern), &nar_bytes);
    assert!(check_matches(&needles(&self_pattern), &nar_bytes, &found));
    rewrite_to_ca_pass1(nar_bytes, name, &self_pattern, refs, &found)
}

fn deps(pairs: &[(&str, &str)]) -> Vec<(String, String)> {
    pairs.iter().map(|(a, b)| (a.to_string(), b.to_string())).collect()
}

#[test]
fn pass1_rewrites_deps_and_self_masks_self_reference() {
    // Contents reference both a dep hash and self. Pass 1 should:
    // - apply the dep rewrite during ingest (so the NAR sees the CA hash)
    // - mask the self-hash before computing the modulo SHA256
    // - tag self_reference=true into build_ca_path
    let contents = format!("first /nix/store/{HASH_SELF}-out, then /nix/store/{HASH_DEP}-dep, more.");
    let deps = deps(&[(HASH_DEP, HASH_CA_DEP)]);
    let refs = vec![format!("/nix/store/{HASH_CA_DEP}-dep")];

    let sp = pass1(&contents, "out", &deps, HASH_SELF, &refs).unwrap();
    // Sanity: name suffix preserved, hash slice differs from any input.
    assert!(sp.to_absolute_path().ends_with("-out"));
    let hash_str = nixbase32::encode(sp.digest());
    assert_ne!(hash_str, HASH_SELF);
    assert_ne!(hash_str, HASH_DEP);

    // Determinism: same inputs → same path.
    let sp2 = pass1(&contents, "out", &deps, HASH_SELF, &refs).unwrap();
    assert_eq!(sp.to_absolute_path(), sp2.to_absolute_path());
}

#[test]
fn pass1_path_changes_when_dep_rewrite_changes() {
    let contents = format!("ref /nix/store/{HASH_DEP}-dep here");
    let refs = vec![format!("/nix/store/{HASH_CA_DEP}-dep")];

    let deps1 = deps(&[(HASH_DEP, HASH_CA_DEP)]);
    let deps2 = deps(&[(HASH_DEP, "eeeeeeeeeeeeeeeeeeeeeeeeeeeeeeee")]);

    let sp1 = pass1(&contents, "out", &deps1, HASH_SELF, &refs).unwrap();
    let sp2 = pass1(&contents, "out", &deps2, HASH_SELF, &refs).unwrap();
    assert_ne!(
        sp1.to_absolute_path(),
        sp2.to_absolute_path(),
        "different dep CA hash must change the synthetic CA path"
    );
}

#[test]
fn pass1_rejects_wrong_length_hash() {
    let deps = deps(&[("too-short", HASH_CA_DEP)]);
    let err = pass1("nothing", "out", &deps, HASH_SELF, &[]).unwrap_err();
    let HashError::IoError(kind, message) = err;
    assert_eq!(kind, IoErrorKind::InvalidInput);
    assert_eq!(message, "store-path hash must be 32 chars (got 9)");
}

#[test]
fn pass1_self_reference_changes_the_path() {
    let refs: Vec<String> = vec![];
    let with_self = pass1(&format!("x {HASH_SELF} y"), "out", &[], HASH_SELF, &refs).unwrap();
    // the same bytes once the self hash is masked, but without a self-reference
    let masked = pass1("x 00000000000000000000000000000000 y", "out", &[], HASH_SELF, &refs);
    let masked = masked.unwrap();
    assert_ne!(with_self.to_absolute_path(), masked.to_absolute_path());
}

#[test]
fn pass1_invalid_output_name_is_an_error() {
    assert!(pass1("x", "bad name", &[], HASH_SELF, &[]).is_err());
}

#[test]
fn validate_hash_lengths() {
    assert_eq!(STORE_PATH_HASH_LEN, 32);
    assert!(validate_hash_str(HASH_SELF).is_ok());
    let HashError::IoError(kind, message) = validate_hash_str("abc").unwrap_err();
    assert_eq!(kind, IoErrorKind::InvalidInput);
    assert_eq!(message, "store-path hash must be 32 chars (got 3)");
}

#[test]
fn rewrite_pattern_from_map_entries() {
    let p = rewrite_pattern_from_map(&deps(&[(HASH_DEP, HASH_CA_DEP)]), Some(HASH_SELF)).unwrap();
    let e = p.entries();
    assert_eq!(e.len(), 2);
    assert_eq!(e[0].needle, HASH_DEP.as_bytes());
    assert_eq!(e[0].replacement, HASH_CA_DEP.as_bytes());
    assert!(!e[0].record_positions);
    assert_eq!(e[1].needle, HASH_SELF.as_bytes());
    assert_eq!(e[1].replacement, vec![0u8; 32]);
    assert!(e[1].record_positions);
    assert!(rewrite_pattern_from_map(&deps(&[(HASH_DEP, "short")]), None).is_err());
    assert!(rewrite_pattern_from_map(&[], Some("short")).is_err());
}

#[test]
fn content_hash_nar_hash_matches() {
    let (hash, size) = calculate_nar_hash(&NarNode::Regular { executable: false, contents: vec![] }, None).unwrap();
    assert_eq!(size, 112);
    assert_eq!(format_nar_hash(&hash), "sha256:0ip26j2h11n1kgkz36rl4akv694yz65hr72q4kv4b3lxcbi65b3p");
}

#[test]
fn content_hash_test_hash_known_path() {
    // This test will be skipped if the path doesn't exist
    let path = std::path::Path::new("/nix/store/9bwryidal9q3g91cjm6xschfn4ikd82q-hello-2.12.1");
    if !path.exists() {
        return;
    }
    panic!("the tree at {:?} would have to be read into a NarNode first", path);
}

#[test]
fn test_with_test_files() {
    // The empty file, a full file and a directory, held in memory. Castore
    // entries are computed by `snix-castore`, not by this library; the NAR
    // half of the check runs here.
    let empty = NarNode::Regular { executable: false, contents: vec![] };
    let full = NarNode::Regular { executable: false, contents: b"Hello World!".to_vec() };
    let dir = NarNode::Directory {
        entries: vec![
            NarEntry { name: b"a".to_vec(), node: NarNode::Regular { executable: true, contents: b"x".to_vec() } },
            NarEntry { name: b"b".to_vec(), node: NarNode::Symlink { target: b"a".to_vec() } },
        ],
    };
    for tree in [empty, full, dir] {
        let (nar_hash, nar_size) = calculate_nar_hash(&tree, None).unwrap();
        assert_eq!(nar_size as usize, nar(&tree).len());
        let formatted = format_nar_hash(&nar_hash);
        assert!(formatted.starts_with("sha256:"));
        assert_eq!(formatted.len(), "sha256:".len() + 52);
    }
}
