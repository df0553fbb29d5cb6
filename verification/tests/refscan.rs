use snix_refs::reader::{read_amount, FillStep, ReferenceReaderState, RewritingReaderState};
use snix_refs::ingest::{
    dir_entry_to_ingestion_entry, dir_entry_to_ingestion_entry_with_rewrites, EntryData, Error, FileKind,
    IngestionEntry,
};
use snix_refs::refscan::{
    check_matches, find_matches, rewrite_in_place, Match, ReferencePattern, ReferenceScanner, RewriteEntry,
    RewritePattern,
};

// The actual derivation of `nixpkgs.hello`.
const HELLO_DRV: &str = r#"Derive([("out","/nix/store/33l4p0pn0mybmqzaxfkpppyh7vx1c74p-hello-2.12.1","","")],[("/nix/store/6z1jfnqqgyqr221zgbpm30v91yfj3r45-bash-5.1-p16.drv",["out"]),("/nix/store/ap9g09fxbicj836zm88d56dn3ff4clxl-stdenv-linux.drv",["out"]),("/nix/store/pf80kikyxr63wrw56k00i1kw6ba76qik-hello-2.12.1.tar.gz.drv",["out"])],["/nix/store/9krlzvny65gdc8s7kpb6lkx8cd02c25b-default-builder.sh"],"x86_64-linux","/nix/store/4xw8n979xpivdc46a9ndcvyhwgif00hz-bash-5.1-p16/bin/bash",["-e","/nix/store/9krlzvny65gdc8s7kpb6lkx8cd02c25b-default-builder.sh"],[("buildInputs",""),("builder","/nix/store/4xw8n979xpivdc46a9ndcvyhwgif00hz-bash-5.1-p16/bin/bash"),("cmakeFlags",""),("configureFlags",""),("depsBuildBuild",""),("depsBuildBuildPropagated",""),("depsBuildTarget",""),("depsBuildTargetPropagated",""),("depsHostHost",""),("depsHostHostPropagated",""),("depsTargetTarget",""),("depsTargetTargetPropagated",""),("doCheck","1"),("doInstallCheck",""),("mesonFlags",""),("name","hello-2.12.1"),("nativeBuildInputs",""),("out","/nix/store/33l4p0pn0mybmqzaxfkpppyh7vx1c74p-hello-2.12.1"),("outputs","out"),("patches",""),("pname","hello"),("propagatedBuildInputs",""),("propagatedNativeBuildInputs",""),("src","/nix/store/pa10z4ngm0g83kx9mssrqzz30s84vq7k-hello-2.12.1.tar.gz"),("stdenv","/nix/store/cp65c8nk29qq5cl1wyy5qyw103cwmax7-stdenv-linux"),("strictDeps",""),("system","x86_64-linux"),("version","2.12.1")])"#;

/// Stand-in for the multi-pattern searcher: leftmost, non-overlapping
/// occurrences, the first listed needle winning at a position.
fn find(needles: &[Vec<u8>], hay: &[u8]) -> Vec<Match> {
    let mut out = Vec::new();
    let mut i = 0;
    'outer: while i < hay.len() {
        for (idx, n) in needles.iter().enumerate() {
            if !n.is_empty() && hay[i..].starts_with(n) {
                out.push(Match { pat_idx: idx, start: i });
                i += n.len();
                continue 'outer;
            }
        }
        i += 1;
    }
    out
}

fn contains(hay: &[u8], needle: &[u8]) -> bool {
    hay.windows(needle.len()).any(|w| w == needle)
}

fn strs(v: &[&str]) -> Vec<Vec<u8>> {
    v.iter().map(|s| s.as_bytes().to_vec()).collect()
}

fn scan_all(scanner: &mut ReferenceScanner, hay: &[u8]) {
    let found = find(scanner.pattern().candidates(), hay);
    assert!(check_matches(scanner.pattern().candidates(), hay, &found));
    scanner.scan(hay, &found);
}

#[test]
fn test_no_patterns() {
    let mut scanner = ReferenceScanner::new(ReferencePattern::new(vec![]));

    scan_all(&mut scanner, HELLO_DRV.as_bytes());

    let result = scanner.finalise();

    assert_eq!(result.len(), 0);
}

#[test]
fn test_single_match() {
    let mut scanner = ReferenceScanner::new(ReferencePattern::new(strs(&[
        "/nix/store/4xw8n979xpivdc46a9ndcvyhwgif00hz-bash-5.1-p16",
    ])));
    scan_all(&mut scanner, HELLO_DRV.as_bytes());

    let result = scanner.finalise();

    assert_eq!(result.len(), 1);
    assert!(result.contains(&b"/nix/store/4xw8n979xpivdc46a9ndcvyhwgif00hz-bash-5.1-p16".to_vec()));
}

#[test]
fn test_multiple_matches() {
    let candidates = strs(&[
        // these exist in the drv:
        "/nix/store/33l4p0pn0mybmqzaxfkpppyh7vx1c74p-hello-2.12.1",
        "/nix/store/pf80kikyxr63wrw56k00i1kw6ba76qik-hello-2.12.1.tar.gz.drv",
        "/nix/store/cp65c8nk29qq5cl1wyy5qyw103cwmax7-stdenv-linux",
        // this doesn't:
        "/nix/store/fn7zvafq26f0c8b17brs7s95s10ibfzs-emacs-28.2.drv",
    ]);

    let mut scanner = ReferenceScanner::new(ReferencePattern::new(candidates.clone()));
    scan_all(&mut scanner, HELLO_DRV.as_bytes());

    let result = scanner.finalise();
    assert_eq!(result.len(), 3);

    for c in candidates[..3].iter() {
        assert!(result.contains(c));
    }
}

/// Drives a scanning reader over `chunks` (one read per chunk, a read
/// taking at most the spare capacity), returning everything read out.
fn drive_scanning(scanner: &mut ReferenceScanner, capacity: usize, chunks: &[&[u8]]) -> Vec<u8> {
    let mut state = ReferenceReaderState::with_capacity(capacity, scanner.pattern().longest_candidate());
    let mut pending: Vec<Vec<u8>> = chunks.iter().rev().map(|c| c.to_vec()).collect();
    let mut out = Vec::new();
    loop {
        let (start, end) = match state.begin_fill() {
            FillStep::Ready { start, end } => (start, end),
            FillStep::NeedRead { spare } => {
                loop {
                    let data = match pending.pop() {
                        Some(mut c) => {
                            if c.len() > spare {
                                let rest = c.split_off(spare);
                                pending.push(rest);
                            }
                            c
                        }
                        None => Vec::new(),
                    };
                    let more = state.after_read(&data);
                    if !more {
                        break;
                    }
                }
                let found = find(scanner.pattern().candidates(), state.buffer());
                state.finish_fill(scanner, &found)
            }
        };
        if start == end {
            break;
        }
        let amt = read_amount(1 << 20, end - start);
        out.extend_from_slice(&state.buffer()[start..start + amt]);
        state.consume(amt);
    }
    out
}

#[test]
fn test_reference_reader() {
    for (chunk_size, capacity) in [(8096, 8096), (8096, 1), (1, 8096), (1, 1)] {
        let candidates = strs(&[
            // these exist in the drv:
            "33l4p0pn0mybmqzaxfkpppyh7vx1c74p",
            "pf80kikyxr63wrw56k00i1kw6ba76qik",
            "cp65c8nk29qq5cl1wyy5qyw103cwmax7",
            // this doesn't:
            "fn7zvafq26f0c8b17brs7s95s10ibfzs",
        ]);
        let mut scanner = ReferenceScanner::new(ReferencePattern::new(candidates.clone()));
        let chunks: Vec<&[u8]> = HELLO_DRV.as_bytes().chunks(chunk_size).collect();
        let out = drive_scanning(&mut scanner, capacity, &chunks);
        assert_eq!(String::from_utf8(out).unwrap(), HELLO_DRV);

        let result = scanner.finalise();
        assert_eq!(result.len(), 3);

        for c in candidates[..3].iter() {
            assert!(result.contains(c));
        }
    }
}

#[test]
fn test_reference_reader_no_patterns() {
    let mut scanner = ReferenceScanner::new(ReferencePattern::new(vec![]));
    let out = drive_scanning(&mut scanner, 8 * 1024, &[HELLO_DRV.as_bytes()]);
    assert_eq!(String::from_utf8(out).unwrap(), HELLO_DRV);

    let result = scanner.finalise();
    assert_eq!(result.len(), 0);
}

fn rewrite(needle: &str, replacement: &[u8]) -> RewriteEntry {
    RewriteEntry {
        needle: needle.as_bytes().to_vec(),
        replacement: replacement.to_vec(),
        record_positions: false,
    }
}

fn self_mask(needle: &str, replacement: &[u8]) -> RewriteEntry {
    RewriteEntry {
        needle: needle.as_bytes().to_vec(),
        replacement: replacement.to_vec(),
        record_positions: true,
    }
}

fn needles(p: &RewritePattern) -> Vec<Vec<u8>> {
    p.entries().iter().map(|e| e.needle.clone()).collect()
}

fn rewrite_all(p: &RewritePattern, bytes: &mut Vec<u8>, base: u64) -> std::collections::BTreeSet<u64> {
    let found = find(&needles(p), bytes);
    assert!(check_matches(&needles(p), bytes, &found));
    rewrite_in_place(p, bytes, base, &found)
}

fn hello_pattern() -> RewritePattern {
    RewritePattern::new(vec![
        rewrite("cp65c8nk29qq5cl1wyy5qyw103cwmax7", b"BBBBBBBBBBBBBBBBBBBBBBBBBBBBBBBB"),
        rewrite("pf80kikyxr63wrw56k00i1kw6ba76qik", b"CCCCCCCCCCCCCCCCCCCCCCCCCCCCCCCC"),
        self_mask("33l4p0pn0mybmqzaxfkpppyh7vx1c74p", b"00000000000000000000000000000000"),
    ])
}

#[test]
fn rewrite_in_place_substitutes_and_records_positions() {
    // Self-mask: the hello output hash appears twice in HELLO_DRV (in the
    // outputs list and in the env `out` binding) — both should be zeroed
    // and recorded.
    let pattern = hello_pattern();
    let mut bytes = HELLO_DRV.as_bytes().to_vec();
    let positions = rewrite_all(&pattern, &mut bytes, 0);
    let rewritten = std::str::from_utf8(&bytes).expect("ascii in, ascii out");

    assert!(rewritten.contains("BBBBBBBBBBBBBBBBBBBBBBBBBBBBBBBB-stdenv-linux"));
    assert!(rewritten.contains("CCCCCCCCCCCCCCCCCCCCCCCCCCCCCCCC-hello-2.12.1.tar.gz.drv"));
    assert!(!rewritten.contains("cp65c8nk29qq5cl1wyy5qyw103cwmax7"));
    assert!(!rewritten.contains("pf80kikyxr63wrw56k00i1kw6ba76qik"));

    assert_eq!(positions.len(), 2);
    assert!(!rewritten.contains("33l4p0pn0mybmqzaxfkpppyh7vx1c74p"));
    for &p in &positions {
        let p = p as usize;
        assert_eq!(&bytes[p..p + 32], b"00000000000000000000000000000000");
    }
}

#[test]
fn rewrite_in_place_no_patterns() {
    let pattern = RewritePattern::new(Vec::new());
    let mut bytes = HELLO_DRV.as_bytes().to_vec();
    let positions = rewrite_all(&pattern, &mut bytes, 0);
    assert_eq!(positions.len(), 0);
    assert_eq!(std::str::from_utf8(&bytes).unwrap(), HELLO_DRV);
}

#[test]
fn rewrite_in_place_short_haystack() {
    let pattern = RewritePattern::new(vec![rewrite(
        "33l4p0pn0mybmqzaxfkpppyh7vx1c74p",
        b"AAAAAAAAAAAAAAAAAAAAAAAAAAAAAAAA",
    )]);
    // Shorter than longest_candidate and without an occurrence: left as it is.
    let mut bytes = b"short".to_vec();
    let positions = rewrite_all(&pattern, &mut bytes, 0);
    assert!(positions.is_empty());
    assert_eq!(&bytes, b"short");
}

#[test]
fn rewrite_in_place_offsets_are_absolute() {
    let pattern = RewritePattern::new(vec![self_mask("abc", b"xyz")]);
    let mut bytes = b"--abc--abc".to_vec();
    let positions = rewrite_all(&pattern, &mut bytes, 100);
    assert_eq!(&bytes, b"--xyz--xyz");
    assert_eq!(positions.into_iter().collect::<Vec<_>>(), vec![102, 107]);
}

/// Drives a rewriting reader over `chunks`, returning what it hands out.
fn drive_rewriting(
    pattern: &RewritePattern,
    state: &mut RewritingReaderState,
    chunks: &[&[u8]],
) -> Vec<u8> {
    let mut pending: Vec<Vec<u8>> = chunks.iter().rev().map(|c| c.to_vec()).collect();
    let mut out = Vec::new();
    loop {
        let (start, end) = match state.begin_fill() {
            FillStep::Ready { start, end } => (start, end),
            FillStep::NeedRead { spare } => {
                loop {
                    let data = match pending.pop() {
                        Some(mut c) => {
                            if c.len() > spare {
                                let rest = c.split_off(spare);
                                pending.push(rest);
                            }
                            c
                        }
                        None => Vec::new(),
                    };
                    let more = state.after_read(&data);
                    if !more {
                        break;
                    }
                }
                let found = find(&needles(pattern), state.buffer());
                state.finish_fill(pattern, &found)
            }
        };
        if start == end {
            match state.begin_fill() {
                FillStep::Ready { start: s, end: e } if s == e => break,
                _ => continue,
            }
        }
        let amt = read_amount(1 << 20, end - start);
        out.extend_from_slice(&state.buffer()[start..start + amt]);
        state.consume(amt);
    }
    out
}

#[test]
fn rewriting_reference_reader_streams_correctly() {
    for (chunk_size, capacity) in [(8096, 8096), (8096, 64), (64, 8096), (64, 64)] {
        let pattern = hello_pattern();
        let chunks: Vec<&[u8]> = HELLO_DRV.as_bytes().chunks(chunk_size).collect();
        let mut state = RewritingReaderState::with_capacity(capacity, pattern.longest_candidate());
        let out = drive_rewriting(&pattern, &mut state, &chunks);

        let s = std::str::from_utf8(&out).expect("ascii in, ascii out");
        assert!(s.contains("BBBBBBBBBBBBBBBBBBBBBBBBBBBBBBBB-stdenv-linux"));
        assert!(s.contains("CCCCCCCCCCCCCCCCCCCCCCCCCCCCCCCC-hello-2.12.1.tar.gz.drv"));
        assert!(!s.contains("cp65c8nk29qq5cl1wyy5qyw103cwmax7"));
        assert!(!s.contains("pf80kikyxr63wrw56k00i1kw6ba76qik"));
        assert!(!s.contains("33l4p0pn0mybmqzaxfkpppyh7vx1c74p"));

        let positions = state.take_positions();
        assert_eq!(positions.len(), 2, "two self-mask occurrences expected");
        for &p in &positions {
            let p = p as usize;
            assert_eq!(&out[p..p + 32], b"00000000000000000000000000000000");
        }
    }
}

#[test]
fn rewriting_reference_reader_passes_through_with_no_patterns() {
    for (chunk_size, capacity) in [(8096, 8096), (8096, 64), (64, 8096), (64, 64)] {
        let pattern = RewritePattern::new(Vec::new());
        let chunks: Vec<&[u8]> = HELLO_DRV.as_bytes().chunks(chunk_size).collect();
        let mut state = RewritingReaderState::with_capacity(capacity, pattern.longest_candidate());
        let out = drive_rewriting(&pattern, &mut state, &chunks);

        assert_eq!(std::str::from_utf8(&out).unwrap(), HELLO_DRV);
        assert!(state.take_positions().is_empty());
    }
}

#[test]
fn rewriting_reference_reader_finds_match_across_chunk_boundary() {
    // Place the needle so it straddles two consecutive reads.
    let needle = "33l4p0pn0mybmqzaxfkpppyh7vx1c74p";
    let replacement = b"AAAAAAAAAAAAAAAAAAAAAAAAAAAAAAAA";
    let prefix = "lorem ipsum dolor sit amet";
    let suffix = " - tail";
    let haystack = format!("{}{}{}", prefix, needle, suffix);

    // Split the chunk halfway through the needle.
    let split = prefix.len() + needle.len() / 2;
    let (left, right) = haystack.split_at(split);

    let pattern = RewritePattern::new(vec![self_mask(needle, replacement)]);
    let mut state = RewritingReaderState::with_capacity(64, pattern.longest_candidate());
    let out = drive_rewriting(&pattern, &mut state, &[left.as_bytes(), right.as_bytes()]);

    let s = std::str::from_utf8(&out).unwrap();
    assert!(!s.contains(needle));
    assert!(s.contains(prefix));
    assert!(s.contains(suffix));

    let positions = state.take_positions();
    assert_eq!(positions.len(), 1);
    let p = *positions.iter().next().unwrap() as usize;
    assert_eq!(p, prefix.len());
    assert_eq!(&out[p..p + 32], replacement);
}

#[test]
fn rewriting_reader_holds_back_the_overlap() {
    let pattern = RewritePattern::new(vec![rewrite("abcd", b"wxyz")]);
    let mut state = RewritingReaderState::with_capacity(64, pattern.longest_candidate());
    match state.begin_fill() {
        FillStep::NeedRead { spare } => assert_eq!(spare, 64),
        other => panic!("expected a read, got {:?}", other),
    }
    assert!(!state.after_read(b"0123456789"));
    let found = find(&needles(&pattern), state.buffer());
    // 10 bytes buffered, the last 3 are held back until more input comes
    assert_eq!(state.finish_fill(&pattern, &found), (0, 7));
}

#[test]
fn scanner_flags_follow_matches() {
    let mut scanner = ReferenceScanner::new(ReferencePattern::new(strs(&["ab", "cd", "ef"])));
    assert_eq!(scanner.matches(), vec![false, false, false]);
    scan_all(&mut scanner, b"xxcdxx");
    assert_eq!(scanner.matches(), vec![false, true, false]);
    // a haystack with no occurrence leaves the flags as they are
    scan_all(&mut scanner, b"a");
    assert_eq!(scanner.matches(), vec![false, true, false]);
    assert_eq!(scanner.candidate_matches(), vec![b"cd".to_vec()]);
    assert_eq!(scanner.pattern().longest_candidate(), 2);
}

#[test]
fn check_matches_rejects_bad_reports() {
    let needles = strs(&["ab", "b"]);
    assert!(check_matches(&needles, b"abab", &[Match { pat_idx: 0, start: 0 }, Match { pat_idx: 0, start: 2 }]));
    // wrong bytes
    assert!(!check_matches(&needles, b"abab", &[Match { pat_idx: 0, start: 1 }]));
    // overlapping
    assert!(!check_matches(&needles, b"abab", &[Match { pat_idx: 0, start: 0 }, Match { pat_idx: 1, start: 1 }]));
    // unknown needle
    assert!(!check_matches(&needles, b"abab", &[Match { pat_idx: 2, start: 0 }]));
}

#[test]
fn check_matches_rejects_incomplete_reports() {
    let needles = strs(&["ab", "b"]);
    // the second occurrence of `ab` is missing
    assert!(!check_matches(&needles, b"abab", &[Match { pat_idx: 0, start: 0 }]));
    // nothing reported although `b` occurs
    assert!(!check_matches(&needles, b"xb", &[]));
    // nothing to report
    assert!(check_matches(&needles, b"xyz", &[]));
    // an empty needle needs no report
    assert!(check_matches(&strs(&[""]), b"xyz", &[]));
}

#[test]
fn find_matches_reports_leftmost_non_overlapping_occurrences() {
    let needles = strs(&["ab", "b"]);
    assert_eq!(
        find_matches(&needles, b"abab"),
        vec![Match { pat_idx: 0, start: 0 }, Match { pat_idx: 0, start: 2 }]
    );
    assert_eq!(find_matches(&needles, b"xbb"), vec![Match { pat_idx: 1, start: 1 }, Match { pat_idx: 1, start: 2 }]);
    assert_eq!(find_matches(&needles, b""), vec![]);
    assert_eq!(find_matches(&strs(&[""]), b"abc"), vec![]);
    let hay = HELLO_DRV.as_bytes();
    let ns = needles_of(&hello_pattern());
    let found = find_matches(&ns, hay);
    assert!(check_matches(&ns, hay, &found));
    assert_eq!(found, find(&ns, hay));
}

fn needles_of(p: &RewritePattern) -> Vec<Vec<u8>> {
    needles(p)
}

#[test]
fn short_haystack_is_rewritten() {
    // shorter than the longest needle, the haystack is still rewritten
    let pattern = RewritePattern::new(vec![self_mask("ab", b"XY"), rewrite("abcdef", b"UVWXYZ")]);
    let mut bytes = b"xab".to_vec();
    let positions = rewrite_all(&pattern, &mut bytes, 0);
    assert_eq!(&bytes, b"xXY");
    assert_eq!(positions.into_iter().collect::<Vec<_>>(), vec![1]);
}

#[test]
fn short_haystack_is_scanned() {
    let mut scanner = ReferenceScanner::new(ReferencePattern::new(strs(&["ab", "abcdef"])));
    scan_all(&mut scanner, b"xab");
    assert_eq!(scanner.matches(), vec![true, false]);
}

/// A blob store that gives each blob its own bytes as digest, so that a
/// test sees what was uploaded.
fn echo_upload(b: &[u8]) -> Result<Vec<u8>, Error> {
    Ok(b.to_vec())
}

#[test]
fn other_file_kinds_are_rejected_with_their_kind() {
    let mut scanner: Option<ReferenceScanner> = None;
    match dir_entry_to_ingestion_entry(
        echo_upload,
        b"dev/null".to_vec(),
        EntryData::Other { kind: FileKind::CharDevice },
        &mut scanner,
        &[],
    ) {
        Err(Error::FileType(p, k)) => {
            assert_eq!(p, b"dev/null".to_vec());
            assert_eq!(k, FileKind::CharDevice);
        }
        other => panic!("unexpected {:?}", other),
    }
    let pattern = RewritePattern::new(vec![]);
    match dir_entry_to_ingestion_entry_with_rewrites(
        echo_upload,
        b"fifo".to_vec(),
        EntryData::Other { kind: FileKind::Fifo },
        &pattern,
        &[],
    ) {
        Err(Error::FileType(p, k)) => {
            assert_eq!(p, b"fifo".to_vec());
            assert_eq!(k, FileKind::Fifo);
        }
        other => panic!("unexpected {:?}", other),
    }
}

#[test]
fn regular_file_contents_are_scanned_and_uploaded() {
    let mut scanner = Some(ReferenceScanner::new(ReferencePattern::new(strs(&["ab", "cd"]))));
    let contents = b"xxcdxx".to_vec();
    let found = find(&strs(&["ab", "cd"]), &contents);
    match dir_entry_to_ingestion_entry(
        echo_upload,
        b"x".to_vec(),
        EntryData::Regular { size: 6, mode: 0o755, contents: contents.clone() },
        &mut scanner,
        &found,
    ) {
        Ok(IngestionEntry::Regular { path, size, executable, digest }) => {
            assert_eq!((path, size, executable, digest), (b"x".to_vec(), 6, true, contents));
        }
        other => panic!("unexpected {:?}", other),
    }
    assert_eq!(scanner.unwrap().matches(), vec![false, true]);
}

#[test]
fn regular_file_contents_are_rewritten_before_upload() {
    let pattern = RewritePattern::new(vec![rewrite("ab", b"XY")]);
    let contents = b"-ab-".to_vec();
    let found = find(&needles(&pattern), &contents);
    match dir_entry_to_ingestion_entry_with_rewrites(
        echo_upload,
        b"f".to_vec(),
        EntryData::Regular { size: 4, mode: 0o644, contents },
        &pattern,
        &found,
    ) {
        Ok(IngestionEntry::Regular { digest, executable, .. }) => {
            assert_eq!(digest, b"-XY-".to_vec());
            assert!(!executable);
        }
        other => panic!("unexpected {:?}", other),
    }
}

#[test]
fn upload_errors_are_returned() {
    let failing = |_b: &[u8]| -> Result<Vec<u8>, Error> {
        Err(Error::BlobFinalize(b"f".to_vec(), std::io::Error::new(std::io::ErrorKind::Other, "full")))
    };
    let mut scanner: Option<ReferenceScanner> = None;
    match dir_entry_to_ingestion_entry(
        failing,
        b"f".to_vec(),
        EntryData::Regular { size: 1, mode: 0, contents: b"z".to_vec() },
        &mut scanner,
        &[],
    ) {
        Err(Error::BlobFinalize(p, _)) => assert_eq!(p, b"f".to_vec()),
        other => panic!("unexpected {:?}", other),
    }
}

#[test]
fn scanner_flags_every_candidate_that_occurs() {
    let mut scanner = ReferenceScanner::new(ReferencePattern::new(strs(&["ab", "cd", "ef"])));
    scan_all(&mut scanner, b"cd--ab--ab");
    assert_eq!(scanner.matches(), vec![true, true, false]);
}

#[test]
fn rewriting_reader_ends_with_an_empty_range() {
    let pattern = RewritePattern::new(vec![rewrite("abcd", b"wxyz")]);
    let mut state = RewritingReaderState::with_capacity(64, pattern.longest_candidate());
    assert!(matches!(state.begin_fill(), FillStep::NeedRead { .. }));
    assert!(!state.after_read(b"01abcd"));
    let found = find(&needles(&pattern), state.buffer());
    assert_eq!(state.finish_fill(&pattern, &found), (0, 3));
    state.consume(3);
    // nothing more to hand out before more input: read again, hit the end
    assert!(matches!(state.begin_fill(), FillStep::NeedRead { .. }));
    assert!(!state.after_read(b""));
    let found = find(&needles(&pattern), state.buffer());
    assert_eq!(state.finish_fill(&pattern, &found), (0, 3));
    assert_eq!(state.buffer().as_slice(), b"xyz");
    state.consume(3);
    // everything read was handed out: the range is empty from now on
    assert_eq!(state.begin_fill(), FillStep::Ready { start: 3, end: 3 });
}

#[test]
fn streamed_rewrite_equals_one_shot_rewrite() {
    let pattern = hello_pattern();
    let mut one_shot = HELLO_DRV.as_bytes().to_vec();
    let positions = rewrite_all(&pattern, &mut one_shot, 0);
    for chunk_size in [1, 7, 31, 32, 33, 100, 4096] {
        for capacity in [33, 64, 1000] {
            let chunks: Vec<&[u8]> = HELLO_DRV.as_bytes().chunks(chunk_size).collect();
            let mut state = RewritingReaderState::with_capacity(capacity, pattern.longest_candidate());
            let out = drive_rewriting(&pattern, &mut state, &chunks);
            assert_eq!(out, one_shot, "chunks of {} into capacity {}", chunk_size, capacity);
            assert_eq!(state.take_positions(), positions);
        }
    }
}

#[test]
fn streamed_scan_flags_the_candidates_that_occur() {
    let cands = strs(&[
        "33l4p0pn0mybmqzaxfkpppyh7vx1c74p",
        "0000000000000000000000000000000000000",
        "pf80kikyxr63wrw56k00i1kw6ba76qik",
    ]);
    for chunk_size in [1, 5, 32, 33, 4096] {
        for capacity in [1, 40, 8096] {
            let mut scanner = ReferenceScanner::new(ReferencePattern::new(cands.clone()));
            let chunks: Vec<&[u8]> = HELLO_DRV.as_bytes().chunks(chunk_size).collect();
            let out = drive_scanning(&mut scanner, capacity, &chunks);
            assert_eq!(out, HELLO_DRV.as_bytes());
            let expected: Vec<bool> = cands.iter().map(|c| contains(HELLO_DRV.as_bytes(), c)).collect();
            assert_eq!(scanner.matches(), expected);
        }
    }
}
