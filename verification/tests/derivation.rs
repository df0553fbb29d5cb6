use snix_refs::aterm::{aterm_reference_list, find_nth_list_start};
use snix_refs::derivation::{calculate_derivation_path_from_aterm, ca_kind_prefix, output_path_name, DerivationError};
use snix_refs::nixhash::{CAHash, NixHash};
use snix_refs::store_path::build_text_path;

const HELLO_DRV: &str = r#"Derive([("out","/nix/store/33l4p0pn0mybmqzaxfkpppyh7vx1c74p-hello-2.12.1","","")],[("/nix/store/6z1jfnqqgyqr221zgbpm30v91yfj3r45-bash-5.1-p16.drv",["out"]),("/nix/store/ap9g09fxbicj836zm88d56dn3ff4clxl-stdenv-linux.drv",["out"]),("/nix/store/pf80kikyxr63wrw56k00i1kw6ba76qik-hello-2.12.1.tar.gz.drv",["out"])],["/nix/store/9krlzvny65gdc8s7kpb6lkx8cd02c25b-default-builder.sh"],"x86_64-linux","/nix/store/4xw8n979xpivdc46a9ndcvyhwgif00hz-bash-5.1-p16/bin/bash",["-e","/nix/store/9krlzvny65gdc8s7kpb6lkx8cd02c25b-default-builder.sh"],[("buildInputs",""),("builder","/nix/store/4xw8n979xpivdc46a9ndcvyhwgif00hz-bash-5.1-p16/bin/bash"),("cmakeFlags",""),("configureFlags",""),("depsBuildBuild",""),("depsBuildBuildPropagated",""),("depsBuildTarget",""),("depsBuildTargetPropagated",""),("depsHostHost",""),("depsHostHostPropagated",""),("depsTargetTarget",""),("depsTargetTargetPropagated",""),("doCheck","1"),("doInstallCheck",""),("mesonFlags",""),("name","hello-2.12.1"),("nativeBuildInputs",""),("out","/nix/store/33l4p0pn0mybmqzaxfkpppyh7vx1c74p-hello-2.12.1"),("outputs","out"),("patches",""),("pname","hello"),("propagatedBuildInputs",""),("propagatedNativeBuildInputs",""),("src","/nix/store/pa10z4ngm0g83kx9mssrqzz30s84vq7k-hello-2.12.1.tar.gz"),("stdenv","/nix/store/cp65c8nk29qq5cl1wyy5qyw103cwmax7-stdenv-linux"),("strictDeps",""),("system","x86_64-linux"),("version","2.12.1")])"#;

// The input derivations of hello.
fn hello_input_drvs() -> Vec<Vec<u8>> {
    vec![
        b"/nix/store/6z1jfnqqgyqr221zgbpm30v91yfj3r45-bash-5.1-p16.drv".to_vec(),
        b"/nix/store/ap9g09fxbicj836zm88d56dn3ff4clxl-stdenv-linux.drv".to_vec(),
        b"/nix/store/pf80kikyxr63wrw56k00i1kw6ba76qik-hello-2.12.1.tar.gz.drv".to_vec(),
    ]
}

// The references of hello: its input derivations and its input source, in
// increasing order.
fn hello_refs() -> Vec<Vec<u8>> {
    vec![
        b"/nix/store/6z1jfnqqgyqr221zgbpm30v91yfj3r45-bash-5.1-p16.drv".to_vec(),
        b"/nix/store/9krlzvny65gdc8s7kpb6lkx8cd02c25b-default-builder.sh".to_vec(),
        b"/nix/store/ap9g09fxbicj836zm88d56dn3ff4clxl-stdenv-linux.drv".to_vec(),
        b"/nix/store/pf80kikyxr63wrw56k00i1kw6ba76qik-hello-2.12.1.tar.gz.drv".to_vec(),
    ]
}

#[test]
fn references_of_hello() {
    assert_eq!(aterm_reference_list(HELLO_DRV.as_bytes()), hello_refs());
}

#[test]
fn derivation_path_of_hello() {
    let p = calculate_derivation_path_from_aterm("hello-2.12.1", HELLO_DRV.as_bytes()).unwrap();
    let expected = build_text_path(b"hello-2.12.1.drv", HELLO_DRV.as_bytes(), &hello_refs()).unwrap();
    assert_eq!(p, expected.to_absolute_path());
    assert!(p.starts_with("/nix/store/"));
    assert!(p.ends_with("-hello-2.12.1.drv"));
}

#[test]
fn derivation_path_of_text_file() {
    // a derivation text without references is stored like builtins.toFile
    let p = calculate_derivation_path_from_aterm("foo", b"bar").unwrap();
    let expected = build_text_path(b"foo.drv", b"bar", &[]).unwrap();
    assert_eq!(p, expected.to_absolute_path());
}

#[test]
fn quoted_brackets_and_escapes_are_not_lists() {
    let aterm = br#"Derive([("out","[x]","","")],[("/nix/store/aaa-dep.drv",["out","ou\"t"])],["/nix/store/bbb-src","not-a-store-path","/nix/store/c\"c"],"sys","b",[],[])"#;
    let refs = aterm_reference_list(aterm);
    // the nested list of output names is not counted: the sources are read
    // from the third list of the term itself
    assert_eq!(
        refs,
        vec![b"/nix/store/aaa-dep.drv".to_vec(), b"/nix/store/bbb-src".to_vec(), b"/nix/store/c\"c".to_vec()]
    );
}

#[test]
fn sources_are_read_from_the_third_list() {
    let aterm = br#"Derive([],[],["/nix/store/zzz-src","not-a-store-path","/nix/store/c\"c","/nix/store/zzz-src"],"sys","b",[],[])"#;
    let refs = aterm_reference_list(aterm);
    assert_eq!(refs, vec![b"/nix/store/c\"c".to_vec(), b"/nix/store/zzz-src".to_vec()]);
}

#[test]
fn invalid_utf8_is_rejected() {
    match calculate_derivation_path_from_aterm("foo", &[0xff, 0xfe]) {
        Err(DerivationError::InvalidATermError(m)) => {
            assert!(m.starts_with("Invalid UTF-8 in ATerm: "));
        }
        other => panic!("unexpected {:?}", other),
    }
}

#[test]
fn invalid_name_is_rejected() {
    match calculate_derivation_path_from_aterm("foo bar", b"Derive()") {
        Err(DerivationError::InvalidOutputName(n)) => assert_eq!(n, "foo bar.drv"),
        other => panic!("unexpected {:?}", other),
    }
}

#[test]
fn output_names() {
    assert_eq!(output_path_name(b"hello", b"out"), b"hello".to_vec());
    assert_eq!(output_path_name(b"hello", b"dev"), b"hello-dev".to_vec());
    assert_eq!(ca_kind_prefix(&CAHash::Nar(NixHash::Sha256([0; 32]))), b"r:".to_vec());
    assert_eq!(ca_kind_prefix(&CAHash::Flat(NixHash::Sha256([0; 32]))), b"".to_vec());
}

// --- derivations built from their parts -----------------------------------

use sha2::Digest;
use snix_refs::derivation::{Derivation, Output};
use snix_refs::store_path::StorePath;

const BAR_DRV: &str = r#"Derive([("out","/nix/store/4q0pg5zpfmznxscq3avycvf9xdvx50n3-bar","r:sha256","08813cbee9903c62be4c5027726a418a300da4500b2d369d3af9286f4815ceba")],[],[],":",":",[],[("builder",":"),("name","bar"),("out","/nix/store/4q0pg5zpfmznxscq3avycvf9xdvx50n3-bar"),("outputHash","08813cbee9903c62be4c5027726a418a300da4500b2d369d3af9286f4815ceba"),("outputHashAlgo","sha256"),("outputHashMode","recursive"),("system",":")])"#;

const FOO_DRV: &str = r#"Derive([("out","/nix/store/5vyvcwah9l9kf07d52rcgdk70g2f4y13-foo","","")],[("/nix/store/0hm2f1psjpcwg8fijsmr4wwxrx59s092-bar.drv",["out"])],[],":",":",[],[("bar","/nix/store/4q0pg5zpfmznxscq3avycvf9xdvx50n3-bar"),("builder",":"),("name","foo"),("out","/nix/store/5vyvcwah9l9kf07d52rcgdk70g2f4y13-foo"),("system",":")])"#;

const BAR_HASH: &str = "08813cbee9903c62be4c5027726a418a300da4500b2d369d3af9286f4815ceba";

fn hex32(s: &str) -> [u8; 32] {
    let mut r = [0u8; 32];
    for i in 0..32 {
        r[i] = u8::from_str_radix(&s[2 * i..2 * i + 2], 16).unwrap();
    }
    r
}

fn hex(b: &[u8]) -> String {
    b.iter().map(|x| format!("{:02x}", x)).collect()
}

// Reads `/nix/store/<nixbase32 digest>-<name>`.
fn store_path(abs: &str) -> StorePath {
    const ALPHABET: &str = "0123456789abcdfghijklmnpqrsvwxyz";
    let rest = abs.strip_prefix("/nix/store/").unwrap();
    let (enc, name) = (&rest[..32], &rest[33..]);
    let mut digest = [0u8; 20];
    for (k, c) in enc.chars().rev().enumerate() {
        let d = ALPHABET.find(c).unwrap() as u16;
        let bit = k * 5;
        let (i, j) = (bit / 8, bit % 8);
        digest[i] |= ((d << j) & 0xff) as u8;
        if i + 1 < 20 {
            digest[i + 1] |= (d >> (8 - j)) as u8;
        }
    }
    let p = StorePath::from_name_and_digest(name.as_bytes(), digest).unwrap();
    assert_eq!(p.to_absolute_path(), abs);
    p
}

fn env(pairs: &[(&str, &str)]) -> Vec<(String, Vec<u8>)> {
    pairs.iter().map(|(k, v)| (k.to_string(), v.as_bytes().to_vec())).collect()
}

fn bar(with_paths: bool) -> Derivation {
    let out = if with_paths { "/nix/store/4q0pg5zpfmznxscq3avycvf9xdvx50n3-bar" } else { "" };
    Derivation {
        arguments: vec![],
        builder: ":".to_string(),
        environment: env(&[
            ("builder", ":"),
            ("name", "bar"),
            ("out", out),
            ("outputHash", BAR_HASH),
            ("outputHashAlgo", "sha256"),
            ("outputHashMode", "recursive"),
            ("system", ":"),
        ]),
        input_derivations: vec![],
        input_sources: vec![],
        outputs: vec![(
            "out".to_string(),
            Output {
                path: if with_paths { Some(store_path(out)) } else { None },
                ca_hash: Some(CAHash::Nar(NixHash::Sha256(hex32(BAR_HASH)))),
            },
        )],
        system: ":".to_string(),
    }
}

fn foo(with_paths: bool) -> Derivation {
    let out = if with_paths { "/nix/store/5vyvcwah9l9kf07d52rcgdk70g2f4y13-foo" } else { "" };
    Derivation {
        arguments: vec![],
        builder: ":".to_string(),
        environment: env(&[
            ("bar", "/nix/store/4q0pg5zpfmznxscq3avycvf9xdvx50n3-bar"),
            ("builder", ":"),
            ("name", "foo"),
            ("out", out),
            ("system", ":"),
        ]),
        input_derivations: vec![(
            store_path("/nix/store/0hm2f1psjpcwg8fijsmr4wwxrx59s092-bar.drv"),
            vec!["out".to_string()],
        )],
        input_sources: vec![],
        outputs: vec![(
            "out".to_string(),
            Output { path: if with_paths { Some(store_path(out)) } else { None }, ca_hash: None },
        )],
        system: ":".to_string(),
    }
}

#[test]
fn fixed_output_derivation_aterm_and_path() {
    let d = bar(true);
    assert_eq!(d.to_aterm_bytes(), BAR_DRV.as_bytes().to_vec());
    let p = d.calculate_derivation_path("bar").unwrap();
    assert_eq!(p.to_absolute_path(), "/nix/store/0hm2f1psjpcwg8fijsmr4wwxrx59s092-bar.drv");
    assert_eq!(
        calculate_derivation_path_from_aterm("bar", BAR_DRV.as_bytes()).unwrap(),
        p.to_absolute_path()
    );
}

#[test]
fn fixed_output_derivation_digest() {
    // sha256 of fixed:out:r:sha256:<hash>:/nix/store/4q0pg5zpfmznxscq3avycvf9xdvx50n3-bar
    let expected = "724f3e3634fce4cbbbd3483287b8798588e80280660b9a63fd13a1bc90485b33";
    let d = bar(true);
    assert_eq!(hex(&d.fod_digest().unwrap()), expected);
    assert_eq!(hex(&d.hash_derivation_modulo(|_p: &StorePath| [0u8; 32])), expected);
}

#[test]
fn input_addressed_derivation_aterm_and_path() {
    let d = foo(true);
    assert_eq!(d.to_aterm_bytes(), FOO_DRV.as_bytes().to_vec());
    assert_eq!(d.fod_digest(), None);
    let p = d.calculate_derivation_path("foo").unwrap();
    assert_eq!(p.to_absolute_path(), "/nix/store/4wvvbi4jwn0prsdxb7vs673qa5h9gr7x-foo.drv");
}

#[test]
fn hash_modulo_replaces_input_derivation_paths() {
    let d = foo(true);
    let bar_hash = bar(true).fod_digest().unwrap();
    let asked = std::cell::Cell::new(0);
    let h = d.hash_derivation_modulo(|p: &StorePath| {
        asked.set(asked.get() + 1);
        assert_eq!(p.to_absolute_path(), "/nix/store/0hm2f1psjpcwg8fijsmr4wwxrx59s092-bar.drv");
        bar_hash
    });
    assert_eq!(asked.get(), 1);
    assert_eq!(hex(&h), "250a67c0fb68da9f9297421335b7c46243d25734d6e48f17564a6e9916819556");
    assert_eq!(hex(&d.hash_derivation_modulo_with(&[bar_hash])), hex(&h));
}

#[test]
fn fixed_output_hash_modulo_asks_for_nothing() {
    let mut d = bar(true);
    d.input_derivations = vec![
        (store_path("/nix/store/0hm2f1psjpcwg8fijsmr4wwxrx59s092-bar.drv"), vec!["out".to_string()]),
        (store_path("/nix/store/4wvvbi4jwn0prsdxb7vs673qa5h9gr7x-foo.drv"), vec!["out".to_string()]),
    ];
    let asked = std::cell::Cell::new(0);
    let h = d.hash_derivation_modulo(|_p: &StorePath| {
        asked.set(asked.get() + 1);
        [7u8; 32]
    });
    assert_eq!(asked.get(), 0);
    assert_eq!(h, d.fod_digest().unwrap());
}

#[test]
fn equal_input_hashes_keep_the_last_output_names() {
    let mut d = foo(true);
    d.input_derivations = vec![
        (store_path("/nix/store/0hm2f1psjpcwg8fijsmr4wwxrx59s092-bar.drv"), vec!["out".to_string()]),
        (store_path("/nix/store/4wvvbi4jwn0prsdxb7vs673qa5h9gr7x-foo.drv"), vec!["dev".to_string()]),
    ];
    let same = [1u8; 32];
    let h = d.hash_derivation_modulo_with(&[same, same]);
    let mut e = foo(true);
    e.input_derivations = vec![(
        store_path("/nix/store/0hm2f1psjpcwg8fijsmr4wwxrx59s092-bar.drv"),
        vec!["dev".to_string()],
    )];
    let aterm = String::from_utf8(e.to_aterm_bytes()).unwrap().replace(
        "/nix/store/0hm2f1psjpcwg8fijsmr4wwxrx59s092-bar.drv",
        &hex(&same),
    );
    let expected: [u8; 32] = sha2::Sha256::digest(aterm.as_bytes()).into();
    assert_eq!(h, expected);
}

#[test]
fn output_paths_of_input_addressed_derivation() {
    let mut d = foo(false);
    // the hash modulo of foo without its output paths, with bar's digest in
    // place of bar.drv
    let hdm = hex32("24c43196ac9c7b557bc525d13d16f990f730c060ae61f9133195f1c0a2ea0d9f");
    let bar_hash = bar(true).fod_digest().unwrap();
    assert_eq!(d.hash_derivation_modulo_with(&[bar_hash]), hdm);
    d.calculate_output_paths("foo", &hdm).unwrap();
    assert_eq!(d.to_aterm_bytes(), FOO_DRV.as_bytes().to_vec());
    assert_eq!(d, foo(true));
}

#[test]
fn output_paths_of_fixed_output_derivation() {
    let mut d = bar(false);
    d.calculate_output_paths("bar", &[0u8; 32]).unwrap();
    assert_eq!(d.to_aterm_bytes(), BAR_DRV.as_bytes().to_vec());
    assert_eq!(d, bar(true));
}

#[test]
fn output_paths_name_outputs_other_than_out() {
    let mut d = foo(false);
    d.outputs.insert(0, ("dev".to_string(), Output { path: None, ca_hash: None }));
    let hdm = [3u8; 32];
    d.calculate_output_paths("foo", &hdm).unwrap();
    let dev = d.outputs[0].1.path.as_ref().unwrap().to_absolute_path();
    assert!(dev.ends_with("-foo-dev"));
    let expected = build_output_path_for(&hdm, "dev", "foo-dev");
    assert_eq!(dev, expected);
    let env_dev = d.environment.iter().find(|(k, _)| k == "dev").unwrap();
    assert_eq!(env_dev.1, dev.as_bytes().to_vec());
    // the new variable sits in key order
    let keys: Vec<&str> = d.environment.iter().map(|(k, _)| k.as_str()).collect();
    assert_eq!(keys, vec!["bar", "builder", "dev", "name", "out", "system"]);
}

fn build_output_path_for(hdm: &[u8; 32], output: &str, name: &str) -> String {
    snix_refs::store_path::build_output_path(hdm, output.as_bytes(), name.as_bytes())
        .unwrap()
        .to_absolute_path()
}

#[test]
fn output_paths_reject_invalid_names() {
    let mut d = foo(false);
    d.outputs = vec![
        ("a".to_string(), Output { path: None, ca_hash: None }),
        ("b c".to_string(), Output { path: None, ca_hash: None }),
        ("d".to_string(), Output { path: None, ca_hash: None }),
    ];
    match d.calculate_output_paths("foo", &[0u8; 32]) {
        Err(DerivationError::InvalidOutputDerivationPath(name, _)) => assert_eq!(name, "b c"),
        other => panic!("unexpected {:?}", other),
    }
    // the output before the bad one has its path, the one after has none
    assert!(d.outputs[0].1.path.is_some());
    assert!(d.outputs[2].1.path.is_none());
    assert!(d.environment.iter().any(|(k, _)| k == "a"));
    assert!(!d.environment.iter().any(|(k, _)| k == "d"));
}

#[test]
fn environment_insert_replaces_and_keeps_order() {
    let mut d = foo(true);
    d.insert_environment("name".to_string(), b"other".to_vec());
    d.insert_environment("aaa".to_string(), b"first".to_vec());
    d.insert_environment("zzz".to_string(), b"last".to_vec());
    let keys: Vec<&str> = d.environment.iter().map(|(k, _)| k.as_str()).collect();
    assert_eq!(keys, vec!["aaa", "bar", "builder", "name", "out", "system", "zzz"]);
    assert_eq!(d.environment[3].1, b"other".to_vec());
}

#[test]
fn hello_from_parts() {
    let names = |v: &[&str]| v.iter().map(|s| s.to_string()).collect::<Vec<String>>();
    let mut e: Vec<(String, Vec<u8>)> = Vec::new();
    // the environment of the hello ATerm
    let env_text = HELLO_DRV.rsplit_once(",[(").unwrap().1;
    for entry in env_text.trim_end_matches(")])").split("),(") {
        let (k, v) = entry.split_once("\",\"").unwrap();
        e.push((k.trim_start_matches('"').to_string(), v.trim_end_matches('"').as_bytes().to_vec()));
    }
    let d = Derivation {
        arguments: names(&["-e", "/nix/store/9krlzvny65gdc8s7kpb6lkx8cd02c25b-default-builder.sh"]),
        builder: "/nix/store/4xw8n979xpivdc46a9ndcvyhwgif00hz-bash-5.1-p16/bin/bash".to_string(),
        environment: e,
        input_derivations: hello_input_drvs()
            .into_iter()
            .map(|p| (store_path(std::str::from_utf8(&p).unwrap()), names(&["out"])))
            .collect(),
        input_sources: vec![store_path("/nix/store/9krlzvny65gdc8s7kpb6lkx8cd02c25b-default-builder.sh")],
        outputs: vec![(
            "out".to_string(),
            Output {
                path: Some(store_path("/nix/store/33l4p0pn0mybmqzaxfkpppyh7vx1c74p-hello-2.12.1")),
                ca_hash: None,
            },
        )],
        system: "x86_64-linux".to_string(),
    };
    assert_eq!(String::from_utf8(d.to_aterm_bytes()).unwrap(), HELLO_DRV);
    // the path read from the ATerm alone is the path of the derivation
    let p = d.calculate_derivation_path("hello-2.12.1").unwrap();
    assert_eq!(p.to_absolute_path(), "/nix/store/7vf0d0j7majv1ch1xymdylyql80cn5fp-hello-2.12.1.drv");
    assert_eq!(
        calculate_derivation_path_from_aterm("hello-2.12.1", HELLO_DRV.as_bytes()).unwrap(),
        p.to_absolute_path()
    );
}

#[test]
fn strings_are_escaped() {
    let mut d = Derivation::default();
    d.builder = "a\"b\\c\nd\re\tf".to_string();
    d.arguments = vec!["x\"y".to_string()];
    d.environment = env(&[("k", "v\"\n")]);
    let a = String::from_utf8(d.to_aterm_bytes()).unwrap();
    assert_eq!(a, r#"Derive([],[],[],"","a\"b\\c\nd\re\tf",["x\"y"],[("k","v\"\n")])"#);
}

#[test]
fn well_formedness_is_decided() {
    assert!(foo(true).is_well_formed());
    assert!(bar(false).is_well_formed());
    assert!(Derivation::default().is_well_formed());
    let mut d = foo(true);
    d.environment.swap(0, 1);
    assert!(!d.is_well_formed());
    let mut d = foo(true);
    d.outputs[0].1.ca_hash = Some(CAHash::Text([0u8; 32]));
    assert!(!d.is_well_formed());
    let mut d = foo(true);
    d.input_derivations[0].1 = vec!["out".to_string(), "dev".to_string()];
    assert!(!d.is_well_formed());
    let mut d = foo(true);
    d.input_sources = vec![
        store_path("/nix/store/4q0pg5zpfmznxscq3avycvf9xdvx50n3-bar"),
        store_path("/nix/store/4q0pg5zpfmznxscq3avycvf9xdvx50n3-bar"),
    ];
    assert!(!d.is_well_formed());
}

#[test]
fn paths_agree_without_input_derivations() {
    let mut d = foo(true);
    d.input_derivations = vec![];
    d.input_sources = vec![
        store_path("/nix/store/9krlzvny65gdc8s7kpb6lkx8cd02c25b-default-builder.sh"),
        store_path("/nix/store/4q0pg5zpfmznxscq3avycvf9xdvx50n3-bar"),
    ];
    d.input_sources.sort_by_key(|p| p.to_absolute_path());
    assert!(d.is_well_formed());
    let aterm = d.to_aterm_bytes();
    let from_aterm = calculate_derivation_path_from_aterm("foo", &aterm).unwrap();
    let from_parts = d.calculate_derivation_path("foo").unwrap();
    assert_eq!(from_aterm, from_parts.to_absolute_path());
    assert_eq!(aterm_reference_list(&aterm).len(), 2);
}

#[test]
fn paths_agree_with_input_derivations() {
    let d = foo(true);
    assert!(!d.input_derivations.is_empty());
    let aterm = d.to_aterm_bytes();
    let from_aterm = calculate_derivation_path_from_aterm("foo", &aterm).unwrap();
    let from_parts = d.calculate_derivation_path("foo").unwrap();
    assert_eq!(from_aterm, from_parts.to_absolute_path());
}

#[test]
fn nth_list_counts_every_list_outside_strings() {
    let s = br#"["[",[x]]"#;
    assert_eq!(find_nth_list_start(s, 1), Some(0));
    assert_eq!(find_nth_list_start(s, 2), Some(5));
    assert_eq!(find_nth_list_start(s, 3), None);
}
