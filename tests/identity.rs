use spectree::graph::GraphError;
use spectree::identity::{calculate_build_hash, compute_all_build_hashes, SourceHashes};
use spectree::keys::{BuildHash, BuildKey, SourceHash, SourceKey};
use spectree::spec_tree::{Source, SourceType, SpecTree};

fn key(s: &str) -> SourceKey {
    SourceKey::new(s.to_string())
}

fn source(deps: &[&str], params: &[&str]) -> Source {
    Source {
        typ: SourceType::Git { url: None, path: Some("/tmp/a".to_string()), subpath: None, revision: None },
        dependencies: deps.iter().map(|d| key(d)).collect(),
        params: params.iter().map(|p| p.to_string()).collect(),
        network: false,
    }
}

fn dep_hashes(pairs: &[(&str, &str)]) -> Vec<(SourceKey, BuildHash)> {
    pairs.iter().map(|(k, h)| (key(k), BuildHash::new(h.to_string()))).collect()
}

fn hash(k: &str, s: &Source, sh: &str, deps: &[(&str, &str)]) -> String {
    calculate_build_hash(&key(k), s, &SourceHash::new(sh.to_string()), &dep_hashes(deps)).0
}

#[test]
fn build_hash_is_lowercase_hex_sha256() {
    let h = hash("a", &source(&[], &[]), "abc", &[]);
    assert_eq!(h.len(), 64);
    assert!(h.chars().all(|c| c.is_ascii_digit() || ('a'..='f').contains(&c)));
}

#[test]
fn build_hash_known_value() {
    // the digest of the text "a""abc"[][]
    let h = hash("a", &source(&[], &[]), "abc", &[]);
    assert_eq!(h, "bc83dab1a1ae00c3b3455010ff90cffa82643e9b3e33e337b4666c775657458c");
}

#[test]
fn build_hash_known_value_with_dependency_and_params() {
    // the digest of the text "b""t2"["a""X"]["--with""foo"]
    let h = hash("b", &source(&["~a"], &["--with", "foo"]), "t2", &[("a", "X")]);
    assert_eq!(h, "c32c5f38c8e72b5defc9adf6f6c26004ea52868f9c8e6938d56b735dc765df77");
}

#[test]
fn build_hash_is_deterministic() {
    let s = source(&["x", "y"], &["--with", "foo"]);
    let deps = [("x", "h1"), ("y", "h2")];
    assert_eq!(hash("a", &s, "abc", &deps), hash("a", &s, "abc", &deps));
}

#[test]
fn dependency_order_does_not_matter() {
    let deps = [("x", "h1"), ("y", "h2")];
    let a = hash("a", &source(&["x", "y"], &[]), "abc", &deps);
    let b = hash("a", &source(&["y", "x"], &[]), "abc", &deps);
    assert_eq!(a, b);
}

#[test]
fn only_direct_marker_does_not_matter() {
    let deps = [("x", "h1"), ("y", "h2")];
    let a = hash("a", &source(&["x", "y"], &[]), "abc", &deps);
    let b = hash("a", &source(&["~x", "y"], &[]), "abc", &deps);
    assert_eq!(a, b);
}

#[test]
fn source_hash_change_changes_build_hash() {
    let s = source(&[], &[]);
    assert_ne!(hash("a", &s, "abc", &[]), hash("a", &s, "abd", &[]));
}

#[test]
fn dependency_hash_change_changes_build_hash() {
    let s = source(&["x"], &[]);
    assert_ne!(hash("a", &s, "abc", &[("x", "h1")]), hash("a", &s, "abc", &[("x", "h2")]));
}

#[test]
fn params_order_changes_build_hash() {
    let a = hash("a", &source(&[], &["--with", "foo"]), "abc", &[]);
    let b = hash("a", &source(&[], &["foo", "--with"]), "abc", &[]);
    assert_ne!(a, b);
}

fn chain_tree() -> SpecTree {
    let mut t = SpecTree::new();
    t.insert(key("a"), source(&[], &[]));
    t.insert(key("b"), source(&["a"], &[]));
    t
}

fn lookup(v: &[(SourceKey, BuildHash)], k: &str) -> String {
    v.iter().rev().find(|(kk, _)| kk.0 == k).map(|(_, h)| h.0.clone()).unwrap()
}

#[test]
fn chain_hashes_build_on_each_other() {
    let t = chain_tree();
    let sh = SourceHashes {
        hashes: vec![(key("a"), SourceHash::new("t1".to_string())), (key("b"), SourceHash::new("t2".to_string()))],
    };
    let all = compute_all_build_hashes(&[key("b")], &t, &sh).unwrap();
    let ha = lookup(&all, "a");
    let hb = lookup(&all, "b");
    assert_eq!(ha, hash("a", &source(&[], &[]), "t1", &[]));
    assert_eq!(hb, hash("b", &source(&["a"], &[]), "t2", &[("a", &ha)]));
    let dir = BuildKey::new(key("b"), BuildHash::new(hb.clone())).build_dir_name();
    assert_eq!(dir, format!("b-{}", hb));
}

#[test]
fn source_change_propagates_to_dependents() {
    let t = chain_tree();
    let sh1 = SourceHashes {
        hashes: vec![(key("a"), SourceHash::new("t1".to_string())), (key("b"), SourceHash::new("t2".to_string()))],
    };
    let sh2 = SourceHashes {
        hashes: vec![(key("a"), SourceHash::new("t1x".to_string())), (key("b"), SourceHash::new("t2".to_string()))],
    };
    let h1 = compute_all_build_hashes(&[key("b")], &t, &sh1).unwrap();
    let h2 = compute_all_build_hashes(&[key("b")], &t, &sh2).unwrap();
    assert_ne!(lookup(&h1, "b"), lookup(&h2, "b"));
}

#[test]
fn missing_source_hash_is_reported() {
    let t = chain_tree();
    let sh = SourceHashes { hashes: vec![(key("b"), SourceHash::new("t2".to_string()))] };
    match compute_all_build_hashes(&[key("b")], &t, &sh) {
        Err(GraphError::MissingSourceHash(k)) => assert_eq!(k.0, "a"),
        other => panic!("unexpected {:?}", other),
    }
}

#[test]
fn cyclic_hashes_are_rejected() {
    let mut t = SpecTree::new();
    t.insert(key("a"), source(&["b"], &[]));
    t.insert(key("b"), source(&["a"], &[]));
    let sh = SourceHashes {
        hashes: vec![(key("a"), SourceHash::new("t1".to_string())), (key("b"), SourceHash::new("t2".to_string()))],
    };
    assert!(matches!(compute_all_build_hashes(&[key("a")], &t, &sh), Err(GraphError::CyclicDependency(_))));
}

#[test]
fn only_reachable_sources_get_hashes() {
    let mut t = chain_tree();
    t.insert(key("other"), source(&[], &[]));
    let sh = SourceHashes {
        hashes: vec![
            (key("a"), SourceHash::new("t1".to_string())),
            (key("b"), SourceHash::new("t2".to_string())),
            (key("other"), SourceHash::new("t3".to_string())),
        ],
    };
    let all = compute_all_build_hashes(&[key("b")], &t, &sh).unwrap();
    let mut keys: Vec<String> = all.iter().map(|(k, _)| k.0.clone()).collect();
    keys.sort();
    assert_eq!(keys, vec!["a", "b"]);
}
