use spectree::backend::BuilderBackend;
use spectree::graph::{find_all_dependency_pairs, resolve_dependencies, GraphError};
use spectree::keys::SourceKey;
use spectree::schedule::{assumed_built, collect_sources, dependency_ready, leaf_sources, output_sources, sources_to_wait_for};
use spectree::spec_tree::{Source, SourceType, SpecTree};

fn key(s: &str) -> SourceKey {
    SourceKey::new(s.to_string())
}

fn git_source(deps: &[&str]) -> Source {
    Source {
        typ: SourceType::Git { url: None, path: Some("/tmp/x".to_string()), subpath: None, revision: None },
        dependencies: deps.iter().map(|d| key(d)).collect(),
        params: Vec::new(),
        network: false,
    }
}

fn tree(entries: &[(&str, &[&str])]) -> SpecTree {
    let mut t = SpecTree::new();
    for (k, deps) in entries {
        t.insert(key(k), git_source(deps));
    }
    t
}

fn names(v: &[SourceKey]) -> Vec<String> {
    v.iter().map(|k| k.0.clone()).collect()
}

fn sorted(mut v: Vec<String>) -> Vec<String> {
    v.sort();
    v
}

#[test]
fn pairs_of_linear_chain() {
    let t = tree(&[("a", &[]), ("b", &["a"])]);
    let pairs = find_all_dependency_pairs(&[key("b")], &t).unwrap();
    let got: Vec<(String, String)> = pairs.iter().map(|(p, d)| (p.0.clone(), d.0.clone())).collect();
    assert_eq!(got, vec![("b".to_string(), "a".to_string())]);
}

#[test]
fn pairs_strip_only_direct_marker() {
    let t = tree(&[("c", &["~x", "y"]), ("x", &[]), ("y", &["z"]), ("z", &[])]);
    let pairs = find_all_dependency_pairs(&[key("c")], &t).unwrap();
    let got: Vec<(String, String)> = pairs.iter().map(|(p, d)| (p.0.clone(), d.0.clone())).collect();
    assert_eq!(
        got,
        vec![
            ("c".to_string(), "x".to_string()),
            ("c".to_string(), "y".to_string()),
            ("y".to_string(), "z".to_string()),
        ]
    );
}

#[test]
fn cycle_is_rejected() {
    let t = tree(&[("a", &["b"]), ("b", &["a"])]);
    match find_all_dependency_pairs(&[key("a")], &t) {
        Err(GraphError::CyclicDependency(k)) => assert!(k.0 == "a" || k.0 == "b"),
        other => panic!("expected a cycle, got {:?}", other),
    }
}

#[test]
fn self_cycle_is_rejected() {
    let t = tree(&[("a", &["a"])]);
    assert!(matches!(find_all_dependency_pairs(&[key("a")], &t), Err(GraphError::CyclicDependency(_))));
}

#[test]
fn unreachable_cycle_does_not_fail() {
    let t = tree(&[("a", &[]), ("b", &["c"]), ("c", &["b"])]);
    assert!(find_all_dependency_pairs(&[key("a")], &t).is_ok());
}

#[test]
fn diamond_is_not_a_cycle() {
    let t = tree(&[("top", &["l", "r"]), ("l", &["base"]), ("r", &["base"]), ("base", &[])]);
    let pairs = find_all_dependency_pairs(&[key("top")], &t).unwrap();
    assert_eq!(pairs.len(), 4);
}

#[test]
fn unknown_dependency_is_reported() {
    let t = tree(&[("a", &["missing"])]);
    match find_all_dependency_pairs(&[key("a")], &t) {
        Err(GraphError::UnknownSource(k)) => assert_eq!(k.0, "missing"),
        other => panic!("expected an unknown source, got {:?}", other),
    }
}

#[test]
fn only_direct_is_followed_at_depth_one() {
    let t = tree(&[("c", &["~x", "y"]), ("x", &[]), ("y", &["z"]), ("z", &[]), ("d", &["c"])]);
    let of_c = resolve_dependencies(&key("c"), &t).unwrap();
    assert_eq!(sorted(names(&of_c)), vec!["x", "y", "z"]);
    let of_d = resolve_dependencies(&key("d"), &t).unwrap();
    assert_eq!(sorted(names(&of_d)), vec!["c", "y", "z"]);
}

#[test]
fn resolution_has_no_duplicates_and_no_root() {
    let t = tree(&[("top", &["l", "r", "l"]), ("l", &["base"]), ("r", &["base", "top"]), ("base", &[])]);
    let deps = names(&resolve_dependencies(&key("top"), &t).unwrap());
    assert_eq!(sorted(deps.clone()), vec!["base", "l", "r"]);
    assert!(!deps.contains(&"top".to_string()));
}

#[test]
fn resolution_of_unknown_root_fails() {
    let t = tree(&[("a", &[])]);
    assert!(matches!(resolve_dependencies(&key("nope"), &t), Err(GraphError::UnknownSource(_))));
}

#[test]
fn leaves_and_wait_set() {
    let t = tree(&[("a", &[]), ("b", &["a"]), ("c", &["a"])]);
    let roots = [key("b"), key("c")];
    let pairs = find_all_dependency_pairs(&roots, &t).unwrap();
    let all = collect_sources(&roots, &pairs);
    assert_eq!(sorted(names(&all)), vec!["a", "b", "c"]);
    let leaves = leaf_sources(&all, &pairs);
    assert_eq!(sorted(names(&leaves)), vec!["b", "c"]);
    let wait = sources_to_wait_for(&roots, &leaves);
    assert_eq!(names(&wait), vec!["b", "c"]);
    let inner_root = [key("a")];
    let wait2 = sources_to_wait_for(&inner_root, &leaves);
    assert_eq!(sorted(names(&wait2)), vec!["b", "c"]);
}

#[test]
fn output_includes_roots_and_their_dependencies_once() {
    let roots = [key("b"), key("c")];
    let deps = vec![vec![key("a")], vec![key("a"), key("z")]];
    let out = output_sources(&roots, &deps);
    assert_eq!(sorted(names(&out)), vec!["a", "b", "c", "z"]);
}

#[test]
fn completion_signals() {
    assert!(dependency_ready(Some(true)));
    assert!(!dependency_ready(Some(false)));
    assert!(!dependency_ready(None));
}

#[test]
fn assume_built_pattern() {
    assert_eq!(assumed_built(BuilderBackend::Copr, Some("^foo"), &key("foobar")), Some(true));
    assert_eq!(assumed_built(BuilderBackend::Copr, Some("^foo"), &key("barfoo")), Some(false));
    assert_eq!(assumed_built(BuilderBackend::Copr, Some("("), &key("x")), None);
    assert_eq!(assumed_built(BuilderBackend::Mock, Some("^foo"), &key("foobar")), Some(false));
    assert_eq!(assumed_built(BuilderBackend::Copr, None, &key("foobar")), Some(false));
}

#[test]
fn duplicate_declaration_gives_two_pairs() {
    let t = tree(&[("a", &["b", "~b"]), ("b", &[])]);
    let pairs = find_all_dependency_pairs(&[key("a")], &t).unwrap();
    let got: Vec<(String, String)> = pairs.iter().map(|(p, d)| (p.0.clone(), d.0.clone())).collect();
    assert_eq!(got, vec![("a".to_string(), "b".to_string()), ("a".to_string(), "b".to_string())]);
}
