use cache_sweep::scan::{contains_cache, is_scan_boundary, scan, DirTree};

fn dir(name: &str, subdirs: Vec<DirTree>) -> DirTree {
    DirTree { name: name.to_string(), subdirs }
}

fn leaf(name: &str) -> DirTree {
    dir(name, vec![])
}

fn path(components: &[&str]) -> Vec<String> {
    components.iter().map(|c| c.to_string()).collect()
}

#[test]
fn finds_node_modules_under_cache() {
    let root = dir(
        "/",
        vec![
            dir(".cache", vec![dir("x", vec![leaf("node_modules")])]),
            dir("lib", vec![leaf("node_modules")]),
        ],
    );
    let matches = scan(&root, &path(&[]));
    assert_eq!(matches, vec![path(&["/", ".cache", "x", "node_modules"])]);
}

#[test]
fn base_name_is_always_node_modules_and_cache_is_above() {
    let root = dir(
        "top",
        vec![
            dir(".cache", vec![dir("a", vec![leaf("node_modules"), leaf("other")])]),
            dir("work", vec![dir(".cache", vec![leaf("node_modules")])]),
            leaf("node_modules"),
        ],
    );
    let matches = scan(&root, &path(&[]));
    assert_eq!(matches.len(), 2);
    for m in &matches {
        assert_eq!(m.last().unwrap(), "node_modules");
        assert!(m[..m.len() - 1].iter().any(|c| c == ".cache"));
    }
}

#[test]
fn node_modules_without_cache_ancestor_is_not_returned() {
    let root = dir("home", vec![dir("lib", vec![leaf("node_modules")])]);
    let matches = scan(&root, &path(&[]));
    assert!(matches.is_empty());
}

#[test]
fn sentinel_inside_node_modules_is_never_visited() {
    // If the scanner wrongly descended into a non-matching node_modules
    // directory, the sentinel .cache/node_modules inside it would produce a
    // false match.
    let sentinel = dir(".cache", vec![leaf("node_modules")]);
    let root = dir("home", vec![dir("lib", vec![dir("node_modules", vec![sentinel])])]);
    let matches = scan(&root, &path(&[]));
    assert!(matches.is_empty());
}

#[test]
fn matched_node_modules_is_a_recursion_boundary() {
    // A second node_modules nested below a match must not be returned.
    let inner = dir("pkg", vec![leaf("node_modules")]);
    let root = dir(".cache", vec![dir("x", vec![dir("node_modules", vec![inner])])]);
    let matches = scan(&root, &path(&["/"]));
    assert_eq!(matches, vec![path(&["/", ".cache", "x", "node_modules"])]);
}

#[test]
fn cache_among_ancestors_of_scan_root_counts() {
    let root = dir("project", vec![leaf("node_modules")]);
    let matches = scan(&root, &path(&["/", "home", ".cache"]));
    assert_eq!(matches, vec![path(&["/", "home", ".cache", "project", "node_modules"])]);
}

#[test]
fn scan_root_named_cache_counts_as_ancestor() {
    let root = dir(".cache", vec![dir("x", vec![leaf("node_modules")])]);
    let matches = scan(&root, &path(&["/"]));
    assert_eq!(matches, vec![path(&["/", ".cache", "x", "node_modules"])]);
}

#[test]
fn empty_tree_has_no_matches() {
    let root = leaf("root");
    let matches = scan(&root, &path(&[]));
    assert!(matches.is_empty());
}

#[test]
fn matches_come_in_traversal_order() {
    let root = dir(
        ".cache",
        vec![
            dir("a", vec![leaf("node_modules")]),
            dir("b", vec![leaf("node_modules")]),
        ],
    );
    let matches = scan(&root, &path(&[]));
    assert_eq!(
        matches,
        vec![
            path(&[".cache", "a", "node_modules"]),
            path(&[".cache", "b", "node_modules"]),
        ]
    );
}

#[test]
fn names_match_exactly_and_case_sensitively() {
    let root = dir(
        ".cache",
        vec![
            dir("a", vec![leaf("Node_modules")]),
            dir("b", vec![leaf("node_modules2")]),
            dir("c", vec![leaf("node_modules")]),
        ],
    );
    let matches = scan(&root, &path(&[]));
    assert_eq!(matches, vec![path(&[".cache", "c", "node_modules"])]);

    let upper = dir(".Cache", vec![dir("a", vec![leaf("node_modules")])]);
    assert!(scan(&upper, &path(&[])).is_empty());
}

#[test]
fn boundary_test_names_node_modules_only() {
    assert!(is_scan_boundary(&"node_modules".to_string()));
    assert!(!is_scan_boundary(&"node_module".to_string()));
    assert!(!is_scan_boundary(&".cache".to_string()));
}

#[test]
fn contains_cache_looks_at_whole_components() {
    assert!(contains_cache(&path(&["/", "home", ".cache", "x"])));
    assert!(!contains_cache(&path(&["/", "home", "cache", "x"])));
    assert!(!contains_cache(&path(&["/", "my.cache"])));
    assert!(!contains_cache(&path(&[])));
}
