use cache_sweep::remediate::{
    confirm_deletion, deletion_target_of, process_cache_modules, RemediationPlan,
};
use cache_sweep::scan::{scan, DirTree};

fn dir(name: &str, subdirs: Vec<DirTree>) -> DirTree {
    DirTree { name: name.to_string(), subdirs }
}

fn leaf(name: &str) -> DirTree {
    dir(name, vec![])
}

fn path(components: &[&str]) -> Vec<String> {
    components.iter().map(|c| c.to_string()).collect()
}

#[test]
fn only_the_single_letter_y_confirms() {
    assert!(confirm_deletion("y"));
    assert!(confirm_deletion("Y"));
    assert!(!confirm_deletion("yes"));
    assert!(!confirm_deletion(""));
    assert!(!confirm_deletion("n"));
    assert!(!confirm_deletion("N"));
    assert!(!confirm_deletion("garbage"));
    assert!(!confirm_deletion("y y"));
}

#[test]
fn confirmation_trims_whitespace_only() {
    // The line arrives as read, newline included; trimming whitespace is
    // the only tolerance.
    assert!(confirm_deletion("y\n"));
    assert!(confirm_deletion("Y\r\n"));
    assert!(confirm_deletion(" y "));
    assert!(confirm_deletion("\ty\n"));
    assert!(!confirm_deletion(" yes \n"));
    assert!(!confirm_deletion("x y\n"));
}

#[test]
fn empty_match_set_plans_nothing_and_needs_no_answer() {
    let none: Vec<Vec<String>> = Vec::new();
    assert!(matches!(process_cache_modules(&none, ""), RemediationPlan::NoMatches));
    assert!(matches!(process_cache_modules(&none, "y"), RemediationPlan::NoMatches));
}

#[test]
fn declined_answer_plans_no_deletion() {
    let paths = vec![path(&["/", ".cache", "x", "node_modules"])];
    assert!(matches!(process_cache_modules(&paths, "n\n"), RemediationPlan::Declined));
    assert!(matches!(process_cache_modules(&paths, "yes\n"), RemediationPlan::Declined));
    assert!(matches!(process_cache_modules(&paths, "\n"), RemediationPlan::Declined));
}

#[test]
fn deletion_targets_the_parent_of_each_match() {
    assert_eq!(
        deletion_target_of(&path(&["/", "a", ".cache", "pkg", "node_modules"])),
        path(&["/", "a", ".cache", "pkg"])
    );
    // A single-component path has no parent: the match itself is deleted.
    assert_eq!(deletion_target_of(&path(&["node_modules"])), path(&["node_modules"]));
}

#[test]
fn confirmed_plan_lists_one_target_per_match_in_order() {
    let paths = vec![
        path(&["/", ".cache", "a", "node_modules"]),
        path(&["/", ".cache", "b", "node_modules"]),
        path(&["node_modules"]),
    ];
    match process_cache_modules(&paths, "y\n") {
        RemediationPlan::Delete(targets) => {
            // Every match keeps its slot: a failure to delete one target
            // cannot starve the later ones of their attempt.
            assert_eq!(
                targets,
                vec![
                    path(&["/", ".cache", "a"]),
                    path(&["/", ".cache", "b"]),
                    path(&["node_modules"]),
                ]
            );
        }
        _ => panic!("expected a deletion plan"),
    }
}

#[test]
fn end_to_end_scan_confirm_delete() {
    // Tree: /.cache/x/node_modules and /lib/node_modules (no .cache
    // ancestor). The scan finds exactly the first; confirming "y" plans
    // the deletion of /.cache/x and of nothing else.
    let root = dir(
        "/",
        vec![
            dir(".cache", vec![dir("x", vec![leaf("node_modules")])]),
            dir("lib", vec![leaf("node_modules")]),
        ],
    );
    let matches = scan(&root, &path(&[]));
    assert_eq!(matches, vec![path(&["/", ".cache", "x", "node_modules"])]);
    match process_cache_modules(&matches, "y\n") {
        RemediationPlan::Delete(targets) => {
            assert_eq!(targets, vec![path(&["/", ".cache", "x"])]);
            assert!(!targets.contains(&path(&["/", "lib"])));
            assert!(!targets.contains(&path(&["/", "lib", "node_modules"])));
        }
        _ => panic!("expected a deletion plan"),
    }
}
