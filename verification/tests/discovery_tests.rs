//! The walker's skip and stop rules, the tree traversal, and the
//! deduplicating pipeline.

use listprojects::cache::Cache;
use listprojects::pipeline::discover_projects;
use listprojects::pipeline::process_batch;
use listprojects::pipeline::process_discovered;
use listprojects::record::ProjectRecord;
use listprojects::walker::DirTree;
use listprojects::walker::WalkDecision;
use listprojects::walker::classify_dir;
use listprojects::walker::discover_tree;
use listprojects::walker::is_marker_dir_name;
use listprojects::walker::is_skip_dir_name;
use listprojects::walker::marker_dir_name;

fn dir(name: &str, has_marker: bool, subdirs: Vec<DirTree>) -> DirTree {
    DirTree { name: name.to_string(), has_marker, subdirs }
}

fn path(components: &[&str]) -> Vec<String> {
    components.iter().map(|c| c.to_string()).collect()
}

#[test]
fn classify_descends_into_plain_directories() {
    assert_eq!(classify_dir("src", false), WalkDecision::DescendInto);
}

#[test]
fn classify_reports_marker_directories() {
    assert_eq!(classify_dir("proj", true), WalkDecision::ReportProject);
}

#[test]
fn classify_skip_wins_over_marker() {
    assert_eq!(classify_dir("node_modules", true), WalkDecision::SkipSubtree);
}

#[test]
fn marker_name_is_the_git_directory() {
    assert_eq!(marker_dir_name(), ".git");
    assert!(is_marker_dir_name(".git"));
    assert!(!is_marker_dir_name("git"));
    assert!(!is_marker_dir_name(".gitignore"));
}

#[test]
fn skip_names() {
    assert!(is_skip_dir_name(".venv"));
    assert!(is_skip_dir_name("venv"));
    assert!(is_skip_dir_name("node_modules"));
    assert!(is_skip_dir_name("__pycache__"));
    assert!(is_skip_dir_name("store.jj"));
    assert!(!is_skip_dir_name(".jj"));
    assert!(!is_skip_dir_name("src"));
    assert!(!is_skip_dir_name("jj"));
}

#[test]
fn discovers_each_project_exactly_once() {
    let tree = dir(
        "dev",
        false,
        vec![
            dir("foo", true, vec![dir("vendored", true, vec![])]),
            dir("baz", false, vec![dir("qux", true, vec![])]),
        ],
    );
    let mut out: Vec<Vec<String>> = Vec::new();
    discover_tree(&tree, &Vec::new(), &mut out);
    assert_eq!(out, vec![path(&["dev", "foo"]), path(&["dev", "baz", "qux"])]);
}

#[test]
fn nested_markers_below_a_project_are_not_reported() {
    let tree = dir("top", true, vec![dir("inner", true, vec![dir("deep", true, vec![])])]);
    let mut out: Vec<Vec<String>> = Vec::new();
    discover_tree(&tree, &Vec::new(), &mut out);
    assert_eq!(out, vec![path(&["top"])]);
}

#[test]
fn skipped_directories_are_never_traversed() {
    let tree = dir(
        "dev",
        false,
        vec![
            dir("node_modules", true, vec![dir("pkg", true, vec![])]),
            dir(".venv", false, vec![dir("hidden", true, vec![])]),
            dir("store.jj", true, vec![]),
            dir("real", true, vec![]),
        ],
    );
    let mut out: Vec<Vec<String>> = Vec::new();
    discover_tree(&tree, &Vec::new(), &mut out);
    assert_eq!(out, vec![path(&["dev", "real"])]);
}

#[test]
fn whole_scan_forwards_new_projects_once() {
    let tree = dir(
        "dev",
        false,
        vec![
            dir("foo", true, vec![]),
            dir("node_modules", true, vec![]),
            dir("baz", false, vec![dir("qux", true, vec![])]),
        ],
    );
    let mut cache = Cache::new();
    let first = discover_projects(&tree, &mut cache, None);
    let paths: Vec<&str> = first.iter().map(|r| r.path.as_str()).collect();
    assert_eq!(paths, vec!["/dev/foo", "/dev/baz/qux"]);
    assert_eq!(first[0].short_name, "dev/foo");
    assert_eq!(first[1].short_name, "baz/qux");

    // An unchanged filesystem scanned again forwards nothing.
    let second = discover_projects(&tree, &mut cache, None);
    assert!(second.is_empty());
    assert_eq!(cache.len(), 2);
}

#[test]
fn second_pass_forwards_nothing() {
    let mut cache = Cache::new();
    let paths: Vec<String> =
        vec!["/dev/foo".to_string(), "/dev/bar".to_string(), "/dev/foo".to_string()];
    let first = process_batch(&mut cache, &paths, None);
    assert_eq!(first.len(), 2);
    let second = process_batch(&mut cache, &paths, None);
    assert_eq!(second.len(), 0);
}

#[test]
fn add_observes_inserted_exactly_once_per_path() {
    let mut cache = Cache::new();
    let a = ProjectRecord {
        path: "/a/b".to_string(),
        short_name: "a/b".to_string(),
        prefix: None,
    };
    let b = ProjectRecord {
        path: "/a/b".to_string(),
        short_name: "recomputed-differently".to_string(),
        prefix: Some("x/".to_string()),
    };
    assert!(cache.add_to_cache(a));
    assert!(!cache.add_to_cache(b));
    assert_eq!(cache.len(), 1);
}

#[test]
fn forwarded_record_carries_path_name_and_prefix() {
    let mut cache = Cache::new();
    let r = process_discovered(&mut cache, "/dev/foo".to_string(), Some("w/".to_string()));
    let rec = r.unwrap();
    assert_eq!(rec.path, "/dev/foo");
    assert_eq!(rec.short_name, "dev/foo");
    assert_eq!(rec.prefix, Some("w/".to_string()));
}

#[test]
fn already_cached_path_is_not_forwarded() {
    let mut cache = Cache::new();
    assert!(process_discovered(&mut cache, "/dev/foo".to_string(), None).is_some());
    assert!(process_discovered(&mut cache, "/dev/foo".to_string(), None).is_none());
}

#[test]
fn path_without_two_components_is_dropped() {
    let mut cache = Cache::new();
    assert!(process_discovered(&mut cache, "foo".to_string(), None).is_none());
    assert!(cache.is_empty());
}
