//! Session-name derivation, the activation transition table, and the
//! end-to-end and abort scenarios.

use listprojects::cache::Cache;
use listprojects::pipeline::process_discovered;
use listprojects::record::ProjectRecord;
use listprojects::record::compute_session_name;
use listprojects::record::make_record;
use listprojects::record::RootSpec;
use listprojects::session::ExitPlan;
use listprojects::session::SelectionResult;
use listprojects::session::SessionAction;
use listprojects::session::activation_plan;
use listprojects::session::plan_exit;
use listprojects::walker::DirTree;
use listprojects::walker::discover_tree;

#[test]
fn test_compute_session_name() {
    assert_eq!(
        compute_session_name("/Users/simon/dev/foo"),
        Some("dev/foo".to_string())
    );
}

#[test]
fn session_name_ignores_trailing_separators() {
    assert_eq!(compute_session_name("/Users/simon/dev/foo/"), Some("dev/foo".to_string()));
    assert_eq!(compute_session_name("a//b"), Some("a/b".to_string()));
}

#[test]
fn session_name_needs_two_components() {
    assert_eq!(compute_session_name("foo"), None);
    assert_eq!(compute_session_name("/foo"), None);
    assert_eq!(compute_session_name("///"), None);
    assert_eq!(compute_session_name(""), None);
}

#[test]
fn record_applies_prefix_to_session_key() {
    let rec = make_record("/Users/simon/dev/foo".to_string(), Some("work/".to_string())).unwrap();
    assert_eq!(rec.short_name, "dev/foo");
    assert_eq!(rec.full_session_name(), "work/dev/foo");
}

#[test]
fn root_spec_prefix_is_carried_onto_records() {
    let root = RootSpec { root: "/Users/simon/dev".to_string(), prefix: Some("w/".to_string()) };
    let rec = root.make_record_under("/Users/simon/dev/foo".to_string()).unwrap();
    assert_eq!(rec.path, "/Users/simon/dev/foo");
    assert_eq!(rec.short_name, "dev/foo");
    assert_eq!(rec.prefix, Some("w/".to_string()));
    assert!(root.make_record_under("foo".to_string()).is_none());
}

#[test]
fn activation_table_inside_client_with_session() {
    assert_eq!(activation_plan(true, true), vec![SessionAction::SwitchClient]);
}

#[test]
fn activation_table_inside_client_without_session() {
    assert_eq!(
        activation_plan(true, false),
        vec![SessionAction::CreateDetached, SessionAction::SwitchClient]
    );
}

#[test]
fn activation_table_outside_client_with_session() {
    assert_eq!(activation_plan(false, true), vec![SessionAction::Attach]);
}

#[test]
fn activation_table_outside_client_without_session() {
    assert_eq!(
        activation_plan(false, false),
        vec![SessionAction::CreateDetached, SessionAction::Attach]
    );
}

#[test]
fn end_to_end_single_project() {
    // Empty cache, one root holding exactly one marker-tagged
    // directory: the selector stream receives exactly one item.
    let mut cache = Cache::new();
    let tree = DirTree {
        name: "dev".to_string(),
        has_marker: false,
        subdirs: vec![DirTree { name: "proj".to_string(), has_marker: true, subdirs: vec![] }],
    };
    let mut found: Vec<Vec<String>> = Vec::new();
    discover_tree(&tree, &Vec::new(), &mut found);
    assert_eq!(found.len(), 1);
    let full_path = format!("/{}", found[0].join("/"));
    assert_eq!(full_path, "/dev/proj");

    let forwarded = process_discovered(&mut cache, full_path.clone(), None);
    let item = forwarded.unwrap();
    assert_eq!(cache.len(), 1);

    // Selecting the single item creates the session at the project
    // path, then attaches or switches depending on the client state.
    let outside = plan_exit(SelectionResult::Chosen(item), false, false);
    let (target, actions) = outside.activation.unwrap();
    assert_eq!(target.path, "/dev/proj");
    assert_eq!(target.name, "dev/proj");
    assert_eq!(actions, vec![SessionAction::CreateDetached, SessionAction::Attach]);

    let item_again = ProjectRecord {
        path: "/dev/proj".to_string(),
        short_name: "dev/proj".to_string(),
        prefix: None,
    };
    let inside = plan_exit(SelectionResult::Chosen(item_again), true, false);
    let (_, actions) = inside.activation.unwrap();
    assert_eq!(actions, vec![SessionAction::CreateDetached, SessionAction::SwitchClient]);
}

#[test]
fn abort_activates_nothing_but_still_persists() {
    // Background discovery has filled the cache; the user aborts.
    let mut cache = Cache::new();
    process_discovered(&mut cache, "/dev/background".to_string(), None);

    let plan: ExitPlan = plan_exit(SelectionResult::Aborted, true, true);
    assert!(plan.activation.is_none());
    assert!(plan.persist_cache);

    // The pending cache write still happens and carries the
    // background discovery.
    let saved = cache.save();
    assert!(saved.contains("/dev/background"));
}
