//! The batch import of externally exported records.

use ba::import::{ImportDep, ImportRecord};
use ba::issue::{IssueType, Status};
use ba::store::{Config, Store};

const T1: &str = "2024-05-01T08:00:00.000000000Z";

fn fresh_store() -> Store {
    Store::new(Config { version: 1, prefix: String::from("zz") })
}

fn rec(line: u64, id: &str, title: &str, status: &str, ty: &str) -> ImportRecord {
    ImportRecord {
        line,
        id: id.to_string(),
        title: title.to_string(),
        description: String::new(),
        status: status.to_string(),
        priority: 2,
        issue_type: ty.to_string(),
        created_at: T1.to_string(),
        updated_at: T1.to_string(),
        closed_at: None,
        deps: Vec::new(),
    }
}

#[test]
fn import_keeps_ids_and_rebuilds_edges() {
    let mut store = fresh_store();
    let mut a = rec(1, "old-a", "first", "open", "task");
    a.deps.push(ImportDep {
        issue_id: "old-a".to_string(),
        depends_on_id: "old-b".to_string(),
        dep_type: "blocks".to_string(),
    });
    // A dependency of another kind is ignored.
    a.deps.push(ImportDep {
        issue_id: "old-a".to_string(),
        depends_on_id: "old-b".to_string(),
        dep_type: "related".to_string(),
    });
    let b = rec(2, "old-b", "second", "closed", "epic");
    let report = store.import_records(vec![a, b], true);
    assert_eq!(report.imported, 2);
    assert_eq!(report.skipped, 0);
    assert!(report.errors.is_empty());
    let a = store.get("old-a").unwrap();
    assert_eq!(a.status, Status::Open);
    assert_eq!(a.blocked_by, vec!["old-b"]);
    let b = store.get("old-b").unwrap();
    assert_eq!(b.issue_type, IssueType::Epic);
    assert_eq!(b.blocks, vec!["old-a"], "the mirror list is rebuilt");
}

#[test]
fn import_remaps_ids_through_the_generator() {
    let mut store = fresh_store();
    let report = store.import_records(vec![rec(1, "old-a", "first", "open", "task")], false);
    assert_eq!(report.imported, 1);
    assert!(store.get("old-a").is_none(), "the external id is replaced");
    assert_eq!(store.issues.len(), 1);
    assert!(store.issues[0].id.starts_with("zz-"));
}

#[test]
fn generated_ids_remap_dependencies_too() {
    let mut store = fresh_store();
    let mut a = rec(1, "old-a", "first", "open", "task");
    a.deps.push(ImportDep {
        issue_id: "old-a".to_string(),
        depends_on_id: "old-b".to_string(),
        dep_type: "blocks".to_string(),
    });
    let b = rec(2, "old-b", "second", "open", "task");
    let report = store.import_records(vec![a, b], false);
    assert_eq!(report.imported, 2);
    let blocked = store
        .issues
        .iter()
        .find(|x| x.title == "first")
        .expect("the blocked issue landed");
    let blocker = store
        .issues
        .iter()
        .find(|x| x.title == "second")
        .expect("the blocker landed");
    assert!(blocker.id.starts_with("zz-"), "the external id was replaced");
    assert_eq!(blocked.blocked_by, vec![blocker.id.clone()], "the edge follows the new id");
    assert_eq!(blocker.blocks, vec![blocked.id.clone()], "and is mirrored");
}

#[test]
fn duplicate_import_skips() {
    let mut store = fresh_store();
    store.import_records(vec![rec(1, "old-a", "first", "open", "task")], true);
    let report = store.import_records(vec![rec(1, "old-a", "first", "open", "task")], true);
    assert_eq!(report.imported, 0);
    assert_eq!(report.skipped, 1);
    assert_eq!(store.issues.len(), 1);
}

#[test]
fn unknown_status_fails_the_record_only() {
    let mut store = fresh_store();
    let report = store.import_records(
        vec![rec(1, "old-a", "first", "archived", "task"), rec(2, "old-b", "second", "open", "task")],
        true,
    );
    assert_eq!(report.imported, 1);
    assert_eq!(report.errors.len(), 1);
    assert_eq!(report.errors[0].line, 1);
    assert!(store.get("old-a").is_none());
    assert!(store.get("old-b").is_some());
}

#[test]
fn unknown_type_falls_back_to_task_with_a_note() {
    let mut store = fresh_store();
    let report = store.import_records(vec![rec(1, "old-a", "first", "open", "chore")], true);
    assert_eq!(report.imported, 1);
    assert_eq!(report.errors.len(), 1);
    assert_eq!(store.get("old-a").unwrap().issue_type, IssueType::Task);
}

#[test]
fn import_clamps_priority() {
    let mut store = fresh_store();
    let mut r = rec(1, "old-a", "first", "open", "task");
    r.priority = 9;
    store.import_records(vec![r], true);
    assert_eq!(store.get("old-a").unwrap().priority, 4);
}
