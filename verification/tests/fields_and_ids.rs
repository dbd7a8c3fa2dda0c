//! Field edits, identifier generation, keyword parsing and the small
//! text helpers.

use ba::errors::TrackerError;
use ba::issue::{IssueType, Status};
use ba::store::{Config, Store};
use ba::text;

const T1: &str = "2024-04-01T08:00:00.000000000Z";
const T2: &str = "2024-04-01T09:00:00.000000000Z";

fn fresh_store() -> Store {
    Store::new(Config { version: 1, prefix: String::from("zz") })
}

#[test]
fn generated_ids_are_fresh_and_deterministic() {
    let mut store = fresh_store();
    let first = store.generate_id("a title", T1);
    assert_eq!(store.generate_id("a title", T1), first, "same inputs, same id");
    assert_ne!(store.generate_id("another title", T1), first);
    assert_ne!(store.generate_id("a title", T2), first);
    assert!(first.starts_with("zz-"));
    assert_eq!(first.len(), 7, "prefix, dash and a four-character suffix");

    let id = store.create_issue("a title", "task", 2, "", T1).unwrap();
    assert_eq!(id, first);
    // The same title and timestamp now collide, so the next candidate
    // window must win instead.
    let second = store.generate_id("a title", T1);
    assert_ne!(second, id);
    assert!(store.get(&second).is_none());
}

#[test]
fn derive_prefix_is_two_base36_chars() {
    let p = ba::idgen::derive_prefix("/somewhere/on/disk");
    assert_eq!(p.len(), 2);
    assert!(p.chars().all(|c| c.is_ascii_lowercase() || c.is_ascii_digit()));
    assert_eq!(ba::idgen::derive_prefix("/somewhere/on/disk"), p);
    assert_ne!(ba::idgen::derive_prefix("/somewhere/else"), p);
}

#[test]
fn create_validates_type_and_priority() {
    let mut store = fresh_store();
    assert!(matches!(
        store.create_issue("x", "widget", 2, "", T1),
        Err(TrackerError::UnknownIssueType { .. })
    ));
    assert!(matches!(
        store.create_issue("x", "task", 5, "", T1),
        Err(TrackerError::PriorityOutOfRange)
    ));
    assert_eq!(store.issues.len(), 0, "nothing lands on a rejected create");
    let id = store.create_issue("x", "SPIKE", 4, "notes", T1).unwrap();
    let x = store.get(&id).unwrap();
    assert_eq!(x.issue_type, IssueType::Spike);
    assert_eq!(x.priority, 4);
    assert_eq!(x.description, "notes");
}

#[test]
fn labels_sort_and_reject_duplicates() {
    let mut store = fresh_store();
    let id = store.create_issue("x", "task", 2, "", T1).unwrap();
    store.edit_label(&id, "add", "zeta", T2).unwrap();
    store.edit_label(&id, "add", "alpha", T2).unwrap();
    store.edit_label(&id, "add", "mid", T2).unwrap();
    assert_eq!(store.get(&id).unwrap().labels, vec!["alpha", "mid", "zeta"]);
    assert!(matches!(
        store.edit_label(&id, "add", "mid", T2),
        Err(TrackerError::LabelExists { .. })
    ));
    store.edit_label(&id, "remove", "mid", T2).unwrap();
    assert_eq!(store.get(&id).unwrap().labels, vec!["alpha", "zeta"]);
    assert!(matches!(
        store.edit_label(&id, "remove", "mid", T2),
        Err(TrackerError::LabelMissing { .. })
    ));
    assert!(matches!(
        store.edit_label(&id, "rename", "mid", T2),
        Err(TrackerError::UnknownAction { .. })
    ));
}

#[test]
fn priority_edit_checks_range_first() {
    let mut store = fresh_store();
    let id = store.create_issue("x", "task", 2, "", T1).unwrap();
    assert!(matches!(
        store.set_priority("zz-none", 9, T2),
        Err(TrackerError::PriorityOutOfRange),
    ));
    assert!(matches!(store.set_priority("zz-none", 1, T2), Err(TrackerError::NotFound { .. })));
    store.set_priority(&id, 0, T2).unwrap();
    let x = store.get(&id).unwrap();
    assert_eq!(x.priority, 0);
    assert_eq!(x.updated_at, T2);
}

#[test]
fn comments_append() {
    let mut store = fresh_store();
    let id = store.create_issue("x", "task", 2, "", T1).unwrap();
    store.add_comment(&id, "hello there", "alice", T2).unwrap();
    let x = store.get(&id).unwrap();
    assert_eq!(x.comments.len(), 1);
    assert_eq!(x.comments[0].author, "alice");
    assert_eq!(x.comments[0].text, "hello there");
    assert_eq!(x.comments[0].created_at, T2);
}

#[test]
fn status_and_type_keywords() {
    assert_eq!(ba::issue::parse_status("open").unwrap(), Status::Open);
    assert_eq!(ba::issue::parse_status("in_progress").unwrap(), Status::InProgress);
    assert_eq!(ba::issue::parse_status("closed").unwrap(), Status::Closed);
    assert!(matches!(
        ba::issue::parse_status("Open"),
        Err(TrackerError::UnknownStatus { .. })
    ));
    assert_eq!(ba::issue::parse_issue_type("task").unwrap(), IssueType::Task);
    assert_eq!(ba::issue::parse_issue_type("EPIC").unwrap(), IssueType::Epic);
    assert_eq!(ba::issue::parse_issue_type("Refactor").unwrap(), IssueType::Refactor);
    assert!(matches!(
        ba::issue::parse_issue_type("bug"),
        Err(TrackerError::UnknownIssueType { .. })
    ));
    assert_eq!(ba::issue::status_label(Status::InProgress), "in_progress");
    assert_eq!(ba::issue::issue_type_label(IssueType::Spike), "spike");
}

#[test]
fn default_priority_is_two() {
    assert_eq!(ba::default_priority(), 2);
}

#[test]
fn truncate_cuts_long_titles() {
    assert_eq!(text::truncate("short", 40), "short");
    assert_eq!(text::truncate("exactly-ten", 11), "exactly-ten");
    assert_eq!(text::truncate("a very long title indeed", 10), "a very ...");
}

#[test]
fn text_helpers() {
    assert!(text::str_eq("same", "same"));
    assert!(!text::str_eq("same", "other"));
    assert!(text::str_le("abc", "abd"));
    assert!(text::str_le("ab", "abc"));
    assert!(!text::str_le("b", "abc"));
    assert_eq!(text::fmt_u64(0), "0");
    assert_eq!(text::fmt_u64(90210), "90210");
}

#[test]
fn error_messages_match_the_tracker_voice() {
    let e = TrackerError::NotFound { id: "zz-1".into() };
    assert_eq!(e.message(), "Issue not found: zz-1");
    let e = TrackerError::ClaimedReleaseFirst { id: "zz-1".into(), session: "s9".into() };
    assert_eq!(
        e.message(),
        "zz-1 is claimed by session s9. Use 'release' first, or 'finish' to complete."
    );
    let e = TrackerError::PriorityOutOfRange;
    assert_eq!(e.message(), "Priority must be 0-4");
}
