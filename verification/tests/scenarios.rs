//! End-to-end scenarios over one store: the claim and release workflow
//! and the readiness of blocked work.

use ba::issue::{Status, Transition};
use ba::errors::TrackerError;
use ba::store::{Config, Store};

const T1: &str = "2024-01-01T08:00:00.000000000Z";
const T2: &str = "2024-01-01T09:00:00.000000000Z";
const T3: &str = "2024-01-01T10:00:00.000000000Z";

fn fresh_store() -> Store {
    Store::new(Config { version: 1, prefix: String::from("zz") })
}

#[test]
fn claim_release_finish_workflow() {
    let mut store = fresh_store();
    let id = store.create_issue("do the thing", "task", 2, "", T1).unwrap();
    let x = store.get(&id).unwrap();
    assert_eq!(x.status, Status::Open);
    assert_eq!(x.priority, 2);

    let r = store.apply_transition(&id, &Transition::Claim { session: "s1".into() }, T2);
    assert_eq!(r.unwrap(), None);
    let x = store.get(&id).unwrap();
    assert_eq!(x.status, Status::InProgress);
    assert_eq!(x.session_id.as_deref(), Some("s1"));

    let r = store.apply_transition(&id, &Transition::Claim { session: "s2".into() }, T2);
    match r {
        Err(e @ TrackerError::AlreadyClaimedBy { .. }) => {
            assert_eq!(e.message(), format!("{id} already claimed by session s1"));
        }
        other => panic!("unexpected: {other:?}"),
    }

    let r = store.apply_transition(&id, &Transition::Release, T3);
    assert_eq!(r.unwrap().as_deref(), Some("s1"));
    let x = store.get(&id).unwrap();
    assert_eq!(x.status, Status::Open);
    assert_eq!(x.session_id, None);

    let r = store.apply_transition(&id, &Transition::Finish, T3);
    match r {
        Err(e @ TrackerError::NotClaimedUseClose { .. }) => {
            let msg = e.message();
            assert!(msg.contains("is not claimed"), "message was {msg}");
        }
        other => panic!("unexpected: {other:?}"),
    }
}

#[test]
fn blocked_issue_becomes_ready_when_blocker_closes() {
    let mut store = fresh_store();
    let x = store.create_issue("the work", "task", 2, "", T1).unwrap();
    let y = store.create_issue("the blocker", "task", 1, "", T2).unwrap();
    store.add_edge(&x, &y, T3).unwrap();

    let ready: Vec<String> =
        store.ready().into_iter().map(|i| store.issues[i].id.clone()).collect();
    assert!(!ready.contains(&x), "x must wait for its blocker");
    assert!(ready.contains(&y), "the blocker itself is ready");

    store.apply_transition(&y, &Transition::Close, T3).unwrap();
    let ready: Vec<String> =
        store.ready().into_iter().map(|i| store.issues[i].id.clone()).collect();
    assert!(ready.contains(&x), "x is ready once its blocker closed");
    assert!(!ready.contains(&y), "a closed issue is never ready");
}

#[test]
fn transition_on_unknown_id_is_not_found() {
    let mut store = fresh_store();
    let r = store.apply_transition("zz-none", &Transition::Claim { session: "s1".into() }, T1);
    assert!(matches!(r, Err(TrackerError::NotFound { .. })));
}

#[test]
fn in_progress_blocker_still_blocks() {
    let mut store = fresh_store();
    let x = store.create_issue("the work", "task", 2, "", T1).unwrap();
    let y = store.create_issue("the blocker", "task", 2, "", T2).unwrap();
    store.add_edge(&x, &y, T3).unwrap();
    store.apply_transition(&y, &Transition::Claim { session: "s1".into() }, T3).unwrap();
    let ready: Vec<String> =
        store.ready().into_iter().map(|i| store.issues[i].id.clone()).collect();
    assert!(!ready.contains(&x), "an in-progress blocker still blocks");
    assert!(!ready.contains(&y), "an in-progress issue is not ready either");
}

#[test]
fn missing_blocker_does_not_block() {
    let mut store = fresh_store();
    let x = store.create_issue("the work", "task", 2, "", T1).unwrap();
    // A dangling blocker id, as a hand-edited file could hold.
    let pos = store.find_index(&x).unwrap();
    store.issues[pos].blocked_by.push("zz-nope".to_string());
    let ready: Vec<String> =
        store.ready().into_iter().map(|i| store.issues[i].id.clone()).collect();
    assert!(ready.contains(&x));
}

#[test]
fn ready_orders_by_priority_then_age() {
    let mut store = fresh_store();
    let low = store.create_issue("later", "task", 3, "", T1).unwrap();
    let urgent_old = store.create_issue("urgent old", "task", 0, "", T1).unwrap();
    let urgent_new = store.create_issue("urgent new", "task", 0, "", T2).unwrap();
    let ready: Vec<String> =
        store.ready().into_iter().map(|i| store.issues[i].id.clone()).collect();
    assert_eq!(ready, vec![urgent_old, urgent_new, low]);
}

#[test]
fn mine_lists_only_the_sessions_issues() {
    let mut store = fresh_store();
    let a = store.create_issue("one", "task", 2, "", T1).unwrap();
    let b = store.create_issue("two", "task", 1, "", T2).unwrap();
    let _c = store.create_issue("three", "task", 0, "", T3).unwrap();
    store.apply_transition(&a, &Transition::Claim { session: "s1".into() }, T3).unwrap();
    store.apply_transition(&b, &Transition::Claim { session: "s1".into() }, T3).unwrap();
    let mine: Vec<String> =
        store.mine("s1").into_iter().map(|i| store.issues[i].id.clone()).collect();
    assert_eq!(mine, vec![b, a], "claimed issues, most urgent first");
    assert!(store.mine("s2").is_empty());
}

#[test]
fn list_filters_by_status() {
    let mut store = fresh_store();
    let a = store.create_issue("one", "task", 2, "", T1).unwrap();
    let b = store.create_issue("two", "task", 2, "", T2).unwrap();
    store.apply_transition(&a, &Transition::Close, T3).unwrap();

    let open: Vec<String> = store
        .list(Some(Status::Open), false)
        .into_iter()
        .map(|i| store.issues[i].id.clone())
        .collect();
    assert_eq!(open, vec![b.clone()]);

    let default: Vec<String> =
        store.list(None, false).into_iter().map(|i| store.issues[i].id.clone()).collect();
    assert_eq!(default, vec![b.clone()], "closed issues hidden by default");

    let all: Vec<String> =
        store.list(None, true).into_iter().map(|i| store.issues[i].id.clone()).collect();
    assert_eq!(all.len(), 2);
    assert!(all.contains(&a) && all.contains(&b));
}
