//! Every row of the ownership state machine table, one test per row.

use ba::issue::{Issue, IssueType, Status, Transition};
use ba::errors::TrackerError;

fn mk(status: Status, session: Option<&str>) -> Issue {
    Issue {
        id: String::from("x-1"),
        title: String::from("a title"),
        description: String::new(),
        status,
        priority: 2,
        issue_type: IssueType::Task,
        session_id: session.map(|s| s.to_string()),
        labels: Vec::new(),
        comments: Vec::new(),
        created_at: String::from("2024-01-01T00:00:00.000000000Z"),
        updated_at: String::from("2024-01-01T00:00:00.000000000Z"),
        closed_at: if matches!(status, Status::Closed) {
            Some(String::from("2024-01-02T00:00:00.000000000Z"))
        } else {
            None
        },
        blocks: Vec::new(),
        blocked_by: Vec::new(),
    }
}

const NOW: &str = "2024-03-01T10:00:00.000000000Z";

fn claim(s: &str) -> Transition {
    Transition::Claim { session: s.to_string() }
}

#[test]
fn open_unclaimed_claim_starts_work() {
    let mut i = mk(Status::Open, None);
    let r = i.apply(&claim("s1"), NOW);
    assert_eq!(r.unwrap(), None);
    assert_eq!(i.status, Status::InProgress);
    assert_eq!(i.session_id.as_deref(), Some("s1"));
    assert_eq!(i.updated_at, NOW);
}

#[test]
fn open_claim_by_same_session_rejected() {
    let mut i = mk(Status::Open, Some("s1"));
    let r = i.apply(&claim("s1"), NOW);
    assert!(matches!(r, Err(TrackerError::AlreadyClaimedBySelf { .. })));
    assert_eq!(i.session_id.as_deref(), Some("s1"));
    assert_eq!(i.status, Status::Open);
}

#[test]
fn open_claim_by_other_session_rejected() {
    let mut i = mk(Status::Open, Some("s1"));
    let r = i.apply(&claim("s2"), NOW);
    match r {
        Err(TrackerError::AlreadyClaimedBy { session, .. }) => assert_eq!(session, "s1"),
        other => panic!("unexpected: {other:?}"),
    }
}

#[test]
fn closed_claim_reopens() {
    let mut i = mk(Status::Closed, None);
    let r = i.apply(&claim("s1"), NOW);
    assert_eq!(r.unwrap(), None);
    assert_eq!(i.status, Status::InProgress);
    assert_eq!(i.session_id.as_deref(), Some("s1"));
    assert_eq!(i.closed_at, None);
}

#[test]
fn in_progress_claim_by_same_session_rejected() {
    let mut i = mk(Status::InProgress, Some("s1"));
    let r = i.apply(&claim("s1"), NOW);
    assert!(matches!(r, Err(TrackerError::AlreadyClaimedBySelf { .. })));
}

#[test]
fn in_progress_claim_by_other_session_rejected() {
    let mut i = mk(Status::InProgress, Some("s1"));
    let r = i.apply(&claim("s2"), NOW);
    match r {
        Err(TrackerError::AlreadyClaimedBy { session, .. }) => assert_eq!(session, "s1"),
        other => panic!("unexpected: {other:?}"),
    }
}

#[test]
fn in_progress_without_owner_claim_repairs() {
    let mut i = mk(Status::InProgress, None);
    let r = i.apply(&claim("s1"), NOW);
    assert_eq!(r.unwrap(), None);
    assert_eq!(i.status, Status::InProgress);
    assert_eq!(i.session_id.as_deref(), Some("s1"));
}

#[test]
fn in_progress_release_returns_to_open() {
    let mut i = mk(Status::InProgress, Some("s1"));
    let r = i.apply(&Transition::Release, NOW);
    assert_eq!(r.unwrap().as_deref(), Some("s1"));
    assert_eq!(i.status, Status::Open);
    assert_eq!(i.session_id, None);
}

#[test]
fn release_unclaimed_rejected() {
    let mut i = mk(Status::Open, None);
    let r = i.apply(&Transition::Release, NOW);
    assert!(matches!(r, Err(TrackerError::NotClaimed { .. })));
    let mut j = mk(Status::InProgress, None);
    let rj = j.apply(&Transition::Release, NOW);
    assert!(matches!(rj, Err(TrackerError::NotClaimed { .. })));
}

#[test]
fn release_claimed_but_not_in_progress_rejected() {
    let mut i = mk(Status::Open, Some("s1"));
    let r = i.apply(&Transition::Release, NOW);
    assert!(matches!(r, Err(TrackerError::NotInProgress { .. })));
    let mut j = mk(Status::Closed, Some("s1"));
    let rj = j.apply(&Transition::Release, NOW);
    assert!(matches!(rj, Err(TrackerError::NotInProgress { .. })));
}

#[test]
fn in_progress_finish_closes() {
    let mut i = mk(Status::InProgress, Some("s1"));
    let r = i.apply(&Transition::Finish, NOW);
    assert_eq!(r.unwrap().as_deref(), Some("s1"));
    assert_eq!(i.status, Status::Closed);
    assert_eq!(i.session_id, None);
    assert_eq!(i.closed_at.as_deref(), Some(NOW));
}

#[test]
fn finish_unclaimed_rejected() {
    let mut i = mk(Status::Open, None);
    let r = i.apply(&Transition::Finish, NOW);
    assert!(matches!(r, Err(TrackerError::NotClaimedUseClose { .. })));
    let mut j = mk(Status::Closed, None);
    let rj = j.apply(&Transition::Finish, NOW);
    assert!(matches!(rj, Err(TrackerError::NotClaimedUseClose { .. })));
}

#[test]
fn finish_already_closed_rejected() {
    let mut i = mk(Status::Closed, Some("s1"));
    let r = i.apply(&Transition::Finish, NOW);
    assert!(matches!(r, Err(TrackerError::AlreadyClosed { .. })));
}

#[test]
fn finish_open_but_claimed_rejected() {
    let mut i = mk(Status::Open, Some("s1"));
    let r = i.apply(&Transition::Finish, NOW);
    assert!(matches!(r, Err(TrackerError::OpenNotInProgress { .. })));
}

#[test]
fn open_unclaimed_close_closes() {
    let mut i = mk(Status::Open, None);
    let r = i.apply(&Transition::Close, NOW);
    assert_eq!(r.unwrap(), None);
    assert_eq!(i.status, Status::Closed);
    assert_eq!(i.closed_at.as_deref(), Some(NOW));
}

#[test]
fn close_already_closed_rejected() {
    let mut i = mk(Status::Closed, None);
    let r = i.apply(&Transition::Close, NOW);
    assert!(matches!(r, Err(TrackerError::AlreadyClosed { .. })));
    let mut j = mk(Status::Closed, Some("s1"));
    let rj = j.apply(&Transition::Close, NOW);
    assert!(matches!(rj, Err(TrackerError::AlreadyClosed { .. })));
}

#[test]
fn close_claimed_rejected() {
    let mut i = mk(Status::Open, Some("s1"));
    let r = i.apply(&Transition::Close, NOW);
    assert!(matches!(r, Err(TrackerError::ClaimedReleaseFirst { .. })));
    let mut j = mk(Status::InProgress, Some("s1"));
    let rj = j.apply(&Transition::Close, NOW);
    assert!(matches!(rj, Err(TrackerError::ClaimedReleaseFirst { .. })));
}

#[test]
fn in_progress_without_owner_close_repairs() {
    let mut i = mk(Status::InProgress, None);
    let r = i.apply(&Transition::Close, NOW);
    assert_eq!(r.unwrap(), None);
    assert_eq!(i.status, Status::Closed);
    assert_eq!(i.closed_at.as_deref(), Some(NOW));
}
