//! The issue record and the ownership state machine.
//!
//! Status never changes through a field edit: the four transitions —
//! claim, release, finish, close — are the only path, and each is a pure
//! function of the current status and owner.  The machine is written once
//! as the specification [`step`] and once as the executable
//! [`Issue::apply`], which is proved to follow it row by row.

use vstd::prelude::*;
use vstd::string::StringExecFns;
use crate::errors::ErrorModel;
use crate::errors::TrackerError;
use crate::text::eq_ignore_case;
use crate::text::matches_ci;
use crate::text::str_eq;

verus! {

/// Where an issue stands: nobody has it, one session works on it, or the
/// work is done.
#[derive(Debug, Clone, Copy, PartialEq, Eq, Structural)]
pub enum Status {
    Open,
    InProgress,
    Closed,
}

/// The kind of work an issue describes.  Unrecognized legacy kinds map to
/// `Task` on import.
#[derive(Debug, Clone, Copy, PartialEq, Eq, Structural)]
pub enum IssueType {
    Task,
    Epic,
    Refactor,
    Spike,
}

/// One remark appended to an issue; the list never loses entries.
#[derive(Debug)]
pub struct Comment {
    pub author: String,
    pub text: String,
    pub created_at: String,
}

/// The mathematical shape of a [`Comment`].
pub struct CommentModel {
    pub author: Seq<char>,
    pub text: Seq<char>,
    pub created_at: Seq<char>,
}

impl View for Comment {
    type V = CommentModel;

    open spec fn view(&self) -> CommentModel {
        CommentModel { author: self.author@, text: self.text@, created_at: self.created_at@ }
    }
}

impl DeepView for Comment {
    type V = CommentModel;

    open spec fn deep_view(&self) -> CommentModel {
        self.view()
    }
}

/// The persisted work item.  Timestamps are opaque, caller-supplied
/// strings whose byte order is their time order; `blocks` and
/// `blocked_by` mirror each other across the store.
#[derive(Debug)]
pub struct Issue {
    pub id: String,
    pub title: String,
    pub description: String,
    pub status: Status,
    pub priority: u8,
    pub issue_type: IssueType,
    pub session_id: Option<String>,
    pub labels: Vec<String>,
    pub comments: Vec<Comment>,
    pub created_at: String,
    pub updated_at: String,
    pub closed_at: Option<String>,
    pub blocks: Vec<String>,
    pub blocked_by: Vec<String>,
}

/// The mathematical shape of an [`Issue`].
pub struct IssueModel {
    pub id: Seq<char>,
    pub title: Seq<char>,
    pub description: Seq<char>,
    pub status: Status,
    pub priority: u8,
    pub issue_type: IssueType,
    pub session_id: Option<Seq<char>>,
    pub labels: Seq<Seq<char>>,
    pub comments: Seq<CommentModel>,
    pub created_at: Seq<char>,
    pub updated_at: Seq<char>,
    pub closed_at: Option<Seq<char>>,
    pub blocks: Seq<Seq<char>>,
    pub blocked_by: Seq<Seq<char>>,
}

impl View for Issue {
    type V = IssueModel;

    open spec fn view(&self) -> IssueModel {
        IssueModel {
            id: self.id@,
            title: self.title@,
            description: self.description@,
            status: self.status,
            priority: self.priority,
            issue_type: self.issue_type,
            session_id: self.session_id.deep_view(),
            labels: self.labels.deep_view(),
            comments: self.comments.deep_view(),
            created_at: self.created_at@,
            updated_at: self.updated_at@,
            closed_at: self.closed_at.deep_view(),
            blocks: self.blocks.deep_view(),
            blocked_by: self.blocked_by.deep_view(),
        }
    }
}

impl DeepView for Issue {
    type V = IssueModel;

    open spec fn deep_view(&self) -> IssueModel {
        self.view()
    }
}

/// A transition of the ownership state machine.
#[derive(Debug)]
pub enum Transition {
    /// Take ownership for a session: open or closed becomes in progress.
    Claim { session: String },
    /// Abandon work: in progress becomes open again.
    Release,
    /// Complete work: in progress becomes closed.
    Finish,
    /// Close an unclaimed issue directly.
    Close,
}

/// The mathematical shape of a [`Transition`].
pub enum TransitionModel {
    Claim { session: Seq<char> },
    Release,
    Finish,
    Close,
}

impl View for Transition {
    type V = TransitionModel;

    open spec fn view(&self) -> TransitionModel {
        match self {
            Transition::Claim { session } => TransitionModel::Claim { session: session@ },
            Transition::Release => TransitionModel::Release,
            Transition::Finish => TransitionModel::Finish,
            Transition::Close => TransitionModel::Close,
        }
    }
}

/// What one transition does: either the new ownership state together with
/// the prior session to report, or the error that rejects it.
pub enum StepOutcome {
    Next {
        status: Status,
        session_id: Option<Seq<char>>,
        closed_at: Option<Seq<char>>,
        prior: Option<Seq<char>>,
    },
    Reject { error: ErrorModel },
}

/// The ownership state machine as a pure function: from the current
/// status, owner and recorded close time, a transition yields the next
/// state or an error.  Rows with an absent owner on an in-progress issue
/// are repaired rather than rejected.
pub open spec fn step(
    id: Seq<char>,
    status: Status,
    session_id: Option<Seq<char>>,
    closed_at: Option<Seq<char>>,
    t: TransitionModel,
    now: Seq<char>,
) -> StepOutcome {
    match t {
        TransitionModel::Claim { session } => match status {
            Status::Open => match session_id {
                None => StepOutcome::Next {
                    status: Status::InProgress,
                    session_id: Some(session),
                    closed_at,
                    prior: None,
                },
                Some(existing) => if existing == session {
                    StepOutcome::Reject { error: ErrorModel::AlreadyClaimedBySelf { id } }
                } else {
                    StepOutcome::Reject {
                        error: ErrorModel::AlreadyClaimedBy { id, session: existing },
                    }
                },
            },
            Status::Closed => StepOutcome::Next {
                status: Status::InProgress,
                session_id: Some(session),
                closed_at: None,
                prior: None,
            },
            Status::InProgress => match session_id {
                Some(existing) => if existing == session {
                    StepOutcome::Reject { error: ErrorModel::AlreadyClaimedBySelf { id } }
                } else {
                    StepOutcome::Reject {
                        error: ErrorModel::AlreadyClaimedBy { id, session: existing },
                    }
                },
                // In progress with no owner: repaired, the session takes it.
                None => StepOutcome::Next {
                    status: Status::InProgress,
                    session_id: Some(session),
                    closed_at,
                    prior: None,
                },
            },
        },
        TransitionModel::Release => match session_id {
            Some(existing) => if status == Status::InProgress {
                StepOutcome::Next {
                    status: Status::Open,
                    session_id: None,
                    closed_at,
                    prior: Some(existing),
                }
            } else {
                StepOutcome::Reject { error: ErrorModel::NotInProgress { id } }
            },
            None => StepOutcome::Reject { error: ErrorModel::NotClaimed { id } },
        },
        TransitionModel::Finish => match session_id {
            Some(existing) => match status {
                Status::InProgress => StepOutcome::Next {
                    status: Status::Closed,
                    session_id: None,
                    closed_at: Some(now),
                    prior: Some(existing),
                },
                Status::Closed => StepOutcome::Reject {
                    error: ErrorModel::AlreadyClosed { id },
                },
                Status::Open => StepOutcome::Reject {
                    error: ErrorModel::OpenNotInProgress { id },
                },
            },
            None => StepOutcome::Reject { error: ErrorModel::NotClaimedUseClose { id } },
        },
        TransitionModel::Close => match status {
            Status::Closed => StepOutcome::Reject { error: ErrorModel::AlreadyClosed { id } },
            _ => match session_id {
                Some(existing) => StepOutcome::Reject {
                    error: ErrorModel::ClaimedReleaseFirst { id, session: existing },
                },
                // Open, or in progress with no owner (repaired): close it.
                None => StepOutcome::Next {
                    status: Status::Closed,
                    session_id: None,
                    closed_at: Some(now),
                    prior: None,
                },
            },
        },
    }
}

/// What [`step`] decides for an issue as it stands.
pub open spec fn step_of(pre: Issue, t: TransitionModel, now: Seq<char>) -> StepOutcome {
    step(pre.id@, pre.status, pre.session_id.deep_view(), pre.closed_at.deep_view(), t, now)
}

/// How an issue after a transition relates to the issue before it: on
/// success the status, owner and close time move to the next state, the
/// update time is stamped, and every other field stays; on rejection
/// nothing changes.
pub open spec fn applied(pre: Issue, post: Issue, t: TransitionModel, now: Seq<char>) -> bool {
    match step_of(pre, t, now) {
        StepOutcome::Next { status, session_id, closed_at, prior } => {
            &&& post.status == status
            &&& post.session_id.deep_view() == session_id
            &&& post.closed_at.deep_view() == closed_at
            &&& post.updated_at@ == now
            &&& post.id == pre.id
            &&& post.title == pre.title
            &&& post.description == pre.description
            &&& post.priority == pre.priority
            &&& post.issue_type == pre.issue_type
            &&& post.labels == pre.labels
            &&& post.comments == pre.comments
            &&& post.created_at == pre.created_at
            &&& post.blocks == pre.blocks
            &&& post.blocked_by == pre.blocked_by
        },
        StepOutcome::Reject { .. } => post == pre,
    }
}

/// How a transition's return value relates to what [`step`] decides: the
/// prior session on success, the rejecting error otherwise.
pub open spec fn step_reported(
    pre: Issue,
    t: TransitionModel,
    now: Seq<char>,
    r: Result<Option<String>, TrackerError>,
) -> bool {
    match step_of(pre, t, now) {
        StepOutcome::Next { prior, .. } => r is Ok && r->Ok_0.deep_view() == prior,
        StepOutcome::Reject { error } => r is Err && r->Err_0@ == error,
    }
}

impl Issue {
    /// A record is well formed when its priority is in range.
    pub open spec fn wf(self) -> bool {
        self.priority <= 4
    }

    /// Applies one ownership transition, following [`step`] exactly.
    pub fn apply(&mut self, t: &Transition, now: &str) -> (r: Result<
        Option<String>,
        TrackerError,
    >)
        ensures
            applied(*old(self), *final(self), t@, now@),
            step_reported(*old(self), t@, now@, r),
    {
        match t {
            Transition::Claim { session } => match self.status {
                Status::Open | Status::InProgress => match &self.session_id {
                    Some(existing) => {
                        if str_eq(existing.as_str(), session.as_str()) {
                            Err(TrackerError::AlreadyClaimedBySelf { id: self.id.clone() })
                        } else {
                            Err(TrackerError::AlreadyClaimedBy {
                                id: self.id.clone(),
                                session: existing.clone(),
                            })
                        }
                    },
                    None => {
                        self.session_id = Some(session.clone());
                        self.status = Status::InProgress;
                        self.updated_at = String::from_str(now);
                        Ok(None)
                    },
                },
                Status::Closed => {
                    self.session_id = Some(session.clone());
                    self.status = Status::InProgress;
                    self.closed_at = None;
                    self.updated_at = String::from_str(now);
                    Ok(None)
                },
            },
            Transition::Release => match &self.session_id {
                Some(existing) => {
                    if matches!(self.status, Status::InProgress) {
                        let prior = existing.clone();
                        self.session_id = None;
                        self.status = Status::Open;
                        self.updated_at = String::from_str(now);
                        Ok(Some(prior))
                    } else {
                        Err(TrackerError::NotInProgress { id: self.id.clone() })
                    }
                },
                None => Err(TrackerError::NotClaimed { id: self.id.clone() }),
            },
            Transition::Finish => match &self.session_id {
                Some(existing) => match self.status {
                    Status::InProgress => {
                        let prior = existing.clone();
                        self.session_id = None;
                        self.status = Status::Closed;
                        self.closed_at = Some(String::from_str(now));
                        self.updated_at = String::from_str(now);
                        Ok(Some(prior))
                    },
                    Status::Closed => Err(TrackerError::AlreadyClosed { id: self.id.clone() }),
                    Status::Open => Err(TrackerError::OpenNotInProgress { id: self.id.clone() }),
                },
                None => Err(TrackerError::NotClaimedUseClose { id: self.id.clone() }),
            },
            Transition::Close => match self.status {
                Status::Closed => Err(TrackerError::AlreadyClosed { id: self.id.clone() }),
                _ => match &self.session_id {
                    Some(existing) => Err(TrackerError::ClaimedReleaseFirst {
                        id: self.id.clone(),
                        session: existing.clone(),
                    }),
                    None => {
                        self.status = Status::Closed;
                        self.closed_at = Some(String::from_str(now));
                        self.updated_at = String::from_str(now);
                        Ok(None)
                    },
                },
            },
        }
    }
}

/// Which status a keyword names, written as the tracker writes them.
pub open spec fn status_keyword(s: Seq<char>) -> Option<Status> {
    if s == "open"@ {
        Some(Status::Open)
    } else if s == "in_progress"@ {
        Some(Status::InProgress)
    } else if s == "closed"@ {
        Some(Status::Closed)
    } else {
        None
    }
}

/// Reads a status keyword: exactly `open`, `in_progress` or `closed`.
pub fn parse_status(s: &str) -> (r: Result<Status, TrackerError>)
    ensures
        match status_keyword(s@) {
            Some(st) => r == Ok::<Status, TrackerError>(st),
            None => {
                &&& r is Err
                &&& r->Err_0@ == (ErrorModel::UnknownStatus { value: s@ })
            },
        },
{
    if str_eq(s, "open") {
        Ok(Status::Open)
    } else if str_eq(s, "in_progress") {
        Ok(Status::InProgress)
    } else if str_eq(s, "closed") {
        Ok(Status::Closed)
    } else {
        Err(TrackerError::UnknownStatus { value: String::from_str(s) })
    }
}

/// The keyword for a status.
pub open spec fn status_name(st: Status) -> Seq<char> {
    match st {
        Status::Open => "open"@,
        Status::InProgress => "in_progress"@,
        Status::Closed => "closed"@,
    }
}

/// Writes a status as its keyword.
pub fn status_label(st: Status) -> (r: String)
    ensures
        r@ == status_name(st),
{
    match st {
        Status::Open => String::from_str("open"),
        Status::InProgress => String::from_str("in_progress"),
        Status::Closed => String::from_str("closed"),
    }
}

/// Which issue type a keyword names, letter case aside.
pub open spec fn issue_type_keyword(s: Seq<char>) -> Option<IssueType> {
    if matches_ci(s, "task"@, "TASK"@) {
        Some(IssueType::Task)
    } else if matches_ci(s, "epic"@, "EPIC"@) {
        Some(IssueType::Epic)
    } else if matches_ci(s, "refactor"@, "REFACTOR"@) {
        Some(IssueType::Refactor)
    } else if matches_ci(s, "spike"@, "SPIKE"@) {
        Some(IssueType::Spike)
    } else {
        None
    }
}

/// Reads an issue type keyword, accepting either letter case.
pub fn parse_issue_type(s: &str) -> (r: Result<IssueType, TrackerError>)
    ensures
        match issue_type_keyword(s@) {
            Some(t) => r == Ok::<IssueType, TrackerError>(t),
            None => {
                &&& r is Err
                &&& r->Err_0@ == (ErrorModel::UnknownIssueType { value: s@ })
            },
        },
{
    proof {
        reveal_strlit("task");
        reveal_strlit("TASK");
        reveal_strlit("epic");
        reveal_strlit("EPIC");
        reveal_strlit("refactor");
        reveal_strlit("REFACTOR");
        reveal_strlit("spike");
        reveal_strlit("SPIKE");
    }
    if eq_ignore_case(s, "task", "TASK") {
        Ok(IssueType::Task)
    } else if eq_ignore_case(s, "epic", "EPIC") {
        Ok(IssueType::Epic)
    } else if eq_ignore_case(s, "refactor", "REFACTOR") {
        Ok(IssueType::Refactor)
    } else if eq_ignore_case(s, "spike", "SPIKE") {
        Ok(IssueType::Spike)
    } else {
        Err(TrackerError::UnknownIssueType { value: String::from_str(s) })
    }
}

/// The keyword for an issue type.
pub open spec fn issue_type_name(t: IssueType) -> Seq<char> {
    match t {
        IssueType::Task => "task"@,
        IssueType::Epic => "epic"@,
        IssueType::Refactor => "refactor"@,
        IssueType::Spike => "spike"@,
    }
}

/// Writes an issue type as its keyword.
pub fn issue_type_label(t: IssueType) -> (r: String)
    ensures
        r@ == issue_type_name(t),
{
    match t {
        IssueType::Task => String::from_str("task"),
        IssueType::Epic => String::from_str("epic"),
        IssueType::Refactor => String::from_str("refactor"),
        IssueType::Spike => String::from_str("spike"),
    }
}

} // verus!
