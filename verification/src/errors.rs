//! Structured errors for every operation of the tracker, together with
//! their one-line messages.  The taxonomy follows the tracker's design:
//! unknown ids, validation failures, illegal ownership transitions, and
//! malformed persisted records.

use vstd::prelude::*;
use vstd::string::StringExecFns;
use crate::text::dec_rep;
use crate::text::fmt_u64;

verus! {

/// The mathematical shape of a [`TrackerError`]: the same variants over
/// character sequences.
pub enum ErrorModel {
    NotFound { id: Seq<char> },
    SelfBlock,
    DuplicateEdge { id: Seq<char>, blocker: Seq<char> },
    MissingEdge { id: Seq<char>, blocker: Seq<char> },
    PriorityOutOfRange,
    UnknownIssueType { value: Seq<char> },
    UnknownStatus { value: Seq<char> },
    UnknownAction { value: Seq<char> },
    LabelExists { id: Seq<char>, label: Seq<char> },
    LabelMissing { id: Seq<char>, label: Seq<char> },
    AlreadyClaimedBySelf { id: Seq<char> },
    AlreadyClaimedBy { id: Seq<char>, session: Seq<char> },
    NotClaimed { id: Seq<char> },
    NotInProgress { id: Seq<char> },
    NotClaimedUseClose { id: Seq<char> },
    AlreadyClosed { id: Seq<char> },
    OpenNotInProgress { id: Seq<char> },
    ClaimedReleaseFirst { id: Seq<char>, session: Seq<char> },
    MalformedRecord { line: nat },
    MalformedConfig,
}

/// What an operation reports when it cannot run: an unknown id, a
/// validation failure, an illegal ownership transition, or a malformed
/// persisted record.
#[derive(Debug)]
pub enum TrackerError {
    /// No issue with this id is in the store.
    NotFound { id: String },
    /// An issue may not block itself.
    SelfBlock,
    /// The blocking edge is already present.
    DuplicateEdge { id: String, blocker: String },
    /// The blocking edge to remove is not there.
    MissingEdge { id: String, blocker: String },
    /// Priorities run from 0 to 4.
    PriorityOutOfRange,
    /// Not one of task, epic, refactor, spike.
    UnknownIssueType { value: String },
    /// Not one of open, in_progress, closed.
    UnknownStatus { value: String },
    /// Not one of add, remove.
    UnknownAction { value: String },
    /// The label is already on the issue.
    LabelExists { id: String, label: String },
    /// The label to remove is not on the issue.
    LabelMissing { id: String, label: String },
    /// The claiming session holds the claim already.
    AlreadyClaimedBySelf { id: String },
    /// Another session holds the claim.
    AlreadyClaimedBy { id: String, session: String },
    /// Release of an issue nobody claimed.
    NotClaimed { id: String },
    /// Release of a claimed issue that is not in progress.
    NotInProgress { id: String },
    /// Finish of an issue nobody claimed.
    NotClaimedUseClose { id: String },
    /// The issue is closed already.
    AlreadyClosed { id: String },
    /// Finish of an open issue.
    OpenNotInProgress { id: String },
    /// Close of a claimed issue.
    ClaimedReleaseFirst { id: String, session: String },
    /// A persisted line that is not one well-formed record.
    MalformedRecord { line: u64 },
    /// A settings file that is not one well-formed settings record.
    MalformedConfig,
}

impl View for TrackerError {
    type V = ErrorModel;

    open spec fn view(&self) -> ErrorModel {
        match self {
            TrackerError::NotFound { id } => ErrorModel::NotFound { id: id@ },
            TrackerError::SelfBlock => ErrorModel::SelfBlock,
            TrackerError::DuplicateEdge { id, blocker } => ErrorModel::DuplicateEdge {
                id: id@,
                blocker: blocker@,
            },
            TrackerError::MissingEdge { id, blocker } => ErrorModel::MissingEdge {
                id: id@,
                blocker: blocker@,
            },
            TrackerError::PriorityOutOfRange => ErrorModel::PriorityOutOfRange,
            TrackerError::UnknownIssueType { value } => ErrorModel::UnknownIssueType {
                value: value@,
            },
            TrackerError::UnknownStatus { value } => ErrorModel::UnknownStatus { value: value@ },
            TrackerError::UnknownAction { value } => ErrorModel::UnknownAction { value: value@ },
            TrackerError::LabelExists { id, label } => ErrorModel::LabelExists {
                id: id@,
                label: label@,
            },
            TrackerError::LabelMissing { id, label } => ErrorModel::LabelMissing {
                id: id@,
                label: label@,
            },
            TrackerError::AlreadyClaimedBySelf { id } => ErrorModel::AlreadyClaimedBySelf {
                id: id@,
            },
            TrackerError::AlreadyClaimedBy { id, session } => ErrorModel::AlreadyClaimedBy {
                id: id@,
                session: session@,
            },
            TrackerError::NotClaimed { id } => ErrorModel::NotClaimed { id: id@ },
            TrackerError::NotInProgress { id } => ErrorModel::NotInProgress { id: id@ },
            TrackerError::NotClaimedUseClose { id } => ErrorModel::NotClaimedUseClose { id: id@ },
            TrackerError::AlreadyClosed { id } => ErrorModel::AlreadyClosed { id: id@ },
            TrackerError::OpenNotInProgress { id } => ErrorModel::OpenNotInProgress { id: id@ },
            TrackerError::ClaimedReleaseFirst { id, session } => ErrorModel::ClaimedReleaseFirst {
                id: id@,
                session: session@,
            },
            TrackerError::MalformedRecord { line } => ErrorModel::MalformedRecord {
                line: *line as nat,
            },
            TrackerError::MalformedConfig => ErrorModel::MalformedConfig,
        }
    }
}

impl TrackerError {
    /// The message shown to the caller, spelled exactly as the view says.
    pub fn message(&self) -> (r: String)
        ensures
            r@ == error_message(self@),
    {
        let mut m = String::new();
        match self {
            TrackerError::NotFound { id } => {
                m.append("Issue not found: ");
                m.append(id.as_str());
            },
            TrackerError::SelfBlock => {
                m.append("Issue cannot block itself");
            },
            TrackerError::DuplicateEdge { id, blocker } => {
                m.append(id.as_str());
                m.append(" already blocked by ");
                m.append(blocker.as_str());
            },
            TrackerError::MissingEdge { id, blocker } => {
                m.append(id.as_str());
                m.append(" is not blocked by ");
                m.append(blocker.as_str());
            },
            TrackerError::PriorityOutOfRange => {
                m.append("Priority must be 0-4");
            },
            TrackerError::UnknownIssueType { value } => {
                m.append("Unknown issue type: ");
                m.append(value.as_str());
                m.append(" (valid: task, epic, refactor, spike)");
            },
            TrackerError::UnknownStatus { value } => {
                m.append("Unknown status: ");
                m.append(value.as_str());
            },
            TrackerError::UnknownAction { value } => {
                m.append("Unknown action: ");
                m.append(value.as_str());
                m.append(" (use 'add' or 'remove')");
            },
            TrackerError::LabelExists { id, label } => {
                m.append("Label '");
                m.append(label.as_str());
                m.append("' already exists on ");
                m.append(id.as_str());
            },
            TrackerError::LabelMissing { id, label } => {
                m.append("Label '");
                m.append(label.as_str());
                m.append("' not found on ");
                m.append(id.as_str());
            },
            TrackerError::AlreadyClaimedBySelf { id } => {
                m.append(id.as_str());
                m.append(" already claimed by this session");
            },
            TrackerError::AlreadyClaimedBy { id, session } => {
                m.append(id.as_str());
                m.append(" already claimed by session ");
                m.append(session.as_str());
            },
            TrackerError::NotClaimed { id } => {
                m.append(id.as_str());
                m.append(" is not claimed");
            },
            TrackerError::NotInProgress { id } => {
                m.append(id.as_str());
                m.append(" is not in progress");
            },
            TrackerError::NotClaimedUseClose { id } => {
                m.append(id.as_str());
                m.append(" is not claimed. Use 'close' for unclaimed issues.");
            },
            TrackerError::AlreadyClosed { id } => {
                m.append(id.as_str());
                m.append(" is already closed");
            },
            TrackerError::OpenNotInProgress { id } => {
                m.append(id.as_str());
                m.append(" is open, not in progress");
            },
            TrackerError::ClaimedReleaseFirst { id, session } => {
                m.append(id.as_str());
                m.append(" is claimed by session ");
                m.append(session.as_str());
                m.append(". Use 'release' first, or 'finish' to complete.");
            },
            TrackerError::MalformedRecord { line } => {
                m.append("Line ");
                let n = fmt_u64(*line);
                m.append(n.as_str());
                m.append(": malformed issue record");
            },
            TrackerError::MalformedConfig => {
                m.append("Failed to parse config");
            },
        }
        m
    }
}

/// The exact text of each error message.
pub open spec fn error_message(e: ErrorModel) -> Seq<char> {
    match e {
        ErrorModel::NotFound { id } => "Issue not found: "@ + id,
        ErrorModel::SelfBlock => "Issue cannot block itself"@,
        ErrorModel::DuplicateEdge { id, blocker } => id + " already blocked by "@ + blocker,
        ErrorModel::MissingEdge { id, blocker } => id + " is not blocked by "@ + blocker,
        ErrorModel::PriorityOutOfRange => "Priority must be 0-4"@,
        ErrorModel::UnknownIssueType { value } => "Unknown issue type: "@ + value
            + " (valid: task, epic, refactor, spike)"@,
        ErrorModel::UnknownStatus { value } => "Unknown status: "@ + value,
        ErrorModel::UnknownAction { value } => "Unknown action: "@ + value
            + " (use 'add' or 'remove')"@,
        ErrorModel::LabelExists { id, label } => "Label '"@ + label + "' already exists on "@ + id,
        ErrorModel::LabelMissing { id, label } => "Label '"@ + label + "' not found on "@ + id,
        ErrorModel::AlreadyClaimedBySelf { id } => id + " already claimed by this session"@,
        ErrorModel::AlreadyClaimedBy { id, session } => id + " already claimed by session "@
            + session,
        ErrorModel::NotClaimed { id } => id + " is not claimed"@,
        ErrorModel::NotInProgress { id } => id + " is not in progress"@,
        ErrorModel::NotClaimedUseClose { id } => id
            + " is not claimed. Use 'close' for unclaimed issues."@,
        ErrorModel::AlreadyClosed { id } => id + " is already closed"@,
        ErrorModel::OpenNotInProgress { id } => id + " is open, not in progress"@,
        ErrorModel::ClaimedReleaseFirst { id, session } => id + " is claimed by session "@
            + session + ". Use 'release' first, or 'finish' to complete."@,
        ErrorModel::MalformedRecord { line } => "Line "@ + dec_rep(line)
            + ": malformed issue record"@,
        ErrorModel::MalformedConfig => "Failed to parse config"@,
    }
}

} // verus!
