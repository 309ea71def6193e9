//! The values that callers exchange with the store: text operations, edit
//! requests and the answers to them.

use crate::rope::ApplyOpsError;
use vstd::prelude::*;

verus! {

/// One edit of the document. Positions count characters.
#[derive(Debug, Clone, PartialEq, Eq)]
pub enum TextOperation {
    /// Puts `text` in at character `position`.
    Insert { position: usize, text: String },
    /// Takes the characters from `start_position` to `end_position` out.
    Delete { start_position: usize, end_position: usize },
}

/// An edit request: the version that the caller has seen, and the edits.
#[derive(Debug, Clone, PartialEq, Eq)]
pub struct EditPayload {
    pub base_version: u64,
    pub ops: Vec<TextOperation>,
}

/// The answer to an edit request that was not malformed.
#[derive(Debug, Clone, Copy, PartialEq, Eq, Structural)]
pub enum EditResponse {
    /// The edits were applied; the document is at `new_version` now.
    Applied { new_version: u64 },
    /// The edits were made against another version than the current one,
    /// `server_version`.
    Conflict { server_version: u64 },
}

/// The whole document at one version.
#[derive(Debug, Clone, PartialEq, Eq)]
pub struct DocumentSnapshot {
    pub content: String,
    pub version: u64,
}

impl EditResponse {
    /// The answer that an outcome of `Timeline::apply_ops` calls for: the new
    /// version after a success, a conflict with the current version after a
    /// version mismatch, and the error itself after any other failure.
    pub open spec fn answer_to(outcome: Result<u64, ApplyOpsError>) -> Result<
        EditResponse,
        ApplyOpsError,
    > {
        match outcome {
            Ok(new_version) => Ok(EditResponse::Applied { new_version }),
            Err(ApplyOpsError::VersionMismatch { expected, actual }) => Ok(
                EditResponse::Conflict { server_version: expected },
            ),
            Err(error) => Err(error),
        }
    }

    /// Turns the outcome of `Timeline::apply_ops` into the answer for the
    /// caller.
    pub fn from_outcome(outcome: Result<u64, ApplyOpsError>) -> (answer: Result<
        EditResponse,
        ApplyOpsError,
    >)
        ensures
            answer == Self::answer_to(outcome),
    {
        match outcome {
            Ok(new_version) => Ok(EditResponse::Applied { new_version }),
            Err(ApplyOpsError::VersionMismatch { expected, actual }) => Ok(
                EditResponse::Conflict { server_version: expected },
            ),
            Err(error) => Err(error),
        }
    }
}

} // verus!
