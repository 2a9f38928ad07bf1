//! The run's error taxonomy.
//!
//! Every fatal outcome of a run is one of these values; `message` renders
//! the human-readable text whose exact contents the contract states.

use vstd::prelude::*;

use crate::text::{join_names, spec_joined};

verus! {

/// Why a run failed.
#[derive(Debug)]
pub enum Error {
    /// The collaborator could not be invoked or a query returned a
    /// non-zero status; its own diagnostic is attached.
    Collaborator { message: String },
    /// The repository has zero remotes.
    NoRemotesConfigured,
    /// A user-specified remote does not exist.
    MissingPreferredRemote { remote: String },
    /// A single push attempt failed under fail-fast.
    PushFailed { remote: String },
    /// Every candidate in the attempt order failed.
    AllRemotesFailed { branch: String, attempted: Vec<String> },
}

/// The message text of each error.
pub open spec fn spec_message(e: &Error) -> Seq<char> {
    match e {
        Error::Collaborator { message } => message@,
        Error::NoRemotesConfigured => "No Git remotes found"@,
        Error::MissingPreferredRemote { remote } => "Git remote not found: "@ + remote@,
        Error::PushFailed { remote } => "Failed to push to Git remote "@ + remote@,
        Error::AllRemotesFailed { branch, attempted } => "Failed to upstream "@ + branch@
            + " to any remote (attempted: "@ + spec_joined(attempted.deep_view(), ", "@) + ")"@,
    }
}

impl Error {
    /// A human-readable description, matching `spec_message`.
    pub fn message(&self) -> (r: String)
        ensures
            r@ == spec_message(self),
    {
        match self {
            Error::Collaborator { message } => message.clone(),
            Error::NoRemotesConfigured => "No Git remotes found".to_owned(),
            Error::MissingPreferredRemote { remote } => {
                let mut r = "Git remote not found: ".to_owned();
                r.append(remote.as_str());
                r
            },
            Error::PushFailed { remote } => {
                let mut r = "Failed to push to Git remote ".to_owned();
                r.append(remote.as_str());
                r
            },
            Error::AllRemotesFailed { branch, attempted } => {
                let mut r = "Failed to upstream ".to_owned();
                r.append(branch.as_str());
                r.append(" to any remote (attempted: ");
                let joined = join_names(attempted, ", ");
                r.append(joined.as_str());
                r.append(")");
                proof {
                    assert(r@ =~= spec_message(self));
                }
                r
            },
        }
    }
}

} // verus!
