//! Core logic of a helper that pushes the current branch to a remote and sets
//! it as upstream, trying candidate remotes in a preference order until one
//! succeeds.
//!
//! The library holds the verified parts: building the ordered attempt
//! sequence from the user's preferences and the remotes known to the
//! repository, constructing the push invocation, and the state machine that
//! reacts to each push outcome. Invoking the version-control tool itself is
//! collaborator I/O and stays outside.

pub mod config;
pub mod errors;
pub mod lex;
pub mod orchestrate;
pub mod remotes;
pub mod text;
