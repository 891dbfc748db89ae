//! Scans a directory tree for subdirectories that match configurable
//! "build artifact" signatures (required file names, required subdirectory
//! names, verification commands) and drives cleanup commands against the
//! matches.
//!
//! The library is organised around plain values so that every decision is
//! verified:
//! - [`matcher`] compiles name patterns (anchored regular expressions) and
//!   tests directory-entry names against them;
//! - [`rules`] holds the rule type ([`rules::Pattern`]) and its pure
//!   classification over a directory listing;
//! - [`command`] interprets the raw status of a finished subprocess;
//! - [`walker`] is the traversal engine, written as a state machine: it is
//!   handed directory listings and command statuses as events and answers
//!   with the next action (list a directory, run a command, or stop), so
//!   that the caller performs all filesystem and process work;
//! - [`laws`] states and proves the properties that hold of a whole
//!   traversal.

pub mod command;
pub mod laws;
pub mod matcher;
pub mod rules;
pub mod walker;

use vstd::prelude::*;

verus! {

/// Owned copy of a borrowed string, as the rule builders expect.
pub fn str_to_string(s: &str) -> (r: String)
    ensures
        r@ == s@,
{
    String::from_str(s)
}

} // verus!
