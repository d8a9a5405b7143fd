//! The error taxonomy of the library: a missing row is an absent value, a
//! duplicate page title is a named conflict, and configuration problems
//! carry their reason.

use vstd::prelude::*;

verus! {

#[derive(Debug, Clone, PartialEq, Eq)]
pub enum Error {
    /// A page with the same title (case-insensitively) already exists; the
    /// offending title is carried along.
    PageTitleExists(String),
    /// The addressed row does not exist.
    NotFound,
    /// The configuration is rejected, with the reason.
    ConfigValidation(String),
}

} // verus!
