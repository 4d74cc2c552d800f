//! The error kinds the library itself can raise.
//!
//! Input/output and external-process failures never arise here: every
//! function of this crate is a pure computation, and those failures stay
//! with the caller that performs the outside work.

use vstd::prelude::*;

verus! {

/// Why a registry operation was refused.
#[derive(Clone, Copy, Debug, PartialEq, Eq, Structural)]
pub enum Error {
    /// A registry entry for the repository already exists.
    Conflict,
    /// No registry entry matches the given index.
    NotFound,
    /// The whitelist pattern is not a valid regular expression.
    BadPattern,
}

impl Error {
    /// A short diagnostic text, as the job-table front ends report it.
    pub fn text(&self) -> (r: &'static str)
        ensures
            *self == Error::Conflict ==> r@ == "repo already exists"@,
            *self == Error::NotFound ==> r@ == "repo not found"@,
            *self == Error::BadPattern ==> r@ == "invalid whitelist pattern"@,
    {
        match self {
            Error::Conflict => "repo already exists",
            Error::NotFound => "repo not found",
            Error::BadPattern => "invalid whitelist pattern",
        }
    }
}

} // verus!
