//! What can go wrong when a route is registered.

use vstd::prelude::*;
use vstd::string::StringExecFns;

verus! {

/// Why a route was refused.
#[derive(Debug, Clone, Copy, PartialEq, Eq)]
pub enum RouteError {
    /// The pattern does not begin with `/`.
    MalformedPattern,
}

impl RouteError {
    /// The error in words.
    pub fn message(&self) -> (text: String)
        ensures
            text@ == "Paths must start with a slash (/)"@,
    {
        match self {
            RouteError::MalformedPattern => String::from_str("Paths must start with a slash (/)"),
        }
    }
}

} // verus!
