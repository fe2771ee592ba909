//! What can go wrong while routes are composed.

use vstd::prelude::*;

verus! {

/// The failure of a composition step. The registry it was tried on is left
/// as it was.
#[derive(Debug, PartialEq, Eq)]
pub enum RouteError {
    /// The name is already taken in the registry.
    DuplicateName(String),
}

impl RouteError {
    /// The name that the failure is about.
    pub open spec fn about(&self) -> Seq<char> {
        match self {
            RouteError::DuplicateName(name) => name@,
        }
    }

    /// The name that the failure is about.
    pub fn name(&self) -> (name: &str)
        ensures
            name@ == self.about(),
    {
        match self {
            RouteError::DuplicateName(name) => name.as_str(),
        }
    }
}

} // verus!
