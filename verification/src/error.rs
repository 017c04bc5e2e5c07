use vstd::prelude::*;

verus! {

/// The failure kinds that the library's operations report.
///
/// Every fallible operation of the library returns one of these kinds; the
/// caller renders the message and decides how to exit.
#[derive(Clone, Copy, PartialEq, Eq, Structural, Debug)]
pub enum BatlError {
    /// An identifier failed the name grammar or its version suffix failed
    /// semantic-version parsing.
    InvalidName,
    /// No schema generation accepted the persisted configuration document.
    ConfigInvalid,
    /// A resource, dependency or link is absent at every searched location.
    NotFound,
    /// A create or link target is already present.
    AlreadyExists,
    /// A link operation referenced a name with no dependency entry.
    MissingDependency,
    /// A link operation referenced a name with no link entry.
    MissingLink,
    /// An operation is blocked by the current state, such as removing a
    /// dependency that is still linked.
    ActionImpossible,
    /// The declared dependency graph contains a cycle.
    CyclicDependency,
    /// The registry transport failed or returned a non-success status.
    NetworkFailure,
    /// An underlying filesystem operation failed.
    IoFailure,
}

impl BatlError {
    /// A short description of the failure, for callers that render errors.
    pub fn message(&self) -> (r: &'static str)
        ensures
            r@.len() > 0,
    {
        match self {
            BatlError::InvalidName => {
                proof { reveal_strlit("invalid resource name"); }
                "invalid resource name"
            },
            BatlError::ConfigInvalid => {
                proof { reveal_strlit("no schema generation accepts the configuration"); }
                "no schema generation accepts the configuration"
            },
            BatlError::NotFound => {
                proof { reveal_strlit("resource does not exist"); }
                "resource does not exist"
            },
            BatlError::AlreadyExists => {
                proof { reveal_strlit("resource already exists"); }
                "resource already exists"
            },
            BatlError::MissingDependency => {
                proof { reveal_strlit("no such dependency is declared"); }
                "no such dependency is declared"
            },
            BatlError::MissingLink => {
                proof { reveal_strlit("no such link is recorded"); }
                "no such link is recorded"
            },
            BatlError::ActionImpossible => {
                proof { reveal_strlit("the action is impossible in the current state"); }
                "the action is impossible in the current state"
            },
            BatlError::CyclicDependency => {
                proof { reveal_strlit("the dependency graph contains a cycle"); }
                "the dependency graph contains a cycle"
            },
            BatlError::NetworkFailure => {
                proof { reveal_strlit("the registry transport failed"); }
                "the registry transport failed"
            },
            BatlError::IoFailure => {
                proof { reveal_strlit("a filesystem operation failed"); }
                "a filesystem operation failed"
            },
        }
    }
}

} // verus!
