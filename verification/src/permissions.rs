use vstd::prelude::*;

verus! {

/// Whether an operation on the store is permitted.
#[derive(Clone, Copy, Debug, PartialEq, Eq)]
pub enum Permissions {
    /// The operation may proceed.
    Allowed,
    /// The operation is refused.
    NotAllowed,
}

impl Permissions {
    /// True exactly when the operation may proceed.
    pub fn is_allowed(&self) -> (r: bool)
        ensures
            r == (self is Allowed),
    {
        match self {
            Permissions::Allowed => true,
            Permissions::NotAllowed => false,
        }
    }
}

} // verus!
