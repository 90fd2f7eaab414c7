//! The two borrow modes of a place, ordered by how permissive they are.

use vstd::prelude::*;

verus! {

/// Whether a place is borrowed immutably or mutably.
#[derive(Clone, Copy, Debug, PartialEq, Eq, Structural)]
pub enum Mutability {
    Not,
    Mut,
}

/// Extension trait for [`Mutability`].
pub trait MutabilityExt {
    /// True when `self` is equally or more permissive than `other`,
    /// where an immutable borrow is more permissive than a mutable one.
    fn is_permissive_as(self, other: Self) -> bool;
}

impl MutabilityExt for Mutability {
    fn is_permissive_as(self, other: Self) -> (r: bool)
        ensures
            r == !(self is Mut && other is Not),
    {
        !(matches!(self, Mutability::Mut) && matches!(other, Mutability::Not))
    }
}

} // verus!
