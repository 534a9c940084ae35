//! The two ways in which an [`Atomic`](crate::Atomic) owns its instance.

use crate::instances;
use crate::ref_counted::RefCounted;
use vstd::prelude::*;

verus! {

/// How an instance is owned.
pub trait Type: Sized {
    /// The instance has one owner.
    spec fn owned() -> bool;

    /// Returns `true` if the instance has one owner.
    fn is_owned() -> (owned: bool)
        ensures
            owned == Self::owned(),
    ;

    /// Creates a [`RefCounted`] out of an instance.
    fn generate_refcounted<T>(instance: T) -> (counted: RefCounted<T>)
        ensures
            counted == (RefCounted {
                instance,
                next_or_refcnt: instances::initial_link(!Self::owned()),
            }),
    ;
}

/// The instance has one owner.
pub struct Owned;

impl Type for Owned {
    open spec fn owned() -> bool {
        true
    }

    fn is_owned() -> (owned: bool) {
        true
    }

    fn generate_refcounted<T>(instance: T) -> (counted: RefCounted<T>) {
        RefCounted::new_unique(instance)
    }
}

/// The instance is reference-counted.
pub struct Shared;

impl Type for Shared {
    open spec fn owned() -> bool {
        false
    }

    fn is_owned() -> (owned: bool) {
        false
    }

    fn generate_refcounted<T>(instance: T) -> (counted: RefCounted<T>) {
        RefCounted::new_shared(instance)
    }
}

} // verus!
