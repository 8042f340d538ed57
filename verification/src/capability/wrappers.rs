//! Ownership wrappers for exclusive and shared capabilities.
//!
//! `ExclusiveCapability<T>` is neither `Clone` nor `Copy`, so Rust's move
//! semantics keep a single owner; `SharedCapability<T>` can be cloned freely.
use vstd::prelude::*;
use core::marker::PhantomData;

verus! {

/// An exclusive, non-duplicable capability for peripheral `T`.
#[verifier::reject_recursive_types(T)]
pub struct ExclusiveCapability<T>(PhantomData<T>);

impl<T> ExclusiveCapability<T> {
    /// Construct an exclusive capability token.  The boot-time conflict
    /// detector is what guarantees only one is issued per peripheral.
    pub fn new() -> Self {
        ExclusiveCapability(PhantomData)
    }
}

/// A shared, cloneable capability for peripheral `T`.
#[verifier::reject_recursive_types(T)]
pub struct SharedCapability<T>(PhantomData<T>);

impl<T> Clone for SharedCapability<T> {
    fn clone(&self) -> Self {
        SharedCapability(PhantomData)
    }
}

impl<T> SharedCapability<T> {
    /// Construct a shared capability token.
    pub fn new() -> Self {
        SharedCapability(PhantomData)
    }
}

} // verus!
