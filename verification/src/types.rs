//! Small kernel types.

use vstd::prelude::*;

use crate::sync::{Ref, UniqueRef};

verus! {

/// File permissions.
#[derive(Clone, Copy, PartialEq, Eq, Structural)]
pub struct Mode(u16);

impl Mode {
    /// The mode bits held.
    pub closed spec fn spec_bits(self) -> u16 {
        self.0
    }

    /// Creates a [`Mode`] from an integer.
    pub fn from_int(m: u16) -> (r: Mode)
        ensures
            r.spec_bits() == m,
    {
        Mode(m)
    }

    /// Returns the mode as an integer.
    pub fn as_int(&self) -> (r: u16)
        ensures
            r == self.spec_bits(),
    {
        self.0
    }
}

/// Used to convert an owning handle into the raw index that represents it,
/// so it can be parked in kernel data structures, and back exactly once.
pub trait PointerWrapper: Sized {
    /// The index of the element owned.
    spec fn spec_ptr(&self) -> usize;

    /// Returns the raw index, keeping the owner's share with whoever holds
    /// it.
    fn into_pointer(self) -> (r: usize)
        ensures
            r == self.spec_ptr(),
    ;

    /// Returns the instance back from the raw index; to be called exactly
    /// once for each [`PointerWrapper::into_pointer`].
    fn from_pointer(ptr: usize) -> (r: Self)
        ensures
            r.spec_ptr() == ptr,
    ;
}

impl<T> PointerWrapper for Ref<T> {
    closed spec fn spec_ptr(&self) -> usize {
        Ref::spec_id(*self)
    }

    fn into_pointer(self) -> (r: usize) {
        Ref::into_usize(self)
    }

    fn from_pointer(ptr: usize) -> (r: Self) {
        Ref::from_usize(ptr)
    }
}

impl<T> PointerWrapper for UniqueRef<T> {
    closed spec fn spec_ptr(&self) -> usize {
        UniqueRef::spec_id(*self)
    }

    fn into_pointer(self) -> (r: usize) {
        UniqueRef::into_usize(self)
    }

    fn from_pointer(ptr: usize) -> (r: Self) {
        UniqueRef::from_usize(ptr)
    }
}

/// Rounds `value` up to the next pointer-size boundary, eight bytes on the
/// targets in use.
pub fn ptr_align(value: usize) -> (r: usize)
    requires
        value <= usize::MAX - 7,
    ensures
        r % 8 == 0,
        value <= r < value + 8,
{
    let rem = value % 8;
    if rem == 0 {
        value
    } else {
        value + (8 - rem)
    }
}

} // verus!
