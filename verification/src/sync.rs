//! Owning handles over arena elements.
//!
//! [`Ref`] is the shared, reference-counted owner: clones share the element,
//! which is freed only when the last owner releases it.  [`UniqueRef`] is
//! the exclusive owner.  [`RefBorrow`] observes an element without owning
//! it.  A handle is the safe counterpart of a smart pointer: it carries the
//! element's arena index, while the owner count lives in the slot itself.

use vstd::prelude::*;

use core::marker::PhantomData;

use crate::arena::Arena;
use crate::error::Error;

verus! {

/// A shared, reference-counted owning handle to an arena element.
///
/// The owner count of the element a `Ref` points at is always non-zero.
pub struct Ref<T> {
    id: usize,
    _p: PhantomData<T>,
}

impl<T> Ref<T> {
    /// The index of the element owned.
    pub closed spec fn spec_id(self) -> usize {
        self.id
    }

    /// Allocates a new shared element holding `contents`, with this handle
    /// as its one owner.
    pub fn try_new(arena: &mut Arena<T>, contents: T) -> (r: Result<Ref<T>, Error>)
        requires
            old(arena).len() < usize::MAX,
        ensures
            r is Ok,
            final(arena).len() == old(arena).len() + 1,
            final(arena).n_live() == old(arena).n_live() + 1,
            r matches Ok(h) ==> {
                &&& h.spec_id() as int == old(arena).len()
                &&& final(arena).live(h.spec_id() as int)
                &&& final(arena).value(h.spec_id() as int) == contents
                &&& final(arena).entry(h.spec_id() as int).spec_detached()
                &&& final(arena).count(h.spec_id() as int) == 1
                &&& old(arena).unchanged_except(*final(arena), h.spec_id() as int)
            },
    {
        let id = arena.allocate(contents);
        Ok(Ref { id, _p: PhantomData })
    }

    /// Clones the handle: one more owner of the same element.
    pub fn clone_ref(&self, arena: &mut Arena<T>) -> (r: Ref<T>)
        requires
            old(arena).live(self.spec_id() as int),
            old(arena).count(self.spec_id() as int) < usize::MAX,
        ensures
            r.spec_id() == self.spec_id(),
            final(arena).live(self.spec_id() as int),
            final(arena).count(self.spec_id() as int) == old(arena).count(self.spec_id() as int)
                + 1,
            final(arena).value(self.spec_id() as int) == old(arena).value(self.spec_id() as int),
            final(arena).entry(self.spec_id() as int) == old(arena).entry(self.spec_id() as int),
            final(arena).n_live() == old(arena).n_live(),
            final(arena).len() == old(arena).len(),
            old(arena).unchanged_except(*final(arena), self.spec_id() as int),
    {
        arena.inc_count(self.id);
        Ref { id: self.id, _p: PhantomData }
    }

    /// Deconstructs the handle into its bare index.  The owner's share is
    /// kept by whoever holds the index; it can be reconstructed once via
    /// [`Ref::from_usize`].
    pub fn into_usize(obj: Self) -> (r: usize)
        ensures
            r == obj.spec_id(),
    {
        obj.id
    }

    /// Recreates a handle previously deconstructed via [`Ref::into_usize`].
    ///
    /// To be called exactly once for each previous deconstruction: the new
    /// handle takes over the owner's share held through the bare index.
    pub fn from_usize(encoded: usize) -> (r: Self)
        ensures
            r.spec_id() == encoded,
    {
        Ref { id: encoded, _p: PhantomData }
    }

    /// Observes an element deconstructed via [`Ref::into_usize`] without
    /// taking over the owner's share.
    pub fn borrow_usize(encoded: usize) -> (r: RefBorrow<T>)
        ensures
            r.spec_id() == encoded,
    {
        RefBorrow { id: encoded, _p: PhantomData }
    }

    /// Whether two handles point at the same underlying element.
    pub fn ptr_eq(a: &Self, b: &Self) -> (r: bool)
        ensures
            r == (a.spec_id() == b.spec_id()),
    {
        a.id == b.id
    }

    /// Deconstructs the handle into a raw index; the counterpart of
    /// [`Ref::from_raw`].
    pub fn into_raw(obj: Self) -> (r: usize)
        ensures
            r == obj.spec_id(),
    {
        Self::into_usize(obj)
    }

    /// Recreates a handle previously deconstructed via [`Ref::into_raw`];
    /// to be called exactly once per deconstruction.
    pub fn from_raw(ptr: usize) -> (r: Self)
        ensures
            r.spec_id() == ptr,
    {
        Self::from_usize(ptr)
    }

    /// Borrows the element owned.
    pub fn get<'a>(&self, arena: &'a Arena<T>) -> (r: &'a T)
        requires
            arena.live(self.spec_id() as int),
        ensures
            *r == arena.value(self.spec_id() as int),
    {
        arena.value_ref(self.id)
    }

    /// The raw index, without consuming the handle.
    pub fn raw_id(&self) -> (r: usize)
        ensures
            r == self.spec_id(),
    {
        self.id
    }
}

/// An exclusive owning handle to an arena element: no other owner shares
/// the element while a `UniqueRef` to it exists.
pub struct UniqueRef<T> {
    id: usize,
    _p: PhantomData<T>,
}

impl<T> UniqueRef<T> {
    /// The index of the element owned.
    pub closed spec fn spec_id(self) -> usize {
        self.id
    }

    /// Allocates a new exclusively owned element holding `contents`.
    pub fn try_new(arena: &mut Arena<T>, contents: T) -> (r: Result<UniqueRef<T>, Error>)
        requires
            old(arena).len() < usize::MAX,
        ensures
            r is Ok,
            final(arena).len() == old(arena).len() + 1,
            final(arena).n_live() == old(arena).n_live() + 1,
            r matches Ok(h) ==> {
                &&& h.spec_id() as int == old(arena).len()
                &&& final(arena).live(h.spec_id() as int)
                &&& final(arena).value(h.spec_id() as int) == contents
                &&& final(arena).entry(h.spec_id() as int).spec_detached()
                &&& final(arena).count(h.spec_id() as int) == 1
                &&& old(arena).unchanged_except(*final(arena), h.spec_id() as int)
            },
    {
        let id = arena.allocate(contents);
        Ok(UniqueRef { id, _p: PhantomData })
    }

    /// Deconstructs the handle into its bare index; exclusive ownership is
    /// kept by whoever holds the index, and can be reconstructed once via
    /// [`UniqueRef::from_usize`].
    pub fn into_usize(obj: Self) -> (r: usize)
        ensures
            r == obj.spec_id(),
    {
        obj.id
    }

    /// Recreates a handle previously deconstructed via
    /// [`UniqueRef::into_usize`]; to be called exactly once per
    /// deconstruction.
    pub fn from_usize(encoded: usize) -> (r: Self)
        ensures
            r.spec_id() == encoded,
    {
        UniqueRef { id: encoded, _p: PhantomData }
    }

    /// Consumes the handle and frees the element, handing its value back.
    pub fn into_inner(self, arena: &mut Arena<T>) -> (v: T)
        requires
            old(arena).live(self.spec_id() as int),
            old(arena).count(self.spec_id() as int) == 1,
            !old(arena).entry(self.spec_id() as int).inserted,
        ensures
            v == old(arena).value(self.spec_id() as int),
            !final(arena).live(self.spec_id() as int),
            final(arena).n_live() == old(arena).n_live() - 1,
            final(arena).len() == old(arena).len(),
            old(arena).unchanged_except(*final(arena), self.spec_id() as int),
    {
        arena.free(self.id)
    }

    /// Borrows the element owned.
    pub fn get<'a>(&self, arena: &'a Arena<T>) -> (r: &'a T)
        requires
            arena.live(self.spec_id() as int),
        ensures
            *r == arena.value(self.spec_id() as int),
    {
        arena.value_ref(self.id)
    }

    /// The raw index, without consuming the handle.
    pub fn raw_id(&self) -> (r: usize)
        ensures
            r == self.spec_id(),
    {
        self.id
    }
}

/// A borrowed view of a shared element, owning nothing: it is never pushed
/// with ownership-transfer semantics, and releasing it changes no count.
pub struct RefBorrow<T> {
    id: usize,
    _p: PhantomData<T>,
}

impl<T> RefBorrow<T> {
    /// The index of the element observed.
    pub closed spec fn spec_id(self) -> usize {
        self.id
    }

    /// Borrows the element observed.
    pub fn get<'a>(&self, arena: &'a Arena<T>) -> (r: &'a T)
        requires
            arena.live(self.spec_id() as int),
        ensures
            *r == arena.value(self.spec_id() as int),
    {
        arena.value_ref(self.id)
    }
}

} // verus!
