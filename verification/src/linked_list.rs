//! The owning list: the raw ring plus an ownership-wrapper contract.
//!
//! Pushing converts an owning handle into its raw index and splices the
//! element in, so the list itself holds the owner's share; popping or
//! removing reconstructs the handle and moves the share back out.  A push
//! of an element that is already linked is rejected, and the rejected
//! handle is handed back so the caller can release it normally: for a
//! shared element this just gives up one owner's share, neither leaking nor
//! double-freeing.

use vstd::prelude::*;

use core::marker::PhantomData;

use crate::arena::Arena;
use crate::raw_list;
use crate::raw_list::{cursor_ok, spec_next_position, spec_prev_position, RawList};
use crate::sync::{Ref, UniqueRef};

verus! {

/// The ownership-wrapper contract: how an owning handle is consumed into a
/// raw element index, reconstructed from it exactly once, borrowed, and
/// released.
pub trait Wrapper<T>: Sized {
    /// The index of the element owned.
    spec fn spec_id(&self) -> usize;

    /// Consumes the handle, yielding the raw index; the owner's share is
    /// kept by whoever holds the index.
    fn into_pointer(self) -> (r: usize)
        ensures
            r == self.spec_id(),
    ;

    /// Reconstitutes the handle from a raw index; to be called exactly once
    /// for each [`Wrapper::into_pointer`].
    fn from_pointer(ptr: usize) -> (r: Self)
        ensures
            r.spec_id() == ptr,
    ;

    /// The raw index, without consuming the handle.
    fn as_raw(&self) -> (r: usize)
        ensures
            r == self.spec_id(),
    ;

    /// Releases this owner's share of the element; the element is freed
    /// exactly when this was the last share.
    fn dispose(self, arena: &mut Arena<T>)
        requires
            old(arena).live(self.spec_id() as int),
            old(arena).count(self.spec_id() as int) >= 1,
            old(arena).count(self.spec_id() as int) == 1 ==> !old(arena).entry(
                self.spec_id() as int,
            ).inserted,
        ensures
            final(arena).len() == old(arena).len(),
            old(arena).unchanged_except(*final(arena), self.spec_id() as int),
            old(arena).count(self.spec_id() as int) == 1 ==> !final(arena).live(
                self.spec_id() as int,
            ) && final(arena).n_live() == old(arena).n_live() - 1,
            old(arena).count(self.spec_id() as int) > 1 ==> final(arena).live(
                self.spec_id() as int,
            ) && final(arena).count(self.spec_id() as int) == old(arena).count(
                self.spec_id() as int,
            ) - 1 && final(arena).value(self.spec_id() as int) == old(arena).value(
                self.spec_id() as int,
            ) && final(arena).entry(self.spec_id() as int) == old(arena).entry(
                self.spec_id() as int,
            ) && final(arena).n_live() == old(arena).n_live(),
    ;
}

impl<T> Wrapper<T> for UniqueRef<T> {
    closed spec fn spec_id(&self) -> usize {
        UniqueRef::spec_id(*self)
    }

    fn into_pointer(self) -> (r: usize) {
        UniqueRef::into_usize(self)
    }

    fn from_pointer(ptr: usize) -> (r: Self) {
        UniqueRef::from_usize(ptr)
    }

    fn as_raw(&self) -> (r: usize) {
        UniqueRef::raw_id(self)
    }

    fn dispose(self, arena: &mut Arena<T>) {
        let id = UniqueRef::into_usize(self);
        if arena.count_of(id) == 1 {
            let _ = arena.free(id);
        } else {
            arena.dec_count(id);
        }
    }
}

impl<T> Wrapper<T> for Ref<T> {
    closed spec fn spec_id(&self) -> usize {
        Ref::spec_id(*self)
    }

    fn into_pointer(self) -> (r: usize) {
        Ref::into_usize(self)
    }

    fn from_pointer(ptr: usize) -> (r: Self) {
        Ref::from_usize(ptr)
    }

    fn as_raw(&self) -> (r: usize) {
        Ref::raw_id(self)
    }

    fn dispose(self, arena: &mut Arena<T>) {
        let id = Ref::into_usize(self);
        if arena.count_of(id) == 1 {
            let _ = arena.free(id);
        } else {
            arena.dec_count(id);
        }
    }
}

/// Ties a handle kind to the wrapper contract an owning list uses for it.
pub trait GetLinksWrapped<T> {
    /// The owning handle kind that moves in and out of the list.
    type Wrapped: Wrapper<T>;
}

impl<T> GetLinksWrapped<T> for UniqueRef<T> {
    type Wrapped = UniqueRef<T>;
}

impl<T> GetLinksWrapped<T> for Ref<T> {
    type Wrapped = Ref<T>;
}

/// The owning list.  Its view is the sequence of member indices, head
/// first; each member is held with one owner's share that the list itself
/// carries.
pub struct List<T, G: GetLinksWrapped<T>> {
    list: RawList,
    _p: PhantomData<(T, G)>,
}

impl<T, G: GetLinksWrapped<T>> View for List<T, G> {
    type V = Seq<usize>;

    closed spec fn view(&self) -> Seq<usize> {
        self.list@
    }
}

impl<T, G: GetLinksWrapped<T>> List<T, G> {
    /// The list is well formed over `arena`: the ring is, and the list
    /// holds one owner's share of every member.
    pub closed spec fn wf(self, arena: Arena<T>) -> bool {
        &&& self.list.wf(arena)
        &&& forall|k: int|
            0 <= k < self@.len() ==> arena.count(#[trigger] self@[k] as int) >= 1
    }

    /// The head index, if the list is non-empty; under [`List::wf`] it is
    /// set exactly when the list has members, and holds the first of them.
    pub closed spec fn spec_head(self) -> Option<usize> {
        self.list.spec_head()
    }

    /// An empty list, well formed over every arena.
    pub fn new() -> (r: Self)
        ensures
            r@ == Seq::<usize>::empty(),
            r.spec_head() is None,
            forall|arena: Arena<T>| r.wf(arena),
    {
        List { list: RawList::new(), _p: PhantomData }
    }

    /// Whether the list has no members; true exactly when the head is
    /// unset.
    pub fn is_empty(&self) -> (r: bool)
        ensures
            r == (self.spec_head() is None),
    {
        self.list.is_empty()
    }

    /// Moves `data`'s ownership into the list, splicing its element in at
    /// the tail.  A duplicate submission — the element is already linked,
    /// here or elsewhere — is rejected, and the handle is reconstructed and
    /// handed back for the caller to release normally.
    pub fn push_back(&mut self, arena: &mut Arena<T>, data: G::Wrapped) -> (rejected: Option<
        G::Wrapped,
    >)
        requires
            old(self).wf(*old(arena)),
            old(arena).live(data.spec_id() as int),
            old(arena).count(data.spec_id() as int) >= 1,
        ensures
            final(self).wf(*final(arena)),
            old(arena).same_values(*final(arena)),
            rejected is None <==> !old(arena).entry(data.spec_id() as int).inserted,
            !old(arena).entry(data.spec_id() as int).inserted ==> final(self)@ == old(self)@.push(data.spec_id()),
            old(arena).entry(data.spec_id() as int).inserted ==> *final(self) == *old(self)
                && *final(arena) == *old(arena),
            rejected matches Some(w) ==> w.spec_id() == data.spec_id(),
            forall|j: usize|
                old(arena).live(j as int) && j != data.spec_id() && !old(self)@.contains(j)
                    ==> final(arena).entry(j as int) == #[trigger] old(arena).entry(j as int),
    {
        let ptr = data.into_pointer();
        let done = self.list.push_back(arena, ptr);
        if done {
            proof {
                assert forall|k: int| 0 <= k < self@.len() implies arena.count(
                    #[trigger] self@[k] as int,
                ) >= 1 by {
                    if k < self@.len() - 1 {
                        assert(self@[k] == old(self)@[k]);
                        assert(raw_list::link_ok(*old(arena), old(self)@, k));
                        assert(old(arena).live(old(self)@[k] as int));
                        assert(old(arena).count(old(self)@[k] as int) >= 1);
                    } else {
                        assert(self@[k] == data.spec_id());
                        assert(old(arena).live(data.spec_id() as int));
                    }
                }
            }
            None
        } else {
            Some(G::Wrapped::from_pointer(ptr))
        }
    }

    /// Moves `data`'s ownership into the list, splicing its element in
    /// right after `existing`, which the caller guarantees is on this list.
    /// A duplicate submission is rejected and handed back, as in
    /// [`List::push_back`].
    pub fn insert_after(&mut self, arena: &mut Arena<T>, existing: usize, data: G::Wrapped) -> (
    rejected: Option<G::Wrapped>)
        requires
            old(self).wf(*old(arena)),
            old(arena).live(data.spec_id() as int),
            old(arena).count(data.spec_id() as int) >= 1,
            old(self)@.contains(existing),
        ensures
            final(self).wf(*final(arena)),
            old(arena).same_values(*final(arena)),
            rejected is None <==> !old(arena).entry(data.spec_id() as int).inserted,
            !old(arena).entry(data.spec_id() as int).inserted ==> final(self)@ == old(self)@.insert(old(self)@.index_of(existing) + 1, data.spec_id()),
            old(arena).entry(data.spec_id() as int).inserted ==> *final(self) == *old(self)
                && *final(arena) == *old(arena),
            rejected matches Some(w) ==> w.spec_id() == data.spec_id(),
            forall|j: usize|
                old(arena).live(j as int) && j != data.spec_id() && !old(self)@.contains(j)
                    ==> final(arena).entry(j as int) == #[trigger] old(arena).entry(j as int),
    {
        let ghost s = old(self)@;
        let ptr = data.into_pointer();
        let done = self.list.insert_after(arena, existing, ptr);
        if done {
            proof {
                raw_list::lemma_index_of_unique(s, existing);
                raw_list::lemma_insert_index(s, s.index_of(existing) + 1, ptr);
                assert forall|k: int| 0 <= k < self@.len() implies arena.count(
                    #[trigger] self@[k] as int,
                ) >= 1 by {
                    let i = s.index_of(existing) + 1;
                    if k == i {
                        assert(self@[k] == data.spec_id());
                        assert(old(arena).live(data.spec_id() as int));
                    } else {
                        let k0: int = if k < i {
                            k
                        } else {
                            k - 1
                        };
                        assert(self@[k] == s[k0]);
                        assert(raw_list::link_ok(*old(arena), s, k0));
                        assert(old(arena).live(s[k0] as int));
                        assert(old(arena).count(s[k0] as int) >= 1);
                    }
                }
            }
            None
        } else {
            Some(G::Wrapped::from_pointer(ptr))
        }
    }

    /// Unlinks `data`'s element and moves the list's share of it back out.
    /// Returns nothing when the element is not currently linked; a linked
    /// element must be linked into this very list.
    pub fn remove(&mut self, arena: &mut Arena<T>, data: &G::Wrapped) -> (r: Option<G::Wrapped>)
        requires
            old(self).wf(*old(arena)),
            old(arena).live(data.spec_id() as int),
            old(arena).entry(data.spec_id() as int).next is Some ==> old(self)@.contains(
                data.spec_id(),
            ),
        ensures
            final(self).wf(*final(arena)),
            old(arena).same_values(*final(arena)),
            r is Some <==> old(arena).entry(data.spec_id() as int).next is Some,
            r matches Some(w) ==> w.spec_id() == data.spec_id(),
            old(arena).entry(data.spec_id() as int).next is Some ==> final(self)@ == old(self)@.remove(old(self)@.index_of(data.spec_id())) && final(arena).entry(
                data.spec_id() as int,
            ).spec_detached() && !final(self)@.contains(data.spec_id()),
            old(arena).entry(data.spec_id() as int).next is None ==> *final(self) == *old(self)
                && *final(arena) == *old(arena),
            forall|j: usize|
                old(arena).live(j as int) && j != data.spec_id() && !old(self)@.contains(j)
                    ==> final(arena).entry(j as int) == #[trigger] old(arena).entry(j as int),
    {
        let ghost s = old(self)@;
        let ptr = data.as_raw();
        let removed = self.list.remove(arena, ptr);
        if removed {
            proof {
                raw_list::lemma_index_of_unique(s, ptr);
                raw_list::lemma_remove_index(s, s.index_of(ptr));
                assert forall|k: int| 0 <= k < self@.len() implies arena.count(
                    #[trigger] self@[k] as int,
                ) >= 1 by {
                    let i = s.index_of(ptr);
                    let k0: int = if k < i {
                        k
                    } else {
                        k + 1
                    };
                    assert(self@[k] == s[k0]);
                    assert(raw_list::link_ok(*old(arena), s, k0));
                    assert(old(arena).live(s[k0] as int));
                    assert(old(arena).count(s[k0] as int) >= 1);
                }
            }
            Some(G::Wrapped::from_pointer(ptr))
        } else {
            None
        }
    }

    /// Detaches the head element and moves the list's share of it back out,
    /// or returns nothing on an empty list.
    pub fn pop_front(&mut self, arena: &mut Arena<T>) -> (r: Option<G::Wrapped>)
        requires
            old(self).wf(*old(arena)),
        ensures
            final(self).wf(*final(arena)),
            old(arena).same_values(*final(arena)),
            r is Some <==> old(self)@.len() > 0,
            r matches Some(w) ==> w.spec_id() == old(self)@[0] && final(arena).count(
                w.spec_id() as int,
            ) >= 1 && final(arena).live(w.spec_id() as int),
            old(self)@.len() == 0 ==> *final(self) == *old(self) && *final(arena) == *old(arena),
            old(self)@.len() > 0 ==> final(self)@ == old(self)@.drop_first() && final(arena).entry(old(self)@[0] as int).spec_detached(),
            forall|j: usize|
                old(arena).live(j as int) && !old(self)@.contains(j) ==> final(arena).entry(
                    j as int,
                ) == #[trigger] old(arena).entry(j as int),
    {
        let ghost s = old(self)@;
        let front = match self.list.pop_front(arena) {
            Some(h) => h,
            None => {
                return None;
            },
        };
        proof {
            assert(s.contains(s[0]));
            assert(raw_list::link_ok(*old(arena), s, 0));
            assert forall|k: int| 0 <= k < self@.len() implies arena.count(
                #[trigger] self@[k] as int,
            ) >= 1 by {
                assert(self@[k] == s[k + 1]);
                assert(raw_list::link_ok(*old(arena), s, k + 1));
                assert(old(arena).live(s[k + 1] as int));
                assert(old(arena).count(s[k + 1] as int) >= 1);
            }
        }
        Some(G::Wrapped::from_pointer(front))
    }

    /// A read-only cursor standing on the head.
    pub fn cursor_front(&self) -> (r: raw_list::Cursor)
        ensures
            r.spec_cur() == self.spec_head(),
    {
        self.list.cursor_front()
    }

    /// A mutating cursor standing on the head.
    pub fn cursor_front_mut(&mut self) -> (r: CursorMut<T, G>)
        ensures
            *final(self) == *old(self),
            r.spec_cur() == old(self).spec_head(),
    {
        let c = self.list.cursor_front_mut();
        CursorMut { cursor: c, _p: PhantomData }
    }

    /// Releases every remaining member: what the destruction of an owning
    /// list does, so that no still-queued element is ever leaked.  Each
    /// member is popped and its share released; an element with no other
    /// owner is freed.
    pub fn drain(&mut self, arena: &mut Arena<T>)
        requires
            old(self).wf(*old(arena)),
        ensures
            final(self)@.len() == 0,
            final(self).wf(*final(arena)),
            final(arena).len() == old(arena).len(),
            forall|k: int|
                0 <= k < old(self)@.len() ==> {
                    let id = #[trigger] old(self)@[k] as int;
                    &&& (old(arena).count(id) == 1 ==> !final(arena).live(id))
                    &&& (old(arena).count(id) > 1 ==> final(arena).live(id) && final(arena).count(
                        id,
                    ) == old(arena).count(id) - 1 && final(arena).value(id) == old(arena).value(id)
                        && final(arena).entry(id).spec_detached())
                },
            forall|j: usize|
                old(arena).live(j as int) && !old(self)@.contains(j)
                    ==> #[trigger] old(arena).slot_same(*final(arena), j as int),
    {
        let ghost s = old(self)@;
        let ghost n = s.len() as int;
        let ghost mut i: int = 0;
        proof {
            assert(self@ =~= s.skip(0));
            assert forall|k: int| 0 <= k < n implies arena.live(#[trigger] s[k] as int) by {
                assert(raw_list::link_ok(*arena, s, k));
            }
        }
        loop
            invariant
                0 <= i <= n,
                n == s.len(),
                s.no_duplicates(),
                self.wf(*arena),
                self@ == s.skip(i),
                arena.len() == old(arena).len(),
                forall|k: int|
                    0 <= k < i ==> {
                        let id = #[trigger] s[k] as int;
                        &&& (old(arena).count(id) == 1 ==> !arena.live(id))
                        &&& (old(arena).count(id) > 1 ==> arena.live(id) && arena.count(id) == old(
                            arena,
                        ).count(id) - 1 && arena.value(id) == old(arena).value(id) && arena.entry(
                            id,
                        ).spec_detached())
                    },
                forall|k: int|
                    i <= k < n ==> {
                        let id = #[trigger] s[k] as int;
                        &&& arena.live(id)
                        &&& arena.count(id) == old(arena).count(id)
                        &&& arena.value(id) == old(arena).value(id)
                    },
                forall|j: usize|
                    old(arena).live(j as int) && !s.contains(j)
                        ==> #[trigger] old(arena).slot_same(*arena, j as int),
            ensures
                i == n,
            decreases n - i,
        {
            let ghost a_before = *arena;
            let ghost s_before = self@;
            let w = match self.pop_front(arena) {
                Some(w) => w,
                None => {
                    proof {
                        assert(i == n);
                    }
                    break ;
                },
            };
            let ghost a_pop = *arena;
            let ghost wid = w.spec_id();
            proof {
                assert(s_before[0] == s[i]);
                assert(wid == s[i]);
                assert(s_before.contains(s[i]));
                lemma_skip_excludes(s, i + 1, i);
                assert(!self@.contains(wid));
                assert(a_pop.live(wid as int) && a_pop.count(wid as int) >= 1);
                assert(a_pop.count(wid as int) == old(arena).count(wid as int));
            }
            w.dispose(arena);
            proof {
                i = i + 1;
                assert(self@ =~= s.skip(i));
                // The remaining ring is untouched by the release of `wid`.
                assert forall|k: int| 0 <= k < self@.len() implies #[trigger] raw_list::link_ok(
                    *arena,
                    self@,
                    k,
                ) by {
                    assert(raw_list::link_ok(a_pop, self@, k));
                    if self@[k] == wid {
                        assert(self@.contains(wid));
                    }
                    assert(a_pop.slot_same(*arena, self@[k] as int));
                }
                assert forall|k: int| 0 <= k < self@.len() implies arena.count(
                    #[trigger] self@[k] as int,
                ) >= 1 by {
                    assert(raw_list::link_ok(a_pop, self@, k));
                    assert(a_pop.count(self@[k] as int) >= 1);
                    if self@[k] == wid {
                        assert(self@.contains(wid));
                    }
                    assert(a_pop.slot_same(*arena, self@[k] as int));
                }
                assert(self.wf(*arena));
                // The prefix released so far shows the disposal effect.
                assert forall|k: int| 0 <= k < i implies {
                    let id = #[trigger] s[k] as int;
                    &&& (old(arena).count(id) == 1 ==> !arena.live(id))
                    &&& (old(arena).count(id) > 1 ==> arena.live(id) && arena.count(id) == old(
                        arena,
                    ).count(id) - 1 && arena.value(id) == old(arena).value(id) && arena.entry(
                        id,
                    ).spec_detached())
                } by {
                    if k < i - 1 {
                        raw_list::lemma_no_dup_distinct(s, k, i - 1);
                        assert(s[k] != wid);
                        lemma_skip_excludes(s, i - 1, k);
                        assert(!s_before.contains(s[k]));
                        assert(a_before.slot_same(a_pop, s[k] as int));
                        assert(a_pop.slot_same(*arena, s[k] as int));
                    }
                }
                // The unreleased tail keeps its values and owner counts.
                assert forall|k: int| i <= k < n implies {
                    let id = #[trigger] s[k] as int;
                    &&& arena.live(id)
                    &&& arena.count(id) == old(arena).count(id)
                    &&& arena.value(id) == old(arena).value(id)
                } by {
                    raw_list::lemma_no_dup_distinct(s, k, i - 1);
                    assert(s[k] != wid);
                    assert(s.skip(i)[k - i] == s[k]);
                    assert(self@.contains(s[k]));
                    assert(raw_list::link_ok(a_pop, self@, s.skip(i).index_of(s[k])) && a_pop.live(
                        s[k] as int,
                    )) by {
                        raw_list::lemma_index_of_unique(self@, s[k]);
                    }
                    assert(a_pop.slot_same(*arena, s[k] as int));
                }
                // Elements outside the list are untouched throughout.
                assert forall|j: usize|
                    old(arena).live(j as int) && !s.contains(j) implies #[trigger] old(
                    arena,
                ).slot_same(*arena, j as int) by {
                    assert(j != wid);
                    assert(!s_before.contains(j)) by {
                        if s_before.contains(j) {
                            lemma_skip_keeps(s, i - 1, j);
                        }
                    }
                    assert(old(arena).slot_same(a_before, j as int));
                    assert(a_before.slot_same(a_pop, j as int));
                    assert(a_pop.slot_same(*arena, j as int));
                }
            }
        }
        proof {
            assert(self@.len() == 0);
        }
    }
}

/// An element of a suffix is an element of the whole sequence.
proof fn lemma_skip_keeps(s: Seq<usize>, i: int, x: usize)
    requires
        0 <= i <= s.len(),
        s.skip(i).contains(x),
    ensures
        s.contains(x),
{
    let m = choose|m: int| 0 <= m < s.skip(i).len() && s.skip(i)[m] == x;
    assert(s[m + i] == x);
}

/// A suffix that starts past position `k` of a duplicate-free sequence no
/// longer carries the element at `k`.
proof fn lemma_skip_excludes(s: Seq<usize>, i: int, k: int)
    requires
        s.no_duplicates(),
        0 <= k < i <= s.len(),
    ensures
        !s.skip(i).contains(s[k]),
{
    if s.skip(i).contains(s[k]) {
        let m = choose|m: int| 0 <= m < s.skip(i).len() && s.skip(i)[m] == s[k];
        assert(s[m + i] == s[k]);
    }
}

/// A mutating cursor over an owning list: traversal plus in-place removal,
/// which moves the removed element's ownership back out.
pub struct CursorMut<T, G: GetLinksWrapped<T>> {
    cursor: raw_list::CursorMut,
    _p: PhantomData<(T, G)>,
}

impl<T, G: GetLinksWrapped<T>> CursorMut<T, G> {
    /// The current position, unset when the cursor stands off the list.
    pub closed spec fn spec_cur(self) -> Option<usize> {
        self.cursor.spec_cur()
    }

    /// The element under the cursor, without transferring ownership.
    pub fn current<'a>(&self, arena: &'a Arena<T>) -> (r: Option<&'a T>)
        requires
            self.spec_cur() is Some ==> arena.live(self.spec_cur()->Some_0 as int),
        ensures
            match self.spec_cur() {
                None => r is None,
                Some(c) => r == Some(&arena.value(c as int)),
            },
    {
        self.cursor.current(arena)
    }

    /// Unlinks the element under the cursor, advancing the cursor first so
    /// its position stays valid, and moves the element's ownership back
    /// out.
    pub fn remove_current(&mut self, list: &mut List<T, G>, arena: &mut Arena<T>) -> (r: Option<
        G::Wrapped,
    >)
        requires
            old(list).wf(*old(arena)),
            cursor_ok(old(self).spec_cur(), old(list)@),
        ensures
            final(list).wf(*final(arena)),
            old(arena).same_values(*final(arena)),
            cursor_ok(final(self).spec_cur(), final(list)@),
            r is Some <==> old(self).spec_cur() is Some,
            r matches Some(w) ==> Some(w.spec_id()) == old(self).spec_cur(),
            old(self).spec_cur() is None ==> *final(list) == *old(list) && *final(arena) == *old(arena) && *final(self) == *old(self),
            old(self).spec_cur() matches Some(c) ==> final(list)@ == old(list)@.remove(
                old(list)@.index_of(c),
            ) && final(arena).entry(c as int).spec_detached() && final(self).spec_cur()
                == spec_next_position(old(self).spec_cur(), old(list)@),
    {
        let ghost s = old(list)@;
        let removed = self.cursor.remove_current(&mut list.list, arena);
        let ptr = match removed {
            Some(p) => p,
            None => {
                return None;
            },
        };
        proof {
            raw_list::lemma_index_of_unique(s, ptr);
            raw_list::lemma_remove_index(s, s.index_of(ptr));
            assert forall|k: int| 0 <= k < list@.len() implies arena.count(
                #[trigger] list@[k] as int,
            ) >= 1 by {
                let i = s.index_of(ptr);
                let k0: int = if k < i {
                    k
                } else {
                    k + 1
                };
                assert(list@[k] == s[k0]);
                assert(raw_list::link_ok(*old(arena), s, k0));
                assert(old(arena).live(s[k0] as int));
                assert(old(arena).count(s[k0] as int) >= 1);
            }
        }
        Some(G::Wrapped::from_pointer(ptr))
    }

    /// The element one step ahead; the cursor itself does not move.
    pub fn peek_next<'a>(&self, list: &List<T, G>, arena: &'a Arena<T>) -> (r: Option<&'a T>)
        requires
            list.wf(*arena),
            cursor_ok(self.spec_cur(), list@),
        ensures
            match spec_next_position(self.spec_cur(), list@) {
                None => r is None,
                Some(c) => r == Some(&arena.value(c as int)),
            },
    {
        self.cursor.peek_next(&list.list, arena)
    }

    /// The element one step behind; the cursor itself does not move.
    pub fn peek_prev<'a>(&self, list: &List<T, G>, arena: &'a Arena<T>) -> (r: Option<&'a T>)
        requires
            list.wf(*arena),
            cursor_ok(self.spec_cur(), list@),
        ensures
            match spec_prev_position(self.spec_cur(), list@) {
                None => r is None,
                Some(c) => r == Some(&arena.value(c as int)),
            },
    {
        self.cursor.peek_prev(&list.list, arena)
    }

    /// Steps to the next element, or off the end after the tail.
    pub fn move_next(&mut self, list: &List<T, G>, arena: &Arena<T>)
        requires
            list.wf(*arena),
            cursor_ok(old(self).spec_cur(), list@),
        ensures
            final(self).spec_cur() == spec_next_position(old(self).spec_cur(), list@),
            cursor_ok(final(self).spec_cur(), list@),
    {
        self.cursor.move_next(&list.list, arena);
    }
}

} // verus!
