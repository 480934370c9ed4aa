//! The slot arena that element storage lives in.
//!
//! The arena stands for the heap: every element that can be linked into a
//! list is allocated in a slot and addressed by its stable index, the safe
//! counterpart of a raw pointer.  A slot holds the element value, the link
//! record threaded through it, and the number of owners currently sharing
//! it.  Slot indices are never reused, so a stale index can be detected
//! rather than alias a new allocation.

use vstd::prelude::*;

use crate::raw_list::{GetLinks, Links, ListEntry};

verus! {

/// One allocated element: its value with the link record and owner count
/// threaded through it.
pub(crate) struct Node<T> {
    pub(crate) value: T,
    pub(crate) links: Links,
    pub(crate) count: usize,
}

impl<T> GetLinks for Node<T> {
    closed spec fn links(&self) -> ListEntry {
        self.links.entry()
    }

    fn get_links(&self) -> (r: &Links) {
        &self.links
    }
}

/// The number of allocated slots among the first `n` of `s`.
spec fn count_live_upto<T>(s: Seq<Option<Node<T>>>, n: int) -> int
    decreases n,
{
    if n <= 0 {
        0
    } else {
        count_live_upto(s, n - 1) + if s[n - 1] is Some {
            1int
        } else {
            0int
        }
    }
}

proof fn lemma_count_bounds<T>(s: Seq<Option<Node<T>>>, n: int)
    ensures
        0 <= count_live_upto(s, n) <= if n >= 0 {
            n
        } else {
            0
        },
    decreases n,
{
    if n > 0 {
        lemma_count_bounds(s, n - 1);
    }
}

proof fn lemma_count_agree<T>(s1: Seq<Option<Node<T>>>, s2: Seq<Option<Node<T>>>, n: int)
    requires
        forall|i: int| 0 <= i < n ==> s1[i] == s2[i],
    ensures
        count_live_upto(s1, n) == count_live_upto(s2, n),
    decreases n,
{
    if n > 0 {
        lemma_count_agree(s1, s2, n - 1);
    }
}

proof fn lemma_count_update<T>(s: Seq<Option<Node<T>>>, j: int, x: Option<Node<T>>, n: int)
    requires
        0 <= j < n <= s.len(),
    ensures
        count_live_upto(s.update(j, x), n) == count_live_upto(s, n) + (if x is Some {
            1int
        } else {
            0int
        }) - (if s[j] is Some {
            1int
        } else {
            0int
        }),
    decreases n,
{
    if j == n - 1 {
        lemma_count_agree(s.update(j, x), s, n - 1);
    } else {
        lemma_count_update(s, j, x, n - 1);
    }
}

proof fn lemma_count_ge_one<T>(s: Seq<Option<Node<T>>>, j: int, n: int)
    requires
        0 <= j < n,
        s[j] is Some,
    ensures
        count_live_upto(s, n) >= 1,
    decreases n,
{
    if j < n - 1 {
        lemma_count_ge_one(s, j, n - 1);
    } else {
        lemma_count_bounds(s, n - 1);
    }
}

/// The arena of element slots.
pub struct Arena<T> {
    slots: Vec<Option<Node<T>>>,
}

impl<T> Arena<T> {
    /// The number of slots ever allocated; indices range below it.
    pub closed spec fn len(self) -> nat {
        self.slots@.len()
    }

    /// Whether `id` addresses a currently allocated element.
    pub closed spec fn live(self, id: int) -> bool {
        0 <= id < self.slots@.len() && self.slots@[id] is Some
    }

    /// The value stored at `id`.
    pub closed spec fn value(self, id: int) -> T {
        self.slots@[id]->Some_0.value
    }

    /// The link record stored at `id`.
    pub closed spec fn entry(self, id: int) -> ListEntry {
        self.slots@[id]->Some_0.links.entry()
    }

    /// The number of owners currently sharing the element at `id`: the
    /// outstanding handles, plus one for the list while it is linked.
    pub closed spec fn count(self, id: int) -> nat {
        self.slots@[id]->Some_0.count as nat
    }

    /// The number of currently allocated elements.
    pub closed spec fn n_live(self) -> int {
        count_live_upto(self.slots@, self.slots@.len() as int)
    }

    /// Slot `id` is the same in `self` and `other`.
    pub open spec fn slot_same(self, other: Self, id: int) -> bool {
        &&& self.live(id) == other.live(id)
        &&& (self.live(id) ==> self.value(id) == other.value(id) && self.entry(id)
            == other.entry(id) && self.count(id) == other.count(id))
    }

    /// Every slot but `id` is the same in `self` and `other`.
    pub open spec fn unchanged_except(self, other: Self, id: int) -> bool {
        forall|j: int| j != id ==> #[trigger] self.slot_same(other, j)
    }

    /// No slot's value, owner count or liveness differs between `self` and
    /// `other`; only link records may.
    pub open spec fn same_values(self, other: Self) -> bool {
        &&& self.len() == other.len()
        &&& self.n_live() == other.n_live()
        &&& forall|j: int|
            #![trigger self.live(j)]
            #![trigger other.live(j)]
            {
                &&& self.live(j) == other.live(j)
                &&& (self.live(j) ==> self.value(j) == other.value(j) && self.count(j)
                    == other.count(j))
            }
    }

    /// An empty arena.
    pub fn new() -> (r: Self)
        ensures
            r.len() == 0,
            r.n_live() == 0,
            forall|j: int| !r.live(j),
    {
        Arena { slots: Vec::new() }
    }

    /// Allocates a fresh slot holding `value`, detached and with one owner.
    pub fn allocate(&mut self, value: T) -> (id: usize)
        requires
            old(self).len() < usize::MAX,
        ensures
            id as int == old(self).len(),
            final(self).len() == old(self).len() + 1,
            final(self).n_live() == old(self).n_live() + 1,
            final(self).live(id as int),
            final(self).value(id as int) == value,
            final(self).entry(id as int).spec_detached(),
            final(self).count(id as int) == 1,
            old(self).unchanged_except(*final(self), id as int),
    {
        let id = self.slots.len();
        self.slots.push(Some(Node { value, links: Links::new(), count: 1 }));
        proof {
            lemma_count_agree(self.slots@, old(self).slots@, id as int);
        }
        id
    }

    /// Frees the slot at `id` and hands its value back.
    pub(crate) fn free(&mut self, id: usize) -> (v: T)
        requires
            old(self).live(id as int),
        ensures
            v == old(self).value(id as int),
            final(self).len() == old(self).len(),
            old(self).n_live() >= 1,
            final(self).n_live() == old(self).n_live() - 1,
            !final(self).live(id as int),
            old(self).unchanged_except(*final(self), id as int),
    {
        let mut taken: Option<Node<T>> = None;
        core::mem::swap(&mut self.slots[id], &mut taken);
        proof {
            lemma_count_ge_one(old(self).slots@, id as int, old(self).slots@.len() as int);
            lemma_count_update(
                old(self).slots@,
                id as int,
                None,
                old(self).slots@.len() as int,
            );
            assert(self.slots@ =~= old(self).slots@.update(id as int, None));
        }
        taken.unwrap().value
    }

    /// Borrows the value at `id`.
    pub fn value_ref(&self, id: usize) -> (r: &T)
        requires
            self.live(id as int),
        ensures
            *r == self.value(id as int),
    {
        match &self.slots[id] {
            Some(node) => &node.value,
            None => unreached(),
        }
    }

    /// Reads the link record at `id`.
    pub fn entry_of(&self, id: usize) -> (e: ListEntry)
        requires
            self.live(id as int),
        ensures
            e == self.entry(id as int),
    {
        match &self.slots[id] {
            Some(node) => node.get_links().get(),
            None => unreached(),
        }
    }

    /// Replaces the link record at `id`.
    pub(crate) fn set_entry(&mut self, id: usize, e: ListEntry)
        requires
            old(self).live(id as int),
        ensures
            final(self).live(id as int),
            final(self).entry(id as int) == e,
            final(self).value(id as int) == old(self).value(id as int),
            final(self).count(id as int) == old(self).count(id as int),
            final(self).len() == old(self).len(),
            final(self).n_live() == old(self).n_live(),
            old(self).unchanged_except(*final(self), id as int),
            old(self).same_values(*final(self)),
    {
        match &mut self.slots[id] {
            Some(node) => {
                node.links.set(e);
            },
            None => {
                proof {
                    assert(false);
                }
            },
        }
        proof {
            lemma_count_agree_post(old(self).slots@, self.slots@, id as int);
        }
    }

    /// Whether `id` addresses a currently allocated element.
    pub fn is_live(&self, id: usize) -> (r: bool)
        ensures
            r == self.live(id as int),
    {
        id < self.slots.len() && self.slots[id].is_some()
    }

    /// The number of owners currently sharing the element at `id`.
    pub fn count_of(&self, id: usize) -> (r: usize)
        requires
            self.live(id as int),
        ensures
            r as nat == self.count(id as int),
    {
        match &self.slots[id] {
            Some(node) => node.count,
            None => unreached(),
        }
    }

    /// Records one more owner of the element at `id`.
    pub(crate) fn inc_count(&mut self, id: usize)
        requires
            old(self).live(id as int),
            old(self).count(id as int) < usize::MAX,
        ensures
            final(self).live(id as int),
            final(self).count(id as int) == old(self).count(id as int) + 1,
            final(self).value(id as int) == old(self).value(id as int),
            final(self).entry(id as int) == old(self).entry(id as int),
            final(self).len() == old(self).len(),
            final(self).n_live() == old(self).n_live(),
            old(self).unchanged_except(*final(self), id as int),
    {
        match &mut self.slots[id] {
            Some(node) => {
                node.count = node.count + 1;
            },
            None => {
                proof {
                    assert(false);
                }
            },
        }
        proof {
            lemma_count_agree_post(old(self).slots@, self.slots@, id as int);
        }
    }

    /// Records one owner fewer of the element at `id`; the slot stays live.
    pub(crate) fn dec_count(&mut self, id: usize)
        requires
            old(self).live(id as int),
            old(self).count(id as int) >= 2,
        ensures
            final(self).live(id as int),
            final(self).count(id as int) == old(self).count(id as int) - 1,
            final(self).value(id as int) == old(self).value(id as int),
            final(self).entry(id as int) == old(self).entry(id as int),
            final(self).len() == old(self).len(),
            final(self).n_live() == old(self).n_live(),
            old(self).unchanged_except(*final(self), id as int),
    {
        match &mut self.slots[id] {
            Some(node) => {
                node.count = node.count - 1;
            },
            None => {
                proof {
                    assert(false);
                }
            },
        }
        proof {
            lemma_count_agree_post(old(self).slots@, self.slots@, id as int);
        }
    }

    /// The number of currently allocated elements, for leak accounting.
    pub fn live_count(&self) -> (r: usize)
        ensures
            r as int == self.n_live(),
    {
        let n = self.slots.len();
        let mut acc: usize = 0;
        let mut i: usize = 0;
        while i < n
            invariant
                0 <= i <= n,
                n == self.slots@.len(),
                acc as int == count_live_upto(self.slots@, i as int),
                acc <= i,
            decreases n - i,
    {
            if self.slots[i].is_some() {
                acc = acc + 1;
            }
            i = i + 1;
        }
        acc
    }
}

/// A slot-for-slot agreement of two equal-length slot sequences carries the
/// live count over, where only the node at `id` changed in place.
proof fn lemma_count_agree_post<T>(
    s1: Seq<Option<Node<T>>>,
    s2: Seq<Option<Node<T>>>,
    id: int,
)
    requires
        s1.len() == s2.len(),
        0 <= id < s1.len(),
        s1[id] is Some,
        s2[id] is Some,
        forall|i: int| 0 <= i < s1.len() && i != id ==> s1[i] == s2[i],
    ensures
        count_live_upto(s1, s1.len() as int) == count_live_upto(s2, s2.len() as int),
{
    lemma_count_update(s1, id, s2[id], s1.len() as int);
    lemma_count_agree(s1.update(id, s2[id]), s2, s1.len() as int);
}

} // verus!
