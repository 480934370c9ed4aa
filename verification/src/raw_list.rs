//! The core unsynchronized engine: per-element link records and the circular
//! doubly linked ring built from them.
//!
//! A list holds only its `head` index; the tail is `head.prev`.  The ring is
//! threaded through the elements' own [`Links`] records, which live beside
//! the element values in an [`Arena`](crate::arena::Arena).

use vstd::prelude::*;

use crate::arena::Arena;

verus! {

/// Per-element link metadata: the neighbor slots and the insertion flag.
///
/// An element is *detached* when `inserted` is false and both neighbors are
/// unset, and *linked* when `inserted` is true and both neighbors are set;
/// these are the only two states a caller ever observes.
#[derive(Clone, Copy)]
pub struct ListEntry {
    /// The next element of the ring, or unset when not linked.
    pub next: Option<usize>,
    /// The previous element of the ring, or unset when not linked.
    pub prev: Option<usize>,
    /// Whether the element is currently accepted into some list.
    ///
    /// In the kernel this flag is an atomic boolean, taken with an acquire
    /// compare-and-set, so that two submitters racing to queue the same
    /// shared element cannot both win.  Structural mutation of a list is
    /// still the caller's to serialize; the flag only defends the narrow
    /// double-insertion race.
    pub inserted: bool,
}

impl ListEntry {
    /// A detached record: no neighbors, not inserted.
    pub fn new() -> (r: ListEntry)
        ensures
            r == (ListEntry { next: None, prev: None, inserted: false }),
    {
        ListEntry { next: None, prev: None, inserted: false }
    }

    /// Whether the record is in the detached state.
    pub open spec fn spec_detached(self) -> bool {
        self.next is None && self.prev is None && !self.inserted
    }

    /// Tries to book the record for an insertion; stands for the atomic
    /// compare-and-set of the insertion flag.  Fails exactly when the
    /// element is already accepted into a list.
    pub fn acquire_for_insertion(&mut self) -> (r: bool)
        ensures
            r == !old(self).inserted,
            final(self).inserted,
            final(self).next == old(self).next,
            final(self).prev == old(self).prev,
    {
        if self.inserted {
            false
        } else {
            self.inserted = true;
            true
        }
    }

    /// Clears the insertion flag; stands for the atomic release store that
    /// follows a removal, once both neighbors have been reset.
    pub fn release_after_removal(&mut self)
        ensures
            *final(self) == (ListEntry { inserted: false, ..*old(self) }),
    {
        self.inserted = false;
    }
}

/// The link record embedded in every element that can be listed.
#[derive(Clone, Copy)]
pub struct Links {
    entry: ListEntry,
}

impl Links {
    /// The record of the embedded [`ListEntry`].
    pub closed spec fn entry(self) -> ListEntry {
        self.entry
    }

    /// A fresh, detached link record.
    pub fn new() -> (r: Links)
        ensures
            r.entry().spec_detached(),
    {
        Links { entry: ListEntry::new() }
    }

    /// Reads the embedded record.
    pub fn get(&self) -> (r: ListEntry)
        ensures
            r == self.entry(),
    {
        self.entry
    }

    /// Replaces the embedded record.
    pub(crate) fn set(&mut self, e: ListEntry)
        ensures
            final(self).entry() == e,
    {
        self.entry = e;
    }
}

/// How a list finds the link record embedded in an element.
pub trait GetLinks {
    /// The embedded record, as a mathematical value.
    spec fn links(&self) -> ListEntry;

    /// Borrows the element's link record.
    fn get_links(&self) -> (r: &Links)
        ensures
            r.entry() == self.links(),
    ;
}

/// The ring position after `k` in a list of length `len`.
pub open spec fn next_pos(len: int, k: int) -> int {
    if k + 1 == len {
        0
    } else {
        k + 1
    }
}

/// The ring position before `k` in a list of length `len`.
pub open spec fn prev_pos(len: int, k: int) -> int {
    if k == 0 {
        len - 1
    } else {
        k - 1
    }
}

/// The element at position `k` of the member sequence `s` is a consistent
/// node of the ring: allocated, flagged as inserted, and linked to its two
/// ring neighbors.
pub open spec fn link_ok<T>(arena: Arena<T>, s: Seq<usize>, k: int) -> bool {
    let id = s[k] as int;
    &&& arena.live(id)
    &&& arena.entry(id).inserted
    &&& arena.entry(id).next == Some(s[next_pos(s.len() as int, k)])
    &&& arena.entry(id).prev == Some(s[prev_pos(s.len() as int, k)])
}

/// The core circular doubly linked list: it stores only the head index;
/// everything else is threaded through the elements' link records in the
/// arena.  The ghost member sequence names the ring order, head first.
pub struct RawList {
    head: Option<usize>,
    elems: Ghost<Seq<usize>>,
}

impl View for RawList {
    type V = Seq<usize>;

    closed spec fn view(&self) -> Seq<usize> {
        self.elems@
    }
}

impl RawList {
    /// The head index, if the list is non-empty.
    pub closed spec fn spec_head(self) -> Option<usize> {
        self.head
    }

    /// The list is well formed over `arena`: the member sequence starts at
    /// the head, repeats no element, and every member's link record points
    /// at its ring neighbors.
    pub open spec fn wf<T>(self, arena: Arena<T>) -> bool {
        &&& (self.spec_head() is None <==> self@.len() == 0)
        &&& (self@.len() > 0 ==> self.spec_head() == Some(self@[0]))
        &&& self@.no_duplicates()
        &&& forall|k: int| 0 <= k < self@.len() ==> #[trigger] link_ok(arena, self@, k)
    }

    /// An empty list.
    pub fn new() -> (r: Self)
        ensures
            r@ == Seq::<usize>::empty(),
            r.spec_head() is None,
    {
        RawList { head: None, elems: Ghost(Seq::empty()) }
    }

    /// Whether the list has no members; true exactly when the head is unset.
    pub fn is_empty(&self) -> (r: bool)
        ensures
            r == (self.spec_head() is None),
    {
        self.head.is_none()
    }

    /// The head element, or unset on an empty list.
    pub fn front(&self) -> (r: Option<usize>)
        ensures
            r == self.spec_head(),
    {
        self.head
    }

    /// The tail element, which is the head's ring predecessor.
    pub fn back<T>(&self, arena: &Arena<T>) -> (r: Option<usize>)
        requires
            self.wf(*arena),
        ensures
            r == if self@.len() == 0 {
                None::<usize>
            } else {
                Some(self@[self@.len() - 1])
            },
    {
        match self.head {
            None => None,
            Some(h) => {
                proof {
                    assert(link_ok(*arena, self@, 0));
                }
                arena.entry_of(h).prev
            },
        }
    }

    /// Splices `id` in right after `existing`, which the caller guarantees
    /// is on this list.  Fails, changing nothing, exactly when `id` is
    /// already accepted into some list; the relative order of all other
    /// members is kept.
    pub fn insert_after<T>(&mut self, arena: &mut Arena<T>, existing: usize, id: usize) -> (r:
        bool)
        requires
            old(self).wf(*old(arena)),
            old(arena).live(id as int),
            old(self)@.contains(existing),
        ensures
            final(self).wf(*final(arena)),
            r == !old(arena).entry(id as int).inserted,
            old(arena).same_values(*final(arena)),
            final(self).spec_head() == old(self).spec_head(),
            r ==> final(self)@ == old(self)@.insert(old(self)@.index_of(existing) + 1, id),
            !r ==> *final(self) == *old(self) && *final(arena) == *old(arena),
            forall|j: usize|
                old(arena).live(j as int) && j != id && !old(self)@.contains(j)
                    ==> final(arena).entry(j as int) == #[trigger] old(arena).entry(j as int),
    {
        let ghost s = old(self)@;
        let ghost n = s.len() as int;
        proof {
            lemma_index_of_unique(s, existing);
        }
        let ghost k = s.index_of(existing);
        proof {
            assert(link_ok(*old(arena), s, k));
        }
        let mut new_e = arena.entry_of(id);
        if !new_e.acquire_for_insertion() {
            return false;
        }
        proof {
            lemma_unlinked_not_member(*old(self), *old(arena), id);
            assert(id != existing);
        }
        let mut ex_e = arena.entry_of(existing);
        let nxt = ex_e.next.unwrap();
        let ghost kn = next_pos(n, k);
        proof {
            assert(nxt == s[kn]);
            assert(link_ok(*old(arena), s, kn));
        }
        new_e.next = Some(nxt);
        new_e.prev = Some(existing);
        arena.set_entry(id, new_e);
        let ghost a1 = *arena;
        let ghost s2 = s.insert(k + 1, id);
        if nxt == existing {
            // `existing` was the sole member: the ring becomes the pair.
            proof {
                lemma_no_dup_index(s, k, kn);
            }
            ex_e.next = Some(id);
            ex_e.prev = Some(id);
            arena.set_entry(existing, ex_e);
            proof {
                self.elems = Ghost(s2);
                lemma_insert_index(s, k + 1, id);
                assert(s2.len() == 2 && s2[0] == existing && s2[1] == id) by {
                    assert(n == 1);
                }
                lemma_insert_no_duplicates(s, k + 1, id);
                assert forall|m: int| 0 <= m < s2.len() implies #[trigger] link_ok(
                    *arena,
                    s2,
                    m,
                ) by {
                    assert(a1.slot_same(*arena, id as int));
                    if m == 0 {
                        assert(arena.live(existing as int));
                        assert(arena.entry(existing as int).inserted);
                        assert(next_pos(2, 0) == 1 && prev_pos(2, 0) == 1);
                        assert(arena.entry(existing as int).next == Some(s2[1]));
                        assert(arena.entry(existing as int).prev == Some(s2[1]));
                    } else {
                        assert(m == 1);
                        assert(arena.live(id as int));
                        assert(arena.entry(id as int).inserted);
                        assert(next_pos(2, 1) == 0 && prev_pos(2, 1) == 0);
                        assert(arena.entry(id as int).next == Some(s2[0]));
                        assert(arena.entry(id as int).prev == Some(s2[0]));
                    }
                    assert(link_ok(*arena, s2, m));
                }
                assert forall|j: usize|
                    old(arena).live(j as int) && j != id && !s.contains(j) implies arena.entry(
                    j as int,
                ) == #[trigger] old(arena).entry(j as int) by {
                    assert(old(arena).slot_same(a1, j as int));
                    assert(a1.slot_same(*arena, j as int));
                }
            }
        } else {
            ex_e.next = Some(id);
            arena.set_entry(existing, ex_e);
            let ghost a2 = *arena;
            proof {
                lemma_no_dup_distinct(s, k, kn);
                assert(a1.slot_same(a2, nxt as int));
                assert(a1.slot_same(a2, id as int));
            }
            let mut nxt_e = arena.entry_of(nxt);
            nxt_e.prev = Some(id);
            arena.set_entry(nxt, nxt_e);
            proof {
                self.elems = Ghost(s2);
                assert(a1.slot_same(a2, id as int) && a2.slot_same(*arena, id as int));
                assert(a2.slot_same(*arena, existing as int));
                lemma_insert_no_duplicates(s, k + 1, id);
                assert forall|m: int| 0 <= m < s2.len() implies #[trigger] link_ok(
                    *arena,
                    s2,
                    m,
                ) by {
                    lemma_insert_index(s, k + 1, id);
                    let n2: int = n + 1;
                    assert(s2.len() == n2);
                    if m == k {
                        assert(s2[m] == existing);
                        assert(arena.entry(existing as int).next == Some(id));
                        assert(arena.entry(existing as int).prev == old(arena).entry(
                            existing as int,
                        ).prev);
                        assert(next_pos(n2, k) == k + 1 && s2[k + 1] == id);
                        assert(s2[prev_pos(n2, k)] == s[prev_pos(n, k)]);
                    } else if m == k + 1 {
                        assert(s2[m] == id);
                        assert(s2[prev_pos(n2, k + 1)] == existing);
                        assert(s2[next_pos(n2, k + 1)] == s[kn]);
                    } else {
                        let m_old: int = if m < k {
                            m
                        } else {
                            m - 1
                        };
                        assert(s2[m] == s[m_old]);
                        assert(link_ok(*old(arena), s, m_old));
                        if s[m_old] == nxt {
                            assert(m_old == kn) by {
                                lemma_no_dup_index(s, m_old, kn);
                            }
                            assert(arena.entry(nxt as int).prev == Some(id));
                            assert(old(arena).slot_same(a1, nxt as int));
                            assert(a1.slot_same(a2, nxt as int));
                            assert(arena.entry(nxt as int).next == old(arena).entry(
                                nxt as int,
                            ).next);
                            assert(s2[prev_pos(n2, m)] == id);
                            assert(s2[next_pos(n2, m)] == s[next_pos(n, kn)]);
                        } else {
                            assert(s[m_old] != existing) by {
                                lemma_no_dup_distinct(s, m_old, k);
                            }
                            assert(s[m_old] != id);
                            assert(old(arena).slot_same(*arena, s[m_old] as int)) by {
                                assert(old(arena).slot_same(a1, s[m_old] as int));
                                assert(a1.slot_same(a2, s[m_old] as int));
                                assert(a2.slot_same(*arena, s[m_old] as int));
                            }
                            assert(m_old != kn) by {
                                lemma_no_dup_distinct(s, m_old, kn);
                            }
                            assert(s2[next_pos(n2, m)] == s[next_pos(n, m_old)]);
                            assert(s2[prev_pos(n2, m)] == s[prev_pos(n, m_old)]);
                        }
                    }
                    assert(link_ok(*arena, s2, m));
                }
                assert forall|j: usize|
                    old(arena).live(j as int) && j != id && !s.contains(j) implies arena.entry(
                    j as int,
                ) == #[trigger] old(arena).entry(j as int) by {
                    assert(old(arena).slot_same(a1, j as int));
                    assert(a1.slot_same(a2, j as int));
                    assert(a2.slot_same(*arena, j as int));
                }
            }
        }
        true
    }

    /// Appends `id` to the tail of the list.  Fails, changing nothing,
    /// exactly when `id` is already accepted into some list.
    pub fn push_back<T>(&mut self, arena: &mut Arena<T>, id: usize) -> (r: bool)
        requires
            old(self).wf(*old(arena)),
            old(arena).live(id as int),
        ensures
            final(self).wf(*final(arena)),
            r == !old(arena).entry(id as int).inserted,
            old(arena).same_values(*final(arena)),
            r ==> final(self)@ == old(self)@.push(id),
            !r ==> *final(self) == *old(self) && *final(arena) == *old(arena),
            forall|j: usize|
                old(arena).live(j as int) && j != id && !old(self)@.contains(j)
                    ==> final(arena).entry(j as int) == #[trigger] old(arena).entry(j as int),
    {
        let ghost s = old(self)@;
        let ghost n = s.len() as int;
        match self.head {
            None => {
                let mut e = arena.entry_of(id);
                if !e.acquire_for_insertion() {
                    return false;
                }
                e.next = Some(id);
                e.prev = Some(id);
                arena.set_entry(id, e);
                self.head = Some(id);
                proof {
                    self.elems = Ghost(s.push(id));
                    assert(self@.len() == 1 && self@[0] == id);
                    assert forall|m: int| 0 <= m < self@.len() implies #[trigger] link_ok(
                        *arena,
                        self@,
                        m,
                    ) by {
                        assert(next_pos(1, 0) == 0 && prev_pos(1, 0) == 0);
                    }
                    assert forall|j: usize|
                        old(arena).live(j as int) && j != id && !s.contains(j)
                            implies arena.entry(j as int) == #[trigger] old(arena).entry(
                        j as int,
                    ) by {
                        assert(old(arena).slot_same(*arena, j as int));
                    }
                }
                true
            },
            Some(_) => {
                let tail = self.back(arena).unwrap();
                proof {
                    assert(s.contains(tail)) by {
                        assert(s[n - 1] == tail);
                    }
                }
                let r = self.insert_after(arena, tail, id);
                proof {
                    if r {
                        lemma_index_of_unique(s, tail);
                        lemma_no_dup_index(s, s.index_of(tail), n - 1);
                        lemma_insert_index(s, n, id);
                        assert(self@ =~= s.push(id));
                    }
                }
                r
            },
        }
    }

    /// Unlinks `id` from the list.  Fails, changing nothing, exactly when
    /// `id` is not currently linked; the caller guarantees that a linked
    /// `id` is linked into this very list.  On success the element's record
    /// is reset to the detached state, so it can be inserted again.
    pub fn remove<T>(&mut self, arena: &mut Arena<T>, id: usize) -> (r: bool)
        requires
            old(self).wf(*old(arena)),
            old(arena).live(id as int),
            old(arena).entry(id as int).next is Some ==> old(self)@.contains(id),
        ensures
            final(self).wf(*final(arena)),
            r == (old(arena).entry(id as int).next is Some),
            old(arena).same_values(*final(arena)),
            r ==> old(self)@.contains(id) && final(self)@ == old(self)@.remove(
                old(self)@.index_of(id),
            ),
            r ==> !final(self)@.contains(id),
            r ==> final(arena).entry(id as int).spec_detached(),
            !r ==> *final(self) == *old(self) && *final(arena) == *old(arena),
            forall|j: usize|
                old(arena).live(j as int) && j != id && !old(self)@.contains(j)
                    ==> final(arena).entry(j as int) == #[trigger] old(arena).entry(j as int),
    {
        let ghost s = old(self)@;
        let ghost n = s.len() as int;
        let e = arena.entry_of(id);
        let nxt = match e.next {
            Some(x) => x,
            None => {
                return false;
            },
        };
        proof {
            lemma_index_of_unique(s, id);
        }
        let ghost k = s.index_of(id);
        let ghost kn = next_pos(n, k);
        let ghost kp = prev_pos(n, k);
        let ghost s2 = s.remove(k);
        proof {
            assert(link_ok(*old(arena), s, k));
            assert(nxt == s[kn]);
            lemma_remove_index(s, k);
            lemma_remove_no_duplicates(s, k);
        }
        if nxt == id {
            // The sole member leaves: the list must become empty, not a
            // self-referencing ring.
            proof {
                lemma_no_dup_index(s, k, kn);
                assert(n == 1 && k == 0);
            }
            arena.set_entry(id, ListEntry::new());
            self.head = None;
            proof {
                self.elems = Ghost(s2);
                assert(s2.len() == 0);
                assert forall|j: usize|
                    old(arena).live(j as int) && j != id && !s.contains(j) implies arena.entry(
                    j as int,
                ) == #[trigger] old(arena).entry(j as int) by {
                    assert(old(arena).slot_same(*arena, j as int));
                }
            }
            true
        } else {
            let prv = e.prev.unwrap();
            proof {
                assert(link_ok(*old(arena), s, kn));
                assert(link_ok(*old(arena), s, kp));
                assert(prv == s[kp]);
                lemma_no_dup_index(s, k, k);
                assert(id != nxt);
                assert(k != kn);
                assert(prv != id) by {
                    if prv == id {
                        lemma_no_dup_index(s, kp, k);
                    }
                }
                assert(k != kp);
            }
            let h = self.head.unwrap();
            if h == id {
                self.head = Some(nxt);
            }
            if prv == nxt {
                // Two members: the survivor becomes a ring of one.
                proof {
                    lemma_no_dup_index(s, kp, kn);
                    assert(n == 2);
                }
                let mut o = arena.entry_of(prv);
                o.next = Some(prv);
                o.prev = Some(prv);
                arena.set_entry(prv, o);
                let ghost a1 = *arena;
                arena.set_entry(id, ListEntry::new());
                proof {
                    self.elems = Ghost(s2);
                    assert(a1.slot_same(*arena, prv as int));
                    assert(s2.len() == 1 && s2[0] == prv) by {
                        assert(kp == 1 - k);
                    }
                    assert forall|m: int| 0 <= m < s2.len() implies #[trigger] link_ok(
                        *arena,
                        s2,
                        m,
                    ) by {
                        assert(next_pos(1, 0) == 0 && prev_pos(1, 0) == 0);
                    }
                    assert forall|j: usize|
                        old(arena).live(j as int) && j != id && !s.contains(j)
                            implies arena.entry(j as int) == #[trigger] old(arena).entry(
                        j as int,
                    ) by {
                        assert(old(arena).slot_same(a1, j as int));
                        assert(a1.slot_same(*arena, j as int));
                    }
                }
                true
            } else {
                proof {
                    assert(nxt != prv);
                    lemma_no_dup_distinct(s, kp, kn);
                    assert(n >= 3) by {
                        if n == 2 {
                            assert(kp == kn);
                        }
                    }
                }
                let mut p = arena.entry_of(prv);
                p.next = Some(nxt);
                arena.set_entry(prv, p);
                let ghost a1 = *arena;
                proof {
                    assert(old(arena).slot_same(a1, nxt as int));
                    assert(old(arena).slot_same(a1, id as int));
                }
                let mut q = arena.entry_of(nxt);
                q.prev = Some(prv);
                arena.set_entry(nxt, q);
                let ghost a2 = *arena;
                proof {
                    assert(a1.slot_same(a2, prv as int));
                    assert(a1.slot_same(a2, id as int));
                }
                arena.set_entry(id, ListEntry::new());
                proof {
                    self.elems = Ghost(s2);
                    assert(a2.slot_same(*arena, prv as int));
                    assert(a2.slot_same(*arena, nxt as int));
                    assert forall|m: int| 0 <= m < s2.len() implies #[trigger] link_ok(
                        *arena,
                        s2,
                        m,
                    ) by {
                        let n2: int = n - 1;
                        let m_old: int = if m < k {
                            m
                        } else {
                            m + 1
                        };
                        assert(s2[m] == s[m_old]);
                        assert(link_ok(*old(arena), s, m_old));
                        assert(m_old != k);
                        if s[m_old] == prv {
                            assert(m_old == kp) by {
                                lemma_no_dup_index(s, m_old, kp);
                            }
                            assert(arena.entry(prv as int).next == Some(nxt));
                            assert(arena.entry(prv as int).prev == old(arena).entry(
                                prv as int,
                            ).prev);
                            assert(s2[next_pos(n2, m)] == nxt) by {
                                assert(next_pos(n2, shrink_pos(k, kp)) == shrink_pos(k, kn));
                                assert(s2[shrink_pos(k, kn)] == s[kn]);
                            }
                            assert(prev_pos(n, kp) != k) by {
                                if prev_pos(n, kp) == k {
                                    lemma_prev_next_inverse(n, kp);
                                    assert(kn == kp);
                                }
                            }
                            lemma_shrink_prev(n, k, kp);
                            assert(s2[prev_pos(n2, m)] == s[prev_pos(n, kp)]);
                        } else if s[m_old] == nxt {
                            assert(m_old == kn) by {
                                lemma_no_dup_index(s, m_old, kn);
                            }
                            assert(arena.entry(nxt as int).prev == Some(prv));
                            assert(arena.entry(nxt as int).next == old(arena).entry(
                                nxt as int,
                            ).next);
                            assert(s2[prev_pos(n2, m)] == prv) by {
                                assert(prev_pos(n2, shrink_pos(k, kn)) == shrink_pos(k, kp));
                                assert(s2[shrink_pos(k, kp)] == s[kp]);
                            }
                            assert(next_pos(n, kn) != k) by {
                                if next_pos(n, kn) == k {
                                    lemma_next_prev_inverse(n, kn);
                                    assert(kp == kn);
                                }
                            }
                            lemma_shrink_next(n, k, kn);
                            assert(s2[next_pos(n2, m)] == s[next_pos(n, kn)]);
                        } else {
                            assert(old(arena).slot_same(*arena, s[m_old] as int)) by {
                                assert(old(arena).slot_same(a1, s[m_old] as int));
                                assert(a1.slot_same(a2, s[m_old] as int));
                                assert(a2.slot_same(*arena, s[m_old] as int));
                            }
                            assert(next_pos(n, m_old) != k) by {
                                if next_pos(n, m_old) == k {
                                    lemma_next_prev_inverse(n, m_old);
                                    lemma_no_dup_index(s, m_old, kp);
                                }
                            }
                            assert(prev_pos(n, m_old) != k) by {
                                if prev_pos(n, m_old) == k {
                                    lemma_prev_next_inverse(n, m_old);
                                    lemma_no_dup_index(s, m_old, kn);
                                }
                            }
                            lemma_shrink_next(n, k, m_old);
                            lemma_shrink_prev(n, k, m_old);
                            assert(s2[next_pos(n2, m)] == s[next_pos(n, m_old)]);
                            assert(s2[prev_pos(n2, m)] == s[prev_pos(n, m_old)]);
                        }
                        assert(link_ok(*arena, s2, m));
                    }
                    assert forall|j: usize|
                        old(arena).live(j as int) && j != id && !s.contains(j)
                            implies arena.entry(j as int) == #[trigger] old(arena).entry(
                        j as int,
                    ) by {
                        assert(old(arena).slot_same(a1, j as int));
                        assert(a1.slot_same(a2, j as int));
                        assert(a2.slot_same(*arena, j as int));
                    }
                }
                true
            }
        }
    }

    /// Detaches and returns the head element, or returns unset on an empty
    /// list.
    pub fn pop_front<T>(&mut self, arena: &mut Arena<T>) -> (r: Option<usize>)
        requires
            old(self).wf(*old(arena)),
        ensures
            final(self).wf(*final(arena)),
            old(arena).same_values(*final(arena)),
            r == if old(self)@.len() == 0 {
                None::<usize>
            } else {
                Some(old(self)@[0])
            },
            old(self)@.len() == 0 ==> *final(self) == *old(self) && *final(arena) == *old(arena),
            old(self)@.len() > 0 ==> final(self)@ == old(self)@.drop_first(),
            old(self)@.len() > 0 ==> final(arena).entry(old(self)@[0] as int).spec_detached(),
            forall|j: usize|
                old(arena).live(j as int) && !old(self)@.contains(j) ==> final(arena).entry(
                    j as int,
                ) == #[trigger] old(arena).entry(j as int),
    {
        let ghost s = old(self)@;
        let h = match self.head {
            Some(h) => h,
            None => {
                return None;
            },
        };
        proof {
            assert(link_ok(*old(arena), s, 0));
            assert(s.contains(h)) by {
                assert(s[0] == h);
            }
        }
        let removed = self.remove(arena, h);
        proof {
            assert(removed);
            lemma_no_dup_index(s, s.index_of(h), 0);
            assert(self@ =~= s.drop_first());
            assert forall|j: usize|
                old(arena).live(j as int) && !s.contains(j) implies arena.entry(j as int)
                == #[trigger] old(arena).entry(j as int) by {
                assert(j != h);
            }
        }
        Some(h)
    }

    /// A read-only cursor standing on the head.
    pub fn cursor_front(&self) -> (r: Cursor)
        ensures
            r.spec_cur() == self.spec_head(),
    {
        Cursor::new(self.front())
    }

    /// A mutating cursor standing on the head.
    pub fn cursor_front_mut(&mut self) -> (r: CursorMut)
        ensures
            *final(self) == *old(self),
            r.spec_cur() == old(self).spec_head(),
    {
        CursorMut::new(self.front())
    }
}

/// A cursor position is unset or a member of the list.
pub open spec fn cursor_ok(cur: Option<usize>, s: Seq<usize>) -> bool {
    match cur {
        None => true,
        Some(c) => s.contains(c),
    }
}

/// The position a forward step reaches: unset steps to the head, the tail
/// steps off the end rather than wrapping around.
pub open spec fn spec_next_position(cur: Option<usize>, s: Seq<usize>) -> Option<usize> {
    match cur {
        None => if s.len() == 0 {
            None
        } else {
            Some(s[0])
        },
        Some(c) => {
            let k = s.index_of(c);
            if k == s.len() - 1 {
                None
            } else {
                Some(s[k + 1])
            }
        },
    }
}

/// The position a backward step reaches: unset steps to the tail, the head
/// steps off the front rather than wrapping around.
pub open spec fn spec_prev_position(cur: Option<usize>, s: Seq<usize>) -> Option<usize> {
    match cur {
        None => if s.len() == 0 {
            None
        } else {
            Some(s[s.len() - 1])
        },
        Some(c) => {
            let k = s.index_of(c);
            if k == 0 {
                None
            } else {
                Some(s[k - 1])
            }
        },
    }
}

/// First in, first out: a list built by `push_back` alone has the member
/// sequence `s` in insertion order, and by the contract of `pop_front` the
/// list left after `k` pops is `s.skip(k)`.  So the pop after `k` earlier
/// pops emits exactly `s[k]`: the emitted order is the insertion order.
pub proof fn lemma_fifo_order(s: Seq<usize>, k: int)
    requires
        0 <= k < s.len(),
    ensures
        s.skip(k).len() > 0,
        s.skip(k)[0] == s[k],
        s.skip(k).drop_first() =~= s.skip(k + 1),
{
}

/// Once every member has been popped the remaining list is empty, and by
/// the contract of `pop_front` the next pop returns nothing.
pub proof fn lemma_drained(s: Seq<usize>)
    ensures
        s.skip(s.len() as int).len() == 0,
{
}

/// Every member of a well-formed list is flagged as inserted, so by the
/// contract of `push_back` a second push of an element already on a list is
/// rejected: the member sequence does not grow and the element is not
/// duplicated.
pub proof fn lemma_duplicate_push_rejected<T>(list: RawList, arena: Arena<T>, id: usize)
    requires
        list.wf(arena),
        list@.contains(id),
    ensures
        arena.entry(id as int).inserted,
{
    lemma_wf_member_live(list, arena, id);
}

/// A successful `remove` leaves the element's record detached, and a
/// detached record is exactly what `push_back` accepts: the element can be
/// pushed again, into the same or any other list over the arena.
pub proof fn lemma_removed_can_be_pushed<T>(arena: Arena<T>, id: usize)
    requires
        arena.entry(id as int).spec_detached(),
    ensures
        !arena.entry(id as int).inserted,
{
}

/// Operating on one list leaves every other well-formed list well formed:
/// well-formedness reads only the list's own members' slots, and no
/// operation of a list touches the slot of an element on another list.
pub proof fn lemma_wf_frame<T>(list: RawList, a1: Arena<T>, a2: Arena<T>)
    requires
        list.wf(a1),
        forall|k: int| 0 <= k < list@.len() ==> a1.slot_same(a2, #[trigger] list@[k] as int),
    ensures
        list.wf(a2),
{
    assert forall|k: int| 0 <= k < list@.len() implies #[trigger] link_ok(a2, list@, k) by {
        assert(link_ok(a1, list@, k));
        assert(a1.slot_same(a2, list@[k] as int));
    }
}

/// Splicing behind a member keeps every other member's relative order: the
/// contract of `insert_after` puts the new element right after `existing`,
/// members before it keep their positions, members after it shift by one.
pub proof fn lemma_insert_after_order(s: Seq<usize>, k: int, c: usize)
    requires
        0 <= k < s.len(),
    ensures
        s.insert(k + 1, c).len() == s.len() + 1,
        s.insert(k + 1, c)[k] == s[k],
        s.insert(k + 1, c)[k + 1] == c,
        forall|m: int| 0 <= m <= k ==> #[trigger] s.insert(k + 1, c)[m] == s[m],
        forall|m: int| k < m < s.len() ==> #[trigger] s.insert(k + 1, c)[m + 1] == s[m],
{
    lemma_insert_index(s, k + 1, c);
}

/// A forward step from the member at position `m` reaches the member at
/// `m + 1`, and from the tail it steps off the end rather than wrapping
/// around to the head.
pub proof fn lemma_cursor_step(s: Seq<usize>, m: int)
    requires
        s.no_duplicates(),
        0 <= m < s.len(),
    ensures
        spec_next_position(Some(s[m]), s) == (if m == s.len() - 1 {
            None::<usize>
        } else {
            Some(s[m + 1])
        }),
{
    assert(s.contains(s[m]));
    lemma_index_of_unique(s, s[m]);
    lemma_no_dup_index(s, s.index_of(s[m]), m);
}

/// A member of a well-formed list is allocated, flagged as inserted, and
/// has both neighbors set.
pub proof fn lemma_wf_member_live<T>(list: RawList, arena: Arena<T>, id: usize)
    requires
        list.wf(arena),
        list@.contains(id),
    ensures
        arena.live(id as int),
        arena.entry(id as int).inserted,
        arena.entry(id as int).next is Some,
{
    lemma_index_of_unique(list@, id);
    assert(link_ok(arena, list@, list@.index_of(id)));
}

/// The traversal state shared by the two cursors: just the current
/// position, unset when the cursor stands off the list.
struct CommonCursor {
    cur: Option<usize>,
}

impl CommonCursor {
    spec fn spec_cur(self) -> Option<usize> {
        self.cur
    }

    fn new(cur: Option<usize>) -> (r: Self)
        ensures
            r.spec_cur() == cur,
    {
        CommonCursor { cur }
    }

    fn move_next<T>(&mut self, list: &RawList, arena: &Arena<T>)
        requires
            list.wf(*arena),
            cursor_ok(old(self).spec_cur(), list@),
        ensures
            final(self).spec_cur() == spec_next_position(old(self).spec_cur(), list@),
            cursor_ok(final(self).spec_cur(), list@),
    {
        let ghost s = list@;
        let cur = self.cur;
        self.cur = None;
        match cur {
            None => {
                self.cur = list.front();
                proof {
                    if s.len() > 0 {
                        assert(s.contains(s[0]));
                    }
                }
            },
            Some(c) => {
                match list.front() {
                    None => {},
                    Some(h) => {
                        proof {
                            lemma_wf_member_live(*list, *arena, c);
                            lemma_index_of_unique(s, c);
                            assert(link_ok(*arena, s, s.index_of(c)));
                        }
                        let e = arena.entry_of(c);
                        let nx = e.next.unwrap();
                        let ghost k = s.index_of(c);
                        proof {
                            assert(nx == s[next_pos(s.len() as int, k)]);
                        }
                        if nx != h {
                            self.cur = Some(nx);
                            proof {
                                assert(k != s.len() - 1) by {
                                    if k == s.len() - 1 {
                                        assert(nx == s[0]);
                                    }
                                }
                                assert(s.contains(s[k + 1]));
                            }
                        } else {
                            proof {
                                assert(k == s.len() - 1) by {
                                    if k != s.len() - 1 {
                                        lemma_no_dup_index(s, k + 1, 0);
                                    }
                                }
                            }
                        }
                    },
                }
            },
        }
    }

    fn move_prev<T>(&mut self, list: &RawList, arena: &Arena<T>)
        requires
            list.wf(*arena),
            cursor_ok(old(self).spec_cur(), list@),
        ensures
            final(self).spec_cur() == spec_prev_position(old(self).spec_cur(), list@),
            cursor_ok(final(self).spec_cur(), list@),
    {
        let ghost s = list@;
        let ghost n = s.len() as int;
        match list.front() {
            None => {
                self.cur = None;
            },
            Some(h) => {
                let cur = self.cur;
                self.cur = None;
                let at = match cur {
                    None => h,
                    Some(c) => {
                        if c == h {
                            proof {
                                lemma_index_of_unique(s, c);
                                lemma_no_dup_index(s, s.index_of(c), 0);
                            }
                            return ;
                        }
                        c
                    },
                };
                proof {
                    assert(s.contains(s[0]));
                    assert(s.contains(at)) by {
                        if cur is None {
                            assert(at == s[0]);
                        }
                    }
                    lemma_wf_member_live(*list, *arena, at);
                    lemma_index_of_unique(s, at);
                    assert(link_ok(*arena, s, s.index_of(at)));
                }
                let e = arena.entry_of(at);
                self.cur = e.prev;
                proof {
                    let k = s.index_of(at);
                    assert(e.prev == Some(s[prev_pos(n, k)]));
                    if cur is Some {
                        assert(k != 0) by {
                            if k == 0 {
                                assert(at == s[0]);
                            }
                        }
                        assert(s.contains(s[k - 1]));
                    } else {
                        assert(k == 0) by {
                            lemma_no_dup_index(s, k, 0);
                        }
                        assert(s.contains(s[n - 1]));
                    }
                }
            },
        }
    }
}

/// A read-only traversal cursor.  It keeps only its position; the list and
/// the arena are handed to each step, as the caller serializes access to
/// them anyway.
pub struct Cursor {
    cursor: CommonCursor,
}

impl Cursor {
    /// The current position, unset when the cursor stands off the list.
    pub closed spec fn spec_cur(self) -> Option<usize> {
        self.cursor.cur
    }

    fn new(cur: Option<usize>) -> (r: Self)
        ensures
            r.spec_cur() == cur,
    {
        Cursor { cursor: CommonCursor::new(cur) }
    }

    /// The element under the cursor, without transferring ownership.
    pub fn current<'a, T>(&self, arena: &'a Arena<T>) -> (r: Option<&'a T>)
        requires
            self.spec_cur() is Some ==> arena.live(self.spec_cur()->Some_0 as int),
        ensures
            match self.spec_cur() {
                None => r is None,
                Some(c) => r == Some(&arena.value(c as int)),
            },
    {
        match self.cursor.cur {
            None => None,
            Some(c) => Some(arena.value_ref(c)),
        }
    }

    /// Steps to the next element, or off the end after the tail.
    pub fn move_next<T>(&mut self, list: &RawList, arena: &Arena<T>)
        requires
            list.wf(*arena),
            cursor_ok(old(self).spec_cur(), list@),
        ensures
            final(self).spec_cur() == spec_next_position(old(self).spec_cur(), list@),
            cursor_ok(final(self).spec_cur(), list@),
    {
        self.cursor.move_next(list, arena);
    }
}

/// A traversal cursor that can also unlink the element it stands on.
pub struct CursorMut {
    cursor: CommonCursor,
}

impl CursorMut {
    /// The current position, unset when the cursor stands off the list.
    pub closed spec fn spec_cur(self) -> Option<usize> {
        self.cursor.cur
    }

    fn new(cur: Option<usize>) -> (r: Self)
        ensures
            r.spec_cur() == cur,
    {
        CursorMut { cursor: CommonCursor::new(cur) }
    }

    /// The element under the cursor, without transferring ownership.
    pub fn current<'a, T>(&self, arena: &'a Arena<T>) -> (r: Option<&'a T>)
        requires
            self.spec_cur() is Some ==> arena.live(self.spec_cur()->Some_0 as int),
        ensures
            match self.spec_cur() {
                None => r is None,
                Some(c) => r == Some(&arena.value(c as int)),
            },
    {
        match self.cursor.cur {
            None => None,
            Some(c) => Some(arena.value_ref(c)),
        }
    }

    /// Unlinks the element under the cursor and returns its index, first
    /// advancing the cursor to the next element so that the position stays
    /// valid.
    pub fn remove_current<T>(&mut self, list: &mut RawList, arena: &mut Arena<T>) -> (r: Option<
        usize,
    >)
        requires
            old(list).wf(*old(arena)),
            cursor_ok(old(self).spec_cur(), old(list)@),
        ensures
            final(list).wf(*final(arena)),
            old(arena).same_values(*final(arena)),
            r == old(self).spec_cur(),
            cursor_ok(final(self).spec_cur(), final(list)@),
            old(self).spec_cur() is None ==> *final(list) == *old(list) && *final(arena) == *old(arena) && *final(self) == *old(self),
            old(self).spec_cur() matches Some(c) ==> final(list)@ == old(list)@.remove(
                old(list)@.index_of(c),
            ) && final(arena).entry(c as int).spec_detached() && final(self).spec_cur()
                == spec_next_position(old(self).spec_cur(), old(list)@),
    {
        let ghost s = old(list)@;
        let c = match self.cursor.cur {
            None => {
                return None;
            },
            Some(c) => c,
        };
        proof {
            lemma_wf_member_live(*list, *arena, c);
            lemma_index_of_unique(s, c);
        }
        self.cursor.move_next(list, arena);
        let removed = list.remove(arena, c);
        proof {
            assert(removed);
            let k = s.index_of(c);
            lemma_remove_index(s, k);
            lemma_remove_no_duplicates(s, k);
            if k < s.len() - 1 {
                assert(self.cursor.cur == Some(s[k + 1]));
                assert(list@[k] == s[k + 1]);
                assert(list@.contains(s[k + 1]));
            }
        }
        Some(c)
    }

    /// The element one step ahead, computed with a disposable copy of the
    /// cursor state; the cursor itself does not move.
    pub fn peek_next<'a, T>(&self, list: &RawList, arena: &'a Arena<T>) -> (r: Option<&'a T>)
        requires
            list.wf(*arena),
            cursor_ok(self.spec_cur(), list@),
        ensures
            match spec_next_position(self.spec_cur(), list@) {
                None => r is None,
                Some(c) => r == Some(&arena.value(c as int)),
            },
    {
        let mut probe = CommonCursor::new(self.cursor.cur);
        probe.move_next(list, arena);
        match probe.cur {
            None => None,
            Some(c) => {
                proof {
                    lemma_wf_member_live(*list, *arena, c);
                }
                Some(arena.value_ref(c))
            },
        }
    }

    /// The element one step behind, computed with a disposable copy of the
    /// cursor state; the cursor itself does not move.
    pub fn peek_prev<'a, T>(&self, list: &RawList, arena: &'a Arena<T>) -> (r: Option<&'a T>)
        requires
            list.wf(*arena),
            cursor_ok(self.spec_cur(), list@),
        ensures
            match spec_prev_position(self.spec_cur(), list@) {
                None => r is None,
                Some(c) => r == Some(&arena.value(c as int)),
            },
    {
        let mut probe = CommonCursor::new(self.cursor.cur);
        probe.move_prev(list, arena);
        match probe.cur {
            None => None,
            Some(c) => {
                proof {
                    lemma_wf_member_live(*list, *arena, c);
                }
                Some(arena.value_ref(c))
            },
        }
    }

    /// Steps to the next element, or off the end after the tail.
    pub fn move_next<T>(&mut self, list: &RawList, arena: &Arena<T>)
        requires
            list.wf(*arena),
            cursor_ok(old(self).spec_cur(), list@),
        ensures
            final(self).spec_cur() == spec_next_position(old(self).spec_cur(), list@),
            cursor_ok(final(self).spec_cur(), list@),
    {
        self.cursor.move_next(list, arena);
    }
}

/// With `x` a member of `s`, `index_of` names its position, the only one
/// carrying `x` when `s` repeats nothing.
pub(crate) proof fn lemma_index_of_unique(s: Seq<usize>, x: usize)
    requires
        s.contains(x),
    ensures
        0 <= s.index_of(x) < s.len(),
        s[s.index_of(x)] == x,
{
    assert(exists|i: int| 0 <= i < s.len() && s[i] == x);
}

/// Two positions of a duplicate-free sequence carrying the same element are
/// the same position.
pub(crate) proof fn lemma_no_dup_index(s: Seq<usize>, i: int, j: int)
    requires
        s.no_duplicates(),
        0 <= i < s.len(),
        0 <= j < s.len(),
        s[i] == s[j],
    ensures
        i == j,
{
}

/// In a duplicate-free sequence, distinct positions carry distinct elements.
pub(crate) proof fn lemma_no_dup_distinct(s: Seq<usize>, i: int, j: int)
    requires
        s.no_duplicates(),
        0 <= i < s.len(),
        0 <= j < s.len(),
        i != j,
    ensures
        s[i] != s[j],
{
}

/// An element whose record is not flagged as inserted is on no well-formed
/// list, this one included.
proof fn lemma_unlinked_not_member<T>(list: RawList, arena: Arena<T>, id: usize)
    requires
        list.wf(arena),
        !arena.entry(id as int).inserted,
    ensures
        !list@.contains(id),
{
    if list@.contains(id) {
        lemma_index_of_unique(list@, id);
        assert(link_ok(arena, list@, list@.index_of(id)));
    }
}

/// Inserting a fresh element keeps a sequence duplicate-free.
proof fn lemma_insert_no_duplicates(s: Seq<usize>, i: int, x: usize)
    requires
        s.no_duplicates(),
        !s.contains(x),
        0 <= i <= s.len(),
    ensures
        s.insert(i, x).no_duplicates(),
{
    let s2 = s.insert(i, x);
    lemma_insert_index(s, i, x);
    assert forall|p: int, q: int| 0 <= p < s2.len() && 0 <= q < s2.len() && p != q implies s2[p]
        != s2[q] by {
        if s2[p] == s2[q] {
            if p != i && q != i {
                let p0: int = if p < i {
                    p
                } else {
                    p - 1
                };
                let q0: int = if q < i {
                    q
                } else {
                    q - 1
                };
                assert(s[p0] == s2[p] && s[q0] == s2[q] && p0 != q0);
            } else {
                let o: int = if p == i {
                    q
                } else {
                    p
                };
                let o0: int = if o < i {
                    o
                } else {
                    o - 1
                };
                assert(s2[o] == s[o0] && s2[o] == x);
                assert(s.contains(x));
            }
        }
    }
}

/// How the positions of `s.insert(i, x)` map back to `s`.
pub(crate) proof fn lemma_insert_index(s: Seq<usize>, i: int, x: usize)
    requires
        0 <= i <= s.len(),
    ensures
        s.insert(i, x).len() == s.len() + 1,
        s.insert(i, x)[i] == x,
        forall|m: int| 0 <= m < i ==> #[trigger] s.insert(i, x)[m] == s[m],
        forall|m: int| i < m <= s.len() ==> #[trigger] s.insert(i, x)[m] == s[m - 1],
{
}

/// How the positions of `s.remove(k)` map back to `s`.
pub(crate) proof fn lemma_remove_index(s: Seq<usize>, k: int)
    requires
        0 <= k < s.len(),
    ensures
        s.remove(k).len() == s.len() - 1,
        forall|m: int| 0 <= m < k ==> #[trigger] s.remove(k)[m] == s[m],
        forall|m: int| k <= m < s.len() - 1 ==> #[trigger] s.remove(k)[m] == s[m + 1],
{
}

/// Removing a position keeps a sequence duplicate-free, and removes the
/// only occurrence of the element that stood there.
pub(crate) proof fn lemma_remove_no_duplicates(s: Seq<usize>, k: int)
    requires
        s.no_duplicates(),
        0 <= k < s.len(),
    ensures
        s.remove(k).no_duplicates(),
        !s.remove(k).contains(s[k]),
{
    let s2 = s.remove(k);
    lemma_remove_index(s, k);
    assert forall|p: int, q: int| 0 <= p < s2.len() && 0 <= q < s2.len() && p != q implies s2[p]
        != s2[q] by {
        let p0: int = if p < k {
            p
        } else {
            p + 1
        };
        let q0: int = if q < k {
            q
        } else {
            q + 1
        };
        assert(s2[p] == s[p0] && s2[q] == s[q0] && p0 != q0);
    }
    assert forall|p: int| 0 <= p < s2.len() implies s2[p] != s[k] by {
        let p0: int = if p < k {
            p
        } else {
            p + 1
        };
        assert(s2[p] == s[p0] && p0 != k);
    }
}

/// The position after `p` in a shrunken ring, for positions away from the
/// removed one.
spec fn shrink_pos(k: int, p: int) -> int {
    if p < k {
        p
    } else {
        p - 1
    }
}

proof fn lemma_next_prev_inverse(n: int, p: int)
    requires
        0 <= p < n,
    ensures
        prev_pos(n, next_pos(n, p)) == p,
{
}

proof fn lemma_prev_next_inverse(n: int, p: int)
    requires
        0 <= p < n,
    ensures
        next_pos(n, prev_pos(n, p)) == p,
{
}

/// Removing position `k` commutes with stepping forward through the ring,
/// for steps that do not touch `k`.
proof fn lemma_shrink_next(n: int, k: int, p: int)
    requires
        n >= 2,
        0 <= k < n,
        0 <= p < n,
        p != k,
        next_pos(n, p) != k,
    ensures
        next_pos(n - 1, shrink_pos(k, p)) == shrink_pos(k, next_pos(n, p)),
{
}

/// Removing position `k` commutes with stepping backward through the ring,
/// for steps that do not touch `k`.
proof fn lemma_shrink_prev(n: int, k: int, p: int)
    requires
        n >= 2,
        0 <= k < n,
        0 <= p < n,
        p != k,
        prev_pos(n, p) != k,
    ensures
        prev_pos(n - 1, shrink_pos(k, p)) == shrink_pos(k, prev_pos(n, p)),
{
}

} // verus!
