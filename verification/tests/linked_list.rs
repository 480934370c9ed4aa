use kernel::arena::Arena;
use kernel::linked_list::{List, Wrapper};
use kernel::sync::{Ref, UniqueRef};

#[test]
fn fifo_push_pop_order() {
    let mut arena: Arena<u64> = Arena::new();
    let mut list: List<u64, UniqueRef<u64>> = List::new();
    for v in [1u64, 2, 3] {
        let h = UniqueRef::try_new(&mut arena, v).unwrap();
        assert!(list.push_back(&mut arena, h).is_none());
    }
    for expected in [1u64, 2, 3] {
        let h = list.pop_front(&mut arena).unwrap();
        assert_eq!(*h.get(&arena), expected);
        h.dispose(&mut arena);
    }
    assert!(list.pop_front(&mut arena).is_none());
    assert!(list.is_empty());
    assert_eq!(arena.live_count(), 0);
}

#[test]
fn duplicate_push_is_rejected() {
    let mut arena: Arena<u64> = Arena::new();
    let mut list: List<u64, Ref<u64>> = List::new();
    let a = Ref::try_new(&mut arena, 7).unwrap();
    let a_again = a.clone_ref(&mut arena);
    assert!(list.push_back(&mut arena, a).is_none());
    // The same physical element a second time: a no-op push.
    let rejected = list.push_back(&mut arena, a_again);
    let loser = rejected.expect("second push of a linked element must be rejected");
    loser.dispose(&mut arena);
    // The element appears once: one pop drains the list.
    let h = list.pop_front(&mut arena).unwrap();
    assert_eq!(*h.get(&arena), 7);
    assert!(list.pop_front(&mut arena).is_none());
    h.dispose(&mut arena);
    assert_eq!(arena.live_count(), 0);
}

#[test]
fn removed_element_can_be_pushed_again() {
    let mut arena: Arena<u64> = Arena::new();
    let mut list: List<u64, Ref<u64>> = List::new();
    let mut other: List<u64, Ref<u64>> = List::new();
    let a = Ref::try_new(&mut arena, 5).unwrap();
    let a_view = a.clone_ref(&mut arena);
    assert!(list.push_back(&mut arena, a).is_none());
    let got = list.remove(&mut arena, &a_view).expect("linked element must be removable");
    // Back into the same list.
    assert!(list.push_back(&mut arena, got).is_none());
    let got = list.remove(&mut arena, &a_view).unwrap();
    // And into a different list.
    assert!(other.push_back(&mut arena, got).is_none());
    let h = other.pop_front(&mut arena).unwrap();
    assert_eq!(*h.get(&arena), 5);
    h.dispose(&mut arena);
    a_view.dispose(&mut arena);
    assert_eq!(arena.live_count(), 0);
}

#[test]
fn insert_after_comes_right_after() {
    let mut arena: Arena<u64> = Arena::new();
    let mut list: List<u64, UniqueRef<u64>> = List::new();
    let b = UniqueRef::try_new(&mut arena, 10).unwrap();
    let b_id = b.raw_id();
    assert!(list.push_back(&mut arena, b).is_none());
    let c = UniqueRef::try_new(&mut arena, 20).unwrap();
    assert!(list.insert_after(&mut arena, b_id, c).is_none());
    let first = list.pop_front(&mut arena).unwrap();
    assert_eq!(*first.get(&arena), 10);
    first.dispose(&mut arena);
    let second = list.pop_front(&mut arena).unwrap();
    assert_eq!(*second.get(&arena), 20);
    second.dispose(&mut arena);
    assert!(list.is_empty());
}

#[test]
fn draining_returns_every_element_once() {
    let mut arena: Arena<u64> = Arena::new();
    let mut list: List<u64, UniqueRef<u64>> = List::new();
    let n: u64 = 10;
    for v in 0..n {
        let h = UniqueRef::try_new(&mut arena, v).unwrap();
        assert!(list.push_back(&mut arena, h).is_none());
        assert!(!list.is_empty());
    }
    for v in 0..n {
        let h = list.pop_front(&mut arena).unwrap();
        assert_eq!(*h.get(&arena), v);
        h.dispose(&mut arena);
    }
    // The (n + 1)-th pop finds nothing, and the head is unset again.
    assert!(list.pop_front(&mut arena).is_none());
    assert!(list.is_empty());
}

#[test]
fn cursor_walks_off_the_end_without_wrapping() {
    let mut arena: Arena<u64> = Arena::new();
    let mut list: List<u64, UniqueRef<u64>> = List::new();
    for v in [1u64, 2, 3] {
        let h = UniqueRef::try_new(&mut arena, v).unwrap();
        assert!(list.push_back(&mut arena, h).is_none());
    }
    let mut cursor = list.cursor_front_mut();
    assert_eq!(cursor.current(&arena), Some(&1));
    cursor.move_next(&list, &arena);
    assert_eq!(cursor.current(&arena), Some(&2));
    cursor.move_next(&list, &arena);
    assert_eq!(cursor.current(&arena), Some(&3));
    cursor.move_next(&list, &arena);
    // Past the tail the cursor reports nothing instead of the head again.
    assert_eq!(cursor.current(&arena), None);
    list.drain(&mut arena);
}

#[test]
fn cursor_peeks_and_removes_in_place() {
    let mut arena: Arena<u64> = Arena::new();
    let mut list: List<u64, UniqueRef<u64>> = List::new();
    for v in [1u64, 2, 3] {
        let h = UniqueRef::try_new(&mut arena, v).unwrap();
        assert!(list.push_back(&mut arena, h).is_none());
    }
    let mut cursor = list.cursor_front_mut();
    cursor.move_next(&list, &arena);
    assert_eq!(cursor.current(&arena), Some(&2));
    assert_eq!(cursor.peek_next(&list, &arena), Some(&3));
    assert_eq!(cursor.peek_prev(&list, &arena), Some(&1));
    // Removing the current element advances the cursor first.
    let removed = cursor.remove_current(&mut list, &mut arena).unwrap();
    assert_eq!(*removed.get(&arena), 2);
    removed.dispose(&mut arena);
    assert_eq!(cursor.current(&arena), Some(&3));
    assert_eq!(cursor.peek_prev(&list, &arena), Some(&1));
    assert_eq!(cursor.peek_next(&list, &arena), None);
    let first = list.pop_front(&mut arena).unwrap();
    assert_eq!(*first.get(&arena), 1);
    first.dispose(&mut arena);
    let last = list.pop_front(&mut arena).unwrap();
    assert_eq!(*last.get(&arena), 3);
    last.dispose(&mut arena);
}

#[test]
fn destruction_of_nonempty_list_frees_everything() {
    let mut arena: Arena<u64> = Arena::new();
    let mut list: List<u64, UniqueRef<u64>> = List::new();
    let n: u64 = 8;
    for v in 0..n {
        let h = UniqueRef::try_new(&mut arena, v).unwrap();
        assert!(list.push_back(&mut arena, h).is_none());
    }
    assert_eq!(arena.live_count(), n as usize);
    // Tearing the owning list down without popping must free all of them.
    list.drain(&mut arena);
    assert!(list.is_empty());
    assert_eq!(arena.live_count(), 0);
}

#[test]
fn racing_submitters_insert_exactly_once() {
    let mut arena: Arena<u64> = Arena::new();
    let mut queue: List<u64, Ref<u64>> = List::new();
    // One shared work item, delivered by two submitters holding a clone
    // each: the insertion flag lets exactly one of them win.
    let item = Ref::try_new(&mut arena, 42).unwrap();
    let first_submitter = item.clone_ref(&mut arena);
    let second_submitter = item.clone_ref(&mut arena);
    item.dispose(&mut arena);
    assert_eq!(arena.live_count(), 1);
    assert!(queue.push_back(&mut arena, first_submitter).is_none());
    let rejected = queue.push_back(&mut arena, second_submitter);
    let loser = rejected.expect("exactly one racing insertion may win");
    // The loser's reconstructed ownership is dropped normally: the shared
    // count goes down by one, nothing is freed twice.
    loser.dispose(&mut arena);
    assert_eq!(arena.live_count(), 1);
    let delivered = queue.pop_front(&mut arena).unwrap();
    assert_eq!(*delivered.get(&arena), 42);
    assert!(queue.pop_front(&mut arena).is_none());
    delivered.dispose(&mut arena);
    assert_eq!(arena.live_count(), 0);
}

#[test]
fn drain_keeps_shared_elements_alive() {
    let mut arena: Arena<u64> = Arena::new();
    let mut list: List<u64, Ref<u64>> = List::new();
    let a = Ref::try_new(&mut arena, 3).unwrap();
    let keeper = a.clone_ref(&mut arena);
    assert!(list.push_back(&mut arena, a).is_none());
    list.drain(&mut arena);
    // The list's share is gone, but the other owner still holds the value.
    assert_eq!(arena.live_count(), 1);
    assert_eq!(*keeper.get(&arena), 3);
    keeper.dispose(&mut arena);
    assert_eq!(arena.live_count(), 0);
}
