use kernel::arena::Arena;
use kernel::raw_list::{ListEntry, RawList};

#[test]
fn raw_push_and_pop_keep_order() {
    let mut arena: Arena<u32> = Arena::new();
    let mut list = RawList::new();
    assert!(list.is_empty());
    let a = arena.allocate(100);
    let b = arena.allocate(200);
    let c = arena.allocate(300);
    assert!(list.push_back(&mut arena, a));
    assert!(list.push_back(&mut arena, b));
    assert!(list.push_back(&mut arena, c));
    assert!(!list.is_empty());
    assert_eq!(list.front(), Some(a));
    assert_eq!(list.back(&arena), Some(c));
    assert_eq!(list.pop_front(&mut arena), Some(a));
    assert_eq!(list.pop_front(&mut arena), Some(b));
    assert_eq!(list.pop_front(&mut arena), Some(c));
    assert_eq!(list.pop_front(&mut arena), None);
    assert!(list.is_empty());
}

#[test]
fn raw_push_of_linked_entry_fails() {
    let mut arena: Arena<u32> = Arena::new();
    let mut list = RawList::new();
    let a = arena.allocate(1);
    assert!(list.push_back(&mut arena, a));
    assert!(!list.push_back(&mut arena, a));
    assert_eq!(list.pop_front(&mut arena), Some(a));
    assert_eq!(list.pop_front(&mut arena), None);
}

#[test]
fn raw_remove_of_sole_member_clears_the_head() {
    let mut arena: Arena<u32> = Arena::new();
    let mut list = RawList::new();
    let a = arena.allocate(1);
    assert!(list.push_back(&mut arena, a));
    assert!(list.remove(&mut arena, a));
    assert!(list.is_empty());
    assert_eq!(list.front(), None);
    // Removing an unlinked entry is an ordinary no-op, not an error.
    assert!(!list.remove(&mut arena, a));
    // The entry is detached and can be linked again.
    assert!(list.push_back(&mut arena, a));
    assert_eq!(list.pop_front(&mut arena), Some(a));
}

#[test]
fn raw_remove_of_head_advances_it() {
    let mut arena: Arena<u32> = Arena::new();
    let mut list = RawList::new();
    let a = arena.allocate(1);
    let b = arena.allocate(2);
    let c = arena.allocate(3);
    assert!(list.push_back(&mut arena, a));
    assert!(list.push_back(&mut arena, b));
    assert!(list.push_back(&mut arena, c));
    assert!(list.remove(&mut arena, a));
    assert_eq!(list.front(), Some(b));
    assert_eq!(list.back(&arena), Some(c));
    assert!(list.remove(&mut arena, c));
    assert_eq!(list.front(), Some(b));
    assert_eq!(list.back(&arena), Some(b));
    assert_eq!(list.pop_front(&mut arena), Some(b));
    assert!(list.is_empty());
}

#[test]
fn raw_insert_after_splices_between_neighbors() {
    let mut arena: Arena<u32> = Arena::new();
    let mut list = RawList::new();
    let a = arena.allocate(1);
    let b = arena.allocate(2);
    let c = arena.allocate(3);
    assert!(list.push_back(&mut arena, a));
    assert!(list.push_back(&mut arena, c));
    assert!(list.insert_after(&mut arena, a, b));
    assert_eq!(list.pop_front(&mut arena), Some(a));
    assert_eq!(list.pop_front(&mut arena), Some(b));
    assert_eq!(list.pop_front(&mut arena), Some(c));
    assert_eq!(list.pop_front(&mut arena), None);
}

#[test]
fn raw_cursor_reads_forward_without_wrapping() {
    let mut arena: Arena<u32> = Arena::new();
    let mut list = RawList::new();
    let a = arena.allocate(10);
    let b = arena.allocate(20);
    assert!(list.push_back(&mut arena, a));
    assert!(list.push_back(&mut arena, b));
    let mut cursor = list.cursor_front();
    assert_eq!(cursor.current(&arena), Some(&10));
    cursor.move_next(&list, &arena);
    assert_eq!(cursor.current(&arena), Some(&20));
    cursor.move_next(&list, &arena);
    assert_eq!(cursor.current(&arena), None);
    // A further step from the end starts over at the head.
    cursor.move_next(&list, &arena);
    assert_eq!(cursor.current(&arena), Some(&10));
}

#[test]
fn raw_mut_cursor_removes_current_and_advances() {
    let mut arena: Arena<u32> = Arena::new();
    let mut list = RawList::new();
    let a = arena.allocate(10);
    let b = arena.allocate(20);
    let c = arena.allocate(30);
    assert!(list.push_back(&mut arena, a));
    assert!(list.push_back(&mut arena, b));
    assert!(list.push_back(&mut arena, c));
    let mut cursor = list.cursor_front_mut();
    cursor.move_next(&list, &arena);
    assert_eq!(cursor.current(&arena), Some(&20));
    assert_eq!(cursor.peek_prev(&list, &arena), Some(&10));
    assert_eq!(cursor.peek_next(&list, &arena), Some(&30));
    assert_eq!(cursor.remove_current(&mut list, &mut arena), Some(b));
    assert_eq!(cursor.current(&arena), Some(&30));
    assert_eq!(list.pop_front(&mut arena), Some(a));
    assert_eq!(list.pop_front(&mut arena), Some(c));
    assert_eq!(list.pop_front(&mut arena), None);
}

#[test]
fn entry_state_machine_guards_double_acquisition() {
    let mut e = ListEntry::new();
    assert!(e.acquire_for_insertion());
    assert!(!e.acquire_for_insertion());
    e.release_after_removal();
    assert!(e.acquire_for_insertion());
}

#[test]
fn arena_counts_live_elements() {
    let mut arena: Arena<u32> = Arena::new();
    assert_eq!(arena.live_count(), 0);
    let a = arena.allocate(1);
    let b = arena.allocate(2);
    assert!(arena.is_live(a));
    assert!(arena.is_live(b));
    assert_eq!(arena.live_count(), 2);
    assert_eq!(*arena.value_ref(a), 1);
    assert_eq!(*arena.value_ref(b), 2);
    assert_eq!(arena.count_of(a), 1);
}
