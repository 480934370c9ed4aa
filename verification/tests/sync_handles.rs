use kernel::arena::Arena;
use kernel::linked_list::Wrapper;
use kernel::sync::{Ref, UniqueRef};
use kernel::types::PointerWrapper;

#[test]
fn ref_clones_share_one_element() {
    let mut arena: Arena<&str> = Arena::new();
    let a = Ref::try_new(&mut arena, "hello").unwrap();
    let b = a.clone_ref(&mut arena);
    assert!(Ref::ptr_eq(&a, &b));
    assert_eq!(arena.live_count(), 1);
    assert_eq!(arena.count_of(a.raw_id()), 2);
    assert_eq!(*a.get(&arena), "hello");
    a.dispose(&mut arena);
    // The element lives on under its other owner.
    assert_eq!(arena.live_count(), 1);
    assert_eq!(*b.get(&arena), "hello");
    b.dispose(&mut arena);
    assert_eq!(arena.live_count(), 0);
}

#[test]
fn refs_to_distinct_elements_differ() {
    let mut arena: Arena<u64> = Arena::new();
    let a = Ref::try_new(&mut arena, 1).unwrap();
    let b = Ref::try_new(&mut arena, 1).unwrap();
    assert!(!Ref::ptr_eq(&a, &b));
    a.dispose(&mut arena);
    b.dispose(&mut arena);
}

#[test]
fn ref_survives_a_usize_round_trip() {
    let mut arena: Arena<u64> = Arena::new();
    let a = Ref::try_new(&mut arena, 9).unwrap();
    let encoded = Ref::into_usize(a);
    let viewed: kernel::sync::RefBorrow<u64> = Ref::borrow_usize(encoded);
    assert_eq!(*viewed.get(&arena), 9);
    let back: Ref<u64> = Ref::from_usize(encoded);
    assert_eq!(*back.get(&arena), 9);
    back.dispose(&mut arena);
    assert_eq!(arena.live_count(), 0);
}

#[test]
fn ref_survives_a_raw_round_trip() {
    let mut arena: Arena<u64> = Arena::new();
    let a = Ref::try_new(&mut arena, 3).unwrap();
    let raw = Ref::into_raw(a);
    let back: Ref<u64> = Ref::from_raw(raw);
    assert_eq!(*back.get(&arena), 3);
    back.dispose(&mut arena);
}

#[test]
fn unique_ref_owns_its_value_exclusively() {
    let mut arena: Arena<u64> = Arena::new();
    let a = UniqueRef::try_new(&mut arena, 11).unwrap();
    assert_eq!(*a.get(&arena), 11);
    assert_eq!(arena.count_of(a.raw_id()), 1);
    let v = a.into_inner(&mut arena);
    assert_eq!(v, 11);
    assert_eq!(arena.live_count(), 0);
}

#[test]
fn pointer_wrapper_round_trips_handles() {
    let mut arena: Arena<u64> = Arena::new();
    let a = UniqueRef::try_new(&mut arena, 2).unwrap();
    let ptr = PointerWrapper::into_pointer(a);
    let back: UniqueRef<u64> = PointerWrapper::from_pointer(ptr);
    assert_eq!(*back.get(&arena), 2);
    let _ = back.into_inner(&mut arena);
}
