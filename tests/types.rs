use std::cell::Cell;
use std::rc::Rc;

use inplace::{
    init_array_from_fn, pin_init_array_from_fn, testsyn, Either, HeapSize, InPlaceInit, Init, Opaque,
    PinInit, ScopeGuard,
};

#[test]
fn dismissed_guard_returns_data_without_cleanup() {
    let ran = Rc::new(Cell::new(0));
    let r = ran.clone();
    let guard = ScopeGuard::new_with_data(41u32, move |_v: u32| r.set(r.get() + 1));
    assert_eq!(*guard.get(), 41);
    assert_eq!(guard.dismiss(), 41);
    assert_eq!(ran.get(), 0);
}

#[test]
fn fired_guard_runs_cleanup_on_its_data() {
    let seen = Rc::new(Cell::new(0u32));
    let s = seen.clone();
    let mut guard = ScopeGuard::new_with_data(1u32, move |v: u32| s.set(v));
    guard.set(17);
    guard.fire();
    assert_eq!(seen.get(), 17);
}

#[test]
fn guard_without_data() {
    let ran = Rc::new(Cell::new(false));
    let r = ran.clone();
    let guard = ScopeGuard::new(move || r.set(true));
    guard.fire();
    assert!(ran.get());
}

#[test]
fn opaque_holds_a_value_or_none() {
    let mut o = Opaque::new(3u8);
    assert_eq!(o.get(), Some(&3));
    assert_eq!(Opaque::raw_get(&o), Some(&3));
    assert_eq!(o.take(), Some(3));
    assert!(!o.is_init());
    let mut u: Opaque<u8> = Opaque::uninit();
    assert_eq!(u.get(), None);
    u.write(9);
    assert!(u.is_init());
    assert_eq!(u.get(), Some(&9));
}

#[test]
fn ready_outcome_initializes_a_slot() {
    let mut slot: Opaque<i32> = Opaque::uninit();
    assert_eq!(PinInit::<i32, ()>::__pinned_init(Ok(4), &mut slot), Ok(()));
    assert_eq!(slot.get(), Some(&4));
    let mut slot: Opaque<i32> = Opaque::uninit();
    assert_eq!(Init::<i32, u8>::__init(Err(2u8), &mut slot), Err(2));
    assert_eq!(slot.get(), None);
}

#[test]
fn box_is_built_in_place_or_not_at_all() {
    let b: Result<Box<i32>, u8> = Box::try_pin_init(Ok::<i32, u8>(6));
    assert_eq!(*b.unwrap(), 6);
    let b: Result<Box<i32>, u8> = Box::try_init(Err::<i32, u8>(1));
    assert_eq!(b.err(), Some(1));
}

#[test]
fn either_holds_one_side() {
    let e: Either<u8, bool> = Either::Left(1);
    assert!(matches!(e, Either::Left(1)));
    let e: Either<u8, bool> = Either::Right(true);
    assert!(matches!(e, Either::Right(true)));
}

#[test]
fn heap_size_counts_nested_boxes() {
    assert_eq!(testsyn(), std::mem::size_of::<Box<u8>>() + 1);
    assert_eq!(testsyn(), std::mem::size_of::<usize>() + 1);
    assert_eq!(5u8.heap_size_of_children(), 0);
    let b = Box::new(Box::new(1u8));
    assert_eq!(b.heap_size_of_children(), std::mem::size_of::<usize>() + 1);
}

#[test]
fn guard_data_can_be_changed_in_place() {
    let total = Rc::new(Cell::new(0usize));
    let t = total.clone();
    let mut guard = ScopeGuard::new_with_data(Vec::new(), move |v: Vec<u8>| t.set(v.len()));
    guard.get_mut().push(1);
    guard.get_mut().push(2);
    guard.fire();
    assert_eq!(total.get(), 2);
}

#[test]
fn array_elements_are_built_by_index() {
    let init = init_array_from_fn(5, |i: usize| Ok::<usize, u8>(i * 2));
    let b: Box<Vec<usize>> = Box::try_init(init).unwrap();
    assert_eq!(*b, vec![0, 2, 4, 6, 8]);
    let init = pin_init_array_from_fn(3, |i: usize| Ok::<usize, u8>(i + 1));
    let b: Box<Vec<usize>> = Box::try_pin_init(init).unwrap();
    assert_eq!(*b, vec![1, 2, 3]);
}

#[test]
fn array_stops_at_the_first_failing_element() {
    let made = Rc::new(Cell::new(0usize));
    let m = made.clone();
    let init = init_array_from_fn(6, move |i: usize| {
        m.set(m.get() + 1);
        if i == 2 { Err::<usize, usize>(i) } else { Ok(i) }
    });
    assert_eq!(init.try_build(), Err(2));
    assert_eq!(made.get(), 3);
    let empty = init_array_from_fn(0, |i: usize| Err::<usize, usize>(i));
    assert_eq!(empty.try_build(), Ok(vec![]));
    let pinned = pin_init_array_from_fn(4, |i: usize| if i == 3 { Err(7u8) } else { Ok(i) });
    assert_eq!(pinned.try_build_pinned(), Err(7));
}

#[test]
fn shared_pointers_are_built_in_place_too() {
    let r: Result<std::rc::Rc<u16>, ()> = std::rc::Rc::try_pin_init(Ok::<u16, ()>(3));
    assert_eq!(*r.unwrap(), 3);
    let a: Result<std::sync::Arc<u16>, u8> = std::sync::Arc::try_init(Err::<u16, u8>(7));
    assert_eq!(a.err(), Some(7));
}
