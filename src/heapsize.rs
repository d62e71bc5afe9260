use vstd::layout::{layout_for_type_is_valid, size_of};
use vstd::prelude::*;

verus! {

/// Values that can report how much heap memory they own.
pub trait HeapSize: Sized {
    /// Total number of bytes of heap memory owned by `self`.
    spec fn heap_size(&self) -> nat;

    /// Total number of bytes of heap memory owned by `self`.
    ///
    /// Does not include the size of `self` itself, which may or may not be on the heap. Includes
    /// only children of `self`, meaning things pointed to by `self`.
    fn heap_size_of_children(&self) -> (r: usize)
        requires
            self.heap_size() <= usize::MAX,
        ensures
            r == self.heap_size(),
    ;
}

/// A `u8` does not own any heap memory.
impl HeapSize for u8 {
    open spec fn heap_size(&self) -> nat {
        0
    }

    fn heap_size_of_children(&self) -> (r: usize) {
        0
    }
}

/// A `Box` owns the memory holding its value, plus whatever that value owns in turn.
impl<T: HeapSize> HeapSize for Box<T> {
    open spec fn heap_size(&self) -> nat {
        size_of::<T>() + (**self).heap_size()
    }

    fn heap_size_of_children(&self) -> (r: usize) {
        let own = core::mem::size_of::<T>();
        own + (**self).heap_size_of_children()
    }
}

/// A value owning a nested heap allocation, to measure.
pub struct Nested {
    pub a: u8,
    pub b: Box<Box<u8>>,
}

impl HeapSize for Nested {
    open spec fn heap_size(&self) -> nat {
        self.a.heap_size() + self.b.heap_size()
    }

    fn heap_size_of_children(&self) -> (r: usize) {
        self.a.heap_size_of_children() + self.b.heap_size_of_children()
    }
}

/// Measures the heap memory owned by a value holding a byte and a box of a box of a byte: one
/// inner box and one byte.
pub fn testsyn() -> (r: usize)
    ensures
        r == size_of::<Box<u8>>() + 1,
{
    broadcast use vstd::layout::layout_of_primitives;

    layout_for_type_is_valid::<Box<u8>>();
    let b = Box::new(42u8);
    let test = Nested { a: 42, b: Box::new(b) };
    test.heap_size_of_children()
}

} // verus!
