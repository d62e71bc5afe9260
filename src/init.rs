use vstd::prelude::*;

use crate::types::{Opaque, ScopeGuard};

verus! {

/// An initializer that respects pinning: it fills a slot with a valid `T`, or fails with an
/// `E` and leaves the slot without a value.
///
/// The value it builds must never move to another address once construction has begun.
pub trait PinInit<T, E>: Sized {
    /// Running this initializer may leave `value` in its slot and fail with `error`, or succeed
    /// when `error` is `None`.
    spec fn pinned_outcome(self, value: Option<T>, error: Option<E>) -> bool;

    /// Initializes `slot`, consuming the initializer.
    ///
    /// On success the slot holds a value; on failure it holds none, whatever was written on the
    /// way having been cleaned up. What it leaves and returns is one of its outcomes.
    fn __pinned_init(self, slot: &mut Opaque<T>) -> (r: Result<(), E>)
        requires
            old(slot)@ is None,
        ensures
            r is Ok <==> final(slot)@ is Some,
            self.pinned_outcome(final(slot)@, error_of(r)),
    ;
}

/// An initializer whose value may be moved freely after construction.
pub trait Init<T, E>: Sized {
    /// Running this initializer may leave `value` in its slot and fail with `error`, or succeed
    /// when `error` is `None`.
    spec fn outcome(self, value: Option<T>, error: Option<E>) -> bool;

    /// Initializes `slot`, consuming the initializer.
    ///
    /// On success the slot holds a value; on failure it holds none, whatever was written on the
    /// way having been cleaned up. What it leaves and returns is one of its outcomes.
    fn __init(self, slot: &mut Opaque<T>) -> (r: Result<(), E>)
        requires
            old(slot)@ is None,
        ensures
            r is Ok <==> final(slot)@ is Some,
            self.outcome(final(slot)@, error_of(r)),
    ;
}

/// The error a call returned, or `None` when it succeeded.
pub open spec fn error_of<E>(r: Result<(), E>) -> Option<E> {
    match r {
        Ok(_) => None,
        Err(e) => Some(e),
    }
}

/// What a ready outcome does when run: `Ok(v)` writes `v` and succeeds, `Err(e)` writes nothing
/// and fails with `e`.
pub open spec fn ready_outcome<T, E>(ready: Result<T, E>, value: Option<T>, error: Option<E>) -> bool {
    match ready {
        Ok(v) => value == Some(v) && error is None,
        Err(e) => value is None && error == Some(e),
    }
}

/// A ready outcome is an initializer: `Ok(v)` writes `v`, `Err(e)` fails with `e`.
impl<T, E> PinInit<T, E> for Result<T, E> {
    open spec fn pinned_outcome(self, value: Option<T>, error: Option<E>) -> bool {
        ready_outcome(self, value, error)
    }

    fn __pinned_init(self, slot: &mut Opaque<T>) -> (r: Result<(), E>) {
        match self {
            Ok(v) => {
                slot.write(v);
                Ok(())
            },
            Err(e) => Err(e),
        }
    }
}

/// A ready outcome is an initializer: `Ok(v)` writes `v`, `Err(e)` fails with `e`.
impl<T, E> Init<T, E> for Result<T, E> {
    open spec fn outcome(self, value: Option<T>, error: Option<E>) -> bool {
        ready_outcome(self, value, error)
    }

    fn __init(self, slot: &mut Opaque<T>) -> (r: Result<(), E>) {
        match self {
            Ok(v) => {
                slot.write(v);
                Ok(())
            },
            Err(e) => Err(e),
        }
    }
}

/// Types for which the value with every byte zero is valid.
pub trait Zeroable: Sized {
    /// The all-zero value.
    spec fn zero() -> Self;

    /// Returns the all-zero value.
    fn zeroed() -> (r: Self)
        ensures
            r == Self::zero(),
    ;
}

impl Zeroable for u8 {
    open spec fn zero() -> u8 {
        0
    }

    fn zeroed() -> (r: u8) {
        0
    }
}

impl Zeroable for u16 {
    open spec fn zero() -> u16 {
        0
    }

    fn zeroed() -> (r: u16) {
        0
    }
}

impl Zeroable for u32 {
    open spec fn zero() -> u32 {
        0
    }

    fn zeroed() -> (r: u32) {
        0
    }
}

impl Zeroable for u64 {
    open spec fn zero() -> u64 {
        0
    }

    fn zeroed() -> (r: u64) {
        0
    }
}

impl Zeroable for usize {
    open spec fn zero() -> usize {
        0
    }

    fn zeroed() -> (r: usize) {
        0
    }
}

impl Zeroable for i8 {
    open spec fn zero() -> i8 {
        0
    }

    fn zeroed() -> (r: i8) {
        0
    }
}

impl Zeroable for i16 {
    open spec fn zero() -> i16 {
        0
    }

    fn zeroed() -> (r: i16) {
        0
    }
}

impl Zeroable for i32 {
    open spec fn zero() -> i32 {
        0
    }

    fn zeroed() -> (r: i32) {
        0
    }
}

impl Zeroable for i64 {
    open spec fn zero() -> i64 {
        0
    }

    fn zeroed() -> (r: i64) {
        0
    }
}

impl Zeroable for isize {
    open spec fn zero() -> isize {
        0
    }

    fn zeroed() -> (r: isize) {
        0
    }
}

impl Zeroable for bool {
    open spec fn zero() -> bool {
        false
    }

    fn zeroed() -> (r: bool) {
        false
    }
}

/// Smart pointer that can own a value built by an initializer.
///
/// The value is built in storage of its own and then moved, once, behind the new pointer; a value
/// whose initializer records its own address must not be built this way.
pub trait InPlaceInit<T>: Sized {
    /// The value the pointer owns.
    spec fn pointee(self) -> T;

    /// Runs the pin-respecting initializer `init` on storage that holds no value, and returns a
    /// pointer owning the value it built, or the initializer's own error, the storage then being
    /// released without any destructor of `T` running.
    fn try_pin_init<E, I: PinInit<T, E>>(init: I) -> (r: Result<Self, E>)
        ensures
            r matches Ok(p) ==> init.pinned_outcome(Some(p.pointee()), None),
            r matches Err(e) ==> init.pinned_outcome(None, Some(e)),
    ;

    /// Runs the initializer `init` on storage that holds no value, and returns a pointer owning
    /// the value it built, or the initializer's own error, the storage then being released
    /// without any destructor of `T` running.
    fn try_init<E, I: Init<T, E>>(init: I) -> (r: Result<Self, E>)
        ensures
            r matches Ok(p) ==> init.outcome(Some(p.pointee()), None),
            r matches Err(e) ==> init.outcome(None, Some(e)),
    ;
}

impl<T> InPlaceInit<T> for Box<T> {
    open spec fn pointee(self) -> T {
        *self
    }

    fn try_pin_init<E, I: PinInit<T, E>>(init: I) -> (r: Result<Box<T>, E>) {
        let mut slot: Opaque<T> = Opaque::uninit();
        match init.__pinned_init(&mut slot) {
            Ok(()) => Ok(Box::new(slot.take().unwrap())),
            Err(e) => Err(e),
        }
    }

    fn try_init<E, I: Init<T, E>>(init: I) -> (r: Result<Box<T>, E>) {
        let mut slot: Opaque<T> = Opaque::uninit();
        match init.__init(&mut slot) {
            Ok(()) => Ok(Box::new(slot.take().unwrap())),
            Err(e) => Err(e),
        }
    }
}

impl<T> InPlaceInit<T> for std::rc::Rc<T> {
    open spec fn pointee(self) -> T {
        *self
    }

    fn try_pin_init<E, I: PinInit<T, E>>(init: I) -> (r: Result<std::rc::Rc<T>, E>) {
        let mut slot: Opaque<T> = Opaque::uninit();
        match init.__pinned_init(&mut slot) {
            Ok(()) => Ok(std::rc::Rc::new(slot.take().unwrap())),
            Err(e) => Err(e),
        }
    }

    fn try_init<E, I: Init<T, E>>(init: I) -> (r: Result<std::rc::Rc<T>, E>) {
        let mut slot: Opaque<T> = Opaque::uninit();
        match init.__init(&mut slot) {
            Ok(()) => Ok(std::rc::Rc::new(slot.take().unwrap())),
            Err(e) => Err(e),
        }
    }
}

impl<T> InPlaceInit<T> for std::sync::Arc<T> {
    open spec fn pointee(self) -> T {
        *self
    }

    fn try_pin_init<E, I: PinInit<T, E>>(init: I) -> (r: Result<std::sync::Arc<T>, E>) {
        let mut slot: Opaque<T> = Opaque::uninit();
        match init.__pinned_init(&mut slot) {
            Ok(()) => Ok(std::sync::Arc::new(slot.take().unwrap())),
            Err(e) => Err(e),
        }
    }

    fn try_init<E, I: Init<T, E>>(init: I) -> (r: Result<std::sync::Arc<T>, E>) {
        let mut slot: Opaque<T> = Opaque::uninit();
        match init.__init(&mut slot) {
            Ok(()) => Ok(std::sync::Arc::new(slot.take().unwrap())),
            Err(e) => Err(e),
        }
    }
}

/// An initializer for a vector of `len` elements, in which element `i` is filled by the
/// initializer that `make_init(i)` returns.
///
/// Elements are built in index order. When one fails, the elements built before it are dropped
/// and its error is handed back.
#[verifier::reject_recursive_types(I)]
pub struct ArrayInit<T, I, F: Fn(usize) -> I> {
    len: usize,
    make_init: F,
    marker: core::marker::PhantomData<(T, I)>,
}

/// `value` is what an initializer made by `make_init` for index `i` builds when it succeeds.
pub open spec fn built_by<T, E, I: Init<T, E>, F: Fn(usize) -> I>(
    make_init: F,
    i: int,
    value: T,
) -> bool {
    exists|ini: I| call_ensures(make_init, (i as usize,), ini) && #[trigger] ini.outcome(Some(value), None)
}

/// Each element of `elems` is what an initializer made by `make_init` for its index built.
pub open spec fn elements_built<T, E, I: Init<T, E>, F: Fn(usize) -> I>(
    make_init: F,
    elems: Seq<T>,
) -> bool {
    forall|i: int| 0 <= i < elems.len() ==> #[trigger] built_by::<T, E, I, F>(make_init, i, elems[i])
}

/// Some element below `len` failed with `e`: the initializer made for it wrote nothing and
/// returned `e`.
pub open spec fn element_failed<T, E, I: Init<T, E>, F: Fn(usize) -> I>(
    make_init: F,
    len: usize,
    e: E,
) -> bool {
    exists|k: usize, ini: I|
        k < len && #[trigger] call_ensures(make_init, (k,), ini) && ini.outcome(None, Some(e))
}

/// `value` is what a pin-respecting initializer made by `make_init` for index `i` builds when it
/// succeeds.
pub open spec fn pinned_built_by<T, E, I: PinInit<T, E>, F: Fn(usize) -> I>(
    make_init: F,
    i: int,
    value: T,
) -> bool {
    exists|ini: I|
        call_ensures(make_init, (i as usize,), ini) && #[trigger] ini.pinned_outcome(Some(value), None)
}

/// Each element of `elems` is what a pin-respecting initializer made by `make_init` for its
/// index built.
pub open spec fn elements_pinned<T, E, I: PinInit<T, E>, F: Fn(usize) -> I>(
    make_init: F,
    elems: Seq<T>,
) -> bool {
    forall|i: int|
        0 <= i < elems.len() ==> #[trigger] pinned_built_by::<T, E, I, F>(make_init, i, elems[i])
}

/// Some element below `len` failed with `e`: the pin-respecting initializer made for it wrote
/// nothing and returned `e`.
pub open spec fn element_pinned_failed<T, E, I: PinInit<T, E>, F: Fn(usize) -> I>(
    make_init: F,
    len: usize,
    e: E,
) -> bool {
    exists|k: usize, ini: I|
        k < len && #[trigger] call_ensures(make_init, (k,), ini) && ini.pinned_outcome(None, Some(e))
}

impl<T, I, F: Fn(usize) -> I> ArrayInit<T, I, F> {
    #[verifier::type_invariant]
    spec fn callable(self) -> bool {
        forall|i: usize| i < self.len ==> call_requires(self.make_init, (i,))
    }

    /// Number of elements.
    pub closed spec fn len(self) -> usize {
        self.len
    }

    /// The function that makes the initializer of each element.
    pub closed spec fn make_init(self) -> F {
        self.make_init
    }

    /// Builds the elements in index order, each with the initializer made for its index; the
    /// first failure stops the build, drops the elements built so far and hands back its error.
    pub fn try_build<E>(&self) -> (r: Result<Vec<T>, E>) where I: Init<T, E>
        ensures
            r matches Ok(v) ==> v@.len() == self.len() && elements_built::<T, E, I, F>(
                self.make_init(),
                v@,
            ),
            r matches Err(e) ==> element_failed::<T, E, I, F>(self.make_init(), self.len(), e),
    {
        proof {
            use_type_invariant(self);
        }
        let len = self.len;
        // Until dismissed, the guard drops the elements built so far.
        let drop_all = |v: Vec<T>| {};
        let mut built = ScopeGuard::new_with_data(Vec::new(), drop_all);
        let mut failure: Option<E> = None;
        let mut i: usize = 0;
        while i < len
            invariant_except_break
                failure is None,
                built.data()@.len() == i,
            invariant
                i <= len,
                len == self.len,
                forall|k: usize| k < len ==> call_requires(self.make_init, (k,)),
                forall|v: Vec<T>| call_requires(built.cleanup(), (v,)),
                elements_built::<T, E, I, F>(self.make_init, built.data()@),
            ensures
                failure is None ==> built.data()@.len() == len,
                failure matches Some(e) ==> element_failed::<T, E, I, F>(self.make_init, len, e),
            decreases len - i,
        {
            let init = (self.make_init)(i);
            let ghost made = init;
            let mut cell: Opaque<T> = Opaque::uninit();
            let res = init.__init(&mut cell);
            let ghost filled = cell@;
            match res {
                Ok(()) => {
                    let value = cell.take().unwrap();
                    assert(made.outcome(Some(value), None)) by {
                        assert(filled == Some(value));
                    }
                    let ghost before = built.data()@;
                    built.get_mut().push(value);
                    proof {
                        let now = built.data()@;
                        assert forall|j: int| 0 <= j < now.len() implies #[trigger] built_by::<
                            T,
                            E,
                            I,
                            F,
                        >(self.make_init, j, now[j]) by {
                            if j < before.len() {
                                assert(now[j] == before[j]);
                                assert(built_by::<T, E, I, F>(self.make_init, j, before[j]));
                            } else {
                                assert(j == i as int);
                                assert(call_ensures(self.make_init, (j as usize,), made));
                                assert(made.outcome(Some(now[j]), None));
                            }
                        }
                    }
                },
                Err(e) => {
                    proof {
                        assert(made.outcome(None, Some(e)));
                    }
                    failure = Some(e);
                    break;
                },
            }
            i += 1;
        }
        match failure {
            Some(e) => {
                built.fire();
                Err(e)
            },
            None => Ok(built.dismiss()),
        }
    }

    /// Builds the elements in index order, each with the pin-respecting initializer made for
    /// its index; the first failure stops the build, drops the elements built so far and hands
    /// back its error.
    pub fn try_build_pinned<E>(&self) -> (r: Result<Vec<T>, E>) where I: PinInit<T, E>
        ensures
            r matches Ok(v) ==> v@.len() == self.len() && elements_pinned::<T, E, I, F>(
                self.make_init(),
                v@,
            ),
            r matches Err(e) ==> element_pinned_failed::<T, E, I, F>(
                self.make_init(),
                self.len(),
                e,
            ),
    {
        proof {
            use_type_invariant(self);
        }
        let len = self.len;
        // Until dismissed, the guard drops the elements built so far.
        let drop_all = |v: Vec<T>| {};
        let mut built = ScopeGuard::new_with_data(Vec::new(), drop_all);
        let mut failure: Option<E> = None;
        let mut i: usize = 0;
        while i < len
            invariant_except_break
                failure is None,
                built.data()@.len() == i,
            invariant
                i <= len,
                len == self.len,
                forall|k: usize| k < len ==> call_requires(self.make_init, (k,)),
                forall|v: Vec<T>| call_requires(built.cleanup(), (v,)),
                elements_pinned::<T, E, I, F>(self.make_init, built.data()@),
            ensures
                failure is None ==> built.data()@.len() == len,
                failure matches Some(e) ==> element_pinned_failed::<T, E, I, F>(
                    self.make_init,
                    len,
                    e,
                ),
            decreases len - i,
        {
            let init = (self.make_init)(i);
            let ghost made = init;
            let mut cell: Opaque<T> = Opaque::uninit();
            let res = init.__pinned_init(&mut cell);
            let ghost filled = cell@;
            match res {
                Ok(()) => {
                    let value = cell.take().unwrap();
                    assert(made.pinned_outcome(Some(value), None)) by {
                        assert(filled == Some(value));
                    }
                    let ghost before = built.data()@;
                    built.get_mut().push(value);
                    proof {
                        let now = built.data()@;
                        assert forall|j: int| 0 <= j < now.len() implies #[trigger] pinned_built_by::<
                            T,
                            E,
                            I,
                            F,
                        >(self.make_init, j, now[j]) by {
                            if j < before.len() {
                                assert(now[j] == before[j]);
                                assert(pinned_built_by::<T, E, I, F>(self.make_init, j, before[j]));
                            } else {
                                assert(j == i as int);
                                assert(call_ensures(self.make_init, (j as usize,), made));
                                assert(made.pinned_outcome(Some(now[j]), None));
                            }
                        }
                    }
                },
                Err(e) => {
                    proof {
                        assert(made.pinned_outcome(None, Some(e)));
                    }
                    failure = Some(e);
                    break;
                },
            }
            i += 1;
        }
        match failure {
            Some(e) => {
                built.fire();
                Err(e)
            },
            None => Ok(built.dismiss()),
        }
    }
}

impl<T, E, I: Init<T, E>, F: Fn(usize) -> I> Init<Vec<T>, E> for ArrayInit<T, I, F> {
    open spec fn outcome(self, value: Option<Vec<T>>, error: Option<E>) -> bool {
        match error {
            None => value is Some && value->Some_0@.len() == self.len() && elements_built::<
                T,
                E,
                I,
                F,
            >(self.make_init(), value->Some_0@),
            Some(e) => value is None && element_failed::<T, E, I, F>(
                self.make_init(),
                self.len(),
                e,
            ),
        }
    }

    fn __init(self, slot: &mut Opaque<Vec<T>>) -> (r: Result<(), E>) {
        match self.try_build() {
            Ok(v) => {
                slot.write(v);
                Ok(())
            },
            Err(e) => Err(e),
        }
    }
}

impl<T, E, I: PinInit<T, E>, F: Fn(usize) -> I> PinInit<Vec<T>, E> for ArrayInit<T, I, F> {
    open spec fn pinned_outcome(self, value: Option<Vec<T>>, error: Option<E>) -> bool {
        match error {
            None => value is Some && value->Some_0@.len() == self.len() && elements_pinned::<
                T,
                E,
                I,
                F,
            >(self.make_init(), value->Some_0@),
            Some(e) => value is None && element_pinned_failed::<T, E, I, F>(
                self.make_init(),
                self.len(),
                e,
            ),
        }
    }

    fn __pinned_init(self, slot: &mut Opaque<Vec<T>>) -> (r: Result<(), E>) {
        match self.try_build_pinned() {
            Ok(v) => {
                slot.write(v);
                Ok(())
            },
            Err(e) => Err(e),
        }
    }
}

/// Initializes a vector of `len` elements, element `i` by the initializer `make_init(i)`.
pub fn init_array_from_fn<T, I, F: Fn(usize) -> I>(len: usize, make_init: F) -> (r: ArrayInit<
    T,
    I,
    F,
>)
    requires
        forall|i: usize| i < len ==> call_requires(make_init, (i,)),
    ensures
        r.len() == len,
        r.make_init() == make_init,
{
    ArrayInit { len, make_init, marker: core::marker::PhantomData }
}

/// Initializes a vector of `len` elements, element `i` by the pin-respecting initializer
/// `make_init(i)`.
pub fn pin_init_array_from_fn<T, I, F: Fn(usize) -> I>(len: usize, make_init: F) -> (r: ArrayInit<
    T,
    I,
    F,
>)
    requires
        forall|i: usize| i < len ==> call_requires(make_init, (i,)),
    ensures
        r.len() == len,
        r.make_init() == make_init,
{
    ArrayInit { len, make_init, marker: core::marker::PhantomData }
}

} // verus!
