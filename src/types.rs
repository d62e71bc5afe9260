use vstd::prelude::*;

verus! {

/// Holds data together with a cleanup function to run on it.
///
/// A guard is armed from the moment it is made until it is consumed, either by
/// [`ScopeGuard::dismiss`], which hands the data back without cleaning up, or by
/// [`ScopeGuard::fire`], which runs the cleanup function on the data. The cleanup runs only
/// through `fire`: every exit on which it must run calls `fire`, and a guard that is simply
/// dropped runs nothing.
pub struct ScopeGuard<T, F: FnOnce(T)> {
    data: T,
    cleanup: F,
}

impl<T, F: FnOnce(T)> ScopeGuard<T, F> {
    /// The guarded data.
    pub closed spec fn data(self) -> T {
        self.data
    }

    /// The cleanup procedure that runs unless the guard is dismissed.
    pub closed spec fn cleanup(self) -> F {
        self.cleanup
    }

    /// Creates a new guarded object wrapping the given data and with the given cleanup function.
    pub fn new_with_data(data: T, cleanup_func: F) -> (r: Self)
        ensures
            r.data() == data,
            r.cleanup() == cleanup_func,
    {
        ScopeGuard { data, cleanup: cleanup_func }
    }

    /// Prevents the cleanup function from running and returns the guarded data.
    pub fn dismiss(self) -> (r: T)
        ensures
            r == self.data(),
    {
        let ScopeGuard { data, cleanup: _ } = self;
        data
    }

    /// Runs the cleanup function on the guarded data now, consuming the guard.
    pub fn fire(self)
        requires
            self.cleanup().requires((self.data(),)),
        ensures
            self.cleanup().ensures((self.data(),), ()),
    {
        let ScopeGuard { data, cleanup } = self;
        cleanup(data);
    }

    /// Shared access to the guarded data.
    pub fn get(&self) -> (r: &T)
        ensures
            *r == self.data(),
    {
        &self.data
    }

    /// Exclusive access to the guarded data; the guard stays armed with the same cleanup function.
    pub fn get_mut(&mut self) -> (r: &mut T)
        ensures
            *r == old(self).data(),
            final(self).data() == *final(r),
            final(self).cleanup() == old(self).cleanup(),
    {
        &mut self.data
    }

    /// Replaces the guarded data, keeping the guard armed with the same cleanup function.
    pub fn set(&mut self, data: T)
        ensures
            final(self).data() == data,
            final(self).cleanup() == old(self).cleanup(),
    {
        self.data = data;
    }
}

impl ScopeGuard<(), fn(())> {
    /// Creates a new guarded object with the given cleanup function.
    pub fn new<G: FnOnce()>(cleanup: G) -> (r: ScopeGuard<(), impl FnOnce(())>)
        ensures
            cleanup.requires(()) ==> r.cleanup().requires(((),)),
            forall|x: ()| #[trigger] r.cleanup().ensures(((),), x) ==> cleanup.ensures((), x),
    {
        let run = move |u: ()| -> (x: ())
            requires
                call_requires(cleanup, ()),
            ensures
                call_ensures(cleanup, (), x),
            {
                cleanup()
            };
        ScopeGuard::new_with_data((), run)
    }
}

/// Stores a value that may not have been initialised yet.
///
/// This is the storage that an initializer writes into: it starts out either holding a value
/// ([`Opaque::new`]) or holding none ([`Opaque::uninit`]), and its view says which. A value it
/// holds is an ordinary owned value: it is dropped with the `Opaque`.
pub struct Opaque<T> {
    value: Option<T>,
}

impl<T> View for Opaque<T> {
    type V = Option<T>;

    closed spec fn view(&self) -> Option<T> {
        self.value
    }
}

impl<T> Opaque<T> {
    /// Creates a new opaque value.
    pub fn new(value: T) -> (r: Self)
        ensures
            r@ == Some(value),
    {
        Opaque { value: Some(value) }
    }

    /// Creates an uninitialised value.
    pub fn uninit() -> (r: Self)
        ensures
            r@ is None,
    {
        Opaque { value: None }
    }

    /// Returns the stored value, if one has been written.
    pub fn get(&self) -> (r: Option<&T>)
        ensures
            r is Some <==> self@ is Some,
            r is Some ==> *r->Some_0 == self@->Some_0,
    {
        self.value.as_ref()
    }

    /// Returns the value stored behind `this`, if one has been written.
    pub fn raw_get(this: &Self) -> (r: Option<&T>)
        ensures
            r is Some <==> this@ is Some,
            r is Some ==> *r->Some_0 == this@->Some_0,
    {
        this.get()
    }

    /// Whether a value has been written.
    pub fn is_init(&self) -> (r: bool)
        ensures
            r == self@ is Some,
    {
        self.value.is_some()
    }

    /// Writes a value into storage that holds none.
    pub fn write(&mut self, value: T)
        requires
            old(self)@ is None,
        ensures
            final(self)@ == Some(value),
    {
        self.value = Some(value);
    }

    /// Moves the stored value out, leaving the storage without a value.
    pub fn take(&mut self) -> (r: Option<T>)
        ensures
            r == old(self)@,
            final(self)@ is None,
    {
        self.value.take()
    }
}

/// A sum type that always holds either a value of type `L` or `R`.
pub enum Either<L, R> {
    /// Constructs an instance of [`Either`] containing a value of type `L`.
    Left(L),
    /// Constructs an instance of [`Either`] containing a value of type `R`.
    Right(R),
}

} // verus!
