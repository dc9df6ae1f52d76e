//! A value stamped with the instant it was created.
//!
//! The instant is a plain number of nanoseconds that the host reads
//! from its clock and hands in; the engine only carries it, so every
//! operation here is verified.  Mapping the value keeps the stamp.

use vstd::prelude::*;

verus! {

/// A value together with the instant it was created, in nanoseconds
/// of the host's clock.
#[derive(Debug, Copy, Clone)]
pub struct Timed<T> {
    pub value: T,
    pub created_on: u64,
}

impl<T> Timed<T> {
    /// A value assumed to have been created at the given instant.
    pub fn from_instant(t: T, created_on: u64) -> (r: Self)
        ensures
            r.value == t,
            r.created_on == created_on,
    {
        Self { value: t, created_on }
    }

    /// Extract the contained value.
    pub fn take(t: Self) -> (r: T)
        ensures
            r == t.value,
    {
        t.value
    }

    /// The instant on which the value was created.
    pub fn created_on(t: &Self) -> (r: u64)
        ensures
            r == t.created_on,
    {
        t.created_on
    }

    /// Extract the values from a result of stamped values.
    pub fn take_from_result<E>(result: Result<Timed<T>, Timed<E>>) -> (r: Result<T, E>)
        ensures
            result matches Ok(t) ==> r == Ok::<T, E>(t.value),
            result matches Err(e) ==> r == Err::<T, E>(e.value),
    {
        match result {
            Ok(t) => Ok(t.value),
            Err(e) => Err(e.value),
        }
    }

    /// Change the contained value by applying `f`; the instant the
    /// value was created is kept.
    pub fn map<U, F: FnOnce(T) -> U>(t: Timed<T>, f: F) -> (r: Timed<U>)
        requires
            call_requires(f, (t.value,)),
        ensures
            r.created_on == t.created_on,
            call_ensures(f, (t.value,), r.value),
    {
        Timed { value: f(t.value), created_on: t.created_on }
    }
}

impl<T, E> Timed<Result<T, E>> {
    /// Turn a stamped result into a result of stamped values, both
    /// sides keeping the stamp.
    pub fn map_result(result: Timed<Result<T, E>>) -> (r: Result<Timed<T>, Timed<E>>)
        ensures
            result.value matches Ok(t) ==> (r matches Ok(rt) && rt.value == t && rt.created_on
                == result.created_on),
            result.value matches Err(e) ==> (r matches Err(re) && re.value == e && re.created_on
                == result.created_on),
    {
        let created_on = result.created_on;
        match result.value {
            Ok(t) => Ok(Timed::from_instant(t, created_on)),
            Err(e) => Err(Timed::from_instant(e, created_on)),
        }
    }
}

} // verus!
