//! A shared, immutable record that is told apart by identity.

use std::rc::Rc;
use vstd::prelude::*;

verus! {

/// A reference-counted handle to an immutable record. Two handles are the
/// same when they point at one record, however many records hold equal values.
#[derive(Debug)]
pub struct RcId<T>(Rc<T>);

/// `Rc::clone`: a second handle to the same allocation, so the record it
/// points at is the record the argument points at.
#[verifier::external_body]
fn rc_clone<T>(rc: &Rc<T>) -> (r: Rc<T>)
    ensures
        r == *rc,
{
    Rc::clone(rc)
}

/// `Rc::ptr_eq`: whether two handles point at one allocation. Two handles to
/// one allocation read the same record; nothing is claimed when the answer is
/// `false`.
#[verifier::external_body]
fn rc_ptr_eq<T>(a: &Rc<T>, b: &Rc<T>) -> (r: bool)
    ensures
        r ==> *a == *b,
{
    Rc::ptr_eq(a, b)
}

impl<T> RcId<T> {
    /// The record behind the handle.
    pub closed spec fn value(&self) -> T {
        *self.0
    }

    /// Puts `value` behind a new handle, different from every other.
    pub fn new(value: T) -> (r: Self)
        ensures
            r.value() == value,
    {
        RcId(Rc::new(value))
    }

    /// Reads the record.
    pub fn get(&self) -> (r: &T)
        ensures
            *r == self.value(),
    {
        &*self.0
    }

    /// A second handle to the same record.
    pub fn share(&self) -> (r: Self)
        ensures
            r.value() == self.value(),
            r == *self,
    {
        RcId(rc_clone(&self.0))
    }

    /// Whether both handles point at one record. Handles that do read equal
    /// values; handles to two records with equal values are still different.
    pub fn ptr_eq(&self, other: &Self) -> (r: bool)
        ensures
            r ==> self.value() == other.value(),
            r ==> *self == *other,
    {
        rc_ptr_eq(&self.0, &other.0)
    }
}

impl<T> Clone for RcId<T> {
    fn clone(&self) -> (r: Self)
        ensures
            r == *self,
    {
        self.share()
    }
}

} // verus!
