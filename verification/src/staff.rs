//! Provider of [`Staff`].

use vstd::prelude::*;

verus! {

/// A pointer type that owns or borrows data.
///
/// It lets one field serve both an exclusively owned value and a value
/// borrowed from the caller for the holder's lifetime.
pub enum Staff<'a, T> {
    /// Target data is owned.
    Own(Box<T>),
    /// Target data is borrowed.
    Borrow(&'a mut T),
}

impl<'a, T> Staff<'a, T> {
    /// The value currently held, whether owned or borrowed.
    pub open spec fn value(self) -> T {
        match self {
            Staff::Own(b) => *b,
            Staff::Borrow(r) => *r,
        }
    }

    /// Create owned instance.
    pub fn new_own(x: Box<T>) -> (s: Self)
        ensures
            s.value() == *x,
    {
        Staff::Own(x)
    }

    /// Create borrowed instance.
    pub fn new_borrow(x: &'a mut T) -> (s: Self)
        ensures
            s.value() == *old(x),
            s matches Staff::Borrow(r) && *final(r) == *final(x),
    {
        Staff::Borrow(x)
    }

    /// Mutable access to the held value.
    pub fn get_mut(&mut self) -> (r: &mut T)
        ensures
            *r == old(self).value(),
            final(self).value() == *final(r),
    {
        match self {
            Staff::Own(b) => &mut *b,
            Staff::Borrow(r) => &mut **r,
        }
    }
}

} // verus!
