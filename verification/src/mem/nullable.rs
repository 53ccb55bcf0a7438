use vstd::prelude::*;

verus! {

/// A type with a distinguished null value, so that an `Option`-like wrapper
/// can be stored without a separate discriminant.
pub trait MaybeNull: Sized {
    /// Whether this value is the null value.
    spec fn is_null_spec(&self) -> bool;

    /// Test for the null value.
    fn is_null(&self) -> (r: bool)
        ensures
            r == self.is_null_spec(),
    ;

    /// The null value.
    fn null() -> (r: Self)
        ensures
            r.is_null_spec(),
    ;

    /// Takes the value out, leaving a null in its place.
    fn take(&mut self) -> (r: Self)
        ensures
            r == *old(self),
            final(self).is_null_spec(),
    ;

    /// Swap `new` in, handing the old value back.
    fn replace(&mut self, new: Self) -> (r: Self)
        ensures
            r == *old(self),
            *final(self) == new,
    ;
}

/// An optional value represented in place: `value` itself records absence
/// through its [`MaybeNull`] null encoding, so the wrapper adds no storage.
#[derive(Copy, PartialEq, PartialOrd, Eq, Ord, Debug, Hash)]
pub struct Nullable<T> {
    value: T,
}

impl<T> Clone for Nullable<T> where T: Clone {
    fn clone(&self) -> (r: Self) {
        Nullable { value: self.value.clone() }
    }
}

impl<T> Nullable<T> {
    /// The wrapped value.
    pub closed spec fn view(&self) -> T {
        self.value
    }

    /// Wrap a value.
    pub fn new(value: T) -> (r: Nullable<T>)
        ensures
            r@ == value,
    {
        Nullable { value }
    }
}

impl<T: MaybeNull> Nullable<T> {
    /// The absent value.
    pub fn null() -> (r: Nullable<T>)
        ensures
            r@.is_null_spec(),
    {
        Nullable { value: MaybeNull::null() }
    }

    /// Whether this wrapper holds the absent value.
    pub fn is_null(&self) -> (r: bool)
        ensures
            r == self@.is_null_spec(),
    {
        self.value.is_null()
    }

    /// Unwrap into an `Option`: a present value, or `None` for null.
    pub fn get(self) -> (r: Option<T>)
        ensures
            r is Some <==> !self@.is_null_spec(),
            r matches Some(v) ==> v == self@,
    {
        if self.is_null() {
            None
        } else {
            Some(self.value)
        }
    }

    /// Borrow the value, or `None` for null.
    pub fn get_ref(&self) -> (r: Option<&T>)
        ensures
            r is Some <==> !self@.is_null_spec(),
            r matches Some(v) ==> *v == self@,
    {
        if self.is_null() {
            None
        } else {
            Some(&self.value)
        }
    }

    /// Mutably borrow the value, or `None` for null.
    pub fn get_mut(&mut self) -> (r: Option<&mut T>)
        ensures
            r is Some <==> !old(self)@.is_null_spec(),
            r matches Some(v) ==> *v == old(self)@ && final(self)@ == *final(v),
            r is None ==> *final(self) == *old(self),
    {
        if self.is_null() {
            None
        } else {
            Some(&mut self.value)
        }
    }

    /// Takes the value out, leaving a null in its place.
    pub fn take(&mut self) -> (r: Nullable<T>)
        ensures
            r@ == old(self)@,
            final(self)@.is_null_spec(),
    {
        Nullable { value: self.value.take() }
    }

    /// Swap `value` in, handing the old value back.
    pub fn replace(&mut self, value: T) -> (r: Nullable<T>)
        ensures
            r@ == old(self)@,
            final(self)@ == value,
    {
        Nullable { value: self.value.replace(value) }
    }

    /// Apply `f` to a present value; null maps to null.
    pub fn map<U: MaybeNull, F>(self, f: F) -> (r: Nullable<U>)
        where F: FnOnce(T) -> U,
        requires
            !self@.is_null_spec() ==> call_requires(f, (self@,)),
        ensures
            self@.is_null_spec() ==> r@.is_null_spec(),
            !self@.is_null_spec() ==> call_ensures(f, (self@,), r@),
    {
        if !self.is_null() {
            Nullable::<U> { value: f(self.value) }
        } else {
            Nullable::<U> { value: MaybeNull::null() }
        }
    }
}

} // verus!
