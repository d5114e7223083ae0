use vstd::prelude::*;

verus! {

/// A value that is either owned or borrowed.
pub enum OwnOrRef<'a, T> {
    Owned(T),
    Borrowed(&'a T),
}

impl<'a, T> OwnOrRef<'a, T> {
    /// The value held, owned or borrowed.
    pub open spec fn value(&self) -> T {
        match self {
            OwnOrRef::Owned(t) => *t,
            OwnOrRef::Borrowed(t) => **t,
        }
    }

    pub fn get(&self) -> (r: &T)
        ensures
            *r == self.value(),
    {
        match self {
            OwnOrRef::Borrowed(t) => t,
            OwnOrRef::Owned(t) => t,
        }
    }

    /// The owned value itself, or a clone of the borrowed one.
    pub fn into_owned(self) -> (r: T) where T: Clone
        ensures
            self is Owned ==> r == self.value(),
            self is Borrowed ==> cloned(self.value(), r),
    {
        match self {
            OwnOrRef::Borrowed(t) => t.clone(),
            OwnOrRef::Owned(t) => t,
        }
    }
}

impl<'a, T> core::ops::Deref for OwnOrRef<'a, T> {
    type Target = T;

    fn deref(&self) -> (r: &T)
        ensures
            *r == self.value(),
    {
        self.get()
    }
}

impl<'a, T> AsRef<T> for OwnOrRef<'a, T> {
    fn as_ref(&self) -> (r: &T)
        ensures
            *r == self.value(),
    {
        self.get()
    }
}

} // verus!
