use vstd::prelude::*;
use vstd::std_specs::cmp::PartialEqSpec;

verus! {

/// A working copy of a value that remembers the value it started from.
pub struct ChangeTracked<'a, T> where T: Clone + Eq {
    initial: &'a T,
    current: T,
}

impl<'a, T> ChangeTracked<'a, T> where T: Clone + Eq {
    /// The value the copy started from.
    pub closed spec fn initial_value(&self) -> T {
        *self.initial
    }

    /// The working copy.
    pub closed spec fn current_value(&self) -> T {
        self.current
    }

    /// Whether the working copy differs from the start value, by `T`'s `==`.
    pub open spec fn spec_is_changed(&self) -> bool {
        !self.initial_value().eq_spec(&self.current_value())
    }

    pub fn new(value: &'a T) -> (r: Self)
        ensures
            r.initial_value() == *value,
            cloned(*value, r.current_value()),
    {
        Self { initial: value, current: value.clone() }
    }

    pub fn is_changed(&self) -> (r: bool)
        ensures
            T::obeys_eq_spec() ==> r == self.spec_is_changed(),
    {
        self.initial != &self.current
    }

    /// The working copy, if it differs from the start value.
    pub fn changed(self) -> (r: Option<T>)
        ensures
            T::obeys_eq_spec() ==> (r is Some <==> self.spec_is_changed()),
            r is Some ==> r == Some(self.current_value()),
    {
        if self.is_changed() {
            Some(self.current)
        } else {
            None
        }
    }

    /// Hands the working copy to `on_change` if it differs from the start
    /// value.
    pub fn map_change<F>(self, on_change: F) where F: FnOnce(T)
        requires
            on_change.requires((self.current_value(),)),
    {
        if self.is_changed() {
            on_change(self.current);
        }
    }

    /// Shared access to the working copy.
    pub fn get(&self) -> (r: &T)
        ensures
            *r == self.current_value(),
    {
        &self.current
    }

    /// Exclusive access to the working copy; the start value is kept.
    pub fn get_mut(&mut self) -> (r: &mut T)
        ensures
            *r == old(self).current_value(),
            final(self).current_value() == *final(r),
            final(self).initial_value() == old(self).initial_value(),
    {
        &mut self.current
    }
}

impl<'a, T> core::ops::Deref for ChangeTracked<'a, T> where T: Clone + Eq {
    type Target = T;

    fn deref(&self) -> (r: &T)
        ensures
            *r == self.current_value(),
    {
        &self.current
    }
}

} // verus!
