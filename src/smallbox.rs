use vstd::prelude::*;

pub use ::smallbox::{space, SmallBox};

verus! {

/// An inline capacity of `N` machine words, to size a `SmallBox` by a const
/// generic.
pub struct Space<const N: usize> {
    _dummy: [usize; N],
}

} // verus!
