use crate::collections::small_any_box::SmallAnyBoxLayout;
use vstd::prelude::*;

verus! {

/// A 64-byte buffer aligned to 8 bytes.
pub struct S64_8 {
    data: [u64; 8],
}

impl SmallAnyBoxLayout for S64_8 {
    fn init() -> Self {
        S64_8 { data: [0u64; 8] }
    }
}

/// An 8-byte buffer aligned to 1 byte.
pub struct S8_1 {
    data: [u8; 8],
}

impl SmallAnyBoxLayout for S8_1 {
    fn init() -> Self {
        S8_1 { data: [0u8; 8] }
    }
}

} // verus!
