use vstd::layout::{align_of, size_of};
use vstd::prelude::*;

verus! {

/// A fixed-capacity, fixed-alignment byte buffer in which a small box keeps
/// its value inline. The capacity and the alignment are those of the
/// implementing type itself.
pub trait SmallAnyBoxLayout: Sized {
    /// An empty buffer.
    fn init() -> Self;
}

/// Where a small box keeps its value.
#[derive(Debug, Clone, Copy, PartialEq, Eq, Structural)]
pub enum StorageKind {
    /// Inline, in the layout's buffer.
    Small,
    /// Behind a heap allocation.
    Big,
}

/// The storage chosen for a value of `size` bytes aligned to `align` in a
/// buffer of `capacity` bytes aligned to `alignment`: inline exactly when both
/// fit.
pub open spec fn spec_select_storage(size: nat, align: nat, capacity: nat, alignment: nat) -> StorageKind {
    if size <= capacity && align <= alignment {
        StorageKind::Small
    } else {
        StorageKind::Big
    }
}

/// The storage a small box with layout `L` chooses for values of type `T`.
pub open spec fn spec_storage_for<T, L>() -> StorageKind {
    spec_select_storage(size_of::<T>(), align_of::<T>(), size_of::<L>(), align_of::<L>())
}

/// Chooses inline storage when the value's size and alignment fit the buffer,
/// heap storage otherwise.
pub fn select_storage(size: usize, align: usize, capacity: usize, alignment: usize) -> (r: StorageKind)
    ensures
        r == spec_select_storage(size as nat, align as nat, capacity as nat, alignment as nat),
{
    if size > capacity || align > alignment {
        StorageKind::Big
    } else {
        StorageKind::Small
    }
}

/// The storage that a small box with layout `L` uses for every value of type
/// `T`. Zero-sized types are not supported.
pub fn storage_for<T, L: SmallAnyBoxLayout>() -> (r: StorageKind)
    requires
        size_of::<T>() > 0,
    ensures
        r == spec_storage_for::<T, L>(),
{
    let size = core::mem::size_of::<T>();
    let align = core::mem::align_of::<T>();
    select_storage(size, align, core::mem::size_of::<L>(), core::mem::align_of::<L>())
}

/// The storage that a small box with layout `L` uses for `value`: it depends
/// on the type of the value only.
pub fn storage_of<T, L: SmallAnyBoxLayout>(value: &T) -> (r: StorageKind)
    requires
        size_of::<T>() > 0,
    ensures
        r == spec_storage_for::<T, L>(),
{
    storage_for::<T, L>()
}

/// A layout too small or too loosely aligned for a type always puts its
/// values on the heap.
pub proof fn lemma_insufficient_layout_is_big(size: nat, align: nat, capacity: nat, alignment: nat)
    requires
        size > capacity || align > alignment,
    ensures
        spec_select_storage(size, align, capacity, alignment) == StorageKind::Big,
{
}

/// A layout large and aligned enough for a type always keeps its values
/// inline.
pub proof fn lemma_sufficient_layout_is_small(size: nat, align: nat, capacity: nat, alignment: nat)
    requires
        size <= capacity,
        align <= alignment,
    ensures
        spec_select_storage(size, align, capacity, alignment) == StorageKind::Small,
{
}

/// The storage chosen for a type is fixed by the sizes and alignments of the
/// type and the layout: no value enters the choice, so changing what a value
/// holds never changes where it is kept.
pub proof fn lemma_storage_fixed_by_type<T, L>()
    ensures
        spec_storage_for::<T, L>() == spec_select_storage(
            size_of::<T>(),
            align_of::<T>(),
            size_of::<L>(),
            align_of::<L>(),
        ),
{
}

} // verus!
