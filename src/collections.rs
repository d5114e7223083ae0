pub mod small_any_box;
pub mod small_box_layout;

pub use self::small_any_box::{
    select_storage, storage_for, storage_of, SmallAnyBoxLayout, StorageKind,
};
