use shine_core::collections::small_box_layout::{S64_8, S8_1};
use shine_core::collections::{select_storage, storage_for, storage_of, StorageKind};
use shine_core::smallbox::Space;

#[test]
fn two_byte_value_is_small_in_wide_layout_and_big_in_narrow() {
    assert_eq!(storage_for::<u16, S64_8>(), StorageKind::Small);
    assert_eq!(storage_for::<u16, S8_1>(), StorageKind::Big);
    assert_eq!(storage_of::<u16, S64_8>(&13u16), StorageKind::Small);
    assert_eq!(storage_of::<u16, S8_1>(&14u16), StorageKind::Big);
}

#[test]
fn string_is_small_in_wide_layout_and_big_in_narrow() {
    assert_eq!(storage_for::<String, S64_8>(), StorageKind::Small);
    assert_eq!(storage_for::<String, S8_1>(), StorageKind::Big);
    let short = String::from("string");
    let long = "x".repeat(1000);
    assert_eq!(storage_of::<String, S64_8>(&short), storage_of::<String, S64_8>(&long));
}

#[test]
fn byte_sized_value_fits_narrow_layout() {
    assert_eq!(storage_for::<u8, S8_1>(), StorageKind::Small);
    assert_eq!(storage_for::<[u8; 8], S8_1>(), StorageKind::Small);
    assert_eq!(storage_for::<[u8; 9], S8_1>(), StorageKind::Big);
    assert_eq!(storage_for::<[u64; 8], S64_8>(), StorageKind::Small);
    assert_eq!(storage_for::<[u64; 9], S64_8>(), StorageKind::Big);
}

#[test]
fn select_storage_boundaries() {
    assert_eq!(select_storage(64, 8, 64, 8), StorageKind::Small);
    assert_eq!(select_storage(65, 8, 64, 8), StorageKind::Big);
    assert_eq!(select_storage(8, 16, 64, 8), StorageKind::Big);
    assert_eq!(select_storage(1, 1, 8, 1), StorageKind::Small);
    assert_eq!(select_storage(2, 2, 8, 1), StorageKind::Big);
}

#[test]
fn space_has_the_size_of_its_words() {
    assert_eq!(std::mem::size_of::<Space<4>>(), 4 * std::mem::size_of::<usize>());
}
