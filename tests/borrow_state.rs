use shine_core::borrow::{BorrowState, OwnOrRef, OwningAtomicRefError, OwningShardedLockError};

#[test]
fn two_shared_then_exclusive_conflicts() {
    let mut cell = BorrowState::new();
    assert_eq!(cell.try_acquire_shared(), Ok(()));
    assert_eq!(cell.try_acquire_shared(), Ok(()));
    assert_eq!(cell, BorrowState::Shared(2));
    assert_eq!(cell.try_acquire_exclusive(), Err(OwningAtomicRefError::BorrowError));
    assert_eq!(cell, BorrowState::Shared(2));
    cell.release_shared();
    assert_eq!(cell.try_acquire_exclusive(), Err(OwningAtomicRefError::BorrowError));
    cell.release_shared();
    assert!(cell.is_free());
    assert_eq!(cell.try_acquire_exclusive(), Ok(()));
    assert_eq!(cell, BorrowState::Exclusive);
}

#[test]
fn exclusive_excludes_everything() {
    let mut cell = BorrowState::new();
    assert_eq!(cell.try_acquire_exclusive(), Ok(()));
    assert_eq!(cell.try_acquire_exclusive(), Err(OwningAtomicRefError::BorrowError));
    assert_eq!(cell.try_acquire_shared(), Err(OwningAtomicRefError::BorrowError));
    assert_eq!(cell, BorrowState::Exclusive);
    cell.release_exclusive();
    assert_eq!(cell, BorrowState::Free);
    assert_eq!(cell.try_acquire_shared(), Ok(()));
    assert_eq!(cell, BorrowState::Shared(1));
}

#[test]
fn lock_discipline_reports_would_block() {
    let mut lock = BorrowState::new();
    assert_eq!(lock.try_read(), Ok(()));
    assert_eq!(lock.try_write(), Err(OwningShardedLockError::WouldBlock));
    assert!(!lock.can_exclusive());
    assert!(lock.can_share());
    lock.release_shared();
    assert!(lock.can_exclusive());
    assert_eq!(lock.try_write(), Ok(()));
    assert_eq!(lock.try_read(), Err(OwningShardedLockError::WouldBlock));
    assert_eq!(lock.try_write(), Err(OwningShardedLockError::WouldBlock));
    lock.release_exclusive();
    assert_eq!(lock.try_write(), Ok(()));
}

#[test]
fn own_or_ref_views_the_same_value() {
    let text = String::from("bar");
    let borrowed = OwnOrRef::Borrowed(&text);
    assert_eq!(borrowed.get(), "bar");
    assert_eq!(&*borrowed, "bar");
    let owned_copy = borrowed.into_owned();
    assert_eq!(owned_copy, "bar");

    let owned: OwnOrRef<'_, String> = OwnOrRef::Owned(String::from("baz"));
    assert_eq!(AsRef::<String>::as_ref(&owned), "baz");
    assert_eq!(owned.into_owned(), "baz");
}
