pub mod own_or_ref;
pub mod state;

pub use self::own_or_ref::OwnOrRef;
pub use self::state::{BorrowState, OwningAtomicRefError, OwningShardedLockError};
