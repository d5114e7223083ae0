pub mod change_tracked;

pub use self::change_tracked::ChangeTracked;
