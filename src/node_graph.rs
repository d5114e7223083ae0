pub mod port_id;

pub use self::port_id::{InputId, InputOutputId, NodeId, OutputId};
