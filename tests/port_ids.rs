use shine_core::node_graph::{InputId, InputOutputId, NodeId, OutputId};
use slotmap::KeyData;
use std::any::TypeId;

#[test]
fn port_ids_keep_their_parts() {
    let node = NodeId(KeyData::from_ffi((1u64 << 32) | 3));
    let input = InputId::new(node, TypeId::of::<u32>(), 2);
    assert_eq!(input.node_id(), node);
    assert_eq!(input.port_type_id(), TypeId::of::<u32>());
    assert_eq!(input.port_id(), 2);

    let output = OutputId::new(node, TypeId::of::<String>(), 5);
    assert_eq!(output.node_id(), node);
    assert_eq!(output.port_type_id(), TypeId::of::<String>());
    assert_eq!(output.port_id(), 5);

    let a = InputOutputId::Input(input);
    let b = InputOutputId::Output(output);
    assert!(a.is_input() && !a.is_output());
    assert!(b.is_output() && !b.is_input());
    assert_eq!(a.node_id(), node);
    assert_eq!(b.port_type_id(), TypeId::of::<String>());
    assert_eq!(a.port_type_id(), TypeId::of::<u32>());
}
