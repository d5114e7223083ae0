use core::any::TypeId;
use slotmap::KeyData;
use vstd::prelude::*;

verus! {

#[verifier::external_type_specification]
#[verifier::external_body]
pub struct ExKeyData(KeyData);

#[verifier::external_type_specification]
#[verifier::external_body]
pub struct ExTypeId(TypeId);

/// The key of a node in the graph's node store.
#[derive(Clone, Copy, PartialEq, Eq, PartialOrd, Ord, Hash, Debug)]
pub struct NodeId(pub KeyData);

/// An input port: its node, the type of the data it takes, and its index.
#[derive(Clone, Copy, PartialEq, Eq, PartialOrd, Ord, Hash, Debug)]
pub struct InputId(NodeId, TypeId, usize);

impl InputId {
    pub closed spec fn spec_node_id(&self) -> NodeId {
        self.0
    }

    pub closed spec fn spec_port_type_id(&self) -> TypeId {
        self.1
    }

    pub closed spec fn spec_port_id(&self) -> usize {
        self.2
    }

    pub fn new(node_id: NodeId, type_id: TypeId, port_id: usize) -> (r: Self)
        ensures
            r.spec_node_id() == node_id,
            r.spec_port_type_id() == type_id,
            r.spec_port_id() == port_id,
    {
        Self(node_id, type_id, port_id)
    }

    pub fn node_id(&self) -> (r: NodeId)
        ensures
            r == self.spec_node_id(),
    {
        self.0
    }

    pub fn port_type_id(&self) -> (r: TypeId)
        ensures
            r == self.spec_port_type_id(),
    {
        self.1
    }

    pub fn port_id(&self) -> (r: usize)
        ensures
            r == self.spec_port_id(),
    {
        self.2
    }
}

/// An output port: its node, the type of the data it gives, and its index.
#[derive(Clone, Copy, PartialEq, Eq, PartialOrd, Ord, Hash, Debug)]
pub struct OutputId(NodeId, TypeId, usize);

impl OutputId {
    pub closed spec fn spec_node_id(&self) -> NodeId {
        self.0
    }

    pub closed spec fn spec_port_type_id(&self) -> TypeId {
        self.1
    }

    pub closed spec fn spec_port_id(&self) -> usize {
        self.2
    }

    pub fn new(node_id: NodeId, type_id: TypeId, port_id: usize) -> (r: Self)
        ensures
            r.spec_node_id() == node_id,
            r.spec_port_type_id() == type_id,
            r.spec_port_id() == port_id,
    {
        Self(node_id, type_id, port_id)
    }

    pub fn node_id(&self) -> (r: NodeId)
        ensures
            r == self.spec_node_id(),
    {
        self.0
    }

    pub fn port_type_id(&self) -> (r: TypeId)
        ensures
            r == self.spec_port_type_id(),
    {
        self.1
    }

    pub fn port_id(&self) -> (r: usize)
        ensures
            r == self.spec_port_id(),
    {
        self.2
    }
}

/// An input or an output port.
#[derive(Clone, Copy, PartialEq, Eq, Hash, Debug)]
pub enum InputOutputId {
    Input(InputId),
    Output(OutputId),
}

impl InputOutputId {
    pub open spec fn spec_node_id(&self) -> NodeId {
        match self {
            InputOutputId::Input(id) => id.spec_node_id(),
            InputOutputId::Output(id) => id.spec_node_id(),
        }
    }

    pub open spec fn spec_port_type_id(&self) -> TypeId {
        match self {
            InputOutputId::Input(id) => id.spec_port_type_id(),
            InputOutputId::Output(id) => id.spec_port_type_id(),
        }
    }

    pub fn is_input(&self) -> (r: bool)
        ensures
            r == (*self is Input),
    {
        matches!(self, InputOutputId::Input(_))
    }

    pub fn is_output(&self) -> (r: bool)
        ensures
            r == (*self is Output),
    {
        matches!(self, InputOutputId::Output(_))
    }

    pub fn node_id(&self) -> (r: NodeId)
        ensures
            r == self.spec_node_id(),
    {
        match self {
            InputOutputId::Input(id) => id.node_id(),
            InputOutputId::Output(id) => id.node_id(),
        }
    }

    pub fn port_type_id(&self) -> (r: TypeId)
        ensures
            r == self.spec_port_type_id(),
    {
        match self {
            InputOutputId::Input(id) => id.port_type_id(),
            InputOutputId::Output(id) => id.port_type_id(),
        }
    }
}

} // verus!
