//! Identifiers and the integer part of the input graph that routing reads.
use vstd::prelude::*;

verus! {

/// Identifier of an electrical net.
pub type NetId = u32;

/// Identifier of an edge.
pub type EdgeId = u32;

/// Identifier of a node.
pub type NodeId = u32;

/// Identifier of a port, unique within its node.
pub type PortId = u32;

/// A port of a node, the end of an edge.
#[derive(Clone, Copy, Debug, PartialEq, Eq, Structural, Hash, PartialOrd, Ord)]
pub struct Endpoint {
    pub node: NodeId,
    pub port: PortId,
}

/// The side of a node that a port sits on.
#[derive(Clone, Copy, Debug, PartialEq, Eq, Structural, Hash)]
pub enum PortSide {
    North,
    East,
    South,
    West,
}

/// A directed edge of one net, from a source port to a target port.
#[derive(Clone, Copy, Debug, PartialEq, Eq, Structural)]
pub struct Edge {
    pub id: EdgeId,
    pub source: Endpoint,
    pub target: Endpoint,
    pub net: NetId,
    pub participates_in_ranking: bool,
}

/// The polyline of one routed edge. The routing code here only counts and
/// compares points, so the point type is left to the caller.
#[derive(Debug, PartialEq)]
pub struct EdgeGeometry<P> {
    pub id: EdgeId,
    pub points: Vec<P>,
}

} // verus!
