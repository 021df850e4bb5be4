//! The records of the table: one [`CpuInfo`] per processing unit, and the
//! [`NodeInfo`] of the NUMA node it belongs to.

use std::cmp::Ordering;
use vstd::prelude::*;
use vstd::std_specs::cmp::PartialOrdSpecImpl;

verus! {

pub type Node = u64;

pub type Socket = u64;

pub type Core = u64;

pub type Cpu = u64;

pub type L1 = u64;

pub type L2 = u64;

pub type L3 = u64;

/// NUMA node information.
#[derive(Debug, PartialEq, Eq, Structural, Ord, Clone, Copy)]
pub struct NodeInfo {
    /// Index of the node as the operating system numbers it.
    pub node: Node,
    /// Memory attached to the node, in bytes.
    pub memory: u64,
}

impl NodeInfo {
    /// How `self` stands to `other`: by `node` first, by `memory` where the
    /// nodes are equal.
    pub open spec fn order(self, other: NodeInfo) -> Ordering {
        if self.node < other.node {
            Ordering::Less
        } else if self.node > other.node {
            Ordering::Greater
        } else if self.memory < other.memory {
            Ordering::Less
        } else if self.memory > other.memory {
            Ordering::Greater
        } else {
            Ordering::Equal
        }
    }
}

/// The order of [`NodeInfo`] is total: two values are equal, or one is less
/// and the other greater, and less of less is less.
pub proof fn lemma_order_is_total(a: NodeInfo, b: NodeInfo, c: NodeInfo)
    ensures
        a.order(b) == Ordering::Equal <==> a == b,
        a.order(b) == Ordering::Less <==> b.order(a) == Ordering::Greater,
        a.order(b) == Ordering::Less && b.order(c) == Ordering::Less ==> a.order(c)
            == Ordering::Less,
{
}

impl PartialOrd for NodeInfo {
    fn partial_cmp(&self, other: &NodeInfo) -> (r: Option<Ordering>) {
        if self.node < other.node {
            Some(Ordering::Less)
        } else if self.node > other.node {
            Some(Ordering::Greater)
        } else if self.memory < other.memory {
            Some(Ordering::Less)
        } else if self.memory > other.memory {
            Some(Ordering::Greater)
        } else {
            Some(Ordering::Equal)
        }
    }
}

impl PartialOrdSpecImpl for NodeInfo {
    open spec fn obeys_partial_cmp_spec() -> bool {
        true
    }

    open spec fn partial_cmp_spec(&self, other: &NodeInfo) -> Option<Ordering> {
        Some(self.order(*other))
    }
}

/// Information about one processing unit (logical CPU) and the objects that
/// contain it.
#[derive(Debug, PartialEq, Eq, Structural, Clone, Copy)]
pub struct CpuInfo {
    /// The NUMA node above the processing unit, if there is one.
    pub node: Option<NodeInfo>,
    /// Logical index of the socket, which is that of the L3 cache.
    pub socket: Socket,
    /// Logical index of the physical core.
    pub core: Core,
    /// Index of the processing unit as the operating system numbers it.
    pub cpu: Cpu,
    /// Logical index of the L1 cache.
    pub l1: L1,
    /// Logical index of the L2 cache.
    pub l2: L2,
    /// Logical index of the L3 cache.
    pub l3: L3,
}

} // verus!
