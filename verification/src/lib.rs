//! The physical CPU topology of a machine as a queryable table.
//!
//! A [`HardwareTree`] holds what a hardware-discovery provider reports: the
//! objects of the machine (processing units, cores, caches, NUMA nodes, ...),
//! each with a link to its parent. [`MachineTopology`] flattens such a tree
//! into one [`CpuInfo`] record per processing unit and answers questions
//! about the table.

pub mod discovery;
pub mod queries;
pub mod record;
pub mod topology;
pub mod tree;

pub use record::{Core, Cpu, CpuInfo, Node, NodeInfo, Socket, L1, L2, L3};
pub use discovery::MissingAncestor;
pub use topology::MachineTopology;
pub use tree::{HardwareObject, HardwareTree, Level, ObjectKind, TreeModel};
