use cpu_topology::{
    CpuInfo, HardwareObject, HardwareTree, Level, MachineTopology, MissingAncestor, NodeInfo,
    ObjectKind,
};

const GIB: u64 = 1 << 30;

fn object(kind: ObjectKind, parent: Option<usize>, os_index: u64, logical_index: u64) -> HardwareObject {
    HardwareObject { kind, parent, os_index, logical_index }
}

/// One socket, four cores, eight threads: two threads to a core, an L1 to
/// each core, an L2 to each pair of cores, one L3, and above it all one NUMA
/// node if `numa` is set.
fn one_socket(numa: bool) -> HardwareTree {
    let mut tree = HardwareTree::new();
    let machine = tree.add(object(ObjectKind::Machine, None, 0, 0)).unwrap();
    let top = if numa {
        tree.add(object(ObjectKind::NumaNode { memory: 16 * GIB }, Some(machine), 0, 0)).unwrap()
    } else {
        machine
    };
    let package = tree.add(object(ObjectKind::Package, Some(top), 0, 0)).unwrap();
    let l3 = tree.add(object(ObjectKind::L3Cache { depth: 3 }, Some(package), 0, 0)).unwrap();
    for pair in 0..2u64 {
        let l2 = tree.add(object(ObjectKind::L2Cache { depth: 2 }, Some(l3), 0, pair)).unwrap();
        for half in 0..2u64 {
            let core = 2 * pair + half;
            let l1 = tree.add(object(ObjectKind::L1Cache { depth: 1 }, Some(l2), 0, core)).unwrap();
            let at = tree.add(object(ObjectKind::Core, Some(l1), core, core)).unwrap();
            for thread in 0..2u64 {
                let cpu = 2 * core + thread;
                tree.add(object(ObjectKind::ProcessingUnit, Some(at), cpu, cpu)).unwrap();
            }
        }
    }
    tree
}

/// A tree whose only processing unit has above it the kinds given, nearest
/// first.
fn stack(kinds: &[ObjectKind]) -> HardwareTree {
    let mut tree = HardwareTree::new();
    let mut parent = None;
    for (i, kind) in kinds.iter().rev().enumerate() {
        parent = tree.add(object(*kind, parent, 100 + i as u64, 10 + i as u64));
        assert!(parent.is_some());
    }
    tree.add(object(ObjectKind::ProcessingUnit, parent, 42, 0)).unwrap();
    tree
}

fn full_stack() -> Vec<ObjectKind> {
    vec![
        ObjectKind::Core,
        ObjectKind::L1Cache { depth: 1 },
        ObjectKind::L2Cache { depth: 2 },
        ObjectKind::L3Cache { depth: 3 },
        ObjectKind::NumaNode { memory: 7 },
        ObjectKind::Machine,
    ]
}

#[test]
fn one_socket_four_cores_eight_threads() {
    let tree = one_socket(true);
    let topology = MachineTopology::new(&tree);
    assert_eq!(topology.cores(), 8);
    assert_eq!(topology.sockets(), vec![0]);
    let cpus = topology.cpus_on_socket(0);
    assert_eq!(cpus.len(), 8);
    for (i, cpu) in cpus.iter().enumerate() {
        let i = i as u64;
        assert_eq!(
            **cpu,
            CpuInfo {
                node: Some(NodeInfo { node: 0, memory: 16 * GIB }),
                socket: 0,
                core: i / 2,
                cpu: i,
                l1: i / 2,
                l2: i / 4,
                l3: 0,
            }
        );
    }
}

#[test]
fn no_numa_node_leaves_the_node_out() {
    let tree = one_socket(false);
    let topology = MachineTopology::new(&tree);
    assert_eq!(topology.cores(), 8);
    let cpus = topology.cpus_on_socket(0);
    assert_eq!(cpus.len(), 8);
    for (i, cpu) in cpus.iter().enumerate() {
        let i = i as u64;
        assert_eq!(cpu.node, None);
        assert_eq!(cpu.socket, 0);
        assert_eq!(cpu.core, i / 2);
        assert_eq!(cpu.cpu, i);
        assert_eq!(cpu.l1, i / 2);
        assert_eq!(cpu.l2, i / 4);
        assert_eq!(cpu.l3, 0);
    }
}

#[test]
fn discover_agrees_with_new_on_a_complete_tree() {
    let tree = one_socket(true);
    let found = MachineTopology::discover(&tree).unwrap();
    let made = MachineTopology::new(&tree);
    assert_eq!(found.cores(), made.cores());
    assert_eq!(found.sockets(), made.sockets());
    assert_eq!(found.cpus_on_socket(0), made.cpus_on_socket(0));
}

#[test]
fn there_is_one_record_for_each_processing_unit() {
    let tree = one_socket(true);
    let topology = MachineTopology::new(&tree);
    assert_eq!(topology.cores(), tree.processing_units().len());
    let cpus = topology.cpus_on_socket(0);
    for (cpu, unit) in cpus.iter().zip(tree.processing_units().iter()) {
        assert_eq!(cpu.cpu, tree.get(*unit).unwrap().os_index);
    }
}

#[test]
fn an_empty_tree_gives_an_empty_table() {
    let tree = HardwareTree::new();
    let topology = MachineTopology::new(&tree);
    assert_eq!(topology.cores(), 0);
    assert_eq!(topology.sockets(), Vec::<u64>::new());
    assert!(topology.cpus_on_socket(0).is_empty());
}

#[test]
fn a_tree_without_processing_units_gives_an_empty_table() {
    let mut tree = HardwareTree::new();
    tree.add(object(ObjectKind::Machine, None, 0, 0)).unwrap();
    tree.add(object(ObjectKind::Core, Some(0), 0, 0)).unwrap();
    let topology = MachineTopology::discover(&tree).unwrap();
    assert_eq!(topology.cores(), 0);
}

#[test]
fn the_record_takes_each_index_from_its_own_object() {
    let tree = stack(&full_stack());
    let topology = MachineTopology::new(&tree);
    assert_eq!(topology.cores(), 1);
    // The stack numbers its objects from the root down: the machine has 100 and 10.
    assert_eq!(
        topology.cpus_on_socket(12),
        vec![&CpuInfo {
            node: Some(NodeInfo { node: 101, memory: 7 }),
            socket: 12,
            core: 15,
            cpu: 42,
            l1: 14,
            l2: 13,
            l3: 12,
        }]
    );
}

#[test]
fn other_objects_on_the_way_are_passed_over() {
    let tree = stack(&[
        ObjectKind::Other,
        ObjectKind::Core,
        ObjectKind::Other,
        ObjectKind::Other,
        ObjectKind::L1Cache { depth: 1 },
        ObjectKind::Package,
        ObjectKind::L2Cache { depth: 2 },
        ObjectKind::L3Cache { depth: 3 },
        ObjectKind::Package,
        ObjectKind::Machine,
        ObjectKind::NumaNode { memory: 5 },
    ]);
    let topology = MachineTopology::new(&tree);
    assert_eq!(
        topology.cpus_on_socket(13),
        vec![&CpuInfo {
            node: Some(NodeInfo { node: 100, memory: 5 }),
            socket: 13,
            core: 19,
            cpu: 42,
            l1: 16,
            l2: 14,
            l3: 13,
        }]
    );
}

#[test]
fn a_missing_core_is_reported() {
    let mut kinds = full_stack();
    kinds.remove(0);
    let tree = stack(&kinds);
    assert_eq!(
        MachineTopology::discover(&tree).unwrap_err(),
        MissingAncestor { unit: 5, level: Level::Core }
    );
}

#[test]
fn a_missing_l1_cache_is_reported() {
    let mut kinds = full_stack();
    kinds.remove(1);
    let tree = stack(&kinds);
    assert_eq!(
        MachineTopology::discover(&tree).unwrap_err(),
        MissingAncestor { unit: 5, level: Level::L1Cache }
    );
}

#[test]
fn a_missing_l2_cache_is_reported() {
    let mut kinds = full_stack();
    kinds.remove(2);
    let tree = stack(&kinds);
    assert_eq!(
        MachineTopology::discover(&tree).unwrap_err(),
        MissingAncestor { unit: 5, level: Level::L2Cache }
    );
}

#[test]
fn a_missing_l3_cache_is_reported() {
    let mut kinds = full_stack();
    kinds.remove(3);
    let tree = stack(&kinds);
    assert_eq!(
        MachineTopology::discover(&tree).unwrap_err(),
        MissingAncestor { unit: 5, level: Level::L3Cache }
    );
}

#[test]
fn a_processing_unit_without_parent_lacks_a_core() {
    let tree = stack(&[]);
    assert_eq!(
        MachineTopology::discover(&tree).unwrap_err(),
        MissingAncestor { unit: 0, level: Level::Core }
    );
}

#[test]
fn the_lowest_missing_level_is_reported() {
    let tree = stack(&[ObjectKind::Core, ObjectKind::L3Cache { depth: 3 }, ObjectKind::Machine]);
    assert_eq!(
        MachineTopology::discover(&tree).unwrap_err(),
        MissingAncestor { unit: 3, level: Level::L1Cache }
    );
}

#[test]
fn caches_in_the_wrong_order_are_not_found() {
    // The L1 cache stands above the L2 cache: the ascent passes the L2 cache
    // while it looks for the L1 cache, and finds none above that.
    let tree = stack(&[
        ObjectKind::Core,
        ObjectKind::L2Cache { depth: 2 },
        ObjectKind::L1Cache { depth: 1 },
        ObjectKind::L3Cache { depth: 3 },
    ]);
    assert_eq!(
        MachineTopology::discover(&tree).unwrap_err(),
        MissingAncestor { unit: 4, level: Level::L2Cache }
    );
}

#[test]
fn a_core_above_the_caches_is_no_use() {
    let tree = stack(&[
        ObjectKind::L1Cache { depth: 1 },
        ObjectKind::L2Cache { depth: 2 },
        ObjectKind::L3Cache { depth: 3 },
        ObjectKind::Core,
    ]);
    assert_eq!(
        MachineTopology::discover(&tree).unwrap_err(),
        MissingAncestor { unit: 4, level: Level::L1Cache }
    );
}

#[test]
fn a_cache_of_too_small_a_depth_does_not_count() {
    let tree = stack(&[
        ObjectKind::Core,
        ObjectKind::L1Cache { depth: 1 },
        ObjectKind::L2Cache { depth: 1 },
        ObjectKind::L3Cache { depth: 3 },
    ]);
    assert_eq!(
        MachineTopology::discover(&tree).unwrap_err(),
        MissingAncestor { unit: 4, level: Level::L2Cache }
    );
    let tree = stack(&[
        ObjectKind::Core,
        ObjectKind::L1Cache { depth: 0 },
        ObjectKind::L2Cache { depth: 2 },
        ObjectKind::L3Cache { depth: 3 },
    ]);
    assert_eq!(
        MachineTopology::discover(&tree).unwrap_err(),
        MissingAncestor { unit: 4, level: Level::L1Cache }
    );
    let tree = stack(&[
        ObjectKind::Core,
        ObjectKind::L1Cache { depth: 1 },
        ObjectKind::L2Cache { depth: 2 },
        ObjectKind::L3Cache { depth: 2 },
    ]);
    assert_eq!(
        MachineTopology::discover(&tree).unwrap_err(),
        MissingAncestor { unit: 4, level: Level::L3Cache }
    );
}

#[test]
fn a_cache_of_a_greater_depth_counts() {
    let tree = stack(&[
        ObjectKind::Core,
        ObjectKind::L1Cache { depth: 2 },
        ObjectKind::L2Cache { depth: 3 },
        ObjectKind::L3Cache { depth: 9 },
    ]);
    let topology = MachineTopology::new(&tree);
    assert_eq!(topology.sockets(), vec![10]);
}

#[test]
fn a_second_cache_of_a_level_is_passed_over() {
    let tree = stack(&[
        ObjectKind::Core,
        ObjectKind::L1Cache { depth: 1 },
        ObjectKind::L1Cache { depth: 1 },
        ObjectKind::L2Cache { depth: 2 },
        ObjectKind::L3Cache { depth: 3 },
        ObjectKind::L3Cache { depth: 3 },
    ]);
    let topology = MachineTopology::new(&tree);
    let cpus = topology.cpus_on_socket(11);
    assert_eq!(cpus.len(), 1);
    assert_eq!((cpus[0].core, cpus[0].l1, cpus[0].l2, cpus[0].l3), (15, 14, 12, 11));
}

#[test]
fn a_numa_node_below_the_l3_cache_is_not_seen() {
    let tree = stack(&[
        ObjectKind::Core,
        ObjectKind::NumaNode { memory: 1 },
        ObjectKind::L1Cache { depth: 1 },
        ObjectKind::L2Cache { depth: 2 },
        ObjectKind::L3Cache { depth: 3 },
        ObjectKind::Machine,
    ]);
    let topology = MachineTopology::new(&tree);
    let cpus = topology.cpus_on_socket(11);
    assert_eq!(cpus.len(), 1);
    assert_eq!(cpus[0].node, None);
}

#[test]
fn the_nearest_numa_node_is_taken() {
    let tree = stack(&[
        ObjectKind::Core,
        ObjectKind::L1Cache { depth: 1 },
        ObjectKind::L2Cache { depth: 2 },
        ObjectKind::L3Cache { depth: 3 },
        ObjectKind::NumaNode { memory: 11 },
        ObjectKind::NumaNode { memory: 22 },
    ]);
    let topology = MachineTopology::new(&tree);
    let cpus = topology.cpus_on_socket(12);
    assert_eq!(cpus[0].node, Some(NodeInfo { node: 101, memory: 11 }));
}

#[test]
fn a_numa_node_may_have_no_memory() {
    let tree = stack(&[
        ObjectKind::Core,
        ObjectKind::L1Cache { depth: 1 },
        ObjectKind::L2Cache { depth: 2 },
        ObjectKind::L3Cache { depth: 3 },
        ObjectKind::NumaNode { memory: 0 },
    ]);
    let topology = MachineTopology::new(&tree);
    assert_eq!(topology.cpus_on_socket(11)[0].node, Some(NodeInfo { node: 100, memory: 0 }));
}

#[test]
fn the_first_processing_unit_that_lacks_something_is_reported() {
    let mut tree = one_socket(true);
    let machine = 0;
    // Complete but for the L2 cache.
    let l3 = tree.add(object(ObjectKind::L3Cache { depth: 3 }, Some(machine), 0, 1)).unwrap();
    let l1 = tree.add(object(ObjectKind::L1Cache { depth: 1 }, Some(l3), 0, 4)).unwrap();
    let core = tree.add(object(ObjectKind::Core, Some(l1), 4, 4)).unwrap();
    let first = tree.add(object(ObjectKind::ProcessingUnit, Some(core), 8, 8)).unwrap();
    // Nothing above it at all.
    tree.add(object(ObjectKind::ProcessingUnit, None, 9, 9)).unwrap();
    assert_eq!(
        MachineTopology::discover(&tree).unwrap_err(),
        MissingAncestor { unit: first, level: Level::L2Cache }
    );
}

#[test]
fn the_table_keeps_the_order_of_the_processing_units() {
    let mut tree = HardwareTree::new();
    let l3 = tree.add(object(ObjectKind::L3Cache { depth: 3 }, None, 0, 0)).unwrap();
    let l2 = tree.add(object(ObjectKind::L2Cache { depth: 2 }, Some(l3), 0, 0)).unwrap();
    let l1 = tree.add(object(ObjectKind::L1Cache { depth: 1 }, Some(l2), 0, 0)).unwrap();
    let core = tree.add(object(ObjectKind::Core, Some(l1), 0, 0)).unwrap();
    for os_index in [5u64, 3, 9, 0, 3] {
        tree.add(object(ObjectKind::ProcessingUnit, Some(core), os_index, 0)).unwrap();
    }
    let topology = MachineTopology::new(&tree);
    let order: Vec<u64> = topology.cpus_on_socket(0).iter().map(|cpu| cpu.cpu).collect();
    assert_eq!(order, vec![5, 3, 9, 0, 3]);
}

#[test]
fn the_largest_indices_fit() {
    let mut tree = HardwareTree::new();
    let node = tree.add(object(ObjectKind::NumaNode { memory: u64::MAX }, None, u64::MAX, 0)).unwrap();
    let l3 = tree.add(object(ObjectKind::L3Cache { depth: u32::MAX }, Some(node), 0, u64::MAX)).unwrap();
    let l2 = tree.add(object(ObjectKind::L2Cache { depth: u32::MAX }, Some(l3), 0, u64::MAX - 1)).unwrap();
    let l1 = tree.add(object(ObjectKind::L1Cache { depth: u32::MAX }, Some(l2), 0, u64::MAX - 2)).unwrap();
    let core = tree.add(object(ObjectKind::Core, Some(l1), 0, u64::MAX - 3)).unwrap();
    tree.add(object(ObjectKind::ProcessingUnit, Some(core), u64::MAX - 4, 0)).unwrap();
    let topology = MachineTopology::new(&tree);
    assert_eq!(
        topology.cpus_on_socket(u64::MAX),
        vec![&CpuInfo {
            node: Some(NodeInfo { node: u64::MAX, memory: u64::MAX }),
            socket: u64::MAX,
            core: u64::MAX - 3,
            cpu: u64::MAX - 4,
            l1: u64::MAX - 2,
            l2: u64::MAX - 1,
            l3: u64::MAX,
        }]
    );
}
