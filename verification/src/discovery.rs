//! From the tree to the records: what the record of a processing unit is,
//! and when a tree gives a record for each of them.

use crate::record::{CpuInfo, NodeInfo};
use crate::tree::{HardwareTree, Level, ObjectKind, TreeModel};
use vstd::prelude::*;

verus! {

/// A processing unit lacks an ancestor that its record needs.
#[derive(Debug, PartialEq, Eq, Structural, Clone, Copy)]
pub struct MissingAncestor {
    /// Position of the processing unit in the tree.
    pub unit: usize,
    /// The first level, going up, at which nothing was found.
    pub level: Level,
}

/// The NUMA node information that the object at `position` gives, where the
/// ascent found one.
pub open spec fn node_info(tree: TreeModel, position: Option<usize>) -> Option<NodeInfo> {
    match position {
        Some(n) => Some(
            NodeInfo {
                node: tree.objects[n as int].os_index,
                memory: tree.objects[n as int].kind.memory(),
            },
        ),
        None => None,
    }
}

/// The record of the processing unit at position `unit`.
///
/// One ascent, in five legs: from the unit's parent to the nearest core,
/// from there to the nearest L1 cache, then L2, then L3, which stands for
/// the socket, then to the nearest NUMA node. Each leg starts where the one
/// before ended. The first four must succeed; the last may find nothing.
pub open spec fn cpu_info(tree: TreeModel, unit: usize) -> Result<CpuInfo, MissingAncestor> {
    let core = tree.nearest(tree.parent(unit), Level::Core);
    let l1 = tree.nearest(core, Level::L1Cache);
    let l2 = tree.nearest(l1, Level::L2Cache);
    let l3 = tree.nearest(l2, Level::L3Cache);
    let node = tree.nearest(l3, Level::NumaNode);
    if core.is_none() {
        Err(MissingAncestor { unit, level: Level::Core })
    } else if l1.is_none() {
        Err(MissingAncestor { unit, level: Level::L1Cache })
    } else if l2.is_none() {
        Err(MissingAncestor { unit, level: Level::L2Cache })
    } else if l3.is_none() {
        Err(MissingAncestor { unit, level: Level::L3Cache })
    } else {
        Ok(
            CpuInfo {
                node: node_info(tree, node),
                socket: tree.objects[l3.unwrap() as int].logical_index,
                core: tree.objects[core.unwrap() as int].logical_index,
                cpu: tree.objects[unit as int].os_index,
                l1: tree.objects[l1.unwrap() as int].logical_index,
                l2: tree.objects[l2.unwrap() as int].logical_index,
                l3: tree.objects[l3.unwrap() as int].logical_index,
            },
        )
    }
}

/// Every processing unit of the tree has the ancestors that its record
/// needs.
pub open spec fn complete(tree: TreeModel) -> bool {
    forall|k: int| 0 <= k < tree.units.len() ==> (#[trigger] cpu_info(tree, tree.units[k])).is_ok()
}

/// The `k`-th processing unit is the first that lacks an ancestor.
pub open spec fn is_first_gap(tree: TreeModel, k: int) -> bool {
    &&& 0 <= k < tree.units.len()
    &&& cpu_info(tree, tree.units[k]).is_err()
    &&& forall|j: int| 0 <= j < k ==> (#[trigger] cpu_info(tree, tree.units[j])).is_ok()
}

/// What discovery fails with on a tree that is not complete: the missing
/// ancestor of the first processing unit that lacks one.
pub open spec fn first_gap(tree: TreeModel) -> MissingAncestor {
    let k = choose|k: int| is_first_gap(tree, k);
    cpu_info(tree, tree.units[k])->Err_0
}

/// The table of a complete tree: the record of each processing unit, in the
/// order of `tree.units`.
pub open spec fn table(tree: TreeModel) -> Seq<CpuInfo> {
    Seq::new(tree.units.len(), |k: int| cpu_info(tree, tree.units[k])->Ok_0)
}

/// Every record has the socket's index as that of its L3 cache.
pub open spec fn socket_is_l3(table: Seq<CpuInfo>) -> bool {
    forall|i: int| 0 <= i < table.len() ==> (#[trigger] table[i]).l3 == table[i].socket
}

/// The ancestors of the object at position `of`: the objects on the way
/// from its parent to the root.
pub open spec fn ancestors(tree: TreeModel, of: usize) -> Seq<usize> {
    tree.path(tree.parent(of))
}

/// The socket of a record and its L3 cache are one and the same.
pub proof fn lemma_socket_is_l3(tree: TreeModel, unit: usize)
    ensures
        cpu_info(tree, unit) matches Ok(cpu) ==> cpu.l3 == cpu.socket,
{
}

/// A complete tree gives one record for each processing unit, and each of
/// them has the socket's index as that of its L3 cache.
pub proof fn lemma_table_of_complete_tree(tree: TreeModel)
    requires
        complete(tree),
    ensures
        table(tree).len() == tree.units.len(),
        socket_is_l3(table(tree)),
        forall|k: int|
            0 <= k < tree.units.len() ==> #[trigger] cpu_info(tree, tree.units[k]) == Ok::<
                CpuInfo,
                MissingAncestor,
            >(table(tree)[k]),
{
}

/// What a processing unit lacks is a core or a cache, never a NUMA node, and
/// it is reported for that processing unit.
pub proof fn lemma_gap_names_what_is_needed(tree: TreeModel, unit: usize)
    ensures
        cpu_info(tree, unit) matches Err(gap) ==> gap.unit == unit && gap.level
            != Level::NumaNode,
{
}

/// There is one first gap at most: where the `k`-th processing unit is the
/// first that lacks an ancestor, discovery fails with what it lacks.
pub proof fn lemma_first_gap(tree: TreeModel, k: int)
    requires
        is_first_gap(tree, k),
    ensures
        !complete(tree),
        first_gap(tree) == cpu_info(tree, tree.units[k])->Err_0,
{
    let chosen = choose|c: int| is_first_gap(tree, c);
    assert(chosen == k);
}

/// Where a leg of the ascent starts on the way up from a processing unit
/// and finds an object, that object is on the way too.
proof fn lemma_leg_stays_above(
    tree: TreeModel,
    unit: usize,
    from: Option<usize>,
    level: Level,
)
    requires
        from matches Some(start) ==> ancestors(tree, unit).contains(start),
    ensures
        tree.nearest(from, level) matches Some(found) ==> {
            &&& ancestors(tree, unit).contains(found)
            &&& tree.is_a(found, level)
        },
{
    tree.lemma_nearest_is_first(from, level);
    match tree.nearest(from, level) {
        Some(found) => {
            let start = from.unwrap();
            let way = ancestors(tree, unit);
            tree.lemma_path_continues(tree.parent(unit), start);
            let k = choose|k: int|
                0 <= k < way.len() && #[trigger] way.skip(k) == tree.path(Some(start));
            let at = choose|at: int|
                tree.is_first_of(tree.path(from), at, level) && #[trigger] tree.path(from)[at]
                    == found;
            assert(way.skip(k)[at] == found);
            assert(way[k + at] == found);
        },
        None => {},
    }
}

/// Every index in a record is that of an ancestor of the processing unit,
/// of the level that the field names.
pub proof fn lemma_record_names_ancestors(tree: TreeModel, unit: usize)
    requires
        cpu_info(tree, unit).is_ok(),
    ensures
        ({
            let cpu = cpu_info(tree, unit)->Ok_0;
            let above = ancestors(tree, unit);
            &&& exists|a: usize|
                #![trigger above.contains(a)]
                above.contains(a) && tree.is_a(a, Level::Core)
                    && tree.objects[a as int].logical_index == cpu.core
            &&& exists|a: usize|
                #![trigger above.contains(a)]
                above.contains(a) && tree.is_a(a, Level::L1Cache)
                    && tree.objects[a as int].logical_index == cpu.l1
            &&& exists|a: usize|
                #![trigger above.contains(a)]
                above.contains(a) && tree.is_a(a, Level::L2Cache)
                    && tree.objects[a as int].logical_index == cpu.l2
            &&& exists|a: usize|
                #![trigger above.contains(a)]
                above.contains(a) && tree.is_a(a, Level::L3Cache)
                    && tree.objects[a as int].logical_index == cpu.l3
        }),
{
    let core = tree.nearest(tree.parent(unit), Level::Core);
    let l1 = tree.nearest(core, Level::L1Cache);
    let l2 = tree.nearest(l1, Level::L2Cache);
    let l3 = tree.nearest(l2, Level::L3Cache);
    let above = ancestors(tree, unit);
    tree.lemma_nearest_is_first(tree.parent(unit), Level::Core);
    assert(above.contains(core.unwrap()));
    lemma_leg_stays_above(tree, unit, core, Level::L1Cache);
    lemma_leg_stays_above(tree, unit, l1, Level::L2Cache);
    lemma_leg_stays_above(tree, unit, l2, Level::L3Cache);
    assert(above.contains(l1.unwrap()));
    assert(above.contains(l2.unwrap()));
    assert(above.contains(l3.unwrap()));
}

/// Where a record has a NUMA node, it is an ancestor of the processing
/// unit: the record holds that node's index as the operating system numbers
/// it, and its memory.
pub proof fn lemma_node_is_numa_ancestor(tree: TreeModel, unit: usize)
    requires
        cpu_info(tree, unit) matches Ok(cpu) && cpu.node.is_some(),
    ensures
        ({
            let node = cpu_info(tree, unit)->Ok_0.node->Some_0;
            exists|a: usize|
                {
                    &&& #[trigger] ancestors(tree, unit).contains(a)
                    &&& tree.objects[a as int].kind == ObjectKind::NumaNode { memory: node.memory }
                    &&& tree.objects[a as int].os_index == node.node
                }
        }),
{
    let core = tree.nearest(tree.parent(unit), Level::Core);
    let l1 = tree.nearest(core, Level::L1Cache);
    let l2 = tree.nearest(l1, Level::L2Cache);
    let l3 = tree.nearest(l2, Level::L3Cache);
    let found = tree.nearest(l3, Level::NumaNode);
    tree.lemma_nearest_is_first(tree.parent(unit), Level::Core);
    assert(ancestors(tree, unit).contains(core.unwrap()));
    lemma_leg_stays_above(tree, unit, core, Level::L1Cache);
    lemma_leg_stays_above(tree, unit, l1, Level::L2Cache);
    lemma_leg_stays_above(tree, unit, l2, Level::L3Cache);
    lemma_leg_stays_above(tree, unit, l3, Level::NumaNode);
    assert(ancestors(tree, unit).contains(found.unwrap()));
}

/// Makes the record of one processing unit.
pub(crate) fn read_cpu_info(tree: &HardwareTree, unit: usize) -> (outcome: Result<
    CpuInfo,
    MissingAncestor,
>)
    requires
        tree@.wf(),
        unit < tree@.objects.len(),
    ensures
        outcome == cpu_info(tree@, unit),
{
    let core = match tree.nearest(tree.object(unit).parent, Level::Core) {
        Some(i) => i,
        None => {
            return Err(MissingAncestor { unit, level: Level::Core });
        },
    };
    let l1 = match tree.nearest(Some(core), Level::L1Cache) {
        Some(i) => i,
        None => {
            return Err(MissingAncestor { unit, level: Level::L1Cache });
        },
    };
    let l2 = match tree.nearest(Some(l1), Level::L2Cache) {
        Some(i) => i,
        None => {
            return Err(MissingAncestor { unit, level: Level::L2Cache });
        },
    };
    let socket = match tree.nearest(Some(l2), Level::L3Cache) {
        Some(i) => i,
        None => {
            return Err(MissingAncestor { unit, level: Level::L3Cache });
        },
    };
    let node = match tree.nearest(Some(socket), Level::NumaNode) {
        Some(n) => Some(
            NodeInfo { node: tree.object(n).os_index, memory: tree.object(n).kind.memory() },
        ),
        None => None,
    };
    Ok(
        CpuInfo {
            node,
            socket: tree.object(socket).logical_index,
            core: tree.object(core).logical_index,
            cpu: tree.object(unit).os_index,
            l1: tree.object(l1).logical_index,
            l2: tree.object(l2).logical_index,
            l3: tree.object(socket).logical_index,
        },
    )
}

} // verus!
