//! The table of processing units: how it is made from a [`HardwareTree`],
//! and the questions it answers.

use crate::discovery::{
    complete, cpu_info, first_gap, lemma_first_gap, read_cpu_info, socket_is_l3, table,
    MissingAncestor,
};
use crate::queries::{
    has_socket, is_socket_list, lemma_ascending_has_no_duplicates, lemma_no_cpus_on_unknown_socket,
    on_socket, records, strictly_ascending,
};
use crate::record::{CpuInfo, Socket};
use crate::tree::{HardwareTree, Level};
use vstd::pervasive::unreached;
use vstd::prelude::*;

verus! {

/// Puts `id` in its place in the ascending `ids`, unless it is there
/// already.
fn insert_ascending(ids: &mut Vec<Socket>, id: Socket)
    requires
        strictly_ascending(old(ids)@),
    ensures
        strictly_ascending(final(ids)@),
        forall|x: Socket| final(ids)@.contains(x) <==> old(ids)@.contains(x) || x == id,
{
    let mut at: usize = 0;
    while at < ids.len() && ids[at] < id
        invariant
            at <= ids.len(),
            ids@ == old(ids)@,
            forall|j: int| 0 <= j < at ==> ids@[j] < id,
        decreases ids.len() - at,
    {
        at += 1;
    }
    if at < ids.len() && ids[at] == id {
        assert(ids@.contains(id));
        return ;
    }
    ids.insert(at, id);
    proof {
        let before = old(ids)@;
        let after = ids@;
        assert forall|x: Socket| after.contains(x) <==> before.contains(x) || x == id by {
            if after.contains(x) {
                let j = choose|j: int| 0 <= j < after.len() && after[j] == x;
                if j < at {
                    assert(before[j] == x);
                } else if j > at {
                    assert(before[j - 1] == x);
                }
            }
            if before.contains(x) {
                let j = choose|j: int| 0 <= j < before.len() && before[j] == x;
                if j < at {
                    assert(after[j] == x);
                } else {
                    assert(after[j + 1] == x);
                }
            }
            if x == id {
                assert(after[at as int] == x);
            }
        }
    }
}

/// The CPU topology of a machine: one record per processing unit, in the
/// order in which the provider lists them. It never changes once made.
#[derive(Debug)]
pub struct MachineTopology {
    data: Vec<CpuInfo>,
}

impl View for MachineTopology {
    type V = Seq<CpuInfo>;

    closed spec fn view(&self) -> Seq<CpuInfo> {
        self.data@
    }
}

impl MachineTopology {
    #[verifier::type_invariant]
    spec fn well_formed(self) -> bool {
        socket_is_l3(self.data@)
    }

    /// Flattens `tree` into the table, or reports the first processing unit
    /// that lacks a core, an L1, an L2 or an L3 cache above it.
    pub fn discover(tree: &HardwareTree) -> (outcome: Result<MachineTopology, MissingAncestor>)
        requires
            tree@.wf(),
        ensures
            match outcome {
                Ok(topology) => {
                    &&& complete(tree@)
                    &&& topology@ == table(tree@)
                    &&& topology@.len() == tree@.units.len()
                    &&& socket_is_l3(topology@)
                },
                Err(gap) => {
                    &&& !complete(tree@)
                    &&& gap == first_gap(tree@)
                    &&& gap.level != Level::NumaNode
                },
            },
    {
        let units = tree.processing_units();
        let mut data: Vec<CpuInfo> = Vec::new();
        let mut k: usize = 0;
        while k < units.len()
            invariant
                tree@.wf(),
                units@ == tree@.units,
                k <= units.len(),
                data@.len() == k,
                forall|j: int|
                    0 <= j < k ==> #[trigger] cpu_info(tree@, tree@.units[j]) == Ok::<
                        CpuInfo,
                        MissingAncestor,
                    >(data@[j]),
                socket_is_l3(data@),
            decreases units.len() - k,
        {
            match read_cpu_info(tree, units[k]) {
                Ok(info) => {
                    data.push(info);
                },
                Err(gap) => {
                    proof {
                        lemma_first_gap(tree@, k as int);
                    }
                    return Err(gap);
                },
            }
            k += 1;
        }
        assert(data@ =~= table(tree@));
        Ok(MachineTopology { data })
    }

    /// Flattens a complete `tree` into the table: one record for each
    /// processing unit, in the order in which the tree lists them.
    ///
    /// A tree in which a processing unit lacks a core or a cache is not a
    /// machine that this table can describe; [`MachineTopology::discover`]
    /// tells such a tree from a complete one.
    pub fn new(tree: &HardwareTree) -> (topology: MachineTopology)
        requires
            tree@.wf(),
            complete(tree@),
        ensures
            topology@ == table(tree@),
            topology@.len() == tree@.units.len(),
            socket_is_l3(topology@),
    {
        match MachineTopology::discover(tree) {
            Ok(topology) => topology,
            Err(_) => unreached(),
        }
    }

    /// How many processing units the machine has.
    pub fn cores(&self) -> (count: usize)
        ensures
            count == self@.len(),
    {
        self.data.len()
    }

    /// The sockets that have a processing unit, each once, in ascending
    /// order.
    pub fn sockets(&self) -> (ids: Vec<Socket>)
        ensures
            is_socket_list(self@, ids@),
            ids@.no_duplicates(),
    {
        let mut ids: Vec<Socket> = Vec::new();
        let mut i: usize = 0;
        while i < self.data.len()
            invariant
                i <= self.data.len(),
                strictly_ascending(ids@),
                forall|socket: Socket|
                    ids@.contains(socket) <==> has_socket(self.data@.take(i as int), socket),
            decreases self.data.len() - i,
        {
            let ghost seen = self.data@.take(i as int);
            let ghost next = self.data@.take(i + 1);
            let ghost known = ids@;
            insert_ascending(&mut ids, self.data[i].socket);
            proof {
                assert forall|socket: Socket| ids@.contains(socket) <==> has_socket(
                    next,
                    socket,
                ) by {
                    if has_socket(next, socket) {
                        let j = choose|j: int| 0 <= j < next.len() && next[j].socket == socket;
                        if j < i {
                            assert(seen[j].socket == socket);
                        }
                    }
                    if known.contains(socket) {
                        let j = choose|j: int| 0 <= j < seen.len() && seen[j].socket == socket;
                        assert(next[j].socket == socket);
                    }
                    if socket == self.data@[i as int].socket {
                        assert(next[i as int].socket == socket);
                    }
                }
            }
            i += 1;
        }
        proof {
            assert(self.data@.take(i as int) == self.data@);
            lemma_ascending_has_no_duplicates(ids@);
        }
        ids
    }

    /// The records of the processing units on `socket`, in the order of the
    /// table; none where no processing unit is on it.
    pub fn cpus_on_socket(&self, socket: Socket) -> (cpus: Vec<&CpuInfo>)
        ensures
            records(cpus@) == on_socket(self@, socket),
            forall|i: int|
                0 <= i < cpus@.len() ==> (#[trigger] cpus@[i]).socket == socket && cpus@[i].l3
                    == socket,
            !has_socket(self@, socket) ==> cpus@.len() == 0,
    {
        let mut cpus: Vec<&CpuInfo> = Vec::new();
        let mut i: usize = 0;
        proof {
            use_type_invariant(self);
            reveal(Seq::filter);
            assert(self.data@.take(0).len() == 0);
        }
        while i < self.data.len()
            invariant
                i <= self.data.len(),
                socket_is_l3(self.data@),
                records(cpus@) == on_socket(self.data@.take(i as int), socket),
                forall|j: int|
                    0 <= j < cpus@.len() ==> (#[trigger] cpus@[j]).socket == socket && cpus@[j].l3
                        == socket,
            decreases self.data.len() - i,
        {
            let ghost seen = self.data@.take(i as int);
            let ghost found = cpus@;
            let cpu = &self.data[i];
            proof {
                self.data@.lemma_take_succ_push(i as int);
                seen.lemma_filter_push(*cpu, |cpu: CpuInfo| cpu.socket == socket);
            }
            if cpu.socket == socket {
                cpus.push(cpu);
                assert(records(cpus@) == records(found).push(*cpu));
            }
            i += 1;
        }
        proof {
            assert(self.data@.take(i as int) == self.data@);
            if !has_socket(self@, socket) {
                lemma_no_cpus_on_unknown_socket(self@, socket);
            }
        }
        cpus
    }
}

} // verus!
