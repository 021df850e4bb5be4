//! What the questions about a table mean, and what holds of the answers.

use crate::record::{CpuInfo, Socket};
use vstd::prelude::*;
use vstd::seq_lib::{lemma_multiset_commutative, to_multiset_build, to_multiset_contains};

verus! {

/// Some record of the table is on `socket`.
pub open spec fn has_socket(table: Seq<CpuInfo>, socket: Socket) -> bool {
    exists|i: int| 0 <= i < table.len() && (#[trigger] table[i]).socket == socket
}

/// Each entry is smaller than the one after it.
pub open spec fn strictly_ascending(ids: Seq<Socket>) -> bool {
    forall|i: int, j: int| 0 <= i < j < ids.len() ==> ids[i] < ids[j]
}

/// The records of the table that are on `socket`, in the order of the
/// table.
pub open spec fn on_socket(table: Seq<CpuInfo>, socket: Socket) -> Seq<CpuInfo> {
    table.filter(|cpu: CpuInfo| cpu.socket == socket)
}

/// The records that the references of `cpus` lead to.
pub open spec fn records(cpus: Seq<&CpuInfo>) -> Seq<CpuInfo> {
    cpus.map_values(|cpu: &CpuInfo| *cpu)
}

/// `ids` lists the sockets of the table: each socket that has a processing
/// unit, once, in ascending order.
pub open spec fn is_socket_list(table: Seq<CpuInfo>, ids: Seq<Socket>) -> bool {
    &&& strictly_ascending(ids)
    &&& forall|socket: Socket| ids.contains(socket) <==> has_socket(table, socket)
}

/// The records on the sockets of `ids`, socket after socket.
pub open spec fn gathered(table: Seq<CpuInfo>, ids: Seq<Socket>) -> Seq<CpuInfo>
    decreases ids.len(),
{
    if ids.len() == 0 {
        Seq::empty()
    } else {
        gathered(table, ids.drop_last()) + on_socket(table, ids.last())
    }
}

/// An ascending list holds no value twice.
pub proof fn lemma_ascending_has_no_duplicates(ids: Seq<Socket>)
    requires
        strictly_ascending(ids),
    ensures
        ids.no_duplicates(),
{
    assert forall|i: int, j: int| 0 <= i < ids.len() && 0 <= j < ids.len() && i != j implies ids[i]
        != ids[j] by {
        if i < j {
            assert(ids[i] < ids[j]);
        } else {
            assert(ids[j] < ids[i]);
        }
    }
}

/// Two ascending lists with the same values are the same list.
pub proof fn lemma_ascending_is_unique(first: Seq<Socket>, second: Seq<Socket>)
    requires
        strictly_ascending(first),
        strictly_ascending(second),
        forall|id: Socket| first.contains(id) <==> second.contains(id),
    ensures
        first == second,
    decreases first.len(),
{
    if first.len() == 0 {
        if second.len() > 0 {
            assert(second.contains(second[0]));
        }
        assert(first =~= second);
    } else {
        assert(first.contains(first.last()));
        if second.len() == 0 {
            assert(!second.contains(first.last()));
        }
        assert(second.contains(second.last()));
        let i = choose|i: int| 0 <= i < first.len() && first[i] == second.last();
        let j = choose|j: int| 0 <= j < second.len() && second[j] == first.last();
        if i < first.len() - 1 {
            assert(first[i] < first.last());
        }
        if j < second.len() - 1 {
            assert(second[j] < second.last());
        }
        assert(first.last() == second.last());
        let a = first.drop_last();
        let b = second.drop_last();
        assert forall|id: Socket| a.contains(id) <==> b.contains(id) by {
            if a.contains(id) {
                let k = choose|k: int| 0 <= k < a.len() && a[k] == id;
                assert(first[k] == id);
                assert(first[k] < first.last());
                assert(first.contains(id));
                let m = choose|m: int| 0 <= m < second.len() && second[m] == id;
                assert(b[m] == id);
            }
            if b.contains(id) {
                let k = choose|k: int| 0 <= k < b.len() && b[k] == id;
                assert(second[k] == id);
                assert(second[k] < second.last());
                assert(second.contains(id));
                let m = choose|m: int| 0 <= m < first.len() && first[m] == id;
                assert(a[m] == id);
            }
        }
        lemma_ascending_is_unique(a, b);
        assert(first =~= a.push(first.last()));
        assert(second =~= b.push(second.last()));
    }
}

/// The list of the sockets of a table is determined by the table: any two
/// lists of them agree.
pub proof fn lemma_socket_list_is_unique(
    table: Seq<CpuInfo>,
    first: Seq<Socket>,
    second: Seq<Socket>,
)
    requires
        is_socket_list(table, first),
        is_socket_list(table, second),
    ensures
        first == second,
{
    lemma_ascending_is_unique(first, second);
}

/// Asking again changes nothing: the table and the socket asked for
/// determine the answers, so that any two answers to one question are the
/// same.
pub proof fn lemma_answers_are_determined(
    table: Seq<CpuInfo>,
    socket: Socket,
    ids: Seq<Socket>,
    ids_again: Seq<Socket>,
    cpus: Seq<&CpuInfo>,
    cpus_again: Seq<&CpuInfo>,
)
    requires
        is_socket_list(table, ids),
        is_socket_list(table, ids_again),
        records(cpus) == on_socket(table, socket),
        records(cpus_again) == on_socket(table, socket),
    ensures
        ids == ids_again,
        cpus == cpus_again,
{
    lemma_socket_list_is_unique(table, ids, ids_again);
    assert(cpus.len() == records(cpus).len());
    assert(cpus_again.len() == records(cpus_again).len());
    assert forall|i: int| 0 <= i < cpus.len() implies cpus[i] == cpus_again[i] by {
        assert(records(cpus)[i] == *cpus[i]);
        assert(records(cpus_again)[i] == *cpus_again[i]);
    }
    assert(cpus =~= cpus_again);
}

/// Every record found on a socket is on that socket and is a record of the
/// table; a record of the table on that socket is found.
pub proof fn lemma_on_socket_members(table: Seq<CpuInfo>, socket: Socket, cpu: CpuInfo)
    ensures
        on_socket(table, socket).contains(cpu) <==> table.contains(cpu) && cpu.socket == socket,
    decreases table.len(),
{
    reveal(Seq::filter);
    let wanted = |cpu: CpuInfo| cpu.socket == socket;
    if table.len() > 0 {
        let rest = table.drop_last();
        lemma_on_socket_members(rest, socket, cpu);
        assert(table =~= rest.push(table.last()));
        if on_socket(table, socket).contains(cpu) {
            let k = choose|k: int|
                0 <= k < on_socket(table, socket).len() && on_socket(table, socket)[k] == cpu;
            if k < rest.filter(wanted).len() {
                assert(rest.filter(wanted)[k] == cpu);
                let m = choose|m: int| 0 <= m < rest.len() && rest[m] == cpu;
                assert(table[m] == cpu);
            } else {
                assert(table[table.len() - 1] == cpu);
            }
        }
        if table.contains(cpu) && cpu.socket == socket {
            let m = choose|m: int| 0 <= m < table.len() && table[m] == cpu;
            if m < rest.len() {
                assert(rest[m] == cpu);
                assert(rest.contains(cpu));
                let k = choose|k: int|
                    0 <= k < rest.filter(wanted).len() && rest.filter(wanted)[k] == cpu;
                assert(on_socket(table, socket)[k] == cpu);
            } else {
                assert(on_socket(table, socket) == rest.filter(wanted).push(cpu));
                assert(on_socket(table, socket)[rest.filter(wanted).len() as int] == cpu);
            }
        }
    }
}

/// A socket that no record is on has no processing units.
pub proof fn lemma_no_cpus_on_unknown_socket(table: Seq<CpuInfo>, socket: Socket)
    requires
        !has_socket(table, socket),
    ensures
        on_socket(table, socket) == Seq::<CpuInfo>::empty(),
{
    let found = on_socket(table, socket);
    if found.len() > 0 {
        assert(found.contains(found[0]));
        lemma_on_socket_members(table, socket, found[0]);
        let m = choose|m: int| 0 <= m < table.len() && table[m] == found[0];
        assert(table[m].socket == socket);
    }
    assert(found =~= Seq::<CpuInfo>::empty());
}

/// A socket that is not in the list of the table's sockets has no
/// processing units.
pub proof fn lemma_no_cpus_off_the_list(table: Seq<CpuInfo>, ids: Seq<Socket>, socket: Socket)
    requires
        is_socket_list(table, ids),
        !ids.contains(socket),
    ensures
        on_socket(table, socket).len() == 0,
{
    lemma_no_cpus_on_unknown_socket(table, socket);
}

/// A record is found on a socket as often as it occurs in the table, if it
/// is on that socket, and not at all if it is on another.
pub proof fn lemma_on_socket_counts(table: Seq<CpuInfo>, socket: Socket, cpu: CpuInfo)
    ensures
        on_socket(table, socket).to_multiset().count(cpu) == if cpu.socket == socket {
            table.to_multiset().count(cpu)
        } else {
            0
        },
    decreases table.len(),
{
    reveal(Seq::filter);
    let wanted = |cpu: CpuInfo| cpu.socket == socket;
    if table.len() == 0 {
        assert(on_socket(table, socket) =~= Seq::<CpuInfo>::empty());
        to_multiset_contains(on_socket(table, socket), cpu);
        to_multiset_contains(table, cpu);
    } else {
        let rest = table.drop_last();
        let last = table.last();
        lemma_on_socket_counts(rest, socket, cpu);
        assert(table =~= rest.push(last));
        to_multiset_build(rest, last);
        if last.socket == socket {
            assert(on_socket(table, socket) == rest.filter(wanted).push(last));
            to_multiset_build(rest.filter(wanted), last);
        } else {
            assert(on_socket(table, socket) == rest.filter(wanted));
        }
    }
}

/// A record is gathered from the sockets of a list without repeats as often
/// as it occurs in the table, if its socket is in the list, and not at all
/// if it is not.
pub proof fn lemma_gathered_counts(table: Seq<CpuInfo>, ids: Seq<Socket>, cpu: CpuInfo)
    requires
        ids.no_duplicates(),
    ensures
        gathered(table, ids).to_multiset().count(cpu) == if ids.contains(cpu.socket) {
            table.to_multiset().count(cpu)
        } else {
            0
        },
    decreases ids.len(),
{
    if ids.len() == 0 {
        to_multiset_contains(gathered(table, ids), cpu);
    } else {
        let rest = ids.drop_last();
        let last = ids.last();
        lemma_gathered_counts(table, rest, cpu);
        lemma_on_socket_counts(table, last, cpu);
        lemma_multiset_commutative(gathered(table, rest), on_socket(table, last));
        assert(ids.contains(last));
        if rest.contains(cpu.socket) {
            let k = choose|k: int| 0 <= k < rest.len() && rest[k] == cpu.socket;
            assert(ids[k] == cpu.socket);
            assert(ids.contains(cpu.socket));
            assert(cpu.socket != last);
        } else if ids.contains(cpu.socket) {
            let k = choose|k: int| 0 <= k < ids.len() && ids[k] == cpu.socket;
            if k < rest.len() {
                assert(rest[k] == cpu.socket);
            }
            assert(cpu.socket == last);
        }
    }
}

/// The sockets part the table: gathering the records socket by socket, over
/// the list of the table's sockets, gives every record of the table as
/// often as the table has it. None is dropped and none is counted twice.
pub proof fn lemma_sockets_part_the_table(table: Seq<CpuInfo>, ids: Seq<Socket>)
    requires
        is_socket_list(table, ids),
    ensures
        gathered(table, ids).to_multiset() == table.to_multiset(),
        gathered(table, ids).len() == table.len(),
{
    lemma_ascending_has_no_duplicates(ids);
    let parts = gathered(table, ids).to_multiset();
    let whole = table.to_multiset();
    assert forall|cpu: CpuInfo| parts.count(cpu) == whole.count(cpu) by {
        lemma_gathered_counts(table, ids, cpu);
        if !ids.contains(cpu.socket) {
            to_multiset_contains(table, cpu);
            if table.contains(cpu) {
                let m = choose|m: int| 0 <= m < table.len() && table[m] == cpu;
                assert(table[m].socket == cpu.socket);
                assert(has_socket(table, cpu.socket));
            }
        }
    }
    assert(parts =~= whole);
    gathered(table, ids).to_multiset_ensures();
    table.to_multiset_ensures();
}

} // verus!
