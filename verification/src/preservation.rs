//! The proof that a cycle keeps the processor well formed.
//!
//! Each stage has its lemma; [`lemma_step_wf`] puts them together.

use vstd::prelude::*;
use crate::alu::ALU;
use crate::entries::ActiveListEntry;
use crate::instruction::{decode_text, lemma_decode_text, DecodedInstruction};
use crate::model::{
    absorb_all, completes, first_free_unit, forwarded_write, has_free_unit, has_pending,
    has_ready, oldest_ready, pending_index, valid_stream, ProcessorState, EXCEPTION_PC,
};
use crate::wellformed::{
    lemma_absorb_all_keeps, lemma_commit_stage_keeps, lemma_has_first_free_unit,
    lemma_has_oldest_ready, lemma_issue_one_shaped, lemma_issue_up_to_keeps,
    lemma_observe_committable, lemma_pending_index, lemma_rename_all_keeps, lemma_rename_shaped,
    lemma_retire_head_committable, lemma_roll_back_keeps, mapping_after,
};

verus! {

// ----- the register that an entry allocated -----

/// The allocated register depends on the destinations and the replaced
/// mappings of the active list only.
proof fn lemma_mapping_same_renames(
    a: Seq<ActiveListEntry>,
    b: Seq<ActiveListEntry>,
    map: Seq<u8>,
    logical: u8,
    from: int,
)
    requires
        a.len() == b.len(),
        forall|i: int|
            0 <= i < a.len() ==> (#[trigger] a[i]).logical_destination == b[i].logical_destination
                && a[i].old_destination == b[i].old_destination,
    ensures
        mapping_after(a, map, logical, from) == mapping_after(b, map, logical, from),
    decreases a.len() - from,
{
    if 0 <= from < a.len() {
        assert(a[from].logical_destination == b[from].logical_destination);
        lemma_mapping_same_renames(a, b, map, logical, from + 1);
    }
}

/// A rename leaves the registers that older entries allocated as they were.
proof fn lemma_mapping_rename(
    active_list: Seq<ActiveListEntry>,
    map: Seq<u8>,
    entry: ActiveListEntry,
    allocated: u8,
    logical: u8,
    from: int,
)
    requires
        entry.logical_destination < map.len(),
        logical < map.len(),
        entry.old_destination == map[entry.logical_destination as int],
        0 <= from <= active_list.len(),
    ensures
        mapping_after(
            active_list.push(entry),
            map.update(entry.logical_destination as int, allocated),
            logical,
            from,
        ) == mapping_after(active_list, map, logical, from),
    decreases active_list.len() - from,
{
    let longer = active_list.push(entry);
    let renamed = map.update(entry.logical_destination as int, allocated);
    if from < active_list.len() {
        assert(longer[from] == active_list[from]);
        lemma_mapping_rename(active_list, map, entry, allocated, logical, from + 1);
    } else {
        assert(longer[from] == entry);
        assert(mapping_after(longer, renamed, logical, from + 1) == renamed[logical as int]);
    }
}

/// Retiring the head leaves the registers that the other entries allocated
/// as they were.
proof fn lemma_mapping_retire(
    active_list: Seq<ActiveListEntry>,
    map: Seq<u8>,
    logical: u8,
    from: int,
)
    requires
        active_list.len() > 0,
        0 <= from,
    ensures
        mapping_after(active_list.drop_first(), map, logical, from) == mapping_after(
            active_list,
            map,
            logical,
            from + 1,
        ),
    decreases active_list.len() - from,
{
    let shorter = active_list.drop_first();
    if from < shorter.len() {
        assert(shorter[from] == active_list[from + 1]);
        lemma_mapping_retire(active_list, map, logical, from + 1);
    }
}

/// Rolling back the youngest entry leaves the registers that the other
/// entries allocated as they were.
pub(crate) proof fn lemma_mapping_roll_back(
    active_list: Seq<ActiveListEntry>,
    map: Seq<u8>,
    logical: u8,
    from: int,
)
    requires
        active_list.len() > 0,
        active_list.last().logical_destination < map.len(),
        logical < map.len(),
        0 <= from <= active_list.len() - 1,
    ensures
        mapping_after(
            active_list.drop_last(),
            map.update(
                active_list.last().logical_destination as int,
                active_list.last().old_destination,
            ),
            logical,
            from,
        ) == mapping_after(active_list, map, logical, from),
    decreases active_list.len() - from,
{
    let shorter = active_list.drop_last();
    let restored = map.update(
        active_list.last().logical_destination as int,
        active_list.last().old_destination,
    );
    if from < shorter.len() {
        assert(shorter[from] == active_list[from]);
        lemma_mapping_roll_back(active_list, map, logical, from + 1);
    } else {
        assert(mapping_after(active_list, map, logical, from + 1) == map[logical as int]);
    }
}

// ----- commit: the forwarding ports -----

/// Seeing a forwarding port changes flags of the active list and adds a
/// write to the buffer; nothing else.
proof fn lemma_observe_frame(s: ProcessorState, alu: ALU)
    ensures
        s.observe(alu).active_list.len() == s.active_list.len(),
        forall|j: int|
            0 <= j < s.active_list.len() ==> {
                &&& (#[trigger] s.observe(alu).active_list[j]).pc == s.active_list[j].pc
                &&& s.observe(alu).active_list[j].logical_destination
                    == s.active_list[j].logical_destination
                &&& s.observe(alu).active_list[j].old_destination == s.active_list[j].old_destination
                &&& s.observe(alu).destination(j) == s.destination(j)
            },
{
    let t = s.observe(alu);
    assert forall|j: int| 0 <= j < s.active_list.len() implies t.destination(j) == s.destination(
        j,
    ) by {
        lemma_mapping_same_renames(
            t.active_list,
            s.active_list,
            s.register_map_table,
            s.active_list[j].logical_destination,
            j + 1,
        );
    }
}

/// Seeing the forwarding port of one of its own ALUs keeps the state steady.
proof fn lemma_observe_steady(s: ProcessorState, k: int, limit: int)
    requires
        s.steady(),
        !s.exception_mode,
        0 <= k < s.alus.len(),
        s.issued_before(limit),
        s.listed_before(limit),
    ensures
        s.observe(s.alus[k]).steady(),
        s.observe(s.alus[k]).issued_before(limit),
        s.observe(s.alus[k]).listed_before(limit),
{
    let alu = s.alus[k];
    let t = s.observe(alu);
    lemma_observe_frame(s, alu);
    lemma_observe_committable(s, alu);
    assert forall|pc: u64, register: u8| s.names(pc, register) implies t.names(pc, register) by {
        assert forall|j: int|
            0 <= j < t.active_list.len() && (#[trigger] t.active_list[j]).pc == pc implies t.destination(
            j,
        ) == register by {
            assert(s.active_list[j].pc == pc);
        }
    }
    assert(t.results_named()) by {
        assert forall|i: int| 0 <= i < t.commit_buffer.len() implies t.names(
            (#[trigger] t.commit_buffer[i]).pc,
            t.commit_buffer[i].dest_register,
        ) by {
            if i < s.commit_buffer.len() {
                assert(t.commit_buffer[i] == s.commit_buffer[i]);
                assert(s.names(s.commit_buffer[i].pc, s.commit_buffer[i].dest_register));
            } else {
                assert(completes(s.active_list, alu));
                assert(t.commit_buffer[i] == forwarded_write(alu));
                assert(s.names(alu.forwarding_pc, alu.forwarding_reg));
            }
        }
        assert forall|i: int| 0 <= i < t.integer_queue.len() implies t.names(
            (#[trigger] t.integer_queue[i]).pc,
            t.integer_queue[i].dest_register,
        ) by {
            assert(s.names(s.integer_queue[i].pc, s.integer_queue[i].dest_register));
        }
        assert forall|k: int| 0 <= k < t.alus.len() && (#[trigger] t.alus[k]).is_forwarding implies t.names(
            t.alus[k].forwarding_pc,
            t.alus[k].forwarding_reg,
        ) by {
            assert(s.names(s.alus[k].forwarding_pc, s.alus[k].forwarding_reg));
        }
    }
    assert(t.busy_in_flight()) by {
        assert forall|r: int|
            0 <= r < t.busy_bit_table.len() && #[trigger] t.busy_bit_table[r] implies exists|j: int|
            0 <= j < t.active_list.len() && #[trigger] t.destination(j) == r by {
            assert(s.busy_bit_table[r]);
            let j = choose|j: int| 0 <= j < s.active_list.len() && #[trigger] s.destination(j) == r;
            assert(t.destination(j) == r);
        }
    }
    assert(t.partitioned());
    assert(t.issued_before(limit)) by {
        assert forall|i: int| 0 <= i < t.commit_buffer.len() implies (
        #[trigger] t.commit_buffer[i]).pc < limit by {
            if i < s.commit_buffer.len() {
                assert(t.commit_buffer[i] == s.commit_buffer[i]);
            }
        }
    }
    assert(t.listed_before(limit)) by {
        assert forall|j: int| 0 <= j < t.active_list.len() implies (#[trigger] t.active_list[j]).pc
            < limit by {
            assert(s.active_list[j].pc < limit);
        }
    }
}

/// Seeing the forwarding ports of its own ALUs keeps the state steady.
proof fn lemma_observe_all_steady(s: ProcessorState, count: int, limit: int)
    requires
        s.steady(),
        s.latches_empty(),
        !s.exception_mode,
        0 <= count <= s.alus.len(),
        s.issued_before(limit),
        s.listed_before(limit),
    ensures
        s.observe_all(s.alus.take(count)).steady(),
        s.observe_all(s.alus.take(count)).latches_empty(),
        s.observe_all(s.alus.take(count)).issued_before(limit),
        s.observe_all(s.alus.take(count)).listed_before(limit),
        !s.observe_all(s.alus.take(count)).exception_mode,
        s.observe_all(s.alus.take(count)).alus == s.alus,
    decreases count,
{
    if count > 0 {
        lemma_observe_all_steady(s, count - 1, limit);
        assert(s.alus.take(count).drop_last() =~= s.alus.take(count - 1));
        let before = s.observe_all(s.alus.take(count - 1));
        assert(s.alus.take(count).last() == before.alus[count - 1]);
        lemma_observe_steady(before, count - 1, limit);
    }
}

// ----- commit: retiring -----

/// Retiring the head keeps the state steady.
proof fn lemma_retire_head_steady(s: ProcessorState, limit: int)
    requires
        s.steady(),
        !s.exception_mode,
        s.active_list.len() > 0,
        s.active_list[0].is_done,
        s.issued_before(limit),
        s.listed_before(limit),
    ensures
        s.retire_head().steady(),
        s.retire_head().issued_before(limit),
        s.retire_head().listed_before(limit),
        !s.retire_head().exception_mode,
        s.retire_head().alus == s.alus,
{
    let t = s.retire_head();
    let head = s.active_list[0];
    lemma_retire_head_committable(s);
    lemma_pending_index(s.commit_buffer, head.pc);
    let at = pending_index(s.commit_buffer, head.pc);
    let write = s.commit_buffer[at];
    assert(t.active_list.len() == s.active_list.len() - 1);
    assert forall|j: int| 0 <= j < t.active_list.len() implies #[trigger] t.active_list[j]
        == s.active_list[j + 1] && t.destination(j) == s.destination(j + 1) by {
        lemma_mapping_retire(
            s.active_list,
            s.register_map_table,
            s.active_list[j + 1].logical_destination,
            j + 1,
        );
    }
    assert forall|i: int| 0 <= i < t.commit_buffer.len() implies exists|i0: int|
        0 <= i0 < s.commit_buffer.len() && #[trigger] t.commit_buffer[i] == s.commit_buffer[i0] by {
        if i < at {
            assert(t.commit_buffer[i] == s.commit_buffer[i]);
        } else {
            assert(t.commit_buffer[i] == s.commit_buffer[i + 1]);
        }
    }
    assert forall|pc: u64, register: u8| s.names(pc, register) implies t.names(pc, register) by {
        assert forall|j: int|
            0 <= j < t.active_list.len() && (#[trigger] t.active_list[j]).pc == pc implies t.destination(
            j,
        ) == register by {
            assert(s.active_list[j + 1].pc == pc);
        }
    }
    assert(t.results_named()) by {
        assert forall|i: int| 0 <= i < t.commit_buffer.len() implies t.names(
            (#[trigger] t.commit_buffer[i]).pc,
            t.commit_buffer[i].dest_register,
        ) by {
            let i0 = choose|i0: int|
                0 <= i0 < s.commit_buffer.len() && t.commit_buffer[i] == s.commit_buffer[i0];
            assert(s.names(s.commit_buffer[i0].pc, s.commit_buffer[i0].dest_register));
        }
        assert forall|i: int| 0 <= i < t.integer_queue.len() implies t.names(
            (#[trigger] t.integer_queue[i]).pc,
            t.integer_queue[i].dest_register,
        ) by {
            assert(s.names(s.integer_queue[i].pc, s.integer_queue[i].dest_register));
        }
        assert forall|k: int| 0 <= k < t.alus.len() && (#[trigger] t.alus[k]).is_forwarding implies t.names(
            t.alus[k].forwarding_pc,
            t.alus[k].forwarding_reg,
        ) by {
            assert(s.names(s.alus[k].forwarding_pc, s.alus[k].forwarding_reg));
        }
    }
    assert(t.busy_in_flight()) by {
        assert(s.names(write.pc, write.dest_register));
        assert(s.destination(0) == write.dest_register);
        assert forall|r: int|
            0 <= r < t.busy_bit_table.len() && #[trigger] t.busy_bit_table[r] implies exists|j: int|
            0 <= j < t.active_list.len() && #[trigger] t.destination(j) == r by {
            assert(s.busy_bit_table[r]);
            let j = choose|j: int| 0 <= j < s.active_list.len() && #[trigger] s.destination(j) == r;
            assert(j != 0);
            assert(t.destination(j - 1) == r);
        }
    }
    assert(t.partitioned()) by {
        lemma_retire_head_partitioned(s);
    }
    assert(t.issued_before(limit)) by {
        assert forall|i: int| 0 <= i < t.commit_buffer.len() implies (
        #[trigger] t.commit_buffer[i]).pc < limit by {
            let i0 = choose|i0: int|
                0 <= i0 < s.commit_buffer.len() && t.commit_buffer[i] == s.commit_buffer[i0];
            assert(s.commit_buffer[i0].pc < limit);
        }
    }
    assert(t.listed_before(limit)) by {
        assert forall|j: int| 0 <= j < t.active_list.len() implies (#[trigger] t.active_list[j]).pc
            < limit by {
            assert(s.active_list[j + 1].pc < limit);
        }
    }
}

/// Retiring the head moves the register that it replaced to the free list
/// and keeps the registers partitioned.
proof fn lemma_retire_head_partitioned(s: ProcessorState)
    requires
        s.partitioned(),
        s.active_list.len() > 0,
    ensures
        s.retire_head().partitioned(),
{
    let t = s.retire_head();
    let n = s.free_list.len() as int;
    assert(t.free_list.len() == n + 1);
    assert(t.active_list.len() == s.active_list.len() - 1);
    assert forall|i: int| 0 <= i < t.active_list.len() implies #[trigger] t.active_list[i]
        == s.active_list[i + 1] by {}
    assert forall|i: int| 0 <= i < n implies #[trigger] t.free_list[i] == s.free_list[i] by {}
    assert(t.free_list[n] == s.active_list[0].old_destination);
    assert forall|i: int, j: int| 0 <= i < j < t.free_list.len() implies #[trigger] t.free_list[i]
        != #[trigger] t.free_list[j] by {
        if j < n {
            assert(s.free_list[i] != s.free_list[j]);
        } else {
            assert(s.free_list[i] != s.active_list[0].old_destination);
        }
    }
    assert forall|i: int, j: int| 0 <= i < j < t.active_list.len() implies (
    #[trigger] t.active_list[i]).old_destination != (
    #[trigger] t.active_list[j]).old_destination by {
        assert(s.active_list[i + 1].old_destination != s.active_list[j + 1].old_destination);
    }
    assert forall|i: int, j: int|
        0 <= i < t.free_list.len() && 0 <= j < t.register_map_table.len() implies #[trigger] t.free_list[i]
        != #[trigger] t.register_map_table[j] by {
        if i < n {
            assert(s.free_list[i] != s.register_map_table[j]);
        } else {
            assert(s.register_map_table[j] != s.active_list[0].old_destination);
        }
    }
    assert forall|i: int, j: int|
        0 <= i < t.free_list.len() && 0 <= j < t.active_list.len() implies #[trigger] t.free_list[i] != (
    #[trigger] t.active_list[j]).old_destination by {
        if i < n {
            assert(s.free_list[i] != s.active_list[j + 1].old_destination);
        } else {
            assert(s.active_list[0].old_destination != s.active_list[j + 1].old_destination);
        }
    }
    assert forall|i: int, j: int|
        0 <= i < t.register_map_table.len() && 0 <= j < t.active_list.len() implies #[trigger] t.register_map_table[i]
        != (#[trigger] t.active_list[j]).old_destination by {
        assert(s.register_map_table[i] != s.active_list[j + 1].old_destination);
    }
}

/// Taking an exception keeps the state steady and leaves no result under
/// way.
proof fn lemma_enter_exception_steady(s: ProcessorState, pc: u64, limit: int)
    requires
        s.steady(),
    ensures
        s.enter_exception(pc).steady(),
        s.enter_exception(pc).latches_empty(),
        s.enter_exception(pc).issued_before(limit),
        s.enter_exception(pc).exception_mode,
{
    let t = s.enter_exception(pc);
    assert forall|j: int| 0 <= j < t.active_list.len() implies t.destination(j) == s.destination(
        j,
    ) by {}
    assert(t.busy_in_flight()) by {
        assert forall|r: int|
            0 <= r < t.busy_bit_table.len() && #[trigger] t.busy_bit_table[r] implies exists|j: int|
            0 <= j < t.active_list.len() && #[trigger] t.destination(j) == r by {
            let j = choose|j: int| 0 <= j < s.active_list.len() && #[trigger] s.destination(j) == r;
            assert(t.destination(j) == r);
        }
    }
}

/// The commit scan keeps the state steady.
proof fn lemma_commit_scan_steady(s: ProcessorState, budget: nat, limit: int)
    requires
        s.steady(),
        s.latches_empty(),
        !s.exception_mode,
        s.issued_before(limit),
        s.listed_before(limit),
    ensures
        s.commit_scan(budget).steady(),
        s.commit_scan(budget).latches_empty(),
        s.commit_scan(budget).issued_before(limit),
        !s.commit_scan(budget).exception_mode ==> s.commit_scan(budget).listed_before(limit),
    decreases budget,
{
    if budget == 0 || s.active_list.len() == 0 {
    } else if s.active_list[0].is_exception {
        lemma_enter_exception_steady(s, s.active_list[0].pc, limit);
    } else if s.active_list[0].is_done {
        lemma_retire_head_steady(s, limit);
        lemma_commit_scan_steady(s.retire_head(), (budget - 1) as nat, limit);
    }
}

// ----- rollback -----

/// Rolling back the youngest entry keeps the state steady.
proof fn lemma_roll_back_last_steady(s: ProcessorState)
    requires
        s.steady(),
        s.exception_mode,
        s.active_list.len() > 0,
    ensures
        s.roll_back_last().steady(),
        s.roll_back_last().exception_mode,
        s.roll_back_last().alus == s.alus,
{
    let t = s.roll_back_last();
    let n = s.active_list.len() as int;
    let entry = s.active_list.last();
    let allocated = s.register_map_table[entry.logical_destination as int];
    assert(s.active_list[n - 1] == entry);
    assert forall|j: int| 0 <= j < t.active_list.len() implies #[trigger] t.active_list[j]
        == s.active_list[j] && t.destination(j) == s.destination(j) by {
        lemma_mapping_roll_back(
            s.active_list,
            s.register_map_table,
            s.active_list[j].logical_destination,
            j + 1,
        );
    }
    assert(t.busy_in_flight()) by {
        assert(s.destination(n - 1) == allocated);
        assert forall|r: int|
            0 <= r < t.busy_bit_table.len() && #[trigger] t.busy_bit_table[r] implies exists|j: int|
            0 <= j < t.active_list.len() && #[trigger] t.destination(j) == r by {
            assert(s.busy_bit_table[r]);
            let j = choose|j: int| 0 <= j < s.active_list.len() && #[trigger] s.destination(j) == r;
            assert(j != n - 1);
            assert(t.destination(j) == r);
        }
    }
    assert(t.partitioned()) by {
        lemma_roll_back_last_partitioned(s);
    }
    assert(t.shaped());
    assert(t.ordered());
}

/// Rolling back the youngest entry moves the register that it allocated to
/// the free list, puts back the mapping that it replaced, and keeps the
/// registers partitioned.
proof fn lemma_roll_back_last_partitioned(s: ProcessorState)
    requires
        s.partitioned(),
        s.shaped(),
        s.active_list.len() > 0,
    ensures
        s.roll_back_last().partitioned(),
{
    let t = s.roll_back_last();
    let n = s.free_list.len() as int;
    let m = s.active_list.len() as int;
    let entry = s.active_list.last();
    let logical = entry.logical_destination as int;
    let allocated = s.register_map_table[logical];
    assert(s.active_list[m - 1] == entry);
    assert(t.free_list.len() == n + 1);
    assert(t.active_list.len() == m - 1);
    assert forall|i: int| 0 <= i < t.active_list.len() implies #[trigger] t.active_list[i]
        == s.active_list[i] by {}
    assert forall|i: int| 0 <= i < n implies #[trigger] t.free_list[i] == s.free_list[i] by {}
    assert(t.free_list[n] == allocated);
    assert forall|i: int, j: int| 0 <= i < j < t.free_list.len() implies #[trigger] t.free_list[i]
        != #[trigger] t.free_list[j] by {
        if j < n {
            assert(s.free_list[i] != s.free_list[j]);
        } else {
            assert(s.free_list[i] != s.register_map_table[logical]);
        }
    }
    assert forall|i: int, j: int|
        0 <= i < j < t.register_map_table.len() implies #[trigger] t.register_map_table[i]
        != #[trigger] t.register_map_table[j] by {
        if i == logical {
            assert(s.register_map_table[j] != s.active_list[m - 1].old_destination);
        } else if j == logical {
            assert(s.register_map_table[i] != s.active_list[m - 1].old_destination);
        } else {
            assert(s.register_map_table[i] != s.register_map_table[j]);
        }
    }
    assert forall|i: int, j: int| 0 <= i < j < t.active_list.len() implies (
    #[trigger] t.active_list[i]).old_destination != (
    #[trigger] t.active_list[j]).old_destination by {
        assert(s.active_list[i].old_destination != s.active_list[j].old_destination);
    }
    assert forall|i: int, j: int|
        0 <= i < t.free_list.len() && 0 <= j < t.register_map_table.len() implies #[trigger] t.free_list[i]
        != #[trigger] t.register_map_table[j] by {
        if i < n {
            if j == logical {
                assert(s.free_list[i] != s.active_list[m - 1].old_destination);
            } else {
                assert(s.free_list[i] != s.register_map_table[j]);
            }
        } else {
            if j == logical {
                assert(s.register_map_table[logical] != s.active_list[m - 1].old_destination);
            } else if j < logical {
                assert(s.register_map_table[j] != s.register_map_table[logical]);
            } else {
                assert(s.register_map_table[logical] != s.register_map_table[j]);
            }
        }
    }
    assert forall|i: int, j: int|
        0 <= i < t.free_list.len() && 0 <= j < t.active_list.len() implies #[trigger] t.free_list[i] != (
    #[trigger] t.active_list[j]).old_destination by {
        if i < n {
            assert(s.free_list[i] != s.active_list[j].old_destination);
        } else {
            assert(s.register_map_table[logical] != s.active_list[j].old_destination);
        }
    }
    assert forall|i: int, j: int|
        0 <= i < t.register_map_table.len() && 0 <= j < t.active_list.len() implies #[trigger] t.register_map_table[i]
        != (#[trigger] t.active_list[j]).old_destination by {
        if i == logical {
            assert(s.active_list[j].old_destination != s.active_list[m - 1].old_destination);
        } else {
            assert(s.register_map_table[i] != s.active_list[j].old_destination);
        }
    }
}

/// A rollback keeps the state steady.
proof fn lemma_roll_back_steady(s: ProcessorState, budget: nat)
    requires
        s.steady(),
        s.latches_empty(),
        s.exception_mode,
    ensures
        s.roll_back(budget).steady(),
        s.roll_back(budget).latches_empty(),
        s.roll_back(budget).exception_mode,
    decreases budget,
{
    if budget > 0 && s.active_list.len() > 0 {
        lemma_roll_back_last_steady(s);
        lemma_roll_back_steady(s.roll_back_last(), (budget - 1) as nat);
    }
}

// ----- the commit stage -----

/// The commit stage keeps the state steady, and leaves the decoded buffer
/// and the fetch address alone.
proof fn lemma_commit_stage_steady(s: ProcessorState)
    requires
        s.wf(),
    ensures
        s.commit_stage().steady(),
        s.commit_stage().latches_empty(),
        s.commit_stage().issued_before(s.frontier()),
        !s.commit_stage().exception_mode ==> s.commit_stage().listed_before(s.frontier()),
        s.commit_stage().exception_mode ==> s.commit_stage().integer_queue.len() == 0,
        s.commit_stage().pc == s.pc,
        s.commit_stage().decoded_instructions == s.decoded_instructions,
        s.commit_stage().decoded_pcs == s.decoded_pcs,
{
    lemma_commit_stage_keeps(s);
    let limit = s.frontier();
    if s.exception_mode {
        if s.active_list.len() > 0 {
            lemma_roll_back_steady(s, 4);
            lemma_roll_back_keeps(s, 4);
        } else {
            let t = s.commit_stage();
            assert forall|j: int| 0 <= j < t.active_list.len() implies t.destination(j)
                == s.destination(j) by {}
            assert(t.steady());
        }
    } else {
        lemma_observe_all_steady(s, s.alus.len() as int, limit);
        assert(s.alus.take(s.alus.len() as int) =~= s.alus);
        lemma_commit_scan_steady(s.observe_all(s.alus), 4, limit);
    }
}

// ----- issue -----

/// Every instruction in a stage 1 is below `limit` and bound for the
/// register that it allocated.
spec fn latched_named(s: ProcessorState, limit: int) -> bool {
    forall|k: int|
        0 <= k < s.alus.len() ==> ((#[trigger] s.alus[k]).stage1 matches Some(entry) ==> s.names(
            entry.pc,
            entry.dest_register,
        ) && entry.pc < limit)
}

/// Issuing an instruction keeps the state steady.
proof fn lemma_issue_one_steady(s: ProcessorState, limit: int)
    requires
        s.steady(),
        !s.exception_mode,
        s.issued_before(limit),
        latched_named(s, limit),
    ensures
        s.issue_one().steady(),
        s.issue_one().issued_before(limit),
        latched_named(s.issue_one(), limit),
{
    lemma_issue_one_shaped(s);
    if has_ready(s.integer_queue) && has_free_unit(s.alus) {
        let t = s.issue_one();
        let at = oldest_ready(s.integer_queue);
        let unit = first_free_unit(s.alus);
        let some = choose|i: int| 0 <= i < s.integer_queue.len() && (#[trigger] s.integer_queue[i]).ready();
        lemma_has_oldest_ready(s.integer_queue, some as nat);
        let free = choose|i: int| 0 <= i < s.alus.len() && (#[trigger] s.alus[i]).stage1 is None;
        lemma_has_first_free_unit(s.alus, free);
        assert forall|i: int| 0 <= i < t.integer_queue.len() implies exists|i0: int|
            0 <= i0 < s.integer_queue.len() && #[trigger] t.integer_queue[i] == s.integer_queue[i0] by {
            if i < at {
                assert(t.integer_queue[i] == s.integer_queue[i]);
            } else {
                assert(t.integer_queue[i] == s.integer_queue[i + 1]);
            }
        }
        assert forall|pc: u64, register: u8| s.names(pc, register) implies t.names(pc, register) by {
            assert forall|j: int|
                0 <= j < t.active_list.len() && (#[trigger] t.active_list[j]).pc == pc implies t.destination(
                j,
            ) == register by {
                assert(t.destination(j) == s.destination(j));
            }
        }
        assert(t.results_named()) by {
            assert forall|i: int| 0 <= i < t.integer_queue.len() implies t.names(
                (#[trigger] t.integer_queue[i]).pc,
                t.integer_queue[i].dest_register,
            ) by {
                let i0 = choose|i0: int|
                    0 <= i0 < s.integer_queue.len() && t.integer_queue[i] == s.integer_queue[i0];
                assert(s.names(s.integer_queue[i0].pc, s.integer_queue[i0].dest_register));
            }
            assert forall|k: int| 0 <= k < t.alus.len() && (#[trigger] t.alus[k]).is_forwarding implies t.names(
                t.alus[k].forwarding_pc,
                t.alus[k].forwarding_reg,
            ) by {
                assert(s.alus[k].is_forwarding);
                assert(s.names(s.alus[k].forwarding_pc, s.alus[k].forwarding_reg));
            }
            assert forall|i: int| 0 <= i < t.commit_buffer.len() implies t.names(
                (#[trigger] t.commit_buffer[i]).pc,
                t.commit_buffer[i].dest_register,
            ) by {
                assert(s.names(s.commit_buffer[i].pc, s.commit_buffer[i].dest_register));
            }
        }
        assert(t.busy_in_flight()) by {
            assert forall|r: int|
                0 <= r < t.busy_bit_table.len() && #[trigger] t.busy_bit_table[r] implies exists|
                j: int,
            |
                0 <= j < t.active_list.len() && #[trigger] t.destination(j) == r by {
                let j = choose|j: int| 0 <= j < s.active_list.len() && #[trigger] s.destination(j) == r;
                assert(t.destination(j) == r);
            }
        }
        assert(t.issued_before(limit)) by {
            assert forall|i: int| 0 <= i < t.integer_queue.len() implies (
            #[trigger] t.integer_queue[i]).pc < limit by {
                let i0 = choose|i0: int|
                    0 <= i0 < s.integer_queue.len() && t.integer_queue[i] == s.integer_queue[i0];
                assert(s.integer_queue[i0].pc < limit);
            }
            assert forall|k: int| 0 <= k < t.alus.len() && (#[trigger] t.alus[k]).is_forwarding implies t.alus[k].forwarding_pc
                < limit by {
                assert(s.alus[k].is_forwarding);
            }
        }
        assert(latched_named(t, limit)) by {
            assert(s.names(s.integer_queue[at].pc, s.integer_queue[at].dest_register));
            assert(s.integer_queue[at].pc < limit);
            assert forall|k: int| 0 <= k < t.alus.len() implies ((#[trigger] t.alus[k]).stage1 matches Some(
                entry,
            ) ==> t.names(entry.pc, entry.dest_register) && entry.pc < limit) by {
                if k != unit {
                    assert(t.alus[k] == s.alus[k]);
                    if let Some(entry) = s.alus[k].stage1 {
                        assert(s.names(entry.pc, entry.dest_register));
                    }
                }
            }
        }
    }
}

/// Issuing instructions keeps the state steady.
proof fn lemma_issue_up_to_steady(s: ProcessorState, budget: nat, limit: int)
    requires
        s.steady(),
        !s.exception_mode,
        s.issued_before(limit),
        latched_named(s, limit),
    ensures
        s.issue_up_to(budget).steady(),
        s.issue_up_to(budget).issued_before(limit),
        latched_named(s.issue_up_to(budget), limit),
    decreases budget,
{
    if budget > 0 {
        lemma_issue_one_steady(s, limit);
        lemma_issue_up_to_steady(s.issue_one(), (budget - 1) as nat, limit);
    }
}

/// The issue stage keeps the state steady and touches the integer queue and
/// the ALUs only.
proof fn lemma_issue_stage_steady(s: ProcessorState, limit: int)
    requires
        s.steady(),
        s.latches_empty(),
        !s.exception_mode,
        s.issued_before(limit),
    ensures
        s.issue_stage().steady(),
        s.issue_stage().latches_empty(),
        s.issue_stage().issued_before(limit),
        s.issue_stage() == (ProcessorState {
            integer_queue: s.issue_stage().integer_queue,
            alus: s.issue_stage().alus,
            ..s
        }),
{
    if !s.exception_incoming() {
        let absorbed = ProcessorState {
            integer_queue: absorb_all(s.integer_queue, s.alus),
            ..s
        };
        lemma_absorb_all_keeps(s.integer_queue, s.alus);
        assert forall|pc: u64, register: u8| s.names(pc, register) implies absorbed.names(
            pc,
            register,
        ) by {
            assert forall|j: int|
                0 <= j < absorbed.active_list.len() && (#[trigger] absorbed.active_list[j]).pc
                    == pc implies absorbed.destination(j) == register by {
                assert(absorbed.destination(j) == s.destination(j));
            }
        }
        assert(absorbed.results_named()) by {
            assert forall|i: int| 0 <= i < absorbed.integer_queue.len() implies absorbed.names(
                (#[trigger] absorbed.integer_queue[i]).pc,
                absorbed.integer_queue[i].dest_register,
            ) by {
                assert(s.names(s.integer_queue[i].pc, s.integer_queue[i].dest_register));
            }
            assert forall|k: int|
                0 <= k < absorbed.alus.len() && (#[trigger] absorbed.alus[k]).is_forwarding implies absorbed.names(
                absorbed.alus[k].forwarding_pc,
                absorbed.alus[k].forwarding_reg,
            ) by {
                assert(s.names(s.alus[k].forwarding_pc, s.alus[k].forwarding_reg));
            }
            assert forall|i: int| 0 <= i < absorbed.commit_buffer.len() implies absorbed.names(
                (#[trigger] absorbed.commit_buffer[i]).pc,
                absorbed.commit_buffer[i].dest_register,
            ) by {
                assert(s.names(s.commit_buffer[i].pc, s.commit_buffer[i].dest_register));
            }
        }
        assert(absorbed.busy_in_flight()) by {
            assert forall|r: int|
                0 <= r < absorbed.busy_bit_table.len() && #[trigger] absorbed.busy_bit_table[r] implies exists|
                j: int,
            |
                0 <= j < absorbed.active_list.len() && #[trigger] absorbed.destination(j) == r by {
                let j = choose|j: int| 0 <= j < s.active_list.len() && #[trigger] s.destination(j) == r;
                assert(absorbed.destination(j) == r);
            }
        }
        assert(absorbed.shaped()) by {
            assert forall|i: int| 0 <= i < absorbed.integer_queue.len() implies (
            #[trigger] absorbed.integer_queue[i]).dest_register < 64 by {
                assert(s.integer_queue[i].dest_register < 64);
            }
        }
        assert(absorbed.issued_before(limit)) by {
            assert forall|i: int| 0 <= i < absorbed.integer_queue.len() implies (
            #[trigger] absorbed.integer_queue[i]).pc < limit by {
                assert(s.integer_queue[i].pc < limit);
            }
        }
        assert(absorbed.steady());
        assert(latched_named(absorbed, limit));
        lemma_issue_up_to_steady(absorbed, 4, limit);
        lemma_issue_up_to_keeps(absorbed, 4);
        let issued = absorbed.issue_up_to(4);
        let t = s.issue_stage();
        assert(t.alus.len() == issued.alus.len());
        assert forall|k: int| 0 <= k < t.alus.len() implies #[trigger] t.alus[k]
            == issued.alus[k].executed() by {}
        assert forall|pc: u64, register: u8| issued.names(pc, register) implies t.names(
            pc,
            register,
        ) by {
            assert forall|j: int|
                0 <= j < t.active_list.len() && (#[trigger] t.active_list[j]).pc == pc implies t.destination(
                j,
            ) == register by {
                assert(t.destination(j) == issued.destination(j));
            }
        }
        assert(t.results_named()) by {
            assert forall|i: int| 0 <= i < t.integer_queue.len() implies t.names(
                (#[trigger] t.integer_queue[i]).pc,
                t.integer_queue[i].dest_register,
            ) by {
                assert(issued.names(issued.integer_queue[i].pc, issued.integer_queue[i].dest_register));
            }
            assert forall|k: int| 0 <= k < t.alus.len() && (#[trigger] t.alus[k]).is_forwarding implies t.names(
                t.alus[k].forwarding_pc,
                t.alus[k].forwarding_reg,
            ) by {
                let entry = issued.alus[k].stage1->Some_0;
                assert(issued.alus[k].stage1 is Some);
                assert(issued.names(entry.pc, entry.dest_register));
            }
            assert forall|i: int| 0 <= i < t.commit_buffer.len() implies t.names(
                (#[trigger] t.commit_buffer[i]).pc,
                t.commit_buffer[i].dest_register,
            ) by {
                assert(issued.names(issued.commit_buffer[i].pc, issued.commit_buffer[i].dest_register));
            }
        }
        assert(t.busy_in_flight()) by {
            assert forall|r: int|
                0 <= r < t.busy_bit_table.len() && #[trigger] t.busy_bit_table[r] implies exists|
                j: int,
            |
                0 <= j < t.active_list.len() && #[trigger] t.destination(j) == r by {
                let j = choose|j: int|
                    0 <= j < issued.active_list.len() && #[trigger] issued.destination(j) == r;
                assert(t.destination(j) == r);
            }
        }
        assert(t.shaped()) by {
            assert forall|k: int|
                0 <= k < t.alus.len() && (#[trigger] t.alus[k]).is_forwarding implies t.alus[k].forwarding_reg
                < 64 by {
                assert(issued.alus[k].stage1 is Some);
                assert(issued.alus[k].stage1->Some_0.dest_register < 64);
            }
            assert forall|k: int| 0 <= k < t.alus.len() implies ((#[trigger] t.alus[k]).stage1 matches Some(
                entry,
            ) ==> entry.dest_register < 64) by {}
            assert forall|i: int| 0 <= i < t.integer_queue.len() implies (
            #[trigger] t.integer_queue[i]).dest_register < 64 by {
                assert(issued.integer_queue[i].dest_register < 64);
            }
        }
        assert(t.issued_before(limit)) by {
            assert forall|i: int| 0 <= i < t.integer_queue.len() implies (
            #[trigger] t.integer_queue[i]).pc < limit by {
                assert(issued.integer_queue[i].pc < limit);
            }
            assert forall|k: int| 0 <= k < t.alus.len() && (#[trigger] t.alus[k]).is_forwarding implies t.alus[k].forwarding_pc
                < limit by {
                assert(issued.alus[k].stage1 is Some);
            }
        }
        assert(t.latches_empty()) by {
            assert forall|k: int| 0 <= k < t.alus.len() implies (#[trigger] t.alus[k]).stage1 is None by {}
        }
        assert(t.steady());
    }
}

// ----- rename and dispatch -----

/// A rename takes the head of the free list as the new mapping, lists the
/// mapping that it replaces, and keeps the registers partitioned.
proof fn lemma_rename_partitioned(s: ProcessorState, start: ProcessorState, decoded: DecodedInstruction)
    requires
        s.partitioned(),
        s.shaped(),
        decoded.well_formed(),
        s.free_list.len() > 0,
    ensures
        s.rename(start, decoded).partitioned(),
{
    let t = s.rename(start, decoded);
    let n = s.free_list.len() as int;
    let m = s.active_list.len() as int;
    let logical = decoded.logical_destination as int;
    let allocated = s.free_list[0];
    let replaced = s.register_map_table[logical];
    assert(t.free_list.len() == n - 1);
    assert(t.active_list.len() == m + 1);
    assert forall|i: int| 0 <= i < m implies #[trigger] t.active_list[i] == s.active_list[i] by {}
    assert(t.active_list[m].old_destination == replaced);
    assert forall|i: int| 0 <= i < n - 1 implies #[trigger] t.free_list[i] == s.free_list[i + 1] by {}
    assert forall|i: int, j: int| 0 <= i < j < t.free_list.len() implies #[trigger] t.free_list[i]
        != #[trigger] t.free_list[j] by {
        assert(s.free_list[i + 1] != s.free_list[j + 1]);
    }
    assert forall|i: int, j: int|
        0 <= i < j < t.register_map_table.len() implies #[trigger] t.register_map_table[i]
        != #[trigger] t.register_map_table[j] by {
        if i == logical {
            assert(s.free_list[0] != s.register_map_table[j]);
        } else if j == logical {
            assert(s.free_list[0] != s.register_map_table[i]);
        } else {
            assert(s.register_map_table[i] != s.register_map_table[j]);
        }
    }
    assert forall|i: int, j: int| 0 <= i < j < t.active_list.len() implies (
    #[trigger] t.active_list[i]).old_destination != (
    #[trigger] t.active_list[j]).old_destination by {
        if j < m {
            assert(s.active_list[i].old_destination != s.active_list[j].old_destination);
        } else {
            assert(s.register_map_table[logical] != s.active_list[i].old_destination);
        }
    }
    assert forall|i: int, j: int|
        0 <= i < t.free_list.len() && 0 <= j < t.register_map_table.len() implies #[trigger] t.free_list[i]
        != #[trigger] t.register_map_table[j] by {
        if j == logical {
            assert(s.free_list[0] != s.free_list[i + 1]);
        } else {
            assert(s.free_list[i + 1] != s.register_map_table[j]);
        }
    }
    assert forall|i: int, j: int|
        0 <= i < t.free_list.len() && 0 <= j < t.active_list.len() implies #[trigger] t.free_list[i] != (
    #[trigger] t.active_list[j]).old_destination by {
        if j < m {
            assert(s.free_list[i + 1] != s.active_list[j].old_destination);
        } else {
            assert(s.free_list[i + 1] != s.register_map_table[logical]);
        }
    }
    assert forall|i: int, j: int|
        0 <= i < t.register_map_table.len() && 0 <= j < t.active_list.len() implies #[trigger] t.register_map_table[i]
        != (#[trigger] t.active_list[j]).old_destination by {
        if i == logical {
            if j < m {
                assert(s.free_list[0] != s.active_list[j].old_destination);
            } else {
                assert(s.free_list[0] != s.register_map_table[logical]);
            }
        } else {
            if j < m {
                assert(s.register_map_table[i] != s.active_list[j].old_destination);
            } else if i < logical {
                assert(s.register_map_table[i] != s.register_map_table[logical]);
            } else {
                assert(s.register_map_table[logical] != s.register_map_table[i]);
            }
        }
    }
}

/// Renaming and dispatching an instruction that is younger than everything
/// dispatched keeps the state steady.
proof fn lemma_rename_steady(s: ProcessorState, start: ProcessorState, decoded: DecodedInstruction)
    requires
        s.steady(),
        !s.exception_mode,
        decoded.well_formed(),
        s.free_list.len() > 0,
        s.active_list.len() < 32,
        s.integer_queue.len() < 32,
        s.issued_before(decoded.pc as int),
        s.listed_before(decoded.pc as int),
    ensures
        s.rename(start, decoded).steady(),
        s.rename(start, decoded).issued_before(decoded.pc + 1),
        s.rename(start, decoded).listed_before(decoded.pc + 1),
        s.rename(start, decoded).active_list.len() == s.active_list.len() + 1,
        s.rename(start, decoded).integer_queue.len() == s.integer_queue.len() + 1,
        s.rename(start, decoded).free_list.len() == s.free_list.len() - 1,
{
    let t = s.rename(start, decoded);
    let m = s.active_list.len() as int;
    let allocated = s.free_list[0];
    let entry = s.list_entry(decoded);
    lemma_rename_shaped(s, start, decoded);
    lemma_rename_partitioned(s, start, decoded);
    assert(t.active_list[m] == entry);
    assert forall|j: int| 0 <= j < m implies #[trigger] t.active_list[j] == s.active_list[j]
        && t.destination(j) == s.destination(j) by {
        lemma_mapping_rename(
            s.active_list,
            s.register_map_table,
            entry,
            allocated,
            s.active_list[j].logical_destination,
            j + 1,
        );
    }
    assert(t.destination(m) == allocated);
    assert(t.ordered()) by {
        assert forall|i: int, j: int| 0 <= i < j < t.active_list.len() implies (
        #[trigger] t.active_list[i]).pc < (#[trigger] t.active_list[j]).pc by {
            if j < m {
                assert(s.active_list[i].pc < s.active_list[j].pc);
            } else {
                assert(s.active_list[i].pc < decoded.pc);
            }
        }
    }
    assert(t.writes_buffered()) by {
        assert forall|j: int|
            0 <= j < t.active_list.len() && (#[trigger] t.active_list[j]).is_done implies has_pending(
            t.commit_buffer,
            t.active_list[j].pc,
        ) by {
            assert(s.active_list[j].is_done);
        }
    }
    assert forall|pc: u64, register: u8| s.names(pc, register) && pc < decoded.pc implies t.names(
        pc,
        register,
    ) by {
        assert forall|j: int|
            0 <= j < t.active_list.len() && (#[trigger] t.active_list[j]).pc == pc implies t.destination(
            j,
        ) == register by {
            assert(j < m);
            assert(s.active_list[j].pc == pc);
        }
    }
    assert(t.names(decoded.pc, allocated)) by {
        assert forall|j: int|
            0 <= j < t.active_list.len() && (#[trigger] t.active_list[j]).pc
                == decoded.pc implies t.destination(j) == allocated by {
            if j < m {
                assert(s.active_list[j].pc < decoded.pc);
            }
        }
    }
    assert(t.results_named()) by {
        assert forall|i: int| 0 <= i < t.integer_queue.len() implies t.names(
            (#[trigger] t.integer_queue[i]).pc,
            t.integer_queue[i].dest_register,
        ) by {
            if i < s.integer_queue.len() {
                assert(t.integer_queue[i] == s.integer_queue[i]);
                assert(s.names(s.integer_queue[i].pc, s.integer_queue[i].dest_register));
                assert(s.integer_queue[i].pc < decoded.pc);
            } else {
                assert(t.integer_queue[i] == s.queue_entry(start, decoded));
            }
        }
        assert forall|k: int| 0 <= k < t.alus.len() && (#[trigger] t.alus[k]).is_forwarding implies t.names(
            t.alus[k].forwarding_pc,
            t.alus[k].forwarding_reg,
        ) by {
            assert(s.names(s.alus[k].forwarding_pc, s.alus[k].forwarding_reg));
            assert(s.alus[k].forwarding_pc < decoded.pc);
        }
        assert forall|i: int| 0 <= i < t.commit_buffer.len() implies t.names(
            (#[trigger] t.commit_buffer[i]).pc,
            t.commit_buffer[i].dest_register,
        ) by {
            assert(s.names(s.commit_buffer[i].pc, s.commit_buffer[i].dest_register));
            assert(s.commit_buffer[i].pc < decoded.pc);
        }
    }
    assert(t.busy_in_flight()) by {
        assert forall|r: int|
            0 <= r < t.busy_bit_table.len() && #[trigger] t.busy_bit_table[r] implies exists|j: int|
            0 <= j < t.active_list.len() && #[trigger] t.destination(j) == r by {
            if r == allocated {
                assert(t.destination(m) == r);
            } else {
                assert(s.busy_bit_table[r]);
                let j = choose|j: int| 0 <= j < s.active_list.len() && #[trigger] s.destination(j) == r;
                assert(t.destination(j) == r);
            }
        }
    }
    assert(t.issued_before(decoded.pc + 1)) by {
        assert forall|i: int| 0 <= i < t.integer_queue.len() implies (
        #[trigger] t.integer_queue[i]).pc < decoded.pc + 1 by {
            if i < s.integer_queue.len() {
                assert(t.integer_queue[i] == s.integer_queue[i]);
            }
        }
    }
    assert(t.listed_before(decoded.pc + 1)) by {
        assert forall|j: int| 0 <= j < t.active_list.len() implies (#[trigger] t.active_list[j]).pc
            < decoded.pc + 1 by {
            if j < m {
                assert(s.active_list[j].pc < decoded.pc);
            }
        }
    }
}

/// A bound that holds of everything dispatched holds under every larger
/// bound.
proof fn lemma_before_larger(s: ProcessorState, limit: int, larger: int)
    requires
        s.issued_before(limit),
        s.listed_before(limit),
        limit <= larger,
    ensures
        s.issued_before(larger),
        s.listed_before(larger),
{
    assert forall|j: int| 0 <= j < s.active_list.len() implies (#[trigger] s.active_list[j]).pc
        < larger by {
        assert(s.active_list[j].pc < limit);
    }
}

/// Renaming and dispatching the first `count` of the instructions
/// `decoded`, which are in program order and younger than everything
/// dispatched, keeps the state steady.
proof fn lemma_rename_all_steady(
    s: ProcessorState,
    start: ProcessorState,
    decoded: Seq<DecodedInstruction>,
    count: int,
    limit: int,
    top: int,
)
    requires
        s.steady(),
        !s.exception_mode,
        0 <= count <= decoded.len(),
        forall|i: int| 0 <= i < decoded.len() ==> (#[trigger] decoded[i]).well_formed(),
        forall|i: int, j: int|
            0 <= i < j < decoded.len() ==> (#[trigger] decoded[i]).pc < (#[trigger] decoded[j]).pc,
        s.free_list.len() >= decoded.len(),
        s.active_list.len() + decoded.len() <= 32,
        s.integer_queue.len() + decoded.len() <= 32,
        s.issued_before(limit),
        s.listed_before(limit),
        forall|i: int| 0 <= i < decoded.len() ==> limit <= (#[trigger] decoded[i]).pc,
        limit <= top,
        forall|i: int| 0 <= i < count ==> (#[trigger] decoded[i]).pc < top,
    ensures
        s.rename_all(start, decoded.take(count)).steady(),
        s.rename_all(start, decoded.take(count)).issued_before(top),
        s.rename_all(start, decoded.take(count)).listed_before(top),
        s.rename_all(start, decoded.take(count)).active_list.len() == s.active_list.len() + count,
        s.rename_all(start, decoded.take(count)).integer_queue.len() == s.integer_queue.len()
            + count,
        s.rename_all(start, decoded.take(count)).free_list.len() == s.free_list.len() - count,
    decreases count,
{
    if count == 0 {
        lemma_before_larger(s, limit, top);
    } else {
        let last = decoded[count - 1];
        assert(decoded.take(count).drop_last() =~= decoded.take(count - 1));
        assert(decoded.take(count).last() == last);
        lemma_rename_all_steady(s, start, decoded, count - 1, limit, last.pc as int);
        let before = s.rename_all(start, decoded.take(count - 1));
        lemma_rename_all_keeps(s, start, decoded.take(count - 1));
        lemma_rename_steady(before, start, last);
        lemma_before_larger(before.rename(start, last), last.pc + 1, top);
    }
}

/// The rename and dispatch stage keeps the state steady.
proof fn lemma_dispatch_stage_steady(s: ProcessorState, start: ProcessorState)
    requires
        s.steady(),
        s.latches_empty(),
        !s.exception_mode,
        start.shaped(),
        start.fetch_ordered(),
        s.pc == start.pc,
        s.decoded_instructions == start.decoded_instructions,
        s.decoded_pcs == start.decoded_pcs,
        s.issued_before(start.frontier()),
        s.listed_before(start.frontier()),
    ensures
        s.dispatch_stage(start).steady(),
        s.dispatch_stage(start).latches_empty(),
        !s.dispatch_stage(start).exception_mode,
        s.dispatch_stage(start).pc == start.pc,
        s.has_sufficient_resources() ==> s.dispatch_stage(start).decoded_instructions.len() == 0
            && s.dispatch_stage(start).decoded_pcs.len() == 0 && s.dispatch_stage(
            start,
        ).issued_before(start.pc as int) && s.dispatch_stage(start).listed_before(start.pc as int),
        !s.has_sufficient_resources() ==> s.dispatch_stage(start) == s,
{
    if s.has_sufficient_resources() {
        let decoded = start.decoded_instructions;
        let count = decoded.len() as int;
        assert(decoded.take(count) =~= decoded);
        assert forall|i: int| 0 <= i < decoded.len() implies start.frontier() <= (
        #[trigger] decoded[i]).pc by {
            if i > 0 {
                assert(decoded[0].pc < decoded[i].pc);
            }
        }
        lemma_rename_all_steady(s, start, decoded, count, start.frontier(), start.pc as int);
        lemma_rename_all_keeps(s, start, decoded);
        let renamed = s.rename_all(start, decoded);
        let t = s.dispatch_stage(start);
        assert forall|j: int| 0 <= j < t.active_list.len() implies t.destination(j)
            == renamed.destination(j) by {}
        assert forall|pc: u64, register: u8| renamed.names(pc, register) implies t.names(
            pc,
            register,
        ) by {
            assert forall|j: int|
                0 <= j < t.active_list.len() && (#[trigger] t.active_list[j]).pc == pc implies t.destination(
                j,
            ) == register by {
                assert(t.destination(j) == renamed.destination(j));
            }
        }
        assert(t.results_named()) by {
            assert forall|i: int| 0 <= i < t.integer_queue.len() implies t.names(
                (#[trigger] t.integer_queue[i]).pc,
                t.integer_queue[i].dest_register,
            ) by {
                assert(renamed.names(
                    renamed.integer_queue[i].pc,
                    renamed.integer_queue[i].dest_register,
                ));
            }
            assert forall|k: int| 0 <= k < t.alus.len() && (#[trigger] t.alus[k]).is_forwarding implies t.names(
                t.alus[k].forwarding_pc,
                t.alus[k].forwarding_reg,
            ) by {
                assert(renamed.names(renamed.alus[k].forwarding_pc, renamed.alus[k].forwarding_reg));
            }
            assert forall|i: int| 0 <= i < t.commit_buffer.len() implies t.names(
                (#[trigger] t.commit_buffer[i]).pc,
                t.commit_buffer[i].dest_register,
            ) by {
                assert(renamed.names(
                    renamed.commit_buffer[i].pc,
                    renamed.commit_buffer[i].dest_register,
                ));
            }
        }
        assert(t.busy_in_flight()) by {
            assert forall|r: int|
                0 <= r < t.busy_bit_table.len() && #[trigger] t.busy_bit_table[r] implies exists|
                j: int,
            |
                0 <= j < t.active_list.len() && #[trigger] t.destination(j) == r by {
                let j = choose|j: int|
                    0 <= j < renamed.active_list.len() && #[trigger] renamed.destination(j) == r;
                assert(t.destination(j) == r);
            }
        }
        assert(t.steady());
    }
}

// ----- fetch and decode -----

/// What fetch relies on and keeps: the state is steady and its decoded
/// buffer is in program order behind everything dispatched.
spec fn fetchable(s: ProcessorState) -> bool {
    &&& s.steady()
    &&& s.latches_empty()
    &&& !s.exception_mode
    &&& s.fetch_ordered()
    &&& s.pc + (4 - s.decoded_instructions.len()) <= u64::MAX
}

/// Fetching an instruction keeps the state fit for fetch.
proof fn lemma_fetch_one_fetchable(s: ProcessorState, text: Seq<char>)
    requires
        fetchable(s),
        s.decoded_instructions.len() < 4,
        decode_text(text, 0) is Ok,
    ensures
        fetchable(s.fetch_one(text)),
{
    let t = s.fetch_one(text);
    lemma_decode_text(text, s.pc);
    let decoded = decode_text(text, s.pc)->Ok_0;
    let n = s.decoded_instructions.len() as int;
    assert(t.decoded_instructions[n] == decoded);
    assert forall|i: int| 0 <= i < n implies #[trigger] t.decoded_instructions[i]
        == s.decoded_instructions[i] by {}
    assert(t.frontier() == s.frontier());
    assert forall|j: int| 0 <= j < t.active_list.len() implies t.destination(j) == s.destination(
        j,
    ) by {}
    assert forall|pc: u64, register: u8| s.names(pc, register) implies t.names(pc, register) by {
        assert forall|j: int|
            0 <= j < t.active_list.len() && (#[trigger] t.active_list[j]).pc == pc implies t.destination(
            j,
        ) == register by {
            assert(t.destination(j) == s.destination(j));
        }
    }
    assert(t.results_named()) by {
        assert forall|i: int| 0 <= i < t.integer_queue.len() implies t.names(
            (#[trigger] t.integer_queue[i]).pc,
            t.integer_queue[i].dest_register,
        ) by {
            assert(s.names(s.integer_queue[i].pc, s.integer_queue[i].dest_register));
        }
        assert forall|k: int| 0 <= k < t.alus.len() && (#[trigger] t.alus[k]).is_forwarding implies t.names(
            t.alus[k].forwarding_pc,
            t.alus[k].forwarding_reg,
        ) by {
            assert(s.names(s.alus[k].forwarding_pc, s.alus[k].forwarding_reg));
        }
        assert forall|i: int| 0 <= i < t.commit_buffer.len() implies t.names(
            (#[trigger] t.commit_buffer[i]).pc,
            t.commit_buffer[i].dest_register,
        ) by {
            assert(s.names(s.commit_buffer[i].pc, s.commit_buffer[i].dest_register));
        }
    }
    assert(t.busy_in_flight()) by {
        assert forall|r: int|
            0 <= r < t.busy_bit_table.len() && #[trigger] t.busy_bit_table[r] implies exists|j: int|
            0 <= j < t.active_list.len() && #[trigger] t.destination(j) == r by {
            let j = choose|j: int| 0 <= j < s.active_list.len() && #[trigger] s.destination(j) == r;
            assert(t.destination(j) == r);
        }
    }
    assert(t.shaped()) by {
        assert forall|i: int| 0 <= i < t.decoded_instructions.len() implies (
        #[trigger] t.decoded_instructions[i]).well_formed() by {
            if i < n {
                assert(s.decoded_instructions[i].well_formed());
            }
        }
        assert forall|i: int| 0 <= i < t.decoded_pcs.len() implies #[trigger] t.decoded_pcs[i]
            == t.decoded_instructions[i].pc by {
            if i < n {
                assert(s.decoded_pcs[i] == s.decoded_instructions[i].pc);
            }
        }
    }
    assert(t.fetch_ordered()) by {
        assert forall|i: int, j: int| 0 <= i < j < t.decoded_instructions.len() implies (
        #[trigger] t.decoded_instructions[i]).pc < (#[trigger] t.decoded_instructions[j]).pc by {
            if j < n {
                assert(s.decoded_instructions[i].pc < s.decoded_instructions[j].pc);
            } else {
                assert(s.decoded_instructions[i].pc < s.pc);
            }
        }
        assert forall|j: int| 0 <= j < t.decoded_instructions.len() implies (
        #[trigger] t.decoded_instructions[j]).pc < t.pc by {
            if j < n {
                assert(s.decoded_instructions[j].pc < s.pc);
            }
        }
    }
    assert(t.steady());
}

/// Filling the decoded buffer keeps the state fit for fetch.
proof fn lemma_fetch_fetchable(s: ProcessorState, stream: Seq<Seq<char>>)
    requires
        fetchable(s),
        valid_stream(stream),
    ensures
        fetchable(s.fetch(stream).0),
        s.fetch(stream).1.len() <= stream.len(),
        s.fetch(stream).1 == stream.take(s.fetch(stream).1.len() as int),
        stream.len() - s.fetch(stream).1.len() == s.fetch_count(stream.len()),
        s.fetch(stream).0.pc == s.pc + s.fetch_count(stream.len()),
    decreases stream.len(),
{
    if s.decoded_instructions.len() >= 4 || stream.len() == 0 {
        assert(stream.take(stream.len() as int) =~= stream);
    } else {
        assert(decode_text(stream[stream.len() - 1], 0) is Ok);
        lemma_fetch_one_fetchable(s, stream.last());
        assert forall|i: int| 0 <= i < stream.drop_last().len() implies decode_text(
            #[trigger] stream.drop_last()[i],
            0,
        ) is Ok by {
            assert(decode_text(stream[i], 0) is Ok);
        }
        lemma_fetch_fetchable(s.fetch_one(stream.last()), stream.drop_last());
        let rest = s.fetch(stream).1;
        assert(rest =~= stream.take(rest.len() as int));
    }
}

// ----- the cycle -----

/// In a steady state no register of the free list is busy.
proof fn lemma_free_registers_idle(s: ProcessorState)
    requires
        s.steady(),
    ensures
        s.free_registers_idle(),
{
    assert forall|i: int| 0 <= i < s.free_list.len() implies !s.busy_bit_table[(
    #[trigger] s.free_list[i]) as int] by {
        let r = s.free_list[i] as int;
        if s.busy_bit_table[r] {
            let j = choose|j: int| 0 <= j < s.active_list.len() && #[trigger] s.destination(j) == r;
            lemma_mapping_listed(
                s.active_list,
                s.register_map_table,
                s.active_list[j].logical_destination,
                j + 1,
            );
        }
    }
}

/// The register that an entry allocated is a current mapping or a mapping
/// that a younger entry replaced.
proof fn lemma_mapping_listed(
    active_list: Seq<ActiveListEntry>,
    map: Seq<u8>,
    logical: u8,
    from: int,
)
    requires
        0 <= from,
    ensures
        mapping_after(active_list, map, logical, from) == map[logical as int] || exists|k: int|
            from <= k < active_list.len() && (#[trigger] active_list[k]).old_destination
                == mapping_after(active_list, map, logical, from),
    decreases active_list.len() - from,
{
    if from < active_list.len() {
        if active_list[from].logical_destination == logical {
            assert(active_list[from].old_destination == mapping_after(
                active_list,
                map,
                logical,
                from,
            ));
        } else {
            lemma_mapping_listed(active_list, map, logical, from + 1);
        }
    }
}

/// A cycle keeps the processor well formed.
pub proof fn lemma_step_wf(s: ProcessorState, stream: Seq<Seq<char>>)
    requires
        s.wf(),
        s.pc <= u64::MAX - 4,
        valid_stream(stream),
    ensures
        s.step(stream).0.wf(),
        s.step(stream).1.len() <= stream.len(),
        s.step(stream).1 == stream.take(s.step(stream).1.len() as int),
        s.step(stream).0.pc == EXCEPTION_PC || s.step(stream).0.pc + s.step(stream).1.len() == s.pc
            + stream.len(),
{
    let committed = s.commit_stage();
    lemma_commit_stage_steady(s);
    let next = s.step(stream).0;
    assert(stream.take(stream.len() as int) =~= stream);
    if committed.exception_mode {
        assert forall|j: int| 0 <= j < next.active_list.len() implies next.destination(j)
            == committed.destination(j) by {}
        assert forall|r: int|
            0 <= r < next.busy_bit_table.len() && #[trigger] next.busy_bit_table[r] implies exists|
            j: int,
        |
            0 <= j < next.active_list.len() && #[trigger] next.destination(j) == r by {
            let j = choose|j: int|
                0 <= j < committed.active_list.len() && #[trigger] committed.destination(j) == r;
            assert(next.destination(j) == r);
        }
        assert(next.steady());
        lemma_free_registers_idle(next);
    } else {
        lemma_issue_stage_steady(committed, s.frontier());
        let issued = committed.issue_stage();
        lemma_dispatch_stage_steady(issued, s);
        let dispatched = issued.dispatch_stage(s);
        if issued.has_sufficient_resources() {
            assert(fetchable(dispatched));
            lemma_fetch_fetchable(dispatched, stream);
        } else {
            assert(next == issued);
            assert(next.fetch_ordered());
        }
        lemma_free_registers_idle(next);
    }
}

/// Taking an exception keeps the processor well formed.
pub proof fn lemma_enter_exception_wf(s: ProcessorState, pc: u64)
    requires
        s.wf(),
    ensures
        s.enter_exception(pc).wf(),
{
    lemma_enter_exception_steady(s, pc, s.frontier());
    lemma_free_registers_idle(s.enter_exception(pc));
}

/// The processor is well formed at power-on.
pub proof fn lemma_initial_wf()
    ensures
        ProcessorState::initial().wf(),
{
    let s = ProcessorState::initial();
    assert(s.alus.len() == 4);
    assert forall|k: int| 0 <= k < s.alus.len() implies #[trigger] s.alus[k] == ALU::idle() by {}
}

} // verus!
