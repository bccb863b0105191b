//! What holds of every processor state and of every cycle.

use vstd::prelude::*;
use vstd::seq_lib::lemma_no_dup_in_concat;
use vstd::set_lib::lemma_subset_equality;
use crate::alu::ALU;
use crate::entries::{ActiveListEntry, IntegerQueueEntry};
use crate::instruction::{decode_text, DecodedInstruction};
use crate::model::{
    absorb_all, has_free_unit, has_ready, oldest_ready, valid_stream, ProcessorState, Stream,
    EXCEPTION_PC,
};
use crate::preservation::{lemma_initial_wf, lemma_mapping_roll_back, lemma_step_wf};
use crate::simulation::{drained, run, trace};
use crate::wellformed::{
    lemma_absorb_all_keeps, lemma_has_oldest_ready, lemma_issue_up_to_keeps,
    lemma_observe_all_committable, lemma_observe_all_keeps, lemma_pending_index,
    lemma_rename_all_keeps, lemma_retire_head_committable, lemma_roll_back_keeps,
    lemma_roll_back_last_shaped, mapping_after,
};

verus! {

// ----- every state of a simulation is well formed -----

/// Every state that a run records is well formed.
pub proof fn lemma_run_wf(s: ProcessorState, stream: Stream, room: nat)
    requires
        s.wf(),
        valid_stream(stream),
        s.pc + stream.len() <= u64::MAX - 4,
        EXCEPTION_PC + stream.len() <= u64::MAX - 4,
    ensures
        forall|i: int| 0 <= i < run(s, stream, room).len() ==> (#[trigger] run(s, stream, room)[i]).wf(),
    decreases room,
{
    if room > 0 && !drained(s, stream) {
        lemma_step_wf(s, stream);
        let (next, rest) = s.step(stream);
        assert forall|i: int| 0 <= i < rest.len() implies decode_text(
            #[trigger] rest[i],
            0,
        ) is Ok by {
            assert(rest[i] == stream[i]);
        }
        lemma_run_wf(next, rest, (room - 1) as nat);
        let tail = run(next, rest, (room - 1) as nat);
        assert forall|i: int| 0 <= i < run(s, stream, room).len() implies (#[trigger] run(
            s,
            stream,
            room,
        )[i]).wf() by {
            if i > 0 {
                assert(run(s, stream, room)[i] == tail[i - 1]);
            }
        }
    }
}

/// Every state in the log of a simulation is well formed: the processor is
/// well formed at power-on, and every cycle keeps it so.
pub proof fn lemma_trace_wf(stream: Stream, max_cycles: nat)
    requires
        valid_stream(stream),
        EXCEPTION_PC + stream.len() <= u64::MAX - 4,
    ensures
        forall|i: int|
            0 <= i < trace(stream, max_cycles).len() ==> (#[trigger] trace(stream, max_cycles)[i]).wf(),
{
    lemma_initial_wf();
    let room: nat = if max_cycles > 0 {
        (max_cycles - 1) as nat
    } else {
        0
    };
    lemma_run_wf(ProcessorState::initial(), stream, room);
    let tail = run(ProcessorState::initial(), stream, room);
    assert forall|i: int| 0 <= i < trace(stream, max_cycles).len() implies (#[trigger] trace(
        stream,
        max_cycles,
    )[i]).wf() by {
        if i > 0 {
            assert(trace(stream, max_cycles)[i] == tail[i - 1]);
        }
    }
}

// ----- what a well-formed state is -----

/// The queues of a well-formed state are within their capacities: at most
/// 32 entries in the active list, in the integer queue and in the free
/// list, and at most 4 in the decoded buffer.
pub proof fn lemma_capacities(s: ProcessorState)
    requires
        s.wf(),
    ensures
        s.active_list.len() <= 32,
        s.integer_queue.len() <= 32,
        s.decoded_instructions.len() <= 4,
        s.decoded_pcs.len() <= 4,
        s.free_list.len() <= 32,
{
}

/// The addresses of the active list of a well-formed state increase
/// strictly.
pub proof fn lemma_program_order(s: ProcessorState)
    requires
        s.wf(),
    ensures
        forall|i: int, j: int|
            0 <= i < j < s.active_list.len() ==> (#[trigger] s.active_list[i]).pc < (
            #[trigger] s.active_list[j]).pc,
{
}

/// In a well-formed state the free list, the register map table and the
/// replaced mappings of the active list together hold each of the 64
/// physical registers exactly once.
pub proof fn lemma_registers_partitioned(s: ProcessorState)
    requires
        s.wf(),
    ensures
        s.registers().len() == 64,
        s.registers().no_duplicates(),
        forall|r: u8| r < 64 ==> #[trigger] s.registers().to_multiset().count(r) == 1,
        forall|r: u8| r >= 64 ==> #[trigger] s.registers().to_multiset().count(r) == 0,
{
    let free = s.free_list;
    let map = s.register_map_table;
    let replaced = s.active_list.map_values(|entry: ActiveListEntry| entry.old_destination);
    let registers = s.registers();
    assert(free.no_duplicates());
    assert(map.no_duplicates());
    assert(replaced.no_duplicates()) by {
        assert forall|i: int, j: int|
            0 <= i < replaced.len() && 0 <= j < replaced.len() && i != j implies replaced[i]
            != replaced[j] by {
            if i < j {
                assert(s.active_list[i].old_destination != s.active_list[j].old_destination);
            } else {
                assert(s.active_list[j].old_destination != s.active_list[i].old_destination);
            }
        }
    }
    assert forall|i: int, j: int| 0 <= i < free.len() && 0 <= j < map.len() implies free[i]
        != map[j] by {}
    lemma_no_dup_in_concat(free, map);
    assert forall|i: int, j: int|
        0 <= i < (free + map).len() && 0 <= j < replaced.len() implies (free + map)[i]
        != replaced[j] by {
        if i < free.len() {
            assert(free[i] != s.active_list[j].old_destination);
        } else {
            assert(map[i - free.len()] != s.active_list[j].old_destination);
        }
    }
    lemma_no_dup_in_concat(free + map, replaced);
    assert(registers.no_duplicates());
    assert forall|i: int| 0 <= i < registers.len() implies #[trigger] registers[i] < 64 by {
        if i < free.len() {
            assert(free[i] < 64);
        } else if i < free.len() + map.len() {
            assert(map[i - free.len()] < 64);
        } else {
            assert(s.active_list[i - free.len() - map.len()].old_destination < 64);
        }
    }
    let all = Seq::new(64, |i: int| i as u8);
    assert(all.no_duplicates());
    all.unique_seq_to_set();
    registers.unique_seq_to_set();
    vstd::seq_lib::seq_to_set_is_finite(all);
    vstd::seq_lib::seq_to_set_is_finite(registers);
    assert(registers.to_set().subset_of(all.to_set())) by {
        assert forall|r: u8| registers.to_set().contains(r) implies all.to_set().contains(r) by {
            let i = choose|i: int| 0 <= i < registers.len() && registers[i] == r;
            assert(all[r as int] == r);
        }
    }
    lemma_subset_equality(registers.to_set(), all.to_set());
    registers.lemma_multiset_has_no_duplicates();
    registers.to_multiset_ensures();
    assert forall|r: u8| r < 64 implies #[trigger] registers.to_multiset().count(r) == 1 by {
        assert(all[r as int] == r);
        assert(all.to_set().contains(r));
        assert(registers.to_set().contains(r));
        assert(registers.contains(r));
    }
    assert forall|r: u8| r >= 64 implies #[trigger] registers.to_multiset().count(r) == 0 by {
        if registers.contains(r) {
            let i = choose|i: int| 0 <= i < registers.len() && registers[i] == r;
            assert(registers[i] < 64);
        }
    }
}

/// No register of the free list of a well-formed state is busy.
pub proof fn lemma_free_list_idle(s: ProcessorState)
    requires
        s.wf(),
    ensures
        forall|i: int|
            0 <= i < s.free_list.len() ==> !s.busy_bit_table[(#[trigger] s.free_list[i]) as int],
{
}

/// In exception mode the integer queue of a well-formed state is empty and
/// no ALU asserts its forwarding port.
pub proof fn lemma_exception_mode_quiet(s: ProcessorState)
    requires
        s.wf(),
        s.exception_mode,
    ensures
        s.integer_queue.len() == 0,
        forall|k: int| 0 <= k < s.alus.len() ==> !(#[trigger] s.alus[k]).is_forwarding,
{
}

/// Fetch leaves the exception mode alone.
proof fn lemma_fetch_keeps_mode(s: ProcessorState, stream: Stream)
    ensures
        s.fetch(stream).0.exception_mode == s.exception_mode,
    decreases stream.len(),
{
    if s.decoded_instructions.len() < 4 && stream.len() > 0 {
        lemma_fetch_keeps_mode(s.fetch_one(stream.last()), stream.drop_last());
    }
}

/// A cycle that ends in exception mode ends with an empty decoded buffer
/// and with fetch redirected.
pub proof fn lemma_exception_redirects_fetch(s: ProcessorState, stream: Stream)
    ensures
        s.step(stream).0.exception_mode ==> {
            &&& s.step(stream).0.decoded_instructions.len() == 0
            &&& s.step(stream).0.decoded_pcs.len() == 0
            &&& s.step(stream).0.pc == EXCEPTION_PC
            &&& s.step(stream).1 == stream
        },
{
    let committed = s.commit_stage();
    if !committed.exception_mode {
        let issued = committed.issue_stage();
        if !committed.exception_incoming() {
            let absorbed = ProcessorState {
                integer_queue: absorb_all(committed.integer_queue, committed.alus),
                ..committed
            };
            lemma_issue_up_to_keeps(absorbed, 4);
        }
        lemma_rename_all_keeps(issued, s, s.decoded_instructions);
        lemma_fetch_keeps_mode(issued.dispatch_stage(s), stream);
    }
}

// ----- what the stages amount to -----

/// The commit scan retires a prefix of the active list: entries that are
/// done and not excepted, oldest first. The registers that they replaced
/// join the free list in the same order. The scan takes an exception
/// exactly if it stops, with budget left, at an excepted entry.
pub proof fn lemma_commit_scan_retires_prefix(s: ProcessorState, budget: nat)
    requires
        !s.exception_mode,
    ensures
        ({
            let t = s.commit_scan(budget);
            let retired = s.active_list.len() - t.active_list.len();
            &&& 0 <= retired <= budget
            &&& retired <= s.active_list.len()
            &&& t.active_list == s.active_list.skip(retired)
            &&& t.free_list == s.free_list + s.active_list.take(retired).map_values(
                |entry: ActiveListEntry| entry.old_destination,
            )
            &&& forall|i: int|
                0 <= i < retired ==> (#[trigger] s.active_list[i]).is_done
                    && !s.active_list[i].is_exception
            &&& t.exception_mode <==> retired < budget && retired < s.active_list.len()
                && s.active_list[retired].is_exception
            &&& t.exception_mode ==> t.exception_pc == s.active_list[retired].pc
            &&& !t.exception_mode && retired < budget && retired < s.active_list.len()
                ==> !s.active_list[retired].is_done
        }),
    decreases budget,
{
    let t = s.commit_scan(budget);
    if budget == 0 || s.active_list.len() == 0 {
        assert(s.active_list.skip(0) =~= s.active_list);
        assert(s.free_list + s.active_list.take(0).map_values(
            |entry: ActiveListEntry| entry.old_destination,
        ) =~= s.free_list);
    } else if s.active_list[0].is_exception {
        assert(s.active_list.skip(0) =~= s.active_list);
        assert(s.free_list + s.active_list.take(0).map_values(
            |entry: ActiveListEntry| entry.old_destination,
        ) =~= s.free_list);
    } else if s.active_list[0].is_done {
        let u = s.retire_head();
        lemma_commit_scan_retires_prefix(u, (budget - 1) as nat);
        let before = u.active_list.len() - t.active_list.len();
        let retired = before + 1;
        assert(u.active_list.skip(before) =~= s.active_list.skip(retired));
        assert(u.free_list + u.active_list.take(before).map_values(
            |entry: ActiveListEntry| entry.old_destination,
        ) =~= s.free_list + s.active_list.take(retired).map_values(
            |entry: ActiveListEntry| entry.old_destination,
        ));
        assert forall|i: int| 0 <= i < retired implies (#[trigger] s.active_list[i]).is_done
            && !s.active_list[i].is_exception by {
            if i > 0 {
                assert(u.active_list[i - 1] == s.active_list[i]);
            }
        }
        if before < u.active_list.len() {
            assert(u.active_list[before] == s.active_list[retired]);
        }
    } else {
        assert(s.active_list.skip(0) =~= s.active_list);
        assert(s.free_list + s.active_list.take(0).map_values(
            |entry: ActiveListEntry| entry.old_destination,
        ) =~= s.free_list);
    }
}

/// A fetch appends to the decoded buffer the instructions at the end of the
/// stream, decoded at consecutive addresses from the fetch address on, and
/// takes them off the stream.
pub proof fn lemma_fetch_appends(s: ProcessorState, stream: Stream)
    requires
        s.pc + s.fetch_count(stream.len()) <= u64::MAX,
    ensures
        ({
            let (t, rest) = s.fetch(stream);
            let fetched = s.fetch_count(stream.len());
            let held = s.decoded_instructions.len();
            &&& rest == stream.take(stream.len() - fetched)
            &&& t.pc == s.pc + fetched
            &&& t.decoded_instructions.len() == held + fetched
            &&& t.decoded_instructions.take(held as int) == s.decoded_instructions
            &&& t.decoded_pcs == s.decoded_pcs + Seq::new(fetched, |i: int| (s.pc + i) as u64)
            &&& forall|i: int|
                0 <= i < fetched ==> #[trigger] t.decoded_instructions[held + i] == decode_text(
                    stream[stream.len() - 1 - i],
                    (s.pc + i) as u64,
                )->Ok_0
        }),
    decreases stream.len(),
{
    let held = s.decoded_instructions.len() as int;
    let fetched = s.fetch_count(stream.len());
    if held >= 4 || stream.len() == 0 {
        assert(stream.take(stream.len() as int) =~= stream);
        assert(s.decoded_instructions.take(held) =~= s.decoded_instructions);
        assert(s.decoded_pcs + Seq::new(0, |i: int| (s.pc + i) as u64) =~= s.decoded_pcs);
    } else {
        let u = s.fetch_one(stream.last());
        let shorter = stream.drop_last();
        lemma_fetch_appends(u, shorter);
        let (t, rest) = s.fetch(stream);
        let more = u.fetch_count(shorter.len());
        assert(fetched == more + 1);
        assert(rest =~= stream.take(stream.len() - fetched));
        assert(t.decoded_instructions.take(held) =~= s.decoded_instructions) by {
            assert(t.decoded_instructions.take(held + 1).take(held)
                =~= t.decoded_instructions.take(held));
        }
        assert(t.decoded_pcs =~= s.decoded_pcs + Seq::new(fetched, |i: int| (s.pc + i) as u64));
        assert forall|i: int| 0 <= i < fetched implies #[trigger] t.decoded_instructions[held + i]
            == decode_text(stream[stream.len() - 1 - i], (s.pc + i) as u64)->Ok_0 by {
            if i == 0 {
                assert(t.decoded_instructions.take(held + 1)[held] == u.decoded_instructions[held]);
            } else {
                assert(t.decoded_instructions[(held + 1) + (i - 1)] == decode_text(
                    shorter[shorter.len() - 1 - (i - 1)],
                    (u.pc + (i - 1)) as u64,
                )->Ok_0);
            }
        }
    }
}

// ----- issue order -----

/// Issue takes the ready entries in ascending order of their addresses: the
/// entry that issues is ready, no ready entry is older, and the entry that
/// issues after it is not older either.
pub proof fn lemma_issue_order(queue: Seq<IntegerQueueEntry>)
    requires
        has_ready(queue),
    ensures
        0 <= oldest_ready(queue) < queue.len(),
        queue[oldest_ready(queue)].ready(),
        forall|j: int|
            0 <= j < queue.len() && (#[trigger] queue[j]).ready() ==> queue[oldest_ready(queue)].pc
                <= queue[j].pc,
        has_ready(queue.remove(oldest_ready(queue))) ==> queue[oldest_ready(queue)].pc
            <= queue.remove(oldest_ready(queue))[oldest_ready(
            queue.remove(oldest_ready(queue)),
        )].pc,
{
    let some = choose|i: int| 0 <= i < queue.len() && (#[trigger] queue[i]).ready();
    lemma_has_oldest_ready(queue, some as nat);
    let at = oldest_ready(queue);
    let rest = queue.remove(at);
    if has_ready(rest) {
        let other = choose|i: int| 0 <= i < rest.len() && (#[trigger] rest[i]).ready();
        lemma_has_oldest_ready(rest, other as nat);
        let next = oldest_ready(rest);
        if next < at {
            assert(rest[next] == queue[next]);
        } else {
            assert(rest[next] == queue[next + 1]);
        }
    }
}

// ----- at most four per cycle -----

/// The commit scan retires at most as many entries as its budget.
pub proof fn lemma_commit_scan_count(s: ProcessorState, budget: nat)
    ensures
        s.commit_scan(budget).active_list.len() <= s.active_list.len(),
        s.active_list.len() - s.commit_scan(budget).active_list.len() <= budget,
    decreases budget,
{
    if budget > 0 && s.active_list.len() > 0 && !s.active_list[0].is_exception
        && s.active_list[0].is_done {
        lemma_commit_scan_count(s.retire_head(), (budget - 1) as nat);
    }
}

/// A rollback takes as many entries as its budget, or all.
pub proof fn lemma_roll_back_count(s: ProcessorState, budget: nat)
    ensures
        s.roll_back(budget).active_list.len() == if s.active_list.len() <= budget {
            0
        } else {
            s.active_list.len() - budget
        },
    decreases budget,
{
    if budget > 0 && s.active_list.len() > 0 {
        lemma_roll_back_count(s.roll_back_last(), (budget - 1) as nat);
    }
}

/// Issue takes at most as many entries from the queue as its budget.
pub proof fn lemma_issue_count(s: ProcessorState, budget: nat)
    ensures
        s.issue_up_to(budget).integer_queue.len() <= s.integer_queue.len(),
        s.integer_queue.len() - s.issue_up_to(budget).integer_queue.len() <= budget,
    decreases budget,
{
    if budget > 0 {
        if has_ready(s.integer_queue) && has_free_unit(s.alus) {
            let some = choose|i: int|
                0 <= i < s.integer_queue.len() && (#[trigger] s.integer_queue[i]).ready();
            lemma_has_oldest_ready(s.integer_queue, some as nat);
        }
        lemma_issue_count(s.issue_one(), (budget - 1) as nat);
    }
}

/// A rename of `decoded` dispatches as many instructions as `decoded` holds.
pub proof fn lemma_rename_count(
    s: ProcessorState,
    start: ProcessorState,
    decoded: Seq<DecodedInstruction>,
)
    ensures
        s.rename_all(start, decoded).active_list.len() == s.active_list.len() + decoded.len(),
        s.rename_all(start, decoded).integer_queue.len() == s.integer_queue.len() + decoded.len(),
    decreases decoded.len(),
{
    if decoded.len() > 0 {
        lemma_rename_count(s, start, decoded.drop_last());
    }
}

/// A fetch takes from the stream as many instructions as the decoded buffer
/// has room for, or all.
pub proof fn lemma_fetch_count(s: ProcessorState, stream: Stream)
    ensures
        s.fetch(stream).1.len() + s.fetch_count(stream.len()) == stream.len(),
        s.fetch_count(stream.len()) <= 4,
    decreases stream.len(),
{
    if s.decoded_instructions.len() < 4 && stream.len() > 0 {
        lemma_fetch_count(s.fetch_one(stream.last()), stream.drop_last());
    }
}

/// In one cycle at most four instructions retire, at most four are rolled
/// back, at most four issue, at most four are dispatched and at most four
/// are fetched.
pub proof fn lemma_at_most_four(s: ProcessorState, stream: Stream)
    requires
        s.wf(),
    ensures
        ({
            let committed = s.commit_stage();
            let issued = committed.issue_stage();
            let dispatched = issued.dispatch_stage(s);
            &&& committed.active_list.len() <= s.active_list.len()
            &&& s.active_list.len() - committed.active_list.len() <= 4
            &&& issued.integer_queue.len() <= committed.integer_queue.len()
            &&& committed.integer_queue.len() - issued.integer_queue.len() <= 4
            &&& issued.active_list.len() <= dispatched.active_list.len()
            &&& dispatched.active_list.len() - issued.active_list.len() <= 4
            &&& s.step(stream).1.len() <= stream.len()
            &&& stream.len() - s.step(stream).1.len() <= 4
        }),
{
    let committed = s.commit_stage();
    let issued = committed.issue_stage();
    lemma_roll_back_count(s, 4);
    lemma_observe_all_keeps(s, s.alus);
    lemma_commit_scan_count(s.observe_all(s.alus), 4);
    if !committed.exception_incoming() {
        let absorbed = ProcessorState {
            integer_queue: absorb_all(committed.integer_queue, committed.alus),
            ..committed
        };
        lemma_absorb_all_keeps(committed.integer_queue, committed.alus);
        lemma_issue_count(absorbed, 4);
        lemma_issue_up_to_keeps(absorbed, 4);
    }
    lemma_rename_count(issued, s, s.decoded_instructions);
    lemma_rename_all_keeps(issued, s, s.decoded_instructions);
    lemma_fetch_count(issued.dispatch_stage(s), stream);
    lemma_fetch_count(committed, stream);
}

// ----- what rename sees -----

/// The commit scan maps no register anew and sets no busy bit.
proof fn lemma_commit_scan_clears_only(s: ProcessorState, budget: nat)
    requires
        s.committable(),
        !s.exception_mode,
    ensures
        s.commit_scan(budget).register_map_table == s.register_map_table,
        s.commit_scan(budget).busy_bit_table.len() == s.busy_bit_table.len(),
        forall|r: int|
            0 <= r < s.busy_bit_table.len() && #[trigger] s.commit_scan(budget).busy_bit_table[r]
                ==> s.busy_bit_table[r],
    decreases budget,
{
    if budget > 0 && s.active_list.len() > 0 && !s.active_list[0].is_exception
        && s.active_list[0].is_done {
        lemma_retire_head_committable(s);
        lemma_pending_index(s.commit_buffer, s.active_list[0].pc);
        lemma_commit_scan_clears_only(s.retire_head(), (budget - 1) as nat);
    }
}

/// When rename starts, the register map table is the one of the start of
/// the cycle, and every register that is busy was busy at the start of the
/// cycle. So the first instruction that is renamed in a cycle finds its
/// operands mapped as at the start of the cycle, and ready exactly if they
/// were not busy then.
pub proof fn lemma_rename_sees_cycle_start(s: ProcessorState)
    requires
        s.wf(),
        !s.commit_stage().exception_mode,
    ensures
        s.commit_stage().issue_stage().register_map_table == s.register_map_table,
        forall|r: int|
            0 <= r < 64 && #[trigger] s.commit_stage().issue_stage().busy_bit_table[r]
                ==> s.busy_bit_table[r],
{
    let committed = s.commit_stage();
    let issued = committed.issue_stage();
    if !s.exception_mode {
        let seen = s.observe_all(s.alus);
        lemma_observe_all_keeps(s, s.alus);
        lemma_observe_all_committable(s, s.alus);
        lemma_commit_scan_clears_only(seen, 4);
        assert(seen.busy_bit_table == s.busy_bit_table);
        assert(seen.register_map_table == s.register_map_table);
    } else {
        lemma_roll_back_keeps(s, 4);
        assert(s.active_list.len() == 0);
    }
    assert(committed.register_map_table == s.register_map_table);
    if !committed.exception_incoming() {
        let absorbed = ProcessorState {
            integer_queue: absorb_all(committed.integer_queue, committed.alus),
            ..committed
        };
        lemma_issue_up_to_keeps(absorbed, 4);
    }
    assert(issued.busy_bit_table == committed.busy_bit_table);
    assert forall|r: int| 0 <= r < 64 && #[trigger] issued.busy_bit_table[r] implies s.busy_bit_table[r] by {
        if !s.exception_mode {
            assert(s.observe_all(s.alus).commit_scan(4).busy_bit_table[r]);
        }
    }
}

// ----- forwarding is idempotent -----

/// The entry after it has seen the ports of `alus`, one after the other.
pub open spec fn absorbed_entry(entry: IntegerQueueEntry, alus: Seq<ALU>) -> IntegerQueueEntry
    decreases alus.len(),
{
    if alus.len() == 0 {
        entry
    } else if alus.last().is_forwarding {
        absorbed_entry(entry, alus.drop_last()).forwarded(
            alus.last().forwarding_reg,
            alus.last().forwarding_value,
        )
    } else {
        absorbed_entry(entry, alus.drop_last())
    }
}

/// Forwarding works on each entry of the queue by itself.
proof fn lemma_absorb_all_entries(queue: Seq<IntegerQueueEntry>, alus: Seq<ALU>)
    ensures
        absorb_all(queue, alus).len() == queue.len(),
        forall|i: int|
            0 <= i < queue.len() ==> #[trigger] absorb_all(queue, alus)[i] == absorbed_entry(
                queue[i],
                alus,
            ),
    decreases alus.len(),
{
    if alus.len() > 0 {
        lemma_absorb_all_entries(queue, alus.drop_last());
    }
}

/// An operand that still waits after forwarding waits for a register that
/// no port shows.
proof fn lemma_absorbed_entry_waits(entry: IntegerQueueEntry, alus: Seq<ALU>)
    ensures
        ({
            let after = absorbed_entry(entry, alus);
            &&& !after.op_a_is_ready ==> after.op_a_reg_tag == entry.op_a_reg_tag && forall|k: int|
                0 <= k < alus.len() && (#[trigger] alus[k]).is_forwarding ==> alus[k].forwarding_reg
                    != after.op_a_reg_tag
            &&& !after.op_b_is_ready ==> after.op_b_reg_tag == entry.op_b_reg_tag && forall|k: int|
                0 <= k < alus.len() && (#[trigger] alus[k]).is_forwarding ==> alus[k].forwarding_reg
                    != after.op_b_reg_tag
        }),
    decreases alus.len(),
{
    if alus.len() > 0 {
        lemma_absorbed_entry_waits(entry, alus.drop_last());
        let before = absorbed_entry(entry, alus.drop_last());
        let after = absorbed_entry(entry, alus);
        if !after.op_a_is_ready {
            assert forall|k: int| 0 <= k < alus.len() && (#[trigger] alus[k]).is_forwarding implies alus[k].forwarding_reg
                != after.op_a_reg_tag by {
                if k < alus.len() - 1 {
                    assert(alus.drop_last()[k] == alus[k]);
                }
            }
        }
        if !after.op_b_is_ready {
            assert forall|k: int| 0 <= k < alus.len() && (#[trigger] alus[k]).is_forwarding implies alus[k].forwarding_reg
                != after.op_b_reg_tag by {
                if k < alus.len() - 1 {
                    assert(alus.drop_last()[k] == alus[k]);
                }
            }
        }
    }
}

/// An entry whose waiting operands wait for registers that no port shows
/// sees nothing in the ports.
proof fn lemma_absorbed_entry_fixed(entry: IntegerQueueEntry, alus: Seq<ALU>, count: int)
    requires
        0 <= count <= alus.len(),
        !entry.op_a_is_ready ==> forall|k: int|
            0 <= k < alus.len() && (#[trigger] alus[k]).is_forwarding ==> alus[k].forwarding_reg
                != entry.op_a_reg_tag,
        !entry.op_b_is_ready ==> forall|k: int|
            0 <= k < alus.len() && (#[trigger] alus[k]).is_forwarding ==> alus[k].forwarding_reg
                != entry.op_b_reg_tag,
    ensures
        absorbed_entry(entry, alus.take(count)) == entry,
    decreases count,
{
    if count > 0 {
        assert(alus.take(count).drop_last() =~= alus.take(count - 1));
        assert(alus.take(count).last() == alus[count - 1]);
        lemma_absorbed_entry_fixed(entry, alus, count - 1);
    }
}

/// Applying the forwarding ports to the integer queue twice yields the
/// same queue as applying them once.
pub proof fn lemma_forwarding_idempotent(queue: Seq<IntegerQueueEntry>, alus: Seq<ALU>)
    ensures
        absorb_all(absorb_all(queue, alus), alus) == absorb_all(queue, alus),
{
    let once = absorb_all(queue, alus);
    lemma_absorb_all_entries(queue, alus);
    lemma_absorb_all_entries(once, alus);
    assert forall|i: int| 0 <= i < once.len() implies absorb_all(once, alus)[i] == once[i] by {
        lemma_absorbed_entry_waits(queue[i], alus);
        lemma_absorbed_entry_fixed(once[i], alus, alus.len() as int);
        assert(alus.take(alus.len() as int) =~= alus);
    }
    assert(absorb_all(once, alus) =~= once);
}

// ----- rollback undoes dispatch -----

/// The instructions `decoded` are the youngest of the active list of `s`
/// and the register map table of `s` is as their rename left it, the rename
/// having started from the map `map` and taken the registers `allocated`
/// from the free list.
pub open spec fn dispatched_last(
    s: ProcessorState,
    map: Seq<u8>,
    allocated: Seq<u8>,
    decoded: Seq<DecodedInstruction>,
) -> bool
    decreases decoded.len(),
{
    if decoded.len() == 0 {
        s.register_map_table == map && allocated.len() == 0
    } else {
        let last = decoded.last();
        &&& allocated.len() == decoded.len()
        &&& s.active_list.len() > 0
        &&& s.active_list.last().logical_destination == last.logical_destination
        &&& s.register_map_table[last.logical_destination as int] == allocated.last()
        &&& dispatched_last(
            ProcessorState {
                active_list: s.active_list.drop_last(),
                register_map_table: s.register_map_table.update(
                    last.logical_destination as int,
                    s.active_list.last().old_destination,
                ),
                ..s
            },
            map,
            allocated.drop_last(),
            decoded.drop_last(),
        )
    }
}

/// Renaming and dispatching `decoded` leaves them the youngest of the
/// active list, with the registers at the head of the free list allocated.
proof fn lemma_rename_all_dispatched_last(
    s: ProcessorState,
    start: ProcessorState,
    decoded: Seq<DecodedInstruction>,
)
    requires
        s.shaped(),
        decoded.len() <= s.free_list.len(),
        forall|i: int| 0 <= i < decoded.len() ==> (#[trigger] decoded[i]).well_formed(),
    ensures
        dispatched_last(
            s.rename_all(start, decoded),
            s.register_map_table,
            s.free_list.take(decoded.len() as int),
            decoded,
        ),
        s.rename_all(start, decoded).free_list == s.free_list.skip(decoded.len() as int),
        s.rename_all(start, decoded).active_list.take(s.active_list.len() as int) == s.active_list,
        s.rename_all(start, decoded).active_list.len() == s.active_list.len() + decoded.len(),
        s.rename_all(start, decoded).register_map_table.len() == 32,
    decreases decoded.len(),
{
    let n = decoded.len() as int;
    if n == 0 {
        assert(s.free_list.skip(0) =~= s.free_list);
        assert(s.active_list.take(s.active_list.len() as int) =~= s.active_list);
    } else {
        let before = s.rename_all(start, decoded.drop_last());
        let last = decoded.last();
        assert(decoded[n - 1].well_formed());
        assert forall|i: int| 0 <= i < decoded.drop_last().len() implies (
        #[trigger] decoded.drop_last()[i]).well_formed() by {
            assert(decoded[i].well_formed());
        }
        lemma_rename_all_dispatched_last(s, start, decoded.drop_last());
        let after = before.rename(start, last);
        assert(before.free_list[0] == s.free_list[n - 1]);
        assert(after.free_list =~= s.free_list.skip(n));
        assert(after.active_list.take(s.active_list.len() as int) =~= before.active_list.take(
            s.active_list.len() as int,
        ));
        assert(s.free_list.take(n).drop_last() =~= s.free_list.take(n - 1));
        assert(after.active_list.drop_last() =~= before.active_list);
        assert(after.register_map_table.update(
            last.logical_destination as int,
            after.active_list.last().old_destination,
        ) =~= before.register_map_table);
        let undone = ProcessorState {
            active_list: after.active_list.drop_last(),
            register_map_table: after.register_map_table.update(
                last.logical_destination as int,
                after.active_list.last().old_destination,
            ),
            ..after
        };
        lemma_dispatched_last_frame(
            before,
            undone,
            s.register_map_table,
            s.free_list.take(n - 1),
            decoded.drop_last(),
        );
    }
}

/// Whether instructions are the youngest of the active list depends on the
/// active list and the register map table only.
proof fn lemma_dispatched_last_frame(
    a: ProcessorState,
    b: ProcessorState,
    map: Seq<u8>,
    allocated: Seq<u8>,
    decoded: Seq<DecodedInstruction>,
)
    requires
        a.active_list == b.active_list,
        a.register_map_table == b.register_map_table,
        dispatched_last(a, map, allocated, decoded),
    ensures
        dispatched_last(b, map, allocated, decoded),
    decreases decoded.len(),
{
    if decoded.len() > 0 {
        let last = decoded.last();
        let a0 = ProcessorState {
            active_list: a.active_list.drop_last(),
            register_map_table: a.register_map_table.update(
                last.logical_destination as int,
                a.active_list.last().old_destination,
            ),
            ..a
        };
        let b0 = ProcessorState {
            active_list: b.active_list.drop_last(),
            register_map_table: b.register_map_table.update(
                last.logical_destination as int,
                b.active_list.last().old_destination,
            ),
            ..b
        };
        lemma_dispatched_last_frame(a0, b0, map, allocated.drop_last(), decoded.drop_last());
    }
}

/// Rolling back the instructions that were dispatched last restores the
/// register map table to what it was before the first of them was renamed,
/// takes them off the active list, and appends the registers that they
/// allocated to the free list, the youngest instruction's first.
pub proof fn lemma_roll_back_restores(
    s: ProcessorState,
    map: Seq<u8>,
    allocated: Seq<u8>,
    decoded: Seq<DecodedInstruction>,
)
    requires
        dispatched_last(s, map, allocated, decoded),
    ensures
        s.roll_back(decoded.len()).register_map_table == map,
        s.roll_back(decoded.len()).active_list == s.active_list.take(
            s.active_list.len() - decoded.len(),
        ),
        s.roll_back(decoded.len()).free_list == s.free_list + allocated.reverse(),
    decreases decoded.len(),
{
    let n = decoded.len();
    if n == 0 {
        assert(s.active_list.take(s.active_list.len() as int) =~= s.active_list);
        assert(s.free_list + allocated.reverse() =~= s.free_list);
    } else {
        let last = decoded.last();
        let undone = ProcessorState {
            active_list: s.active_list.drop_last(),
            register_map_table: s.register_map_table.update(
                last.logical_destination as int,
                s.active_list.last().old_destination,
            ),
            ..s
        };
        let rolled = s.roll_back_last();
        lemma_dispatched_last_frame(undone, rolled, map, allocated.drop_last(), decoded.drop_last());
        lemma_roll_back_restores(rolled, map, allocated.drop_last(), decoded.drop_last());
        lemma_dispatched_last_len(rolled, map, allocated.drop_last(), decoded.drop_last());
        assert(rolled.active_list.take(rolled.active_list.len() - (n - 1)) =~= s.active_list.take(
            s.active_list.len() - n,
        ));
        assert(rolled.free_list + allocated.drop_last().reverse() =~= s.free_list
            + allocated.reverse());
    }
}

/// Instructions that are the youngest of the active list are in it.
proof fn lemma_dispatched_last_len(
    s: ProcessorState,
    map: Seq<u8>,
    allocated: Seq<u8>,
    decoded: Seq<DecodedInstruction>,
)
    requires
        dispatched_last(s, map, allocated, decoded),
    ensures
        decoded.len() <= s.active_list.len(),
        allocated.len() == decoded.len(),
    decreases decoded.len(),
{
    if decoded.len() > 0 {
        let last = decoded.last();
        let undone = ProcessorState {
            active_list: s.active_list.drop_last(),
            register_map_table: s.register_map_table.update(
                last.logical_destination as int,
                s.active_list.last().old_destination,
            ),
            ..s
        };
        lemma_dispatched_last_len(undone, map, allocated.drop_last(), decoded.drop_last());
    }
}

/// A rollback takes the youngest entries off the active list, appends the
/// registers that they allocated to the free list, that of the youngest
/// first, and maps every logical register as it was before the oldest of
/// them was renamed.
pub proof fn lemma_roll_back_frees_allocated(s: ProcessorState, budget: nat)
    requires
        s.shaped(),
    ensures
        ({
            let t = s.roll_back(budget);
            let n = s.active_list.len() as int;
            let k = if n <= budget {
                n
            } else {
                budget as int
            };
            &&& t.active_list == s.active_list.take(n - k)
            &&& t.free_list == s.free_list + Seq::new(k as nat, |i: int| s.destination(n - 1 - i))
            &&& t.register_map_table.len() == 32
            &&& forall|l: int|
                0 <= l < 32 ==> #[trigger] t.register_map_table[l] == mapping_after(
                    s.active_list,
                    s.register_map_table,
                    l as u8,
                    n - k,
                )
        }),
    decreases budget,
{
    let n = s.active_list.len() as int;
    if budget == 0 || n == 0 {
        assert(s.active_list.take(n) =~= s.active_list);
        assert(s.free_list + Seq::new(0, |i: int| s.destination(n - 1 - i)) =~= s.free_list);
    } else {
        let u = s.roll_back_last();
        let t = s.roll_back(budget);
        let k = if n <= budget {
            n
        } else {
            budget as int
        };
        lemma_roll_back_last_shaped(s);
        lemma_roll_back_frees_allocated(u, (budget - 1) as nat);
        assert(s.active_list[n - 1] == s.active_list.last());
        assert(u.active_list.take((n - 1) - (k - 1)) =~= s.active_list.take(n - k));
        assert forall|j: int| 0 <= j < n - 1 implies u.destination(j) == s.destination(j) by {
            assert(u.active_list[j] == s.active_list[j]);
            lemma_mapping_roll_back(
                s.active_list,
                s.register_map_table,
                s.active_list[j].logical_destination,
                j + 1,
            );
        }
        assert(t.free_list =~= s.free_list + Seq::new(k as nat, |i: int| s.destination(n - 1 - i)));
        assert forall|l: int| 0 <= l < 32 implies #[trigger] t.register_map_table[l]
            == mapping_after(s.active_list, s.register_map_table, l as u8, n - k) by {
            lemma_mapping_roll_back(s.active_list, s.register_map_table, l as u8, n - k);
        }
    }
}

/// A full rollback undoes a dispatch: after renaming `decoded` and rolling
/// back as many entries, the register map table and the active list are as
/// before, and the registers that were allocated are at the end of the free
/// list in the order of the rollback.
pub proof fn lemma_rollback_undoes_dispatch(
    s: ProcessorState,
    start: ProcessorState,
    decoded: Seq<DecodedInstruction>,
)
    requires
        s.shaped(),
        decoded.len() <= s.free_list.len(),
        forall|i: int| 0 <= i < decoded.len() ==> (#[trigger] decoded[i]).well_formed(),
    ensures
        s.rename_all(start, decoded).roll_back(decoded.len()).register_map_table
            == s.register_map_table,
        s.rename_all(start, decoded).roll_back(decoded.len()).active_list == s.active_list,
        s.rename_all(start, decoded).roll_back(decoded.len()).free_list == s.free_list.skip(
            decoded.len() as int,
        ) + s.free_list.take(decoded.len() as int).reverse(),
{
    lemma_rename_all_dispatched_last(s, start, decoded);
    lemma_roll_back_restores(
        s.rename_all(start, decoded),
        s.register_map_table,
        s.free_list.take(decoded.len() as int),
        decoded,
    );
}

/// Rolling back in two goes is rolling back in one: a rollback that takes
/// several cycles ends as if it had taken one.
pub proof fn lemma_roll_back_split(s: ProcessorState, first: nat, second: nat)
    ensures
        s.roll_back(first).roll_back(second) == s.roll_back(first + second),
    decreases first,
{
    if first == 0 {
    } else if s.active_list.len() == 0 {
        lemma_roll_back_empty(s, second);
        lemma_roll_back_empty(s, first + second);
    } else {
        lemma_roll_back_split(s.roll_back_last(), (first - 1) as nat, second);
    }
}

/// With an empty active list there is nothing to roll back.
proof fn lemma_roll_back_empty(s: ProcessorState, budget: nat)
    requires
        s.active_list.len() == 0,
    ensures
        s.roll_back(budget) == s,
{
}

} // verus!
