//! What holds of the processor state between cycles, and the proofs that
//! every stage keeps it.

use vstd::prelude::*;
use crate::alu::ALU;
use crate::entries::{ActiveListEntry, CommitBufferEntry, IntegerQueueEntry};
use crate::instruction::DecodedInstruction;
use crate::model::{
    absorb_all, completes, first_free_unit, free_unit_at, has_free_unit, has_pending, has_ready,
    oldest_ready, oldest_ready_at, pending_at, pending_index, ProcessorState,
};

verus! {

impl ProcessorState {
    /// The tables have their sizes, and every register number is in range.
    pub open spec fn shaped(self) -> bool {
        &&& self.register_map_table.len() == 32
        &&& self.busy_bit_table.len() == 64
        &&& self.physical_register_file.len() == 64
        &&& self.alus.len() == 4
        &&& forall|i: int| 0 <= i < self.free_list.len() ==> #[trigger] self.free_list[i] < 64
        &&& forall|i: int|
            0 <= i < self.register_map_table.len() ==> #[trigger] self.register_map_table[i] < 64
        &&& forall|i: int|
            0 <= i < self.active_list.len() ==> (#[trigger] self.active_list[i]).logical_destination
                < 32 && self.active_list[i].old_destination < 64
        &&& forall|i: int|
            0 <= i < self.integer_queue.len() ==> (#[trigger] self.integer_queue[i]).dest_register
                < 64
        &&& forall|k: int|
            0 <= k < self.alus.len() ==> ((#[trigger] self.alus[k]).stage1 matches Some(entry)
                ==> entry.dest_register < 64)
        &&& forall|k: int|
            0 <= k < self.alus.len() ==> ((#[trigger] self.alus[k]).is_forwarding
                ==> self.alus[k].forwarding_reg < 64)
        &&& forall|i: int|
            0 <= i < self.commit_buffer.len() ==> (#[trigger] self.commit_buffer[i]).dest_register
                < 64
        &&& self.decoded_instructions.len() <= 4
        &&& forall|i: int|
            0 <= i < self.decoded_instructions.len() ==> (
            #[trigger] self.decoded_instructions[i]).well_formed()
        &&& self.decoded_pcs.len() == self.decoded_instructions.len()
        &&& forall|i: int|
            0 <= i < self.decoded_pcs.len() ==> #[trigger] self.decoded_pcs[i]
                == self.decoded_instructions[i].pc
    }

    /// The active list is in program order: its addresses increase strictly.
    pub open spec fn ordered(self) -> bool {
        forall|i: int, j: int|
            0 <= i < j < self.active_list.len() ==> (#[trigger] self.active_list[i]).pc < (
            #[trigger] self.active_list[j]).pc
    }

    /// The queues are within their capacities.
    pub open spec fn bounded(self) -> bool {
        &&& self.active_list.len() <= 32
        &&& self.integer_queue.len() <= 32
        &&& self.decoded_instructions.len() <= 4
        &&& self.free_list.len() <= 32
    }

    /// The registers that are accounted for, in three groups: the free
    /// list, the current mappings, and the mappings that the instructions in
    /// flight have replaced.
    pub open spec fn registers(self) -> Seq<u8> {
        self.free_list + self.register_map_table + self.active_list.map_values(
            |entry: ActiveListEntry| entry.old_destination,
        )
    }

    /// No physical register is accounted for twice, neither within a group
    /// nor in two groups, and there are 64 in all.
    pub open spec fn partitioned(self) -> bool {
        &&& self.free_list.len() + self.active_list.len() == 32
        &&& forall|i: int, j: int|
            0 <= i < j < self.free_list.len() ==> #[trigger] self.free_list[i]
                != #[trigger] self.free_list[j]
        &&& forall|i: int, j: int|
            0 <= i < j < self.register_map_table.len() ==> #[trigger] self.register_map_table[i]
                != #[trigger] self.register_map_table[j]
        &&& forall|i: int, j: int|
            0 <= i < j < self.active_list.len() ==> (#[trigger] self.active_list[i]).old_destination
                != (#[trigger] self.active_list[j]).old_destination
        &&& forall|i: int, j: int|
            0 <= i < self.free_list.len() && 0 <= j < self.register_map_table.len()
                ==> #[trigger] self.free_list[i] != #[trigger] self.register_map_table[j]
        &&& forall|i: int, j: int|
            0 <= i < self.free_list.len() && 0 <= j < self.active_list.len()
                ==> #[trigger] self.free_list[i] != (#[trigger] self.active_list[j]).old_destination
        &&& forall|i: int, j: int|
            0 <= i < self.register_map_table.len() && 0 <= j < self.active_list.len()
                ==> #[trigger] self.register_map_table[i] != (
            #[trigger] self.active_list[j]).old_destination
    }

    /// No register of the free list is busy.
    pub open spec fn free_registers_idle(self) -> bool {
        forall|i: int|
            0 <= i < self.free_list.len() ==> !self.busy_bit_table[(
            #[trigger] self.free_list[i]) as int]
    }

    /// In exception mode the integer queue is empty, no ALU asserts its
    /// forwarding port, and no write is buffered.
    pub open spec fn quiet_in_exception(self) -> bool {
        self.exception_mode ==> {
            &&& self.integer_queue.len() == 0
            &&& self.commit_buffer.len() == 0
            &&& forall|k: int| 0 <= k < self.alus.len() ==> !(#[trigger] self.alus[k]).is_forwarding
        }
    }

    /// Between cycles stage 1 of every ALU is empty.
    pub open spec fn latches_empty(self) -> bool {
        forall|k: int| 0 <= k < self.alus.len() ==> (#[trigger] self.alus[k]).stage1 is None
    }

    /// The physical register that entry `j` of the active list allocated:
    /// what the next younger entry with the same destination replaced, or,
    /// if there is none, the current mapping of the destination.
    pub open spec fn destination(self, j: int) -> u8 {
        mapping_after(
            self.active_list,
            self.register_map_table,
            self.active_list[j].logical_destination,
            j + 1,
        )
    }

    /// The register `register` is the one that the instruction at `pc`
    /// allocated, if that instruction is in the active list.
    pub open spec fn names(self, pc: u64, register: u8) -> bool {
        forall|j: int|
            0 <= j < self.active_list.len() && (#[trigger] self.active_list[j]).pc == pc
                ==> self.destination(j) == register
    }

    /// Every result under way (in the integer queue, on a forwarding port
    /// or in the commit buffer) is bound for the register that its
    /// instruction allocated.
    pub open spec fn results_named(self) -> bool {
        &&& forall|i: int|
            0 <= i < self.integer_queue.len() ==> self.names(
                (#[trigger] self.integer_queue[i]).pc,
                self.integer_queue[i].dest_register,
            )
        &&& forall|k: int|
            0 <= k < self.alus.len() && (#[trigger] self.alus[k]).is_forwarding ==> self.names(
                self.alus[k].forwarding_pc,
                self.alus[k].forwarding_reg,
            )
        &&& forall|i: int|
            0 <= i < self.commit_buffer.len() ==> self.names(
                (#[trigger] self.commit_buffer[i]).pc,
                self.commit_buffer[i].dest_register,
            )
    }

    /// Every busy register was allocated by an instruction in flight.
    pub open spec fn busy_in_flight(self) -> bool {
        forall|r: int|
            0 <= r < self.busy_bit_table.len() && #[trigger] self.busy_bit_table[r] ==> exists|
                j: int,
            |
                0 <= j < self.active_list.len() && #[trigger] self.destination(j) == r
    }

    /// The address of the oldest instruction that has not been dispatched.
    pub open spec fn frontier(self) -> int {
        if self.decoded_instructions.len() > 0 {
            self.decoded_instructions[0].pc as int
        } else {
            self.pc as int
        }
    }

    /// Every result under way belongs to an instruction below `limit`.
    pub open spec fn issued_before(self, limit: int) -> bool {
        &&& forall|i: int|
            0 <= i < self.integer_queue.len() ==> (#[trigger] self.integer_queue[i]).pc < limit
        &&& forall|k: int|
            0 <= k < self.alus.len() && (#[trigger] self.alus[k]).is_forwarding
                ==> self.alus[k].forwarding_pc < limit
        &&& forall|i: int|
            0 <= i < self.commit_buffer.len() ==> (#[trigger] self.commit_buffer[i]).pc < limit
    }

    /// Every entry of the active list belongs to an instruction below
    /// `limit`.
    pub open spec fn listed_before(self, limit: int) -> bool {
        forall|j: int| 0 <= j < self.active_list.len() ==> (#[trigger] self.active_list[j]).pc < limit
    }

    /// The decoded buffer is in program order and below the fetch address,
    /// and every result under way is older than what waits for dispatch. So
    /// is, outside exception mode, every entry of the active list.
    pub open spec fn fetch_ordered(self) -> bool {
        &&& forall|i: int, j: int|
            0 <= i < j < self.decoded_instructions.len() ==> (
            #[trigger] self.decoded_instructions[i]).pc < (
            #[trigger] self.decoded_instructions[j]).pc
        &&& forall|j: int|
            0 <= j < self.decoded_instructions.len() ==> (#[trigger] self.decoded_instructions[j]).pc
                < self.pc
        &&& self.issued_before(self.frontier())
        &&& !self.exception_mode ==> self.listed_before(self.frontier())
    }

    /// What holds while a cycle is under way.
    pub open spec fn steady(self) -> bool {
        &&& self.shaped()
        &&& self.active_list.len() <= 32
        &&& self.integer_queue.len() <= 32
        &&& self.ordered()
        &&& self.partitioned()
        &&& self.quiet_in_exception()
        &&& self.writes_buffered()
        &&& self.results_named()
        &&& self.busy_in_flight()
    }

    /// What holds of the processor between cycles.
    pub open spec fn wf(self) -> bool {
        &&& self.shaped()
        &&& self.bounded()
        &&& self.ordered()
        &&& self.partitioned()
        &&& self.free_registers_idle()
        &&& self.quiet_in_exception()
        &&& self.latches_empty()
        &&& self.writes_buffered()
        &&& self.results_named()
        &&& self.busy_in_flight()
        &&& self.fetch_ordered()
    }

    /// The state is fit for the commit scan.
    pub open spec fn committable(self) -> bool {
        self.shaped() && self.ordered() && self.writes_buffered()
    }

    /// Outside exception mode the result of every done entry is in the
    /// commit buffer.
    pub open spec fn writes_buffered(self) -> bool {
        !self.exception_mode ==> forall|j: int|
            0 <= j < self.active_list.len() && (#[trigger] self.active_list[j]).is_done
                ==> has_pending(self.commit_buffer, self.active_list[j].pc)
    }
}

/// The mapping of the logical register `logical` as it was after the first
/// `from` entries of the active list had been renamed: what the first later
/// entry with that destination replaced, or the current mapping.
pub open spec fn mapping_after(
    active_list: Seq<ActiveListEntry>,
    map: Seq<u8>,
    logical: u8,
    from: int,
) -> u8
    decreases active_list.len() - from,
{
    if from < 0 || from >= active_list.len() {
        map[logical as int]
    } else if active_list[from].logical_destination == logical {
        active_list[from].old_destination
    } else {
        mapping_after(active_list, map, logical, from + 1)
    }
}

/// A buffer that holds a write for `pc` holds a first one.
pub(crate) proof fn lemma_pending_index(buffer: Seq<CommitBufferEntry>, pc: u64)
    requires
        has_pending(buffer, pc),
    ensures
        pending_at(buffer, pc, pending_index(buffer, pc)),
{
    let some = choose|i: int| 0 <= i < buffer.len() && (#[trigger] buffer[i]).pc == pc;
    lemma_first_pending(buffer, pc, some);
}

proof fn lemma_first_pending(buffer: Seq<CommitBufferEntry>, pc: u64, at: int)
    requires
        0 <= at < buffer.len(),
        buffer[at].pc == pc,
    ensures
        exists|first: int| pending_at(buffer, pc, first),
    decreases at,
{
    if forall|j: int| 0 <= j < at ==> (#[trigger] buffer[j]).pc != pc {
        assert(pending_at(buffer, pc, at));
    } else {
        let earlier = choose|j: int| 0 <= j < at && (#[trigger] buffer[j]).pc == pc;
        lemma_first_pending(buffer, pc, earlier);
    }
}

/// Seeing a forwarding port keeps the state fit for the commit scan.
pub(crate) proof fn lemma_observe_committable(s: ProcessorState, alu: ALU)
    requires
        s.committable(),
        alu.is_forwarding ==> alu.forwarding_reg < 64,
    ensures
        s.observe(alu).committable(),
{
    let t = s.observe(alu);
    assert forall|j: int| 0 <= j < t.active_list.len() && (#[trigger] t.active_list[j]).is_done
        && !t.exception_mode implies has_pending(t.commit_buffer, t.active_list[j].pc) by {
        if s.active_list[j].is_done {
            let at = choose|i: int|
                0 <= i < s.commit_buffer.len() && (#[trigger] s.commit_buffer[i]).pc
                    == s.active_list[j].pc;
            assert(t.commit_buffer[at].pc == t.active_list[j].pc);
        } else {
            assert(completes(s.active_list, alu));
            assert(t.commit_buffer[s.commit_buffer.len() as int].pc == t.active_list[j].pc);
        }
    }
}

/// Seeing the forwarding ports of the state's own ALUs keeps it fit for the
/// commit scan.
pub(crate) proof fn lemma_observe_all_committable(s: ProcessorState, alus: Seq<ALU>)
    requires
        s.committable(),
        forall|k: int|
            0 <= k < alus.len() ==> ((#[trigger] alus[k]).is_forwarding ==> alus[k].forwarding_reg
                < 64),
    ensures
        s.observe_all(alus).committable(),
        s.observe_all(alus).exception_mode == s.exception_mode,
        s.observe_all(alus).alus == s.alus,
    decreases alus.len(),
{
    if alus.len() > 0 {
        lemma_observe_all_committable(s, alus.drop_last());
        lemma_observe_committable(s.observe_all(alus.drop_last()), alus.last());
    }
}

/// Retiring the head keeps the state fit for the commit scan.
pub(crate) proof fn lemma_retire_head_committable(s: ProcessorState)
    requires
        s.committable(),
        !s.exception_mode,
        s.active_list.len() > 0,
        s.active_list[0].is_done,
    ensures
        s.retire_head().committable(),
{
    let t = s.retire_head();
    let head = s.active_list[0];
    lemma_pending_index(s.commit_buffer, head.pc);
    let at = pending_index(s.commit_buffer, head.pc);
    assert forall|j: int| 0 <= j < t.active_list.len() && (#[trigger] t.active_list[j]).is_done
        implies has_pending(t.commit_buffer, t.active_list[j].pc) by {
        assert(t.active_list[j] == s.active_list[j + 1]);
        assert(s.active_list[0].pc < s.active_list[j + 1].pc);
        let i = choose|i: int|
            0 <= i < s.commit_buffer.len() && (#[trigger] s.commit_buffer[i]).pc
                == s.active_list[j + 1].pc;
        if i < at {
            assert(t.commit_buffer[i].pc == t.active_list[j].pc);
        } else {
            assert(t.commit_buffer[i - 1].pc == t.active_list[j].pc);
        }
    }
    assert forall|i: int, j: int| 0 <= i < j < t.active_list.len() implies (
    #[trigger] t.active_list[i]).pc < (#[trigger] t.active_list[j]).pc by {
        assert(t.active_list[i] == s.active_list[i + 1]);
        assert(t.active_list[j] == s.active_list[j + 1]);
    }
    assert forall|i: int| 0 <= i < t.active_list.len() implies (
    #[trigger] t.active_list[i]).logical_destination < 32 && t.active_list[i].old_destination
        < 64 by {
        assert(t.active_list[i] == s.active_list[i + 1]);
    }
    assert forall|i: int| 0 <= i < t.commit_buffer.len() implies (
    #[trigger] t.commit_buffer[i]).dest_register < 64 by {
        if i < at {
            assert(t.commit_buffer[i] == s.commit_buffer[i]);
        } else {
            assert(t.commit_buffer[i] == s.commit_buffer[i + 1]);
        }
    }
}

/// Forwarding changes neither the length of the queue nor the destination
/// and address of any entry.
pub(crate) proof fn lemma_absorb_all_keeps(queue: Seq<IntegerQueueEntry>, alus: Seq<ALU>)
    ensures
        absorb_all(queue, alus).len() == queue.len(),
        forall|i: int|
            0 <= i < queue.len() ==> (#[trigger] absorb_all(queue, alus)[i]).dest_register
                == queue[i].dest_register && absorb_all(queue, alus)[i].pc == queue[i].pc,
    decreases alus.len(),
{
    if alus.len() > 0 {
        lemma_absorb_all_keeps(queue, alus.drop_last());
    }
}

/// The ready entry that issues next is unique.
pub(crate) proof fn lemma_oldest_ready(queue: Seq<IntegerQueueEntry>, at: int)
    requires
        oldest_ready_at(queue, at),
    ensures
        has_ready(queue),
        oldest_ready(queue) == at,
{
    let chosen = oldest_ready(queue);
    assert(oldest_ready_at(queue, chosen));
    assert(queue[at].ready());
    assert(queue[chosen].ready());
}

/// The first unit with an empty stage 1 is unique.
pub(crate) proof fn lemma_first_free_unit(alus: Seq<ALU>, unit: int)
    requires
        free_unit_at(alus, unit),
    ensures
        has_free_unit(alus),
        first_free_unit(alus) == unit,
{
    let chosen = first_free_unit(alus);
    assert(free_unit_at(alus, chosen));
    assert(alus[unit].stage1 is None);
    assert(alus[chosen].stage1 is None);
}

/// Issuing an instruction keeps the tables in shape.
pub(crate) proof fn lemma_issue_one_shaped(s: ProcessorState)
    requires
        s.shaped(),
    ensures
        s.issue_one().shaped(),
{
    if has_ready(s.integer_queue) && has_free_unit(s.alus) {
        let t = s.issue_one();
        let at = oldest_ready(s.integer_queue);
        let unit = first_free_unit(s.alus);
        let some = choose|i: int| 0 <= i < s.integer_queue.len() && (#[trigger] s.integer_queue[i]).ready();
        lemma_has_oldest_ready(s.integer_queue, some as nat);
        let free = choose|i: int| 0 <= i < s.alus.len() && (#[trigger] s.alus[i]).stage1 is None;
        lemma_has_first_free_unit(s.alus, free);
        assert forall|i: int| 0 <= i < t.integer_queue.len() implies (
        #[trigger] t.integer_queue[i]).dest_register < 64 by {
            if i < at {
                assert(t.integer_queue[i] == s.integer_queue[i]);
            } else {
                assert(t.integer_queue[i] == s.integer_queue[i + 1]);
            }
        }
        assert(s.integer_queue[at].dest_register < 64);
    }
}

/// A queue with a ready entry has one that issues next.
pub(crate) proof fn lemma_has_oldest_ready(queue: Seq<IntegerQueueEntry>, n: nat)
    requires
        n < queue.len(),
        queue[n as int].ready(),
    ensures
        oldest_ready_at(queue, oldest_ready(queue)),
{
    lemma_oldest_ready_among(queue, queue.len());
    let at = choose|at: int| oldest_ready_among(queue, queue.len(), at);
    assert(oldest_ready_among(queue, queue.len(), at)) by {
        assert(queue[n as int].ready());
    }
    assert(oldest_ready_at(queue, at));
}

/// Position `at` holds the entry that issues next among the first
/// `limit` entries.
pub open spec fn oldest_ready_among(queue: Seq<IntegerQueueEntry>, limit: nat, at: int) -> bool {
    &&& 0 <= at < limit <= queue.len()
    &&& queue[at].ready()
    &&& forall|j: int|
        0 <= j < limit && (#[trigger] queue[j]).ready() ==> queue[at].pc < queue[j].pc || (
        queue[at].pc == queue[j].pc && at <= j)
}

proof fn lemma_oldest_ready_among(queue: Seq<IntegerQueueEntry>, limit: nat)
    requires
        limit <= queue.len(),
    ensures
        (exists|j: int| 0 <= j < limit && (#[trigger] queue[j]).ready()) ==> exists|at: int|
            oldest_ready_among(queue, limit, at),
    decreases limit,
{
    if limit > 0 {
        let shorter = (limit - 1) as nat;
        lemma_oldest_ready_among(queue, shorter);
        let last = limit - 1;
        if exists|j: int| 0 <= j < shorter && (#[trigger] queue[j]).ready() {
            let before = choose|at: int| oldest_ready_among(queue, shorter, at);
            if queue[last].ready() && queue[last].pc < queue[before].pc {
                assert(oldest_ready_among(queue, limit, last));
            } else {
                assert(oldest_ready_among(queue, limit, before));
            }
        } else if queue[last].ready() {
            assert(oldest_ready_among(queue, limit, last));
        }
    }
}

/// A sequence of units with an empty stage 1 has a first such unit.
pub(crate) proof fn lemma_has_first_free_unit(alus: Seq<ALU>, unit: int)
    requires
        0 <= unit < alus.len(),
        alus[unit].stage1 is None,
    ensures
        free_unit_at(alus, first_free_unit(alus)),
    decreases unit,
{
    if forall|j: int| 0 <= j < unit ==> (#[trigger] alus[j]).stage1 is Some {
        assert(free_unit_at(alus, unit));
    } else {
        let earlier = choose|j: int| 0 <= j < unit && !((#[trigger] alus[j]).stage1 is Some);
        lemma_has_first_free_unit(alus, earlier);
    }
}

/// Renaming an instruction keeps the tables in shape and takes one register
/// from the free list.
pub(crate) proof fn lemma_rename_shaped(s: ProcessorState, start: ProcessorState, decoded: DecodedInstruction)
    requires
        s.shaped(),
        decoded.well_formed(),
        s.free_list.len() > 0,
    ensures
        s.rename(start, decoded).shaped(),
        s.rename(start, decoded).free_list.len() == s.free_list.len() - 1,
        s.rename(start, decoded).alus == s.alus,
        s.rename(start, decoded).decoded_instructions == s.decoded_instructions,
{
    let t = s.rename(start, decoded);
    assert(s.free_list[0] < 64);
    assert forall|i: int| 0 <= i < t.free_list.len() implies #[trigger] t.free_list[i] < 64 by {
        assert(t.free_list[i] == s.free_list[i + 1]);
    }
}

/// The stages before fetch leave the fetch address alone.
pub(crate) proof fn lemma_stages_keep_pc(s: ProcessorState)
    ensures
        s.commit_stage().pc == s.pc,
        s.commit_stage().issue_stage().pc == s.pc,
        s.commit_stage().issue_stage().dispatch_stage(s).pc == s.pc,
{
    lemma_commit_stage_keeps(s);
    let committed = s.commit_stage();
    lemma_issue_up_to_keeps(
        ProcessorState {
            integer_queue: absorb_all(committed.integer_queue, committed.alus),
            ..committed
        },
        4,
    );
    let issued = committed.issue_stage();
    lemma_rename_all_keeps(issued, s, s.decoded_instructions);
}

/// Commit and rollback leave the fetch address and the decoded buffer alone.
pub(crate) proof fn lemma_commit_stage_keeps(s: ProcessorState)
    ensures
        s.commit_stage().pc == s.pc,
        s.commit_stage().decoded_instructions == s.decoded_instructions,
        s.commit_stage().decoded_pcs == s.decoded_pcs,
{
    lemma_roll_back_keeps(s, 4);
    lemma_observe_all_keeps(s, s.alus);
    lemma_commit_scan_keeps(s.observe_all(s.alus), 4);
}

pub(crate) proof fn lemma_roll_back_keeps(s: ProcessorState, budget: nat)
    ensures
        s.roll_back(budget).pc == s.pc,
        s.roll_back(budget).decoded_instructions == s.decoded_instructions,
        s.roll_back(budget).decoded_pcs == s.decoded_pcs,
        s.roll_back(budget).exception_mode == s.exception_mode,
        s.roll_back(budget).exception_pc == s.exception_pc,
        s.roll_back(budget).integer_queue == s.integer_queue,
        s.roll_back(budget).alus == s.alus,
        s.roll_back(budget).commit_buffer == s.commit_buffer,
        s.roll_back(budget).physical_register_file == s.physical_register_file,
    decreases budget,
{
    if budget > 0 && s.active_list.len() > 0 {
        lemma_roll_back_keeps(s.roll_back_last(), (budget - 1) as nat);
    }
}

pub(crate) proof fn lemma_observe_all_keeps(s: ProcessorState, alus: Seq<ALU>)
    ensures
        s.observe_all(alus) == (ProcessorState {
            active_list: s.observe_all(alus).active_list,
            commit_buffer: s.observe_all(alus).commit_buffer,
            ..s
        }),
        s.observe_all(alus).active_list.len() == s.active_list.len(),
    decreases alus.len(),
{
    if alus.len() > 0 {
        lemma_observe_all_keeps(s, alus.drop_last());
    }
}

pub(crate) proof fn lemma_commit_scan_keeps(s: ProcessorState, budget: nat)
    ensures
        s.commit_scan(budget).pc == s.pc,
        s.commit_scan(budget).decoded_instructions == s.decoded_instructions,
        s.commit_scan(budget).decoded_pcs == s.decoded_pcs,
        s.commit_scan(budget).register_map_table == s.register_map_table,
    decreases budget,
{
    if budget > 0 && s.active_list.len() > 0 && !s.active_list[0].is_exception
        && s.active_list[0].is_done {
        lemma_commit_scan_keeps(s.retire_head(), (budget - 1) as nat);
    }
}

pub(crate) proof fn lemma_issue_up_to_keeps(s: ProcessorState, budget: nat)
    ensures
        s.issue_up_to(budget) == (ProcessorState {
            integer_queue: s.issue_up_to(budget).integer_queue,
            alus: s.issue_up_to(budget).alus,
            ..s
        }),
        s.issue_up_to(budget).alus.len() == s.alus.len(),
    decreases budget,
{
    if budget > 0 {
        if has_ready(s.integer_queue) && has_free_unit(s.alus) {
            let free = choose|i: int| 0 <= i < s.alus.len() && (#[trigger] s.alus[i]).stage1 is None;
            lemma_has_first_free_unit(s.alus, free);
        }
        lemma_issue_up_to_keeps(s.issue_one(), (budget - 1) as nat);
    }
}

pub(crate) proof fn lemma_rename_all_keeps(
    s: ProcessorState,
    start: ProcessorState,
    decoded: Seq<DecodedInstruction>,
)
    ensures
        s.rename_all(start, decoded) == (ProcessorState {
            active_list: s.rename_all(start, decoded).active_list,
            integer_queue: s.rename_all(start, decoded).integer_queue,
            free_list: s.rename_all(start, decoded).free_list,
            register_map_table: s.rename_all(start, decoded).register_map_table,
            busy_bit_table: s.rename_all(start, decoded).busy_bit_table,
            ..s
        }),
    decreases decoded.len(),
{
    if decoded.len() > 0 {
        lemma_rename_all_keeps(s, start, decoded.drop_last());
    }
}

/// Taking an exception keeps the tables in shape.
pub(crate) proof fn lemma_enter_exception_shaped(s: ProcessorState, pc: u64)
    requires
        s.shaped(),
    ensures
        s.enter_exception(pc).shaped(),
{
}

/// Rolling back the youngest entry keeps the tables in shape.
pub(crate) proof fn lemma_roll_back_last_shaped(s: ProcessorState)
    requires
        s.shaped(),
        s.active_list.len() > 0,
    ensures
        s.roll_back_last().shaped(),
{
}

} // verus!
