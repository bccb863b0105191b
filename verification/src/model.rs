//! The mathematical model of the processor: its state as sequences, and each
//! pipeline stage as a function from state to state.
//!
//! A cycle reads the state at its start and builds the state at its end. The
//! stages are applied in a fixed order: commit (or rollback in exception
//! mode), issue, rename and dispatch, fetch and decode.

use vstd::prelude::*;
use crate::alu::ALU;
use crate::entries::{ActiveListEntry, CommitBufferEntry, IntegerQueueEntry};
use crate::instruction::{decode_text, DecodedInstruction};

verus! {

/// Capacity of the active list.
pub const ACTIVE_LIST_SIZE: usize = 32;

/// Capacity of the integer queue.
pub const INTEGER_QUEUE_SIZE: usize = 32;

/// Number of physical registers.
pub const PHYSICAL_REGISTERS: usize = 64;

/// Number of logical registers.
pub const LOGICAL_REGISTERS: usize = 32;

/// Width of the pipeline: instructions fetched, dispatched, issued, retired
/// or rolled back per cycle, and the number of ALUs.
pub const WIDTH: usize = 4;

/// Where fetch is redirected to when an exception is taken.
pub const EXCEPTION_PC: u64 = 0x10000;

/// The state of the processor between two cycles.
pub struct ProcessorState {
    pub active_list: Seq<ActiveListEntry>,
    pub busy_bit_table: Seq<bool>,
    pub decoded_pcs: Seq<u64>,
    pub decoded_instructions: Seq<DecodedInstruction>,
    pub exception_mode: bool,
    pub exception_pc: u64,
    pub free_list: Seq<u8>,
    pub integer_queue: Seq<IntegerQueueEntry>,
    pub alus: Seq<ALU>,
    pub commit_buffer: Seq<CommitBufferEntry>,
    pub pc: u64,
    pub physical_register_file: Seq<u64>,
    pub register_map_table: Seq<u8>,
}

/// The active list entry after it has seen the forwarding port of `alu`: a
/// result for its address marks it done, an exception marks it excepted.
pub open spec fn observed(entry: ActiveListEntry, alu: ALU) -> ActiveListEntry {
    if alu.is_forwarding && entry.pc == alu.forwarding_pc {
        if alu.forwarding_exception {
            ActiveListEntry { is_exception: true, ..entry }
        } else {
            ActiveListEntry { is_done: true, ..entry }
        }
    } else {
        entry
    }
}

/// The port of `alu` shows the result of an entry that was not done before.
pub open spec fn completes(active_list: Seq<ActiveListEntry>, alu: ALU) -> bool {
    alu.asserts_result() && exists|j: int|
        0 <= j < active_list.len() && (#[trigger] active_list[j]).pc == alu.forwarding_pc
            && !active_list[j].is_done
}

/// The write that the port of `alu` asks for.
pub open spec fn forwarded_write(alu: ALU) -> CommitBufferEntry {
    CommitBufferEntry {
        dest_register: alu.forwarding_reg,
        value: alu.forwarding_value,
        pc: alu.forwarding_pc,
    }
}

/// The buffer holds a write for the instruction at `pc`.
pub open spec fn has_pending(buffer: Seq<CommitBufferEntry>, pc: u64) -> bool {
    exists|i: int| 0 <= i < buffer.len() && (#[trigger] buffer[i]).pc == pc
}

/// Position `at` holds the first write for the instruction at `pc`.
pub open spec fn pending_at(buffer: Seq<CommitBufferEntry>, pc: u64, at: int) -> bool {
    &&& 0 <= at < buffer.len()
    &&& buffer[at].pc == pc
    &&& forall|j: int| 0 <= j < at ==> (#[trigger] buffer[j]).pc != pc
}

/// The position of the first write for the instruction at `pc`.
pub open spec fn pending_index(buffer: Seq<CommitBufferEntry>, pc: u64) -> int {
    choose|at: int| pending_at(buffer, pc, at)
}

/// The queue after its entries have seen the forwarding port of `alu`.
pub open spec fn absorb(queue: Seq<IntegerQueueEntry>, alu: ALU) -> Seq<IntegerQueueEntry> {
    if alu.is_forwarding {
        queue.map_values(
            |entry: IntegerQueueEntry| entry.forwarded(alu.forwarding_reg, alu.forwarding_value),
        )
    } else {
        queue
    }
}

/// The queue after its entries have seen the ports of `alus`, one after the
/// other.
pub open spec fn absorb_all(queue: Seq<IntegerQueueEntry>, alus: Seq<ALU>) -> Seq<
    IntegerQueueEntry,
>
    decreases alus.len(),
{
    if alus.len() == 0 {
        queue
    } else {
        absorb(absorb_all(queue, alus.drop_last()), alus.last())
    }
}

/// Position `at` holds the ready entry that issues next: the one with the
/// lowest address, and among equal addresses the first.
pub open spec fn oldest_ready_at(queue: Seq<IntegerQueueEntry>, at: int) -> bool {
    &&& 0 <= at < queue.len()
    &&& queue[at].ready()
    &&& forall|j: int|
        0 <= j < queue.len() && (#[trigger] queue[j]).ready() ==> queue[at].pc < queue[j].pc || (
        queue[at].pc == queue[j].pc && at <= j)
}

/// Some entry of the queue is ready.
pub open spec fn has_ready(queue: Seq<IntegerQueueEntry>) -> bool {
    exists|i: int| 0 <= i < queue.len() && (#[trigger] queue[i]).ready()
}

/// The position of the ready entry that issues next.
pub open spec fn oldest_ready(queue: Seq<IntegerQueueEntry>) -> int {
    choose|at: int| oldest_ready_at(queue, at)
}

/// Unit `unit` is the first whose stage 1 is empty.
pub open spec fn free_unit_at(alus: Seq<ALU>, unit: int) -> bool {
    &&& 0 <= unit < alus.len()
    &&& alus[unit].stage1 is None
    &&& forall|j: int| 0 <= j < unit ==> (#[trigger] alus[j]).stage1 is Some
}

/// Some unit has an empty stage 1.
pub open spec fn has_free_unit(alus: Seq<ALU>) -> bool {
    exists|i: int| 0 <= i < alus.len() && (#[trigger] alus[i]).stage1 is None
}

/// The first unit whose stage 1 is empty.
pub open spec fn first_free_unit(alus: Seq<ALU>) -> int {
    choose|unit: int| free_unit_at(alus, unit)
}

/// The texts of the instructions that have not been fetched yet. The next
/// instruction to fetch is the last of the sequence.
pub type Stream = Seq<Seq<char>>;

/// The stream holds texts of instructions only.
pub open spec fn valid_stream(stream: Stream) -> bool {
    forall|i: int| 0 <= i < stream.len() ==> decode_text(#[trigger] stream[i], 0) is Ok
}

impl ProcessorState {
    /// The state at power-on: logical register `i` is mapped to physical
    /// register `i`, and the physical registers 32 to 63 are free.
    pub open spec fn initial() -> ProcessorState {
        ProcessorState {
            active_list: Seq::empty(),
            busy_bit_table: Seq::new(64, |i: int| false),
            decoded_pcs: Seq::empty(),
            decoded_instructions: Seq::empty(),
            exception_mode: false,
            exception_pc: 0,
            free_list: Seq::new(32, |i: int| (32 + i) as u8),
            integer_queue: Seq::empty(),
            alus: Seq::new(4, |i: int| ALU::idle()),
            commit_buffer: Seq::empty(),
            pc: 0,
            physical_register_file: Seq::new(64, |i: int| 0u64),
            register_map_table: Seq::new(32, |i: int| i as u8),
        }
    }

    /// Nothing is in flight and no exception is being handled.
    pub open spec fn done(self) -> bool {
        self.active_list.len() == 0 && !self.exception_mode
    }

    // ----- commit -----

    /// The state after the active list has seen the forwarding port of
    /// `alu`. A result that completes an entry is buffered until the entry
    /// retires.
    pub open spec fn observe(self, alu: ALU) -> ProcessorState {
        ProcessorState {
            active_list: self.active_list.map_values(
                |entry: ActiveListEntry| observed(entry, alu),
            ),
            commit_buffer: if completes(self.active_list, alu) {
                self.commit_buffer.push(forwarded_write(alu))
            } else {
                self.commit_buffer
            },
            ..self
        }
    }

    /// The state after the active list has seen the ports of `alus`, one
    /// after the other.
    pub open spec fn observe_all(self, alus: Seq<ALU>) -> ProcessorState
        decreases alus.len(),
    {
        if alus.len() == 0 {
            self
        } else {
            self.observe_all(alus.drop_last()).observe(alus.last())
        }
    }

    /// The state after the buffered write of the instruction at `pc` has
    /// been carried out: the value is in the physical register file, the
    /// register is no longer busy, and the write has left the buffer.
    pub open spec fn apply_pending(self, pc: u64) -> ProcessorState {
        let at = pending_index(self.commit_buffer, pc);
        let write = self.commit_buffer[at];
        ProcessorState {
            commit_buffer: self.commit_buffer.remove(at),
            physical_register_file: self.physical_register_file.update(
                write.dest_register as int,
                write.value,
            ),
            busy_bit_table: self.busy_bit_table.update(write.dest_register as int, false),
            ..self
        }
    }

    /// The state after the oldest entry of the active list has retired: its
    /// result is written, and the register that its destination was mapped
    /// to before joins the free list.
    pub open spec fn retire_head(self) -> ProcessorState {
        let head = self.active_list[0];
        let written = self.apply_pending(head.pc);
        ProcessorState {
            active_list: self.active_list.drop_first(),
            free_list: self.free_list.push(head.old_destination),
            ..written
        }
    }

    /// The state after an exception at `pc` has been taken: the ALUs are
    /// reset, and the integer queue and the buffered writes are dropped.
    pub open spec fn enter_exception(self, pc: u64) -> ProcessorState {
        ProcessorState {
            exception_mode: true,
            exception_pc: pc,
            alus: self.alus.map_values(|alu: ALU| ALU::idle()),
            integer_queue: Seq::empty(),
            commit_buffer: Seq::empty(),
            ..self
        }
    }

    /// The in-order scan of the active list with `budget` retirements left.
    /// An excepted entry at the head puts the processor in exception mode
    /// and stays; a done entry retires; any other entry ends the scan.
    pub open spec fn commit_scan(self, budget: nat) -> ProcessorState
        decreases budget,
    {
        if budget == 0 || self.active_list.len() == 0 {
            self
        } else if self.active_list[0].is_exception {
            self.enter_exception(self.active_list[0].pc)
        } else if self.active_list[0].is_done {
            self.retire_head().commit_scan((budget - 1) as nat)
        } else {
            self
        }
    }

    // ----- rollback -----

    /// The state after the youngest entry of the active list has been
    /// rolled back: the register that its destination is mapped to is freed,
    /// and the destination is mapped as it was before the entry.
    pub open spec fn roll_back_last(self) -> ProcessorState {
        let entry = self.active_list.last();
        let allocated = self.register_map_table[entry.logical_destination as int];
        ProcessorState {
            active_list: self.active_list.drop_last(),
            busy_bit_table: self.busy_bit_table.update(allocated as int, false),
            free_list: self.free_list.push(allocated),
            register_map_table: self.register_map_table.update(
                entry.logical_destination as int,
                entry.old_destination,
            ),
            ..self
        }
    }

    /// The state after up to `budget` entries have been rolled back,
    /// youngest first.
    pub open spec fn roll_back(self, budget: nat) -> ProcessorState
        decreases budget,
    {
        if budget == 0 || self.active_list.len() == 0 {
            self
        } else {
            self.roll_back_last().roll_back((budget - 1) as nat)
        }
    }

    /// A cycle of exception mode: up to four entries are rolled back. Once
    /// the active list is empty at the start of the cycle, exception mode
    /// ends.
    pub open spec fn rollback_stage(self) -> ProcessorState {
        if self.active_list.len() == 0 {
            ProcessorState { exception_mode: false, ..self }
        } else {
            self.roll_back(4)
        }
    }

    /// The commit stage: in exception mode a cycle of rollback; else the
    /// active list sees the forwarding ports and up to four entries retire.
    pub open spec fn commit_stage(self) -> ProcessorState {
        if self.exception_mode {
            self.rollback_stage()
        } else {
            self.observe_all(self.alus).commit_scan(4)
        }
    }

    // ----- issue -----

    /// Some ALU shows an exception on its forwarding port.
    pub open spec fn exception_incoming(self) -> bool {
        exists|k: int| 0 <= k < self.alus.len() && (#[trigger] self.alus[k]).asserts_exception()
    }

    /// The state after one instruction has issued, if a ready entry and an
    /// empty stage 1 exist: the oldest ready entry leaves the queue for the
    /// first such ALU.
    pub open spec fn issue_one(self) -> ProcessorState {
        if has_ready(self.integer_queue) && has_free_unit(self.alus) {
            let at = oldest_ready(self.integer_queue);
            let unit = first_free_unit(self.alus);
            ProcessorState {
                integer_queue: self.integer_queue.remove(at),
                alus: self.alus.update(unit, self.alus[unit].latched(self.integer_queue[at])),
                ..self
            }
        } else {
            self
        }
    }

    /// The state after up to `budget` instructions have issued.
    pub open spec fn issue_up_to(self, budget: nat) -> ProcessorState
        decreases budget,
    {
        if budget == 0 {
            self
        } else {
            self.issue_one().issue_up_to((budget - 1) as nat)
        }
    }

    /// The issue stage. While an exception is on a forwarding port nothing
    /// happens. Else the queue sees the forwarding ports, up to four ready
    /// entries issue, oldest first, and every ALU advances by one cycle.
    pub open spec fn issue_stage(self) -> ProcessorState {
        if self.exception_incoming() {
            self
        } else {
            let absorbed = ProcessorState {
                integer_queue: absorb_all(self.integer_queue, self.alus),
                ..self
            };
            let issued = absorbed.issue_up_to(4);
            ProcessorState { alus: issued.alus.map_values(|alu: ALU| alu.executed()), ..issued }
        }
    }

    // ----- rename and dispatch -----

    /// Four more instructions can be renamed and dispatched.
    pub open spec fn has_sufficient_resources(self) -> bool {
        &&& self.free_list.len() >= 4
        &&& self.active_list.len() + 4 <= 32
        &&& self.integer_queue.len() + 4 <= 32
    }

    /// What the queue records of a register operand: whether it is ready,
    /// its tag and its value. `start` is the state at the start of the cycle.
    ///
    /// The operand is the physical register that the logical register is
    /// mapped to at this point of the rename. It is ready if that register
    /// was not busy at the start of the cycle and has not been allocated
    /// since. A ready operand has tag 0. The value is the one that the
    /// register file held at the start of the cycle, ready or not.
    pub open spec fn operand(self, start: ProcessorState, logical: u8) -> (bool, u8, u64) {
        let physical = self.register_map_table[logical as int];
        let ready = !start.busy_bit_table[physical as int] && !self.busy_bit_table[physical as int];
        (
            ready,
            if ready {
                0
            } else {
                physical
            },
            start.physical_register_file[physical as int],
        )
    }

    /// The queue entry that `decoded` is dispatched as.
    pub open spec fn queue_entry(
        self,
        start: ProcessorState,
        decoded: DecodedInstruction,
    ) -> IntegerQueueEntry {
        let a = self.operand(start, decoded.op_a_reg_tag);
        let b = if decoded.immediate {
            (true, 0u8, decoded.immediate_value as u64)
        } else {
            self.operand(start, decoded.op_b_reg_tag)
        };
        IntegerQueueEntry {
            dest_register: self.free_list[0],
            op_a_is_ready: a.0,
            op_a_reg_tag: a.1,
            op_a_value: a.2,
            op_b_is_ready: b.0,
            op_b_reg_tag: b.1,
            op_b_value: b.2,
            op_code: decoded.op_code,
            pc: decoded.pc,
        }
    }

    /// The active list entry that `decoded` is dispatched as.
    pub open spec fn list_entry(self, decoded: DecodedInstruction) -> ActiveListEntry {
        ActiveListEntry {
            is_done: false,
            is_exception: false,
            logical_destination: decoded.logical_destination,
            old_destination: self.register_map_table[decoded.logical_destination as int],
            pc: decoded.pc,
        }
    }

    /// The state after `decoded` has been renamed and dispatched: its
    /// operands are looked up, the head of the free list becomes its
    /// destination, and it joins the active list and the integer queue.
    pub open spec fn rename(self, start: ProcessorState, decoded: DecodedInstruction) -> ProcessorState {
        let allocated = self.free_list[0];
        ProcessorState {
            active_list: self.active_list.push(self.list_entry(decoded)),
            integer_queue: self.integer_queue.push(self.queue_entry(start, decoded)),
            free_list: self.free_list.drop_first(),
            register_map_table: self.register_map_table.update(
                decoded.logical_destination as int,
                allocated,
            ),
            busy_bit_table: self.busy_bit_table.update(allocated as int, true),
            ..self
        }
    }

    /// The state after the instructions `decoded` have been renamed and
    /// dispatched in order.
    pub open spec fn rename_all(
        self,
        start: ProcessorState,
        decoded: Seq<DecodedInstruction>,
    ) -> ProcessorState
        decreases decoded.len(),
    {
        if decoded.len() == 0 {
            self
        } else {
            self.rename_all(start, decoded.drop_last()).rename(start, decoded.last())
        }
    }

    /// The state with an empty decoded buffer.
    pub open spec fn clear_decoded(self) -> ProcessorState {
        ProcessorState {
            decoded_instructions: Seq::empty(),
            decoded_pcs: Seq::empty(),
            ..self
        }
    }

    /// The rename and dispatch stage: with sufficient resources the decoded
    /// buffer of the start of the cycle is renamed, dispatched and cleared;
    /// without, nothing happens and fetch is held back.
    pub open spec fn dispatch_stage(self, start: ProcessorState) -> ProcessorState {
        if self.has_sufficient_resources() {
            self.rename_all(start, start.decoded_instructions).clear_decoded()
        } else {
            self
        }
    }

    // ----- fetch and decode -----

    /// The state after the next instruction of the stream has been fetched
    /// and decoded.
    pub open spec fn fetch_one(self, text: Seq<char>) -> ProcessorState {
        ProcessorState {
            decoded_instructions: self.decoded_instructions.push(decode_text(text, self.pc)->Ok_0),
            decoded_pcs: self.decoded_pcs.push(self.pc),
            pc: (self.pc + 1) as u64,
            ..self
        }
    }

    /// The number of instructions that a fetch takes from a stream of
    /// `available` instructions.
    pub open spec fn fetch_count(self, available: nat) -> nat {
        if self.decoded_instructions.len() >= 4 {
            0
        } else if available <= 4 - self.decoded_instructions.len() {
            available
        } else {
            (4 - self.decoded_instructions.len()) as nat
        }
    }

    /// The state and the stream after instructions have been fetched until
    /// the decoded buffer holds four or the stream is empty.
    pub open spec fn fetch(self, stream: Stream) -> (ProcessorState, Stream)
        decreases stream.len(),
    {
        if self.decoded_instructions.len() >= 4 || stream.len() == 0 {
            (self, stream)
        } else {
            self.fetch_one(stream.last()).fetch(stream.drop_last())
        }
    }

    /// The fetch and decode stage. Under backpressure nothing happens. In
    /// exception mode the decoded buffer is flushed and fetch is redirected.
    /// Else the decoded buffer is filled from the stream.
    pub open spec fn fetch_stage(self, stream: Stream, backpressure: bool) -> (
        ProcessorState,
        Stream,
    ) {
        if backpressure {
            (self, stream)
        } else if self.exception_mode {
            (ProcessorState { pc: EXCEPTION_PC, ..self.clear_decoded() }, stream)
        } else {
            self.fetch(stream)
        }
    }

    // ----- the cycle -----

    /// The state and the stream after one cycle.
    pub open spec fn step(self, stream: Stream) -> (ProcessorState, Stream) {
        let committed = self.commit_stage();
        if committed.exception_mode {
            committed.fetch_stage(stream, false)
        } else {
            let issued = committed.issue_stage();
            issued.dispatch_stage(self).fetch_stage(stream, !issued.has_sufficient_resources())
        }
    }
}

} // verus!
