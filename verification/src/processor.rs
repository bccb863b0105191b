//! The processor: its state and the cycle that advances it.

use vstd::prelude::*;
use crate::alu::ALU;
use crate::entries::{ActiveListEntry, CommitBufferEntry, IntegerQueueEntry};
use crate::instruction::{decode_text, lemma_decode_text, DecodedInstruction, Instruction};
use crate::model::{
    absorb_all, completes, has_pending, has_ready, observed, oldest_ready, pending_at,
    pending_index, ProcessorState, EXCEPTION_PC,
};
use crate::preservation::{lemma_enter_exception_wf, lemma_initial_wf, lemma_step_wf};
use crate::wellformed::{
    lemma_absorb_all_keeps, lemma_enter_exception_shaped, lemma_first_free_unit,
    lemma_issue_one_shaped, lemma_observe_all_committable, lemma_oldest_ready,
    lemma_pending_index, lemma_rename_shaped, lemma_retire_head_committable,
    lemma_roll_back_last_shaped, lemma_stages_keep_pc, oldest_ready_among,
};

verus! {

/// The texts of a vector of instructions.
pub open spec fn stream_of(instructions: Seq<Instruction>) -> Seq<Seq<char>> {
    instructions.map_values(|instruction: Instruction| instruction@)
}

/// The state of the processor between two cycles.
#[derive(Debug)]
pub struct Processor {
    active_list: Vec<ActiveListEntry>,
    busy_bit_table: Vec<bool>,
    decoded_pcs: Vec<u64>,
    decoded_instructions: Vec<DecodedInstruction>,
    exception_mode: bool,
    exception_pc: u64,
    free_list: Vec<u8>,
    integer_queue: Vec<IntegerQueueEntry>,
    alus: Vec<ALU>,
    commit_buffer: Vec<CommitBufferEntry>,
    pc: u64,
    physical_register_file: Vec<u64>,
    register_map_table: Vec<u8>,
}

impl View for Processor {
    type V = ProcessorState;

    closed spec fn view(&self) -> ProcessorState {
        ProcessorState {
            active_list: self.active_list@,
            busy_bit_table: self.busy_bit_table@,
            decoded_pcs: self.decoded_pcs@,
            decoded_instructions: self.decoded_instructions@,
            exception_mode: self.exception_mode,
            exception_pc: self.exception_pc,
            free_list: self.free_list@,
            integer_queue: self.integer_queue@,
            alus: self.alus@,
            commit_buffer: self.commit_buffer@,
            pc: self.pc,
            physical_register_file: self.physical_register_file@,
            register_map_table: self.register_map_table@,
        }
    }
}

/// A vector that holds `value` `count` times.
fn filled<T: Copy>(value: T, count: usize) -> (v: Vec<T>)
    ensures
        v@ == Seq::new(count as nat, |i: int| value),
{
    let mut v: Vec<T> = Vec::new();
    let mut i: usize = 0;
    while i < count
        invariant
            i <= count,
            v@ == Seq::new(i as nat, |j: int| value),
        decreases count - i,
    {
        v.push(value);
        assert(v@ =~= Seq::new((i + 1) as nat, |j: int| value));
        i += 1;
    }
    v
}

/// The vector of the numbers from `first` on, `count` of them.
fn counting(first: u8, count: u8) -> (v: Vec<u8>)
    requires
        first + count <= 255,
    ensures
        v@ == Seq::new(count as nat, |i: int| (first + i) as u8),
{
    let mut v: Vec<u8> = Vec::new();
    let mut i: u8 = 0;
    while i < count
        invariant
            i <= count,
            first + count <= 255,
            v@ == Seq::new(i as nat, |j: int| (first + j) as u8),
        decreases count - i,
    {
        v.push(first + i);
        assert(v@ =~= Seq::new((i + 1) as nat, |j: int| (first + j) as u8));
        i += 1;
    }
    v
}

/// A copy of a vector of plain values.
fn copied<T: Copy>(source: &Vec<T>) -> (v: Vec<T>)
    ensures
        v@ == source@,
{
    let mut v: Vec<T> = Vec::new();
    let mut i: usize = 0;
    while i < source.len()
        invariant
            i <= source.len(),
            v@ == source@.take(i as int),
        decreases source.len() - i,
    {
        v.push(source[i]);
        assert(v@ =~= source@.take(i + 1));
        i += 1;
    }
    assert(source@.take(source.len() as int) =~= source@);
    v
}

impl Clone for Processor {
    fn clone(&self) -> (copy: Processor)
        ensures
            copy@ == self@,
    {
        Processor {
            active_list: copied(&self.active_list),
            busy_bit_table: copied(&self.busy_bit_table),
            decoded_pcs: copied(&self.decoded_pcs),
            decoded_instructions: copied(&self.decoded_instructions),
            exception_mode: self.exception_mode,
            exception_pc: self.exception_pc,
            free_list: copied(&self.free_list),
            integer_queue: copied(&self.integer_queue),
            alus: copied(&self.alus),
            commit_buffer: copied(&self.commit_buffer),
            pc: self.pc,
            physical_register_file: copied(&self.physical_register_file),
            register_map_table: copied(&self.register_map_table),
        }
    }
}

impl Processor {
    /// The processor at power-on.
    pub fn new() -> (processor: Processor)
        ensures
            processor@ == ProcessorState::initial(),
            processor@.wf(),
    {
        let processor = Processor {
            active_list: Vec::new(),
            busy_bit_table: filled(false, 64),
            decoded_pcs: Vec::new(),
            decoded_instructions: Vec::new(),
            exception_mode: false,
            exception_pc: 0,
            free_list: counting(32, 32),
            integer_queue: Vec::new(),
            alus: filled(ALU::new(), 4),
            commit_buffer: Vec::new(),
            pc: 0,
            physical_register_file: filled(0u64, 64),
            register_map_table: counting(0, 32),
        };
        proof {
            let initial = ProcessorState::initial();
            assert(processor@.free_list =~= initial.free_list);
            assert(processor@.register_map_table =~= initial.register_map_table);
            lemma_initial_wf();
        }
        processor
    }

    /// Whether nothing is in flight and no exception is being handled.
    pub fn is_done(&self) -> (done: bool)
        ensures
            done == self@.done(),
    {
        self.active_list.is_empty() && self.exception_mode == false
    }

    /// Appends a copy of the state to `state_log`.
    pub fn log_state(&self, state_log: &mut Vec<Processor>)
        ensures
            final(state_log)@.len() == old(state_log)@.len() + 1,
            final(state_log)@.last()@ == self@,
            forall|i: int| 0 <= i < old(state_log)@.len() ==> final(state_log)@[i] == old(state_log)@[i],
    {
        state_log.push(self.clone());
    }

    /// Takes over the state `new_state`.
    pub fn latch(&mut self, new_state: &Processor)
        ensures
            final(self)@ == new_state@,
    {
        *self = new_state.clone();
    }

    // ----- reading the state -----

    /// The instructions in flight, oldest first.
    pub fn active_list(&self) -> (list: &Vec<ActiveListEntry>)
        ensures
            list@ == self@.active_list,
    {
        &self.active_list
    }

    /// The busy bit of each physical register.
    pub fn busy_bit_table(&self) -> (table: &Vec<bool>)
        ensures
            table@ == self@.busy_bit_table,
    {
        &self.busy_bit_table
    }

    /// The addresses of the instructions in the decoded buffer.
    pub fn decoded_pcs(&self) -> (pcs: &Vec<u64>)
        ensures
            pcs@ == self@.decoded_pcs,
    {
        &self.decoded_pcs
    }

    /// The instructions that wait for rename.
    pub fn decoded_instructions(&self) -> (decoded: &Vec<DecodedInstruction>)
        ensures
            decoded@ == self@.decoded_instructions,
    {
        &self.decoded_instructions
    }

    /// Whether an exception is being handled.
    pub fn exception_mode(&self) -> (mode: bool)
        ensures
            mode == self@.exception_mode,
    {
        self.exception_mode
    }

    /// The address of the instruction whose exception was taken last.
    pub fn exception_pc(&self) -> (pc: u64)
        ensures
            pc == self@.exception_pc,
    {
        self.exception_pc
    }

    /// The free physical registers, the next to allocate first.
    pub fn free_list(&self) -> (list: &Vec<u8>)
        ensures
            list@ == self@.free_list,
    {
        &self.free_list
    }

    /// The renamed instructions that wait to issue.
    pub fn integer_queue(&self) -> (queue: &Vec<IntegerQueueEntry>)
        ensures
            queue@ == self@.integer_queue,
    {
        &self.integer_queue
    }

    /// The ALUs.
    pub fn alus(&self) -> (alus: &Vec<ALU>)
        ensures
            alus@ == self@.alus,
    {
        &self.alus
    }

    /// The results that wait for their instructions to retire.
    pub fn commit_buffer(&self) -> (buffer: &Vec<CommitBufferEntry>)
        ensures
            buffer@ == self@.commit_buffer,
    {
        &self.commit_buffer
    }

    /// The address of the next instruction to fetch.
    pub fn pc(&self) -> (pc: u64)
        ensures
            pc == self@.pc,
    {
        self.pc
    }

    /// The value of each physical register.
    pub fn physical_register_file(&self) -> (file: &Vec<u64>)
        ensures
            file@ == self@.physical_register_file,
    {
        &self.physical_register_file
    }

    /// The physical register that each logical register is mapped to.
    pub fn register_map_table(&self) -> (table: &Vec<u8>)
        ensures
            table@ == self@.register_map_table,
    {
        &self.register_map_table
    }

    // ----- commit -----

    /// The active list sees the forwarding port of `alu`: a result marks
    /// the entry at its address done and is buffered until the entry
    /// retires, an exception marks the entry excepted.
    fn update_active_list(&mut self, alu: &ALU)
        ensures
            final(self)@ == old(self)@.observe(*alu),
    {
        let n = self.active_list.len();
        let mut completed = false;
        let mut j: usize = 0;
        while j < n
            invariant
                j <= n,
                n == self.active_list.len(),
                n == old(self).active_list.len(),
                forall|i: int|
                    0 <= i < j ==> self.active_list@[i] == observed(
                        old(self)@.active_list[i],
                        *alu,
                    ),
                forall|i: int| j <= i < n ==> self.active_list@[i] == old(self)@.active_list[i],
                completed == (alu.asserts_result() && exists|i: int|
                    0 <= i < j && (#[trigger] old(self)@.active_list[i]).pc == alu.forwarding_pc
                        && !old(self)@.active_list[i].is_done),
                self@ == (ProcessorState { active_list: self.active_list@, ..old(self)@ }),
            decreases n - j,
        {
            let mut entry = self.active_list[j];
            if alu.is_forwarding && entry.pc == alu.forwarding_pc {
                if alu.forwarding_exception {
                    entry.is_exception = true;
                } else {
                    if !entry.is_done {
                        completed = true;
                    }
                    entry.is_done = true;
                }
                self.active_list[j] = entry;
            }
            j += 1;
        }
        proof {
            assert(self.active_list@ =~= old(self)@.active_list.map_values(
                |entry: ActiveListEntry| observed(entry, *alu),
            ));
            assert(completed == completes(old(self)@.active_list, *alu));
        }
        if completed {
            self.commit_buffer.push(
                CommitBufferEntry::new(alu.forwarding_reg, alu.forwarding_value, alu.forwarding_pc),
            );
        }
    }

    /// The active list sees the forwarding ports of all ALUs.
    fn read_active_list_fwd_paths(&mut self)
        ensures
            final(self)@ == old(self)@.observe_all(old(self)@.alus),
    {
        let n = self.alus.len();
        let mut k: usize = 0;
        while k < n
            invariant
                k <= n,
                n == old(self)@.alus.len(),
                self@.alus == old(self)@.alus,
                self@ == old(self)@.observe_all(old(self)@.alus.take(k as int)),
            decreases n - k,
        {
            let alu = self.alus[k];
            proof {
                assert(old(self)@.alus.take(k + 1).drop_last() =~= old(self)@.alus.take(k as int));
            }
            self.update_active_list(&alu);
            k += 1;
        }
        proof {
            assert(old(self)@.alus.take(n as int) =~= old(self)@.alus);
        }
    }

    /// Carries out the buffered write of `entry`: the value goes to the
    /// physical register file, the busy bit of the register is cleared, and
    /// the write leaves the buffer.
    ///
    /// This is the first half of retiring an entry. The commit stage calls
    /// it for the head of the active list and then takes the head off.
    pub fn commit_entry(&mut self, entry: ActiveListEntry)
        requires
            old(self)@.shaped(),
            has_pending(old(self)@.commit_buffer, entry.pc),
        ensures
            final(self)@ == old(self)@.apply_pending(entry.pc),
    {
        proof {
            lemma_pending_index(self@.commit_buffer, entry.pc);
        }
        let mut at: usize = 0;
        while self.commit_buffer[at].pc != entry.pc
            invariant
                self@ == old(self)@,
                0 <= at <= pending_index(self@.commit_buffer, entry.pc) < self.commit_buffer.len(),
                pending_at(self@.commit_buffer, entry.pc, pending_index(self@.commit_buffer, entry.pc)),
            decreases self@.commit_buffer.len() - at,
        {
            at += 1;
        }
        let write = self.commit_buffer.remove(at);
        self.physical_register_file[write.dest_register as usize] = write.value;
        self.set_free(write.dest_register);
    }

    /// Takes the exception of the instruction at `pc`: exception mode is
    /// entered, the ALUs are reset, and the integer queue and the buffered
    /// writes are dropped.
    pub fn set_exception_mode(&mut self, pc: u64)
        ensures
            final(self)@ == old(self)@.enter_exception(pc),
            old(self)@.wf() ==> final(self)@.wf(),
    {
        proof {
            if self@.wf() {
                lemma_enter_exception_wf(self@, pc);
            }
        }
        self.exception_mode = true;
        self.exception_pc = pc;
        self.reset_alus();
        self.reset_integer_queue();
        self.commit_buffer.clear();
    }

    /// The commit stage: in exception mode a cycle of rollback; else the
    /// active list sees the forwarding ports and up to four entries retire
    /// in order.
    fn commit(&mut self)
        requires
            old(self)@.committable(),
        ensures
            final(self)@ == old(self)@.commit_stage(),
            final(self)@.shaped(),
    {
        if self.exception_mode {
            if self.active_list.is_empty() {
                self.exception_mode = false;
            } else {
                self.rollback();
            }
            return ;
        }
        proof {
            lemma_observe_all_committable(self@, self@.alus);
        }
        self.read_active_list_fwd_paths();
        let ghost observed = self@;
        let mut retired: usize = 0;
        while retired < 4 && self.active_list.len() > 0
            invariant_except_break
                retired <= 4,
                self@.committable(),
                !self@.exception_mode,
                observed.commit_scan(4) == self@.commit_scan((4 - retired) as nat),
            ensures
                self@ == observed.commit_scan(4),
                self@.shaped(),
            decreases 4 - retired,
        {
            let entry = self.active_list[0];
            if entry.is_exception {
                proof {
                    lemma_enter_exception_shaped(self@, entry.pc);
                }
                self.set_exception_mode(entry.pc);
                break ;
            } else if entry.is_done {
                proof {
                    lemma_retire_head_committable(self@);
                    assert(self@.active_list.remove(0) =~= self@.active_list.drop_first());
                }
                self.commit_entry(entry);
                self.free_list.push(entry.old_destination);
                self.active_list.remove(0);
                retired += 1;
            } else {
                break ;
            }
        }
    }

    /// A cycle of rollback: up to four entries leave the active list,
    /// youngest first. For each, the register that it allocated is freed
    /// and its destination is mapped as it was before.
    fn rollback(&mut self)
        requires
            old(self)@.shaped(),
        ensures
            final(self)@ == old(self)@.roll_back(4),
            final(self)@.shaped(),
    {
        let mut rolled_back: usize = 0;
        while rolled_back < 4 && self.active_list.len() > 0
            invariant
                rolled_back <= 4,
                self@.shaped(),
                old(self)@.roll_back(4) == self@.roll_back((4 - rolled_back) as nat),
            decreases 4 - rolled_back,
        {
            proof {
                lemma_roll_back_last_shaped(self@);
            }
            let ghost before = self@;
            let entry = self.active_list.pop().unwrap();
            let allocated = self.map_register(entry.logical_destination);
            self.set_free(allocated);
            self.free_list.push(allocated);
            self.register_map_table[entry.logical_destination as usize] = entry.old_destination;
            proof {
                assert(self@.active_list =~= before.active_list.drop_last());
                assert(self@ == before.roll_back_last());
            }
            rolled_back += 1;
        }
    }

    // ----- issue -----

    /// Whether some ALU shows an exception on its forwarding port.
    fn any_alu_exception(&self) -> (incoming: bool)
        ensures
            incoming == self@.exception_incoming(),
    {
        let n = self.alus.len();
        let mut k: usize = 0;
        while k < n
            invariant
                k <= n,
                n == self.alus.len(),
                forall|j: int| 0 <= j < k ==> !(#[trigger] self@.alus[j]).asserts_exception(),
            decreases n - k,
        {
            if self.alus[k].is_forwarding && self.alus[k].forwarding_exception {
                assert(self@.alus[k as int].asserts_exception());
                return true;
            }
            k += 1;
        }
        false
    }

    /// The integer queue sees the value `forwarding_value` forwarded for the
    /// register `forwarding_reg`.
    fn update_integer_queue(&mut self, forwarding_reg: u8, forwarding_value: u64)
        ensures
            final(self)@ == (ProcessorState {
                integer_queue: old(self)@.integer_queue.map_values(
                    |entry: IntegerQueueEntry| entry.forwarded(forwarding_reg, forwarding_value),
                ),
                ..old(self)@
            }),
    {
        let n = self.integer_queue.len();
        let mut i: usize = 0;
        while i < n
            invariant
                i <= n,
                n == self.integer_queue.len(),
                n == old(self).integer_queue.len(),
                forall|j: int|
                    0 <= j < i ==> self.integer_queue@[j] == old(self)@.integer_queue[j].forwarded(
                        forwarding_reg,
                        forwarding_value,
                    ),
                forall|j: int| i <= j < n ==> self.integer_queue@[j] == old(self)@.integer_queue[j],
                self@ == (ProcessorState { integer_queue: self.integer_queue@, ..old(self)@ }),
            decreases n - i,
        {
            let entry = self.integer_queue[i].forward(forwarding_reg, forwarding_value);
            self.integer_queue[i] = entry;
            i += 1;
        }
        proof {
            assert(self.integer_queue@ =~= old(self)@.integer_queue.map_values(
                |entry: IntegerQueueEntry| entry.forwarded(forwarding_reg, forwarding_value),
            ));
        }
    }

    /// The integer queue sees the forwarding ports of all ALUs.
    fn read_integer_queue_fwd_paths(&mut self)
        ensures
            final(self)@ == (ProcessorState {
                integer_queue: absorb_all(old(self)@.integer_queue, old(self)@.alus),
                ..old(self)@
            }),
    {
        let n = self.alus.len();
        let mut k: usize = 0;
        while k < n
            invariant
                k <= n,
                n == old(self)@.alus.len(),
                self@ == (ProcessorState {
                    integer_queue: absorb_all(
                        old(self)@.integer_queue,
                        old(self)@.alus.take(k as int),
                    ),
                    ..old(self)@
                }),
            decreases n - k,
        {
            let alu = self.alus[k];
            proof {
                assert(old(self)@.alus.take(k + 1).drop_last() =~= old(self)@.alus.take(k as int));
            }
            if alu.is_forwarding {
                self.update_integer_queue(alu.forwarding_reg, alu.forwarding_value);
            }
            k += 1;
        }
        proof {
            assert(old(self)@.alus.take(n as int) =~= old(self)@.alus);
        }
    }

    /// Takes the oldest ready entry out of the integer queue, if there is a
    /// ready entry.
    fn find_oldest_ready_instruction(&mut self) -> (found: Option<IntegerQueueEntry>)
        ensures
            match found {
                Some(entry) => {
                    &&& has_ready(old(self)@.integer_queue)
                    &&& entry == old(self)@.integer_queue[oldest_ready(old(self)@.integer_queue)]
                    &&& final(self)@ == (ProcessorState {
                        integer_queue: old(self)@.integer_queue.remove(
                            oldest_ready(old(self)@.integer_queue),
                        ),
                        ..old(self)@
                    })
                },
                None => !has_ready(old(self)@.integer_queue) && final(self)@ == old(self)@,
            },
    {
        let n = self.integer_queue.len();
        let mut best: Option<usize> = None;
        let mut i: usize = 0;
        while i < n
            invariant
                i <= n,
                n == self.integer_queue.len(),
                self@ == old(self)@,
                match best {
                    Some(at) => oldest_ready_among(self@.integer_queue, i as nat, at as int),
                    None => forall|j: int| 0 <= j < i ==> !(#[trigger] self@.integer_queue[j]).ready(),
                },
            decreases n - i,
        {
            if self.integer_queue[i].is_ready() {
                match best {
                    Some(at) => {
                        if self.integer_queue[i].pc < self.integer_queue[at].pc {
                            best = Some(i);
                        }
                    },
                    None => {
                        best = Some(i);
                    },
                }
            }
            i += 1;
        }
        match best {
            Some(at) => {
                proof {
                    lemma_oldest_ready(self@.integer_queue, at as int);
                }
                Some(self.integer_queue.remove(at))
            },
            None => None,
        }
    }

    /// Issues the oldest ready entry to the first ALU whose stage 1 is
    /// empty, if there are both.
    fn issue_instruction(&mut self)
        ensures
            final(self)@ == old(self)@.issue_one(),
    {
        let n = self.alus.len();
        let mut unit: usize = 0;
        while unit < n && self.alus[unit].is_busy()
            invariant
                unit <= n,
                n == self.alus.len(),
                self@ == old(self)@,
                forall|j: int| 0 <= j < unit ==> (#[trigger] self@.alus[j]).stage1 is Some,
            decreases n - unit,
        {
            unit += 1;
        }
        if unit == n {
            return ;
        }
        proof {
            lemma_first_free_unit(self@.alus, unit as int);
        }
        match self.find_oldest_ready_instruction() {
            Some(entry) => {
                self.alus[unit].latch(entry);
            },
            None => {},
        }
    }

    /// The issue stage. While an exception is on a forwarding port nothing
    /// happens. Else the queue sees the forwarding ports, up to four ready
    /// entries issue, oldest first, and every ALU advances by one cycle.
    fn issue(&mut self)
        requires
            old(self)@.shaped(),
        ensures
            final(self)@ == old(self)@.issue_stage(),
            final(self)@.shaped(),
    {
        if self.any_alu_exception() {
            return ;
        }
        proof {
            lemma_absorb_all_keeps(self@.integer_queue, self@.alus);
        }
        self.read_integer_queue_fwd_paths();
        let ghost absorbed = self@;
        let mut issued: usize = 0;
        while issued < 4
            invariant
                issued <= 4,
                self@.shaped(),
                absorbed.issue_up_to(4) == self@.issue_up_to((4 - issued) as nat),
            decreases 4 - issued,
        {
            proof {
                lemma_issue_one_shaped(self@);
            }
            self.issue_instruction();
            issued += 1;
        }
        let ghost latched = self@;
        let n = self.alus.len();
        let mut k: usize = 0;
        while k < n
            invariant
                k <= n,
                n == self.alus.len(),
                n == latched.alus.len(),
                latched.shaped(),
                forall|j: int| 0 <= j < k ==> self.alus@[j] == latched.alus[j].executed(),
                forall|j: int| k <= j < n ==> self.alus@[j] == latched.alus[j],
                self@ == (ProcessorState { alus: self.alus@, ..latched }),
            decreases n - k,
        {
            self.alus[k].execute();
            k += 1;
        }
        proof {
            assert(self.alus@ =~= latched.alus.map_values(|alu: ALU| alu.executed()));
        }
    }

    // ----- rename and dispatch -----

    /// The tag and the readiness that the queue records of an operand.
    /// `current_state` is the state at the start of the cycle.
    fn get_operand_info(&self, current_state: &Processor, reg_tag: u8, is_immediate: bool) -> (info: (
        u8,
        bool,
    ))
        requires
            self@.shaped(),
            current_state@.shaped(),
            reg_tag < 32,
        ensures
            is_immediate ==> info == (0u8, true),
            !is_immediate ==> info.0 == self@.operand(current_state@, reg_tag).1 && info.1
                == self@.operand(current_state@, reg_tag).0,
    {
        if is_immediate {
            (0, true)
        } else {
            let physical_reg_tag = self.map_register(reg_tag);
            let is_ready = current_state.register_is_ready(physical_reg_tag)
                && self.register_is_ready(physical_reg_tag);
            let effective_reg_tag = if is_ready {
                0
            } else {
                physical_reg_tag
            };
            (effective_reg_tag, is_ready)
        }
    }

    /// The value that the queue records of the first operand: what the
    /// register file of this state holds for the register `physical`.
    fn get_operand_a_value(&self, physical: u8) -> (value: u64)
        requires
            physical < self@.physical_register_file.len(),
        ensures
            value == self@.physical_register_file[physical as int],
    {
        self.physical_register_file[physical as usize]
    }

    /// The value that the queue records of the second operand: the
    /// immediate, or what the register file of this state holds for the
    /// register `physical`.
    fn get_operand_b_value(&self, decoded_instruction: &DecodedInstruction, physical: u8) -> (value:
        u64)
        requires
            physical < self@.physical_register_file.len(),
        ensures
            value == if decoded_instruction.immediate {
                decoded_instruction.immediate_value as u64
            } else {
                self@.physical_register_file[physical as int]
            },
    {
        if decoded_instruction.immediate {
            decoded_instruction.immediate_value as u64
        } else {
            self.physical_register_file[physical as usize]
        }
    }

    /// Maps a destination to the head of the free list, which becomes busy.
    fn map_destination_register(&mut self, logical_dest: u8) -> (physical: u8)
        requires
            old(self)@.shaped(),
            old(self)@.free_list.len() > 0,
            logical_dest < 32,
        ensures
            physical == old(self)@.free_list[0],
            final(self)@ == (ProcessorState {
                free_list: old(self)@.free_list.drop_first(),
                register_map_table: old(self)@.register_map_table.update(
                    logical_dest as int,
                    physical,
                ),
                busy_bit_table: old(self)@.busy_bit_table.update(physical as int, true),
                ..old(self)@
            }),
    {
        let physical_dest_register = self.get_next_free_register();
        self.register_map_table[logical_dest as usize] = physical_dest_register;
        self.set_busy(physical_dest_register);
        physical_dest_register
    }

    /// Appends the active list entry of a decoded instruction.
    fn add_active_list_entry(&mut self, decoded_instruction: &DecodedInstruction)
        requires
            old(self)@.shaped(),
            decoded_instruction.well_formed(),
        ensures
            final(self)@ == (ProcessorState {
                active_list: old(self)@.active_list.push(
                    old(self)@.list_entry(*decoded_instruction),
                ),
                ..old(self)@
            }),
    {
        let old_dest_register = self.map_register(decoded_instruction.logical_destination);
        self.active_list.push(
            ActiveListEntry::new(
                false,
                false,
                decoded_instruction.logical_destination,
                old_dest_register,
                decoded_instruction.pc,
            ),
        );
    }

    /// Looks up the operands of a decoded instruction, allocates its
    /// destination and appends its integer queue entry.
    fn add_integer_queue_entry(
        &mut self,
        current_state: &Processor,
        decoded_instruction: &DecodedInstruction,
    )
        requires
            old(self)@.shaped(),
            current_state@.shaped(),
            decoded_instruction.well_formed(),
            old(self)@.free_list.len() > 0,
        ensures
            final(self)@ == (ProcessorState {
                integer_queue: old(self)@.integer_queue.push(
                    old(self)@.queue_entry(current_state@, *decoded_instruction),
                ),
                free_list: old(self)@.free_list.drop_first(),
                register_map_table: old(self)@.register_map_table.update(
                    decoded_instruction.logical_destination as int,
                    old(self)@.free_list[0],
                ),
                busy_bit_table: old(self)@.busy_bit_table.update(
                    old(self)@.free_list[0] as int,
                    true,
                ),
                ..old(self)@
            }),
    {
        let (op_a_reg_tag, op_a_ready) = self.get_operand_info(
            current_state,
            decoded_instruction.op_a_reg_tag,
            false,
        );
        let (op_b_reg_tag, op_b_ready) = self.get_operand_info(
            current_state,
            decoded_instruction.op_b_reg_tag,
            decoded_instruction.immediate,
        );
        let op_a_value = current_state.get_operand_a_value(
            self.map_register(decoded_instruction.op_a_reg_tag),
        );
        let op_b_value = current_state.get_operand_b_value(
            decoded_instruction,
            self.map_register(decoded_instruction.op_b_reg_tag),
        );
        let physical_dest_register = self.map_destination_register(
            decoded_instruction.logical_destination,
        );
        self.integer_queue.push(
            IntegerQueueEntry::new(
                physical_dest_register,
                op_a_ready,
                op_a_reg_tag,
                op_a_value,
                op_b_ready,
                op_b_reg_tag,
                op_b_value,
                decoded_instruction.op_code,
                decoded_instruction.pc,
            ),
        );
    }

    /// The rename and dispatch stage: with sufficient resources the decoded
    /// buffer of `current_state`, the state at the start of the cycle, is
    /// renamed, dispatched and cleared. Returns whether fetch is to be held
    /// back for want of resources.
    fn rename_and_dispatch(&mut self, current_state: &Processor) -> (backpressure: bool)
        requires
            old(self)@.shaped(),
            current_state@.shaped(),
        ensures
            backpressure == !old(self)@.has_sufficient_resources(),
            final(self)@ == old(self)@.dispatch_stage(current_state@),
            final(self)@.shaped(),
            final(self)@.alus == old(self)@.alus,
    {
        if !self.has_sufficient_resources() {
            return true;
        }
        let n = current_state.decoded_instructions.len();
        let mut i: usize = 0;
        while i < n
            invariant
                i <= n <= 4,
                n == current_state@.decoded_instructions.len(),
                current_state@.shaped(),
                self@.shaped(),
                self@.free_list.len() >= 4 - i,
                self@.alus == old(self)@.alus,
                self@ == old(self)@.rename_all(
                    current_state@,
                    current_state@.decoded_instructions.take(i as int),
                ),
            decreases n - i,
        {
            let decoded_instruction = current_state.decoded_instructions[i];
            proof {
                assert(current_state@.decoded_instructions[i as int].well_formed());
                assert(current_state@.decoded_instructions.take(i + 1).drop_last()
                    =~= current_state@.decoded_instructions.take(i as int));
                lemma_rename_shaped(self@, current_state@, decoded_instruction);
            }
            let ghost before = self@;
            self.add_active_list_entry(&decoded_instruction);
            self.add_integer_queue_entry(current_state, &decoded_instruction);
            assert(self@ == before.rename(current_state@, decoded_instruction));
            i += 1;
        }
        proof {
            assert(current_state@.decoded_instructions.take(n as int)
                =~= current_state@.decoded_instructions);
        }
        self.clear_decoded_instructions();
        false
    }

    // ----- fetch and decode -----

    /// The fetch and decode stage. Under backpressure nothing happens. In
    /// exception mode the decoded buffer is flushed and fetch is redirected.
    /// Else instructions are taken from the end of `instructions` and
    /// decoded until the decoded buffer holds four.
    fn fetch_and_decode(&mut self, instructions: &mut Vec<Instruction>, backpressure: bool)
        requires
            old(self)@.shaped(),
            old(self)@.pc <= u64::MAX - 4,
            forall|i: int|
                0 <= i < old(instructions)@.len() ==> (#[trigger] old(instructions)@[i]).valid(),
        ensures
            (final(self)@, stream_of(final(instructions)@)) == old(self)@.fetch_stage(
                stream_of(old(instructions)@),
                backpressure,
            ),
            final(self)@.shaped(),
            final(instructions)@.len() <= old(instructions)@.len(),
            final(instructions)@ == old(instructions)@.take(final(instructions)@.len() as int),
    {
        if backpressure || self.exception_mode {
            if !backpressure {
                self.pc = EXCEPTION_PC;
                self.clear_decoded_instructions();
            }
            proof {
                assert(instructions@.take(instructions@.len() as int) =~= instructions@);
            }
        } else {
            self.fill_decoded_buffer(instructions);
        }
    }

    /// Takes instructions from the end of `instructions` and decodes them
    /// until the decoded buffer holds four.
    fn fill_decoded_buffer(&mut self, instructions: &mut Vec<Instruction>)
        requires
            old(self)@.shaped(),
            old(self)@.pc <= u64::MAX - 4,
            forall|i: int|
                0 <= i < old(instructions)@.len() ==> (#[trigger] old(instructions)@[i]).valid(),
        ensures
            (final(self)@, stream_of(final(instructions)@)) == old(self)@.fetch(
                stream_of(old(instructions)@),
            ),
            final(self)@.shaped(),
            final(instructions)@.len() <= old(instructions)@.len(),
            final(instructions)@ == old(instructions)@.take(final(instructions)@.len() as int),
    {
        proof {
            assert(instructions@.take(instructions@.len() as int) =~= instructions@);
        }
        while self.decoded_instructions.len() < 4 && !instructions.is_empty()
            invariant
                self@.shaped(),
                self@.pc + (4 - self@.decoded_instructions.len()) <= u64::MAX,
                instructions@.len() <= old(instructions)@.len(),
                instructions@ == old(instructions)@.take(instructions@.len() as int),
                forall|i: int|
                    0 <= i < old(instructions)@.len() ==> (#[trigger] old(instructions)@[i]).valid(),
                old(self)@.fetch(stream_of(old(instructions)@)) == self@.fetch(
                    stream_of(instructions@),
                ),
            decreases instructions@.len(),
        {
            let ghost before = self@;
            let ghost stream = stream_of(instructions@);
            let instruction = instructions.pop().unwrap();
            proof {
                assert(instruction == old(instructions)@[instructions@.len() as int]);
                assert(instruction.valid());
                lemma_decode_text(instruction@, self.pc);
                assert(stream.last() == instruction@);
                assert(stream_of(instructions@) =~= stream.drop_last());
                assert(instructions@ =~= old(instructions)@.take(instructions@.len() as int));
            }
            self.decoded_pcs.push(self.pc);
            let decoded_instruction = instruction.decode(self.pc).unwrap();
            self.decoded_instructions.push(decoded_instruction);
            self.pc += 1;
            proof {
                assert(self@ == before.fetch_one(instruction@));
            }
        }
    }

    // ----- the cycle -----

    /// Advances the processor by one cycle and returns the new state.
    ///
    /// The instructions that the cycle fetches are taken from the end of
    /// `instructions`: the next instruction in program order is the last
    /// element.
    pub fn propagate(&self, instructions: &mut Vec<Instruction>) -> (next_state: Processor)
        requires
            self@.wf(),
            self@.pc <= u64::MAX - 4,
            forall|i: int|
                0 <= i < old(instructions)@.len() ==> (#[trigger] old(instructions)@[i]).valid(),
        ensures
            (next_state@, stream_of(final(instructions)@)) == self@.step(
                stream_of(old(instructions)@),
            ),
            next_state@.wf(),
            final(instructions)@ == old(instructions)@.take(final(instructions)@.len() as int),
    {
        proof {
            assert forall|i: int| 0 <= i < stream_of(instructions@).len() implies decode_text(
                #[trigger] stream_of(instructions@)[i],
                0,
            ) is Ok by {
                assert(instructions@[i].valid());
            }
            lemma_step_wf(self@, stream_of(instructions@));
        }
        let mut next_state = self.clone();
        let mut backpressure = false;
        next_state.commit();
        if !next_state.exception_mode {
            next_state.issue();
            backpressure = next_state.rename_and_dispatch(self);
        }
        proof {
            lemma_stages_keep_pc(self@);
        }
        next_state.fetch_and_decode(instructions, backpressure);
        next_state
    }

    // ----- small steps on the tables -----

    /// The physical register that a logical register is mapped to.
    fn map_register(&self, logical_register: u8) -> (physical: u8)
        requires
            logical_register < self@.register_map_table.len(),
        ensures
            physical == self@.register_map_table[logical_register as int],
    {
        self.register_map_table[logical_register as usize]
    }

    /// Whether the busy bit of a register is clear.
    fn register_is_ready(&self, register: u8) -> (ready: bool)
        requires
            register < self@.busy_bit_table.len(),
        ensures
            ready == !self@.busy_bit_table[register as int],
    {
        self.busy_bit_table[register as usize] == false
    }

    /// Sets the busy bit of a register.
    fn set_busy(&mut self, register: u8)
        requires
            register < old(self)@.busy_bit_table.len(),
        ensures
            final(self)@ == (ProcessorState {
                busy_bit_table: old(self)@.busy_bit_table.update(register as int, true),
                ..old(self)@
            }),
    {
        self.busy_bit_table[register as usize] = true;
    }

    /// Clears the busy bit of a register.
    fn set_free(&mut self, register: u8)
        requires
            register < old(self)@.busy_bit_table.len(),
        ensures
            final(self)@ == (ProcessorState {
                busy_bit_table: old(self)@.busy_bit_table.update(register as int, false),
                ..old(self)@
            }),
    {
        self.busy_bit_table[register as usize] = false;
    }

    /// Takes the head of the free list.
    fn get_next_free_register(&mut self) -> (register: u8)
        requires
            old(self)@.free_list.len() > 0,
        ensures
            register == old(self)@.free_list[0],
            final(self)@ == (ProcessorState {
                free_list: old(self)@.free_list.drop_first(),
                ..old(self)@
            }),
    {
        let register = self.free_list.remove(0);
        proof {
            assert(old(self)@.free_list.remove(0) =~= old(self)@.free_list.drop_first());
        }
        register
    }

    /// Resets every ALU.
    fn reset_alus(&mut self)
        ensures
            final(self)@ == (ProcessorState {
                alus: old(self)@.alus.map_values(|alu: ALU| ALU::idle()),
                ..old(self)@
            }),
    {
        let n = self.alus.len();
        let mut k: usize = 0;
        while k < n
            invariant
                k <= n,
                n == self.alus.len(),
                n == old(self).alus.len(),
                forall|j: int| 0 <= j < k ==> self.alus@[j] == ALU::idle(),
                self@ == (ProcessorState { alus: self.alus@, ..old(self)@ }),
            decreases n - k,
        {
            self.alus[k].reset();
            k += 1;
        }
        proof {
            assert(self.alus@ =~= old(self)@.alus.map_values(|alu: ALU| ALU::idle()));
        }
    }

    /// Empties the integer queue.
    fn reset_integer_queue(&mut self)
        ensures
            final(self)@ == (ProcessorState { integer_queue: Seq::empty(), ..old(self)@ }),
    {
        self.integer_queue.clear();
    }

    /// Empties the decoded buffer.
    fn clear_decoded_instructions(&mut self)
        ensures
            final(self)@ == old(self)@.clear_decoded(),
    {
        self.decoded_instructions.clear();
        self.decoded_pcs.clear();
    }

    /// Whether four more instructions can be renamed and dispatched.
    fn has_sufficient_resources(&self) -> (sufficient: bool)
        ensures
            sufficient == self@.has_sufficient_resources(),
    {
        self.free_list.len() >= 4 && self.active_list.len() <= 28 && self.integer_queue.len()
            <= 28
    }
}

} // verus!
