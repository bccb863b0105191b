//! The records that travel through the pipeline.

use vstd::prelude::*;
use crate::opcode::OpCode;

verus! {

/// One slot of the active list: an instruction in flight, from dispatch until
/// it retires or is rolled back.
#[derive(Clone, Copy, Debug, PartialEq, Eq)]
pub struct ActiveListEntry {
    pub is_done: bool,
    pub is_exception: bool,
    pub logical_destination: u8,
    pub old_destination: u8,
    pub pc: u64,
}

impl ActiveListEntry {
    pub fn new(
        done: bool,
        exception: bool,
        logical_destination: u8,
        old_destination: u8,
        pc: u64,
    ) -> (entry: ActiveListEntry)
        ensures
            entry == (ActiveListEntry {
                is_done: done,
                is_exception: exception,
                logical_destination,
                old_destination,
                pc,
            }),
    {
        ActiveListEntry {
            is_done: done,
            is_exception: exception,
            logical_destination,
            old_destination,
            pc,
        }
    }
}

/// One slot of the integer queue: a renamed instruction waiting for its
/// operands and for an ALU.
#[derive(Clone, Copy, Debug, PartialEq, Eq)]
pub struct IntegerQueueEntry {
    pub dest_register: u8,
    pub op_a_is_ready: bool,
    pub op_a_reg_tag: u8,
    pub op_a_value: u64,
    pub op_b_is_ready: bool,
    pub op_b_reg_tag: u8,
    pub op_b_value: u64,
    pub op_code: OpCode,
    pub pc: u64,
}

impl IntegerQueueEntry {
    pub fn new(
        dest_register: u8,
        op_a_is_ready: bool,
        op_a_reg_tag: u8,
        op_a_value: u64,
        op_b_is_ready: bool,
        op_b_reg_tag: u8,
        op_b_value: u64,
        op_code: OpCode,
        pc: u64,
    ) -> (entry: IntegerQueueEntry)
        ensures
            entry == (IntegerQueueEntry {
                dest_register,
                op_a_is_ready,
                op_a_reg_tag,
                op_a_value,
                op_b_is_ready,
                op_b_reg_tag,
                op_b_value,
                op_code,
                pc,
            }),
    {
        IntegerQueueEntry {
            dest_register,
            op_a_is_ready,
            op_a_reg_tag,
            op_a_value,
            op_b_is_ready,
            op_b_reg_tag,
            op_b_value,
            op_code,
            pc,
        }
    }

    /// An entry is ready to issue when both operands are.
    pub open spec fn ready(&self) -> bool {
        self.op_a_is_ready && self.op_b_is_ready
    }

    #[verifier::when_used_as_spec(ready)]
    pub fn is_ready(&self) -> (r: bool)
        ensures
            r == self.ready(),
    {
        self.op_a_is_ready && self.op_b_is_ready
    }

    /// The entry after it has seen the value `value` forwarded for the physical
    /// register `reg`: each operand that still waits for `reg` takes the value,
    /// becomes ready and drops its tag.
    pub open spec fn forwarded(self, reg: u8, value: u64) -> IntegerQueueEntry {
        let takes_a = !self.op_a_is_ready && self.op_a_reg_tag == reg;
        let takes_b = !self.op_b_is_ready && self.op_b_reg_tag == reg;
        IntegerQueueEntry {
            op_a_is_ready: self.op_a_is_ready || takes_a,
            op_a_reg_tag: if takes_a { 0 } else { self.op_a_reg_tag },
            op_a_value: if takes_a { value } else { self.op_a_value },
            op_b_is_ready: self.op_b_is_ready || takes_b,
            op_b_reg_tag: if takes_b { 0 } else { self.op_b_reg_tag },
            op_b_value: if takes_b { value } else { self.op_b_value },
            ..self
        }
    }
}

impl IntegerQueueEntry {
    /// Shows the entry the value `value` forwarded for the physical register
    /// `reg`.
    pub fn forward(self, reg: u8, value: u64) -> (entry: IntegerQueueEntry)
        ensures
            entry == self.forwarded(reg, value),
    {
        let mut entry = self;
        if !entry.op_a_is_ready && entry.op_a_reg_tag == reg {
            entry.op_a_is_ready = true;
            entry.op_a_value = value;
            entry.op_a_reg_tag = 0;
        }
        if !entry.op_b_is_ready && entry.op_b_reg_tag == reg {
            entry.op_b_is_ready = true;
            entry.op_b_value = value;
            entry.op_b_reg_tag = 0;
        }
        entry
    }
}

/// What an ALU stage holds: the operands and operation of an issued
/// instruction.
#[derive(Clone, Copy, Debug, PartialEq, Eq)]
pub struct ALUEntry {
    pub dest_register: u8,
    pub op_a_value: u64,
    pub op_b_value: u64,
    pub op_code: OpCode,
    pub pc: u64,
}

impl ALUEntry {
    pub fn new(
        dest_register: u8,
        op_a_value: u64,
        op_b_value: u64,
        op_code: OpCode,
        pc: u64,
    ) -> (entry: ALUEntry)
        ensures
            entry == (ALUEntry { dest_register, op_a_value, op_b_value, op_code, pc }),
    {
        ALUEntry { dest_register, op_a_value, op_b_value, op_code, pc }
    }

    /// The stage contents that an issued queue entry turns into.
    pub open spec fn of(entry: IntegerQueueEntry) -> ALUEntry {
        ALUEntry {
            dest_register: entry.dest_register,
            op_a_value: entry.op_a_value,
            op_b_value: entry.op_b_value,
            op_code: entry.op_code,
            pc: entry.pc,
        }
    }
}

/// A result that has arrived for an instruction and waits to be written to
/// the physical register file when the instruction retires.
#[derive(Clone, Copy, Debug, PartialEq, Eq)]
pub struct CommitBufferEntry {
    pub dest_register: u8,
    pub value: u64,
    pub pc: u64,
}

impl CommitBufferEntry {
    pub fn new(dest_register: u8, value: u64, pc: u64) -> (entry: CommitBufferEntry)
        ensures
            entry == (CommitBufferEntry { dest_register, value, pc }),
    {
        CommitBufferEntry { dest_register, value, pc }
    }
}

} // verus!
