//! The two-stage execution unit with its forwarding port.

use vstd::prelude::*;
use crate::entries::{ALUEntry, IntegerQueueEntry};

verus! {

/// A two-stage ALU. An instruction is latched into stage 1; `execute` moves
/// it to stage 2, where its result is computed and shown on the forwarding
/// port until the next `execute`.
#[derive(Clone, Copy, Debug, PartialEq, Eq)]
pub struct ALU {
    pub stage1: Option<ALUEntry>,
    pub stage2: Option<ALUEntry>,
    pub is_forwarding: bool,
    pub forwarding_reg: u8,
    pub forwarding_value: u64,
    pub forwarding_pc: u64,
    pub forwarding_exception: bool,
}

impl ALU {
    /// The idle unit: both stages empty, nothing forwarded.
    pub open spec fn idle() -> ALU {
        ALU {
            stage1: None,
            stage2: None,
            is_forwarding: false,
            forwarding_reg: 0,
            forwarding_value: 0,
            forwarding_pc: 0,
            forwarding_exception: false,
        }
    }

    /// The unit with `entry` deposited in stage 1.
    pub open spec fn latched(self, entry: IntegerQueueEntry) -> ALU {
        ALU { stage1: Some(ALUEntry::of(entry)), ..self }
    }

    /// The unit with the result of `entry` on its forwarding port.
    pub open spec fn forwarding(self, entry: ALUEntry) -> ALU {
        ALU {
            is_forwarding: true,
            forwarding_reg: entry.dest_register,
            forwarding_value: entry.op_code.value(entry.op_a_value, entry.op_b_value) as u64,
            forwarding_pc: entry.pc,
            forwarding_exception: entry.op_code.raises(entry.op_a_value, entry.op_b_value),
            ..self
        }
    }

    /// The unit after one cycle: stage 1 has moved to stage 2 and is empty.
    /// An occupied stage 2 shows its result on the forwarding port; with an
    /// empty stage 2 the port is deasserted.
    pub open spec fn executed(self) -> ALU {
        match self.stage1 {
            Some(entry) => (ALU { stage1: None, stage2: Some(entry), ..self }).forwarding(entry),
            None => ALU::idle(),
        }
    }

    /// The port shows a result that raised no exception.
    pub open spec fn asserts_result(self) -> bool {
        self.is_forwarding && !self.forwarding_exception
    }

    /// The port shows a result that raised an exception.
    pub open spec fn asserts_exception(self) -> bool {
        self.is_forwarding && self.forwarding_exception
    }

    pub fn new() -> (alu: ALU)
        ensures
            alu == ALU::idle(),
    {
        ALU {
            stage1: None,
            stage2: None,
            is_forwarding: false,
            forwarding_reg: 0,
            forwarding_value: 0,
            forwarding_pc: 0,
            forwarding_exception: false,
        }
    }

    /// Whether stage 1 is occupied.
    pub fn is_busy(&self) -> (r: bool)
        ensures
            r == self.stage1.is_some(),
    {
        self.stage1.is_some()
    }

    /// Deposits a queue entry in stage 1, which must be empty.
    pub fn latch(&mut self, entry: IntegerQueueEntry)
        requires
            old(self).stage1.is_none(),
        ensures
            *final(self) == old(self).latched(entry),
    {
        self.stage1 = Some(
            ALUEntry::new(
                entry.dest_register,
                entry.op_a_value,
                entry.op_b_value,
                entry.op_code,
                entry.pc,
            ),
        );
    }

    /// Advances the unit by one cycle.
    pub fn execute(&mut self)
        ensures
            *final(self) == old(self).executed(),
    {
        match self.stage1 {
            Some(entry) => {
                self.stage1 = None;
                self.stage2 = Some(entry);
                self.update_forwarding();
            },
            None => {
                self.reset();
            },
        }
    }

    /// Clears both stages and deasserts the forwarding port.
    pub fn reset(&mut self)
        ensures
            *final(self) == ALU::idle(),
    {
        *self = ALU::new();
    }

    /// Computes the result of `entry`, records on the port whether it raised
    /// an exception, and returns the value to forward.
    fn compute(&mut self, entry: &ALUEntry) -> (value: u64)
        ensures
            value as int == entry.op_code.value(entry.op_a_value, entry.op_b_value),
            *final(self) == (ALU {
                forwarding_exception: entry.op_code.raises(entry.op_a_value, entry.op_b_value),
                ..*old(self)
            }),
    {
        let (value, exception) = entry.op_code.evaluate(entry.op_a_value, entry.op_b_value);
        self.forwarding_exception = exception;
        value
    }

    /// Puts the result of stage 2 on the forwarding port.
    fn update_forwarding(&mut self)
        requires
            old(self).stage2.is_some(),
        ensures
            *final(self) == old(self).forwarding(old(self).stage2.unwrap()),
    {
        let entry = self.stage2.unwrap();
        self.is_forwarding = true;
        self.forwarding_reg = entry.dest_register;
        self.forwarding_pc = entry.pc;
        self.forwarding_value = self.compute(&entry);
    }
}

} // verus!
