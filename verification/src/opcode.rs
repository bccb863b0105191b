//! The arithmetic operations of the pipeline and their 64-bit unsigned semantics.

use vstd::prelude::*;

verus! {

/// Two to the power of 64: register values are taken modulo this number.
pub open spec fn word_modulus() -> int {
    0x1_0000_0000_0000_0000
}

/// An arithmetic operation that an ALU can carry out.
#[derive(Clone, Copy, Debug, PartialEq, Eq, Structural)]
pub enum OpCode {
    Add,
    Sub,
    Mulu,
    Divu,
    Remu,
}

impl OpCode {
    /// Whether the operation raises an exception on the operands `a` and `b`:
    /// a subtraction that would go below zero, or a division or remainder by zero.
    pub open spec fn raises(self, a: u64, b: u64) -> bool {
        match self {
            OpCode::Add => false,
            OpCode::Sub => a < b,
            OpCode::Mulu => false,
            OpCode::Divu => b == 0,
            OpCode::Remu => b == 0,
        }
    }

    /// The value that the operation forwards for the operands `a` and `b`.
    /// Sums and products are reduced modulo two to the power of 64; an operation
    /// that raises an exception forwards zero.
    pub open spec fn value(self, a: u64, b: u64) -> int {
        if self.raises(a, b) {
            0
        } else {
            match self {
                OpCode::Add => (a + b) % word_modulus(),
                OpCode::Sub => a - b,
                OpCode::Mulu => (a * b) % word_modulus(),
                OpCode::Divu => a as int / b as int,
                OpCode::Remu => a as int % b as int,
            }
        }
    }

    /// Carries out the operation and returns the forwarded value together with
    /// the exception flag.
    pub fn evaluate(self, a: u64, b: u64) -> (r: (u64, bool))
        ensures
            r.0 as int == self.value(a, b),
            r.1 == self.raises(a, b),
    {
        match self {
            OpCode::Add => (a.wrapping_add(b), false),
            OpCode::Sub => if a < b {
                (0, true)
            } else {
                (a - b, false)
            },
            OpCode::Mulu => (a.wrapping_mul(b), false),
            OpCode::Divu => if b == 0 {
                (0, true)
            } else {
                (a / b, false)
            },
            OpCode::Remu => if b == 0 {
                (0, true)
            } else {
                (a % b, false)
            },
        }
    }

    /// The assembly mnemonic of the operation.
    pub fn mnemonic(self) -> (r: &'static str)
        ensures
            r@ == self.mnemonic_text(),
    {
        match self {
            OpCode::Add => "add",
            OpCode::Sub => "sub",
            OpCode::Mulu => "mulu",
            OpCode::Divu => "divu",
            OpCode::Remu => "remu",
        }
    }

    /// The characters of the assembly mnemonic.
    pub open spec fn mnemonic_text(self) -> Seq<char> {
        match self {
            OpCode::Add => "add"@,
            OpCode::Sub => "sub"@,
            OpCode::Mulu => "mulu"@,
            OpCode::Divu => "divu"@,
            OpCode::Remu => "remu"@,
        }
    }
}

/// Within the 64-bit range a sum or product is forwarded exactly.
pub proof fn lemma_value_exact_in_range(a: u64, b: u64)
    ensures
        a + b < word_modulus() ==> OpCode::Add.value(a, b) == a + b,
        a * b < word_modulus() ==> OpCode::Mulu.value(a, b) == a * b,
{
    assert(a * b >= 0) by (nonlinear_arith);
}

} // verus!
