//! Assembly instructions and their decoder.
//!
//! An instruction is a line of text such as `add x3, x1, x2` or
//! `addi x1, x0, 5`. The decoder splits the line into words, checks each of
//! them and produces a [`DecodedInstruction`].

use vstd::prelude::*;
use vstd::string::StrSliceExecFns;
use crate::opcode::OpCode;

verus! {

/// Why a line of text is not an instruction.
#[derive(Clone, Copy, Debug, PartialEq, Eq, Structural)]
pub enum DecodeError {
    /// The line does not consist of exactly four words.
    InvalidFormat,
    /// The first word is not a known operation.
    InvalidOpcode,
    /// A register word is not `x0` to `x31`.
    InvalidRegister,
    /// The immediate is not an unsigned 32-bit decimal number.
    InvalidImmediate,
}

impl DecodeError {
    /// A short description of the error.
    pub fn message(&self) -> (text: &'static str)
        ensures
            text@ == self.message_text(),
    {
        match self {
            DecodeError::InvalidFormat => "Invalid instruction format",
            DecodeError::InvalidOpcode => "Invalid op code",
            DecodeError::InvalidRegister => "Invalid register identifier",
            DecodeError::InvalidImmediate => "Invalid immediate value",
        }
    }

    pub open spec fn message_text(self) -> Seq<char> {
        match self {
            DecodeError::InvalidFormat => "Invalid instruction format"@,
            DecodeError::InvalidOpcode => "Invalid op code"@,
            DecodeError::InvalidRegister => "Invalid register identifier"@,
            DecodeError::InvalidImmediate => "Invalid immediate value"@,
        }
    }
}

/// An instruction after decoding, waiting in the decoded buffer for rename.
#[derive(Clone, Copy, Debug, PartialEq, Eq)]
pub struct DecodedInstruction {
    pub pc: u64,
    pub op_code: OpCode,
    pub immediate: bool,
    pub logical_destination: u8,
    pub op_a_reg_tag: u8,
    pub op_b_reg_tag: u8,
    pub immediate_value: u32,
}

impl DecodedInstruction {
    pub fn new(
        pc: u64,
        op_code: OpCode,
        immediate: bool,
        logical_destination: u8,
        op_a_reg_tag: u8,
        op_b_reg_tag: u8,
        immediate_value: u32,
    ) -> (decoded: DecodedInstruction)
        ensures
            decoded == (DecodedInstruction {
                pc,
                op_code,
                immediate,
                logical_destination,
                op_a_reg_tag,
                op_b_reg_tag,
                immediate_value,
            }),
    {
        DecodedInstruction {
            pc,
            op_code,
            immediate,
            logical_destination,
            op_a_reg_tag,
            op_b_reg_tag,
            immediate_value,
        }
    }

    /// All three register numbers name logical registers.
    pub open spec fn well_formed(self) -> bool {
        &&& self.logical_destination < 32
        &&& self.op_a_reg_tag < 32
        &&& self.op_b_reg_tag < 32
    }
}

/// Unicode white space.
pub open spec fn whitespace(c: char) -> bool {
    let u = c as u32;
    ||| 0x9 <= u <= 0xd
    ||| u == 0x20
    ||| u == 0x85
    ||| u == 0xa0
    ||| u == 0x1680
    ||| 0x2000 <= u <= 0x200a
    ||| u == 0x2028
    ||| u == 0x2029
    ||| u == 0x202f
    ||| u == 0x205f
    ||| u == 0x3000
}

/// Words are separated by white space and commas.
pub open spec fn separator(c: char) -> bool {
    c == ',' || whitespace(c)
}

/// The state of reading `text` from left to right: the words that have ended,
/// and the word in progress (empty after a separator).
pub open spec fn scan(text: Seq<char>) -> (Seq<Seq<char>>, Seq<char>)
    decreases text.len(),
{
    if text.len() == 0 {
        (Seq::empty(), Seq::empty())
    } else {
        let (ended, word) = scan(text.drop_last());
        if !separator(text.last()) {
            (ended, word.push(text.last()))
        } else if word.len() > 0 {
            (ended.push(word), Seq::empty())
        } else {
            (ended, word)
        }
    }
}

/// The words of `text`: its maximal runs of characters that are not
/// separators, in order.
pub open spec fn tokens(text: Seq<char>) -> Seq<Seq<char>> {
    let (ended, word) = scan(text);
    if word.len() > 0 {
        ended.push(word)
    } else {
        ended
    }
}

/// The operation that a mnemonic stands for, and whether it takes an
/// immediate as its second operand.
pub open spec fn operation(word: Seq<char>) -> Option<(OpCode, bool)> {
    if word == "add"@ {
        Some((OpCode::Add, false))
    } else if word == "addi"@ {
        Some((OpCode::Add, true))
    } else if word == "sub"@ {
        Some((OpCode::Sub, false))
    } else if word == "mulu"@ {
        Some((OpCode::Mulu, false))
    } else if word == "divu"@ {
        Some((OpCode::Divu, false))
    } else if word == "remu"@ {
        Some((OpCode::Remu, false))
    } else {
        None
    }
}

pub open spec fn digit(c: char) -> bool {
    '0' as u32 <= c as u32 <= '9' as u32
}

pub open spec fn digit_value(c: char) -> nat {
    if digit(c) {
        (c as u32 - '0' as u32) as nat
    } else {
        0
    }
}

/// The number that a string of decimal digits denotes.
pub open spec fn decimal(digits: Seq<char>) -> nat
    decreases digits.len(),
{
    if digits.len() == 0 {
        0
    } else {
        10 * decimal(digits.drop_last()) + digit_value(digits.last())
    }
}

/// The number that a string of one or more decimal digits denotes, if it is
/// no larger than `max`.
pub open spec fn unsigned(digits: Seq<char>, max: nat) -> Option<nat> {
    if digits.len() > 0 && (forall|i: int| 0 <= i < digits.len() ==> digit(#[trigger] digits[i]))
        && decimal(digits) <= max {
        Some(decimal(digits))
    } else {
        None
    }
}

/// The number that `word` denotes, if it is a decimal numeral no larger than
/// `max`: one or more digits, with an optional `+` in front.
pub open spec fn numeral(word: Seq<char>, max: nat) -> Option<nat> {
    if word.len() > 0 && word[0] == '+' {
        unsigned(word.skip(1), max)
    } else {
        unsigned(word, max)
    }
}

/// The logical register that `word` names: `x` and a numeral from 0 to 31.
pub open spec fn register(word: Seq<char>) -> Option<nat> {
    if word.len() > 0 && word[0] == 'x' {
        numeral(word.skip(1), 31)
    } else {
        None
    }
}

/// What decoding the line `text` at address `pc` yields.
#[verifier::opaque]
pub open spec fn decode_text(text: Seq<char>, pc: u64) -> Result<DecodedInstruction, DecodeError> {
    let words = tokens(text);
    if words.len() != 4 {
        Err(DecodeError::InvalidFormat)
    } else if operation(words[0]) is None {
        Err(DecodeError::InvalidOpcode)
    } else if register(words[1]) is None || register(words[2]) is None {
        Err(DecodeError::InvalidRegister)
    } else {
        let (op_code, immediate) = operation(words[0])->0;
        let logical_destination = register(words[1])->0 as u8;
        let op_a_reg_tag = register(words[2])->0 as u8;
        if immediate {
            match numeral(words[3], 0xffff_ffff) {
                Some(value) => Ok(
                    DecodedInstruction {
                        pc,
                        op_code,
                        immediate,
                        logical_destination,
                        op_a_reg_tag,
                        op_b_reg_tag: 0,
                        immediate_value: value as u32,
                    },
                ),
                None => Err(DecodeError::InvalidImmediate),
            }
        } else {
            match register(words[3]) {
                Some(b) => Ok(
                    DecodedInstruction {
                        pc,
                        op_code,
                        immediate,
                        logical_destination,
                        op_a_reg_tag,
                        op_b_reg_tag: b as u8,
                        immediate_value: 0,
                    },
                ),
                None => Err(DecodeError::InvalidRegister),
            }
        }
    }
}

/// The character sequences that a vector of words holds.
pub open spec fn words_of(words: Seq<Vec<char>>) -> Seq<Seq<char>> {
    words.map_values(|word: Vec<char>| word@)
}

/// A prefix of a digit string denotes no more than the whole string.
proof fn lemma_decimal_prefix(digits: Seq<char>, k: int)
    requires
        0 <= k <= digits.len(),
    ensures
        decimal(digits.take(k)) <= decimal(digits),
    decreases digits.len() - k,
{
    if k < digits.len() {
        assert(digits.take(k + 1).drop_last() =~= digits.take(k));
        lemma_decimal_prefix(digits, k + 1);
    } else {
        assert(digits.take(k) =~= digits);
    }
}

fn is_whitespace(c: char) -> (r: bool)
    ensures
        r == whitespace(c),
{
    let u = c as u32;
    (0x9 <= u && u <= 0xd) || u == 0x20 || u == 0x85 || u == 0xa0 || u == 0x1680 || (0x2000 <= u
        && u <= 0x200a) || u == 0x2028 || u == 0x2029 || u == 0x202f || u == 0x205f || u
        == 0x3000
}

fn is_separator(c: char) -> (r: bool)
    ensures
        r == separator(c),
{
    c == ',' || is_whitespace(c)
}

/// Splits a line into its words.
fn split_words(text: &str) -> (words: Vec<Vec<char>>)
    ensures
        words_of(words@) == tokens(text@),
{
    let n = text.unicode_len();
    let mut ended: Vec<Vec<char>> = Vec::new();
    let mut word: Vec<char> = Vec::new();
    let mut i: usize = 0;
    while i < n
        invariant
            i <= n,
            n == text@.len(),
            scan(text@.take(i as int)) == (words_of(ended@), word@),
        decreases n - i,
    {
        let c = text.get_char(i);
        proof {
            assert(text@.take(i + 1).drop_last() =~= text@.take(i as int));
        }
        if !is_separator(c) {
            word.push(c);
        } else if word.len() > 0 {
            let ghost before = words_of(ended@);
            ended.push(word);
            word = Vec::new();
            assert(words_of(ended@) =~= before.push(scan(text@.take(i as int)).1));
        }
        i += 1;
    }
    proof {
        assert(text@.take(n as int) =~= text@);
    }
    if word.len() > 0 {
        let ghost before = words_of(ended@);
        ended.push(word);
        assert(words_of(ended@) =~= before.push(scan(text@).1));
    }
    ended
}

/// Recognises the mnemonic of an operation.
fn parse_operation(word: &Vec<char>) -> (r: Option<(OpCode, bool)>)
    ensures
        r == operation(word@),
{
    proof {
        reveal_strlit("add");
        reveal_strlit("addi");
        reveal_strlit("sub");
        reveal_strlit("mulu");
        reveal_strlit("divu");
        reveal_strlit("remu");
    }
    let n = word.len();
    if n == 3 && word[0] == 'a' && word[1] == 'd' && word[2] == 'd' {
        assert(word@ =~= "add"@);
        Some((OpCode::Add, false))
    } else if n == 4 && word[0] == 'a' && word[1] == 'd' && word[2] == 'd' && word[3] == 'i' {
        assert(word@ =~= "addi"@);
        Some((OpCode::Add, true))
    } else if n == 3 && word[0] == 's' && word[1] == 'u' && word[2] == 'b' {
        assert(word@ =~= "sub"@);
        Some((OpCode::Sub, false))
    } else if n == 4 && word[0] == 'm' && word[1] == 'u' && word[2] == 'l' && word[3] == 'u' {
        assert(word@ =~= "mulu"@);
        Some((OpCode::Mulu, false))
    } else if n == 4 && word[0] == 'd' && word[1] == 'i' && word[2] == 'v' && word[3] == 'u' {
        assert(word@ =~= "divu"@);
        Some((OpCode::Divu, false))
    } else if n == 4 && word[0] == 'r' && word[1] == 'e' && word[2] == 'm' && word[3] == 'u' {
        assert(word@ =~= "remu"@);
        Some((OpCode::Remu, false))
    } else {
        None
    }
}

/// Reads the numeral that `word` holds from position `start` on.
fn parse_numeral(word: &Vec<char>, start: usize, max: u64) -> (r: Option<u64>)
    requires
        start <= word.len(),
        max <= 0xffff_ffff,
    ensures
        match r {
            Some(value) => numeral(word@.skip(start as int), max as nat) == Some(value as nat),
            None => numeral(word@.skip(start as int), max as nat) is None,
        },
{
    let ghost whole = word@.skip(start as int);
    let n = word.len();
    let mut first = start;
    if first < n && word[first] == '+' {
        first = first + 1;
    }
    let ghost digits = word@.skip(first as int);
    proof {
        if first > start {
            assert(whole.skip(1) =~= digits);
        }
        assert(numeral(whole, max as nat) == unsigned(digits, max as nat));
    }
    if first == n {
        return None;
    }
    let mut value: u64 = 0;
    let mut k = first;
    while k < n
        invariant
            first <= k <= n,
            n == word.len(),
            digits == word@.skip(first as int),
            numeral(word@.skip(start as int), max as nat) == unsigned(digits, max as nat),
            max <= 0xffff_ffff,
            value <= max,
            value as nat == decimal(digits.take(k - first)),
            forall|i: int| 0 <= i < k - first ==> digit(#[trigger] digits[i]),
        decreases n - k,
    {
        let c = word[k];
        let u = c as u32;
        proof {
            assert(digits[k - first] == c);
            assert(digits.take(k - first + 1).drop_last() =~= digits.take(k - first));
        }
        if !('0' as u32 <= u && u <= '9' as u32) {
            assert(!digit(digits[k - first]));
            return None;
        }
        value = value * 10 + (u - '0' as u32) as u64;
        if value > max {
            proof {
                lemma_decimal_prefix(digits, k - first + 1);
            }
            return None;
        }
        k += 1;
    }
    proof {
        assert(digits.take(n - first) =~= digits);
    }
    Some(value)
}

/// A line of assembly text.
#[derive(Debug)]
pub struct Instruction {
    value: String,
}

impl View for Instruction {
    type V = Seq<char>;

    closed spec fn view(&self) -> Seq<char> {
        self.value@
    }
}

impl Instruction {
    pub fn new(value: String) -> (instruction: Instruction)
        ensures
            instruction@ == value@,
    {
        Instruction { value }
    }

    /// The text of the instruction.
    pub fn text(&self) -> (text: &str)
        ensures
            text@ == self@,
    {
        self.value.as_str()
    }

    /// Whether the text decodes to an instruction.
    pub open spec fn valid(&self) -> bool {
        decode_text(self@, 0) is Ok
    }

    /// Decodes the text into the instruction at address `pc`.
    ///
    /// The line must consist of four words: a mnemonic, the destination
    /// register, the first source register and either the second source
    /// register or, for `addi`, the immediate.
    pub fn decode(&self, pc: u64) -> (r: Result<DecodedInstruction, DecodeError>)
        ensures
            r == decode_text(self@, pc),
    {
        proof {
            reveal(decode_text);
        }
        let words = split_words(self.value.as_str());
        if words.len() != 4 {
            return Err(DecodeError::InvalidFormat);
        }
        proof {
            assert(forall|i: int| 0 <= i < 4 ==> words_of(words@)[i] == words@[i]@);
        }
        let (op_code, immediate) = match parse_operation(&words[0]) {
            Some(found) => found,
            None => {
                return Err(DecodeError::InvalidOpcode);
            },
        };
        let logical_destination = match Instruction::parse_register(&words[1]) {
            Some(register) => register,
            None => {
                return Err(DecodeError::InvalidRegister);
            },
        };
        let op_a_reg_tag = match Instruction::parse_register(&words[2]) {
            Some(register) => register,
            None => {
                return Err(DecodeError::InvalidRegister);
            },
        };
        if immediate {
            match parse_numeral(&words[3], 0, 0xffff_ffff) {
                Some(value) => {
                    assert(words@[3]@.skip(0) =~= words@[3]@);
                    Ok(
                        DecodedInstruction::new(
                            pc,
                            op_code,
                            immediate,
                            logical_destination,
                            op_a_reg_tag,
                            0,
                            value as u32,
                        ),
                    )
                },
                None => {
                    assert(words@[3]@.skip(0) =~= words@[3]@);
                    Err(DecodeError::InvalidImmediate)
                },
            }
        } else {
            match Instruction::parse_register(&words[3]) {
                Some(op_b_reg_tag) => Ok(
                    DecodedInstruction::new(
                        pc,
                        op_code,
                        immediate,
                        logical_destination,
                        op_a_reg_tag,
                        op_b_reg_tag,
                        0,
                    ),
                ),
                None => Err(DecodeError::InvalidRegister),
            }
        }
    }

    /// Reads a register word such as `x7`.
    fn parse_register(word: &Vec<char>) -> (r: Option<u8>)
        ensures
            match r {
                Some(number) => register(word@) == Some(number as nat),
                None => register(word@) is None,
            },
    {
        if word.len() > 0 && word[0] == 'x' {
            match parse_numeral(word, 1, 31) {
                Some(number) => Some(number as u8),
                None => None,
            }
        } else {
            None
        }
    }
}

/// Decoding succeeds or fails whatever the address, and a decoded
/// instruction carries the address it was decoded at and names logical
/// registers only.
pub proof fn lemma_decode_text(text: Seq<char>, pc: u64)
    ensures
        decode_text(text, pc) is Ok <==> decode_text(text, 0) is Ok,
        decode_text(text, pc) matches Ok(decoded) ==> decoded.pc == pc && decoded.well_formed(),
{
    reveal(decode_text);
}

} // verus!
