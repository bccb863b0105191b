//! Loading a program and running it to completion.

use vstd::prelude::*;
use crate::instruction::{decode_text, DecodeError, Instruction};
use crate::model::{valid_stream, ProcessorState, EXCEPTION_PC};
use crate::preservation::lemma_step_wf;
use crate::processor::{stream_of, Processor};

verus! {

/// The error type of the JSON reader.
#[verifier::external_type_specification]
#[verifier::external_body]
pub struct ExJsonError(serde_json::Error);

/// The strings that the JSON document `text` lists, if it is an array of
/// strings.
pub uninterp spec fn json_string_array(text: Seq<char>) -> Option<Seq<Seq<char>>>;

/// Why a program could not be loaded.
#[derive(Clone, Copy, Debug, PartialEq, Eq, Structural)]
pub enum ProgramError {
    /// The document is not a JSON array of strings.
    MalformedInput,
}

/// The character sequences that a vector of strings holds.
pub open spec fn lines_of(lines: Seq<String>) -> Seq<Seq<char>> {
    lines.map_values(|line: String| line@)
}

/// The states that a vector of processors holds.
pub open spec fn states_of(log: Seq<Processor>) -> Seq<ProcessorState> {
    log.map_values(|processor: Processor| processor@)
}

/// Calls `serde_json::from_str` for a vector of strings. Its result is
/// named by [`json_string_array`]: the strings of the array on success, and
/// none where the reader reports an error.
#[verifier::external_body]
fn parse_string_array(text: &str) -> (r: Result<Vec<String>, serde_json::Error>)
    ensures
        match r {
            Ok(lines) => json_string_array(text@) == Some(lines_of(lines@)),
            Err(_) => json_string_array(text@) is None,
        },
{
    serde_json::from_str::<Vec<String>>(text)
}

/// Turns the lines of a program into the stream that the processor fetches
/// from: the first line of the program is the last element.
pub fn instructions_from_lines(lines: Vec<String>) -> (instructions: Vec<Instruction>)
    ensures
        stream_of(instructions@) == lines_of(lines@).reverse(),
{
    let mut lines = lines;
    let ghost all = lines_of(lines@);
    let mut instructions: Vec<Instruction> = Vec::new();
    while lines.len() > 0
        invariant
            lines_of(lines@) == all.take(lines@.len() as int),
            lines@.len() <= all.len(),
            instructions@.len() == all.len() - lines@.len(),
            forall|i: int|
                0 <= i < instructions@.len() ==> (#[trigger] instructions@[i])@ == all[all.len() - 1
                    - i],
        decreases lines@.len(),
    {
        let ghost before = lines_of(lines@);
        let line = lines.pop().unwrap();
        proof {
            assert(line@ == before[before.len() - 1]);
            assert(lines_of(lines@) =~= all.take(lines@.len() as int));
        }
        instructions.push(Instruction::new(line));
    }
    proof {
        assert(stream_of(instructions@) =~= all.reverse());
    }
    instructions
}

/// Reads a program from a JSON document: an array of strings, one
/// instruction each, in program order.
pub fn load_program(text: &str) -> (r: Result<Vec<Instruction>, ProgramError>)
    ensures
        match json_string_array(text@) {
            Some(lines) => r is Ok && stream_of(r->Ok_0@) == lines.reverse(),
            None => r == Err::<Vec<Instruction>, ProgramError>(ProgramError::MalformedInput),
        },
{
    match parse_string_array(text) {
        Ok(lines) => Ok(instructions_from_lines(lines)),
        Err(_) => Err(ProgramError::MalformedInput),
    }
}

/// The error of the first instruction in program order that does not
/// decode, if there is one.
pub open spec fn first_fault(stream: Seq<Seq<char>>) -> Option<DecodeError>
    decreases stream.len(),
{
    if stream.len() == 0 {
        None
    } else {
        match decode_text(stream.last(), 0) {
            Err(error) => Some(error),
            Ok(_) => first_fault(stream.drop_last()),
        }
    }
}

/// The pipeline has drained: nothing is left to fetch, to dispatch or to
/// retire, and no exception is being handled.
pub open spec fn drained(s: ProcessorState, stream: Seq<Seq<char>>) -> bool {
    stream.len() == 0 && s.decoded_instructions.len() == 0 && s.done()
}

/// The states after `s`, one per cycle, until the pipeline has drained or
/// `room` states have been recorded.
pub open spec fn run(s: ProcessorState, stream: Seq<Seq<char>>, room: nat) -> Seq<ProcessorState>
    decreases room,
{
    if room == 0 || drained(s, stream) {
        Seq::empty()
    } else {
        let (next, rest) = s.step(stream);
        seq![next] + run(next, rest, (room - 1) as nat)
    }
}

/// The log of a simulation: the state at power-on, and the state after each
/// cycle until the pipeline has drained or the log holds `max_cycles`
/// states.
pub open spec fn trace(stream: Seq<Seq<char>>, max_cycles: nat) -> Seq<ProcessorState> {
    seq![ProcessorState::initial()] + run(
        ProcessorState::initial(),
        stream,
        if max_cycles > 0 {
            (max_cycles - 1) as nat
        } else {
            0
        },
    )
}

/// A stream without a fault holds instructions only.
proof fn lemma_no_fault(stream: Seq<Seq<char>>)
    ensures
        first_fault(stream) is None <==> valid_stream(stream),
    decreases stream.len(),
{
    if stream.len() > 0 {
        lemma_no_fault(stream.drop_last());
        if valid_stream(stream) {
            assert(decode_text(stream[stream.len() - 1], 0) is Ok);
            assert forall|i: int| 0 <= i < stream.drop_last().len() implies decode_text(
                #[trigger] stream.drop_last()[i],
                0,
            ) is Ok by {
                assert(decode_text(stream[i], 0) is Ok);
            }
        }
        if first_fault(stream) is None {
            assert forall|i: int| 0 <= i < stream.len() implies decode_text(
                #[trigger] stream[i],
                0,
            ) is Ok by {
                if i < stream.len() - 1 {
                    assert(decode_text(stream.drop_last()[i], 0) is Ok);
                }
            }
        }
    }
}

/// Checks that every instruction decodes. Returns the error of the first
/// one in program order that does not.
pub fn check_program(instructions: &Vec<Instruction>) -> (r: Result<(), DecodeError>)
    ensures
        match first_fault(stream_of(instructions@)) {
            Some(error) => r == Err::<(), DecodeError>(error),
            None => r is Ok,
        },
        r is Ok <==> forall|i: int|
            0 <= i < instructions@.len() ==> (#[trigger] instructions@[i]).valid(),
{
    let ghost stream = stream_of(instructions@);
    let mut i = instructions.len();
    proof {
        assert(stream.take(i as int) =~= stream);
        lemma_no_fault(stream);
        if valid_stream(stream) {
            assert forall|i: int| 0 <= i < instructions@.len() implies (
            #[trigger] instructions@[i]).valid() by {
                assert(decode_text(stream[i], 0) is Ok);
            }
        }
        if forall|i: int| 0 <= i < instructions@.len() ==> (#[trigger] instructions@[i]).valid() {
            assert forall|i: int| 0 <= i < stream.len() implies decode_text(
                #[trigger] stream[i],
                0,
            ) is Ok by {
                assert(instructions@[i].valid());
            }
        }
    }
    while i > 0
        invariant
            i <= instructions.len(),
            stream == stream_of(instructions@),
            first_fault(stream) == first_fault(stream.take(i as int)),
        decreases i,
    {
        i -= 1;
        proof {
            assert(stream.take(i + 1).last() == instructions@[i as int]@);
            assert(stream.take(i + 1).drop_last() =~= stream.take(i as int));
        }
        match instructions[i].decode(0) {
            Err(error) => {
                return Err(error);
            },
            Ok(_) => {},
        }
    }
    Ok(())
}

/// Runs a program that has been checked. See [`simulate`].
fn run_checked(instructions: Vec<Instruction>, max_cycles: usize) -> (log: Vec<Processor>)
    requires
        instructions@.len() + EXCEPTION_PC + 4 <= u64::MAX,
        forall|i: int| 0 <= i < instructions@.len() ==> (#[trigger] instructions@[i]).valid(),
    ensures
        states_of(log@) == trace(stream_of(instructions@), max_cycles as nat),
        forall|i: int| 0 <= i < log@.len() ==> (#[trigger] log@[i])@.wf(),
{
    let ghost program = stream_of(instructions@);
    let ghost total = instructions@.len();
    let mut instructions = instructions;
    let mut state_log: Vec<Processor> = Vec::new();
    let mut processor = Processor::new();
    processor.log_state(&mut state_log);
    proof {
        assert(states_of(state_log@) =~= seq![ProcessorState::initial()]);
    }
    while !(instructions.is_empty() && processor.decoded_pcs().is_empty() && processor.is_done())
        && state_log.len() < max_cycles
        invariant
            state_log@.len() >= 1,
            processor@.wf(),
            instructions@.len() <= total,
            processor@.pc + instructions@.len() <= total + EXCEPTION_PC,
            total + EXCEPTION_PC + 4 <= u64::MAX,
            forall|i: int| 0 <= i < instructions@.len() ==> (#[trigger] instructions@[i]).valid(),
            forall|i: int| 0 <= i < state_log@.len() ==> (#[trigger] state_log@[i])@.wf(),
            trace(program, max_cycles as nat) == states_of(state_log@) + run(
                processor@,
                stream_of(instructions@),
                if max_cycles > state_log@.len() {
                    (max_cycles - state_log@.len()) as nat
                } else {
                    0
                },
            ),
        decreases
                if max_cycles > state_log@.len() {
                    max_cycles - state_log@.len()
                } else {
                    0
                },
    {
        let ghost stream = stream_of(instructions@);
        let ghost logged = states_of(state_log@);
        let ghost current = processor@;
        proof {
            assert forall|i: int| 0 <= i < stream.len() implies decode_text(
                #[trigger] stream[i],
                0,
            ) is Ok by {
                assert(instructions@[i].valid());
            }
            lemma_step_wf(current, stream);
        }
        let new_processor = processor.propagate(&mut instructions);
        processor.latch(&new_processor);
        processor.log_state(&mut state_log);
        proof {
            assert(states_of(state_log@) =~= logged.push(processor@));
            let room = (max_cycles - logged.len()) as nat;
            assert(run(current, stream, room) =~= seq![processor@] + run(
                processor@,
                stream_of(instructions@),
                (room - 1) as nat,
            ));
            assert(logged + (seq![processor@] + run(
                processor@,
                stream_of(instructions@),
                (room - 1) as nat,
            )) =~= logged.push(processor@) + run(
                processor@,
                stream_of(instructions@),
                (room - 1) as nat,
            ));
        }
    }
    proof {
        let room: nat = if max_cycles > state_log@.len() {
            (max_cycles - state_log@.len()) as nat
        } else {
            0
        };
        assert(run(processor@, stream_of(instructions@), room) =~= Seq::empty());
        assert(states_of(state_log@) + Seq::<ProcessorState>::empty() =~= states_of(state_log@));
    }
    state_log
}

/// Runs a program from power-on and returns the log of its states.
///
/// `instructions` is the program as a stream: its first instruction is the
/// last element. The log starts with the state at power-on and gains one
/// state per cycle until the pipeline has drained or the log holds
/// `max_cycles` states. A program with an instruction that does not decode
/// is not run.
pub fn simulate(instructions: Vec<Instruction>, max_cycles: usize) -> (r: Result<
    Vec<Processor>,
    DecodeError,
>)
    requires
        instructions@.len() + EXCEPTION_PC + 4 <= u64::MAX,
    ensures
        match first_fault(stream_of(instructions@)) {
            Some(error) => r == Err::<Vec<Processor>, DecodeError>(error),
            None => r is Ok && states_of(r->Ok_0@) == trace(
                stream_of(instructions@),
                max_cycles as nat,
            ) && forall|i: int| 0 <= i < r->Ok_0@.len() ==> (#[trigger] r->Ok_0@[i])@.wf(),
        },
{
    match check_program(&instructions) {
        Err(error) => Err(error),
        Ok(_) => Ok(run_checked(instructions, max_cycles)),
    }
}

} // verus!
