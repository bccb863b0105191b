use cpusim::entries::{ActiveListEntry, IntegerQueueEntry};
use cpusim::instruction::{DecodeError, Instruction};
use cpusim::opcode::OpCode;
use cpusim::processor::Processor;
use cpusim::simulation::{
    check_program, instructions_from_lines, load_program, simulate, ProgramError,
};

fn stream(lines: &[&str]) -> Vec<Instruction> {
    instructions_from_lines(lines.iter().map(|line| line.to_string()).collect())
}

fn run(lines: &[&str], max_cycles: usize) -> Vec<Processor> {
    simulate(stream(lines), max_cycles).unwrap()
}

fn value_of(state: &Processor, logical: usize) -> u64 {
    state.physical_register_file()[state.register_map_table()[logical] as usize]
}

fn drained(state: &Processor) -> bool {
    state.is_done() && state.decoded_pcs().is_empty()
}

fn check_invariants(log: &[Processor]) {
    for state in log {
        assert!(state.active_list().len() <= 32);
        assert!(state.integer_queue().len() <= 32);
        assert!(state.decoded_pcs().len() <= 4);
        assert_eq!(state.decoded_pcs().len(), state.decoded_instructions().len());
        assert!(state.free_list().len() <= 32);
        assert_eq!(state.busy_bit_table().len(), 64);
        assert_eq!(state.physical_register_file().len(), 64);
        assert_eq!(state.register_map_table().len(), 32);
        for pair in state.active_list().windows(2) {
            assert!(pair[0].pc < pair[1].pc);
        }
        let mut seen = [0u32; 64];
        for register in state.free_list() {
            seen[*register as usize] += 1;
            assert!(!state.busy_bit_table()[*register as usize]);
        }
        for register in state.register_map_table() {
            seen[*register as usize] += 1;
        }
        for entry in state.active_list() {
            seen[entry.old_destination as usize] += 1;
        }
        assert_eq!(seen, [1u32; 64]);
        if state.exception_mode() {
            assert!(state.integer_queue().is_empty());
            assert!(state.alus().iter().all(|alu| !alu.is_forwarding));
            assert!(state.decoded_pcs().is_empty());
            assert_eq!(state.pc(), 0x10000);
        }
        assert!(state.alus().iter().all(|alu| !alu.is_busy()));
    }
    for pair in log.windows(2) {
        let (before, after) = (&pair[0], &pair[1]);
        let in_flight = before.active_list().len() + before.decoded_pcs().len();
        assert!(after.active_list().len() + 4 >= before.active_list().len());
        assert!(after.active_list().len() <= in_flight);
        assert!(after.integer_queue().len() <= before.integer_queue().len() + 4);
        assert!(after.integer_queue().len() + 4 >= before.integer_queue().len()
            || after.exception_mode());
        if after.pc() != 0x10000 {
            assert!(after.pc() >= before.pc() && after.pc() - before.pc() <= 4);
        }
        let forwarding = after.alus().iter().filter(|alu| alu.is_forwarding).count();
        assert!(forwarding <= 4);
    }
}

#[test]
fn initial_state() {
    let state = Processor::new();
    assert_eq!(state.pc(), 0);
    assert!(!state.exception_mode());
    assert_eq!(state.exception_pc(), 0);
    assert!(state.active_list().is_empty());
    assert!(state.integer_queue().is_empty());
    assert!(state.decoded_pcs().is_empty());
    assert!(state.decoded_instructions().is_empty());
    assert!(state.commit_buffer().is_empty());
    assert_eq!(*state.free_list(), (32u8..64).collect::<Vec<u8>>());
    assert_eq!(*state.register_map_table(), (0u8..32).collect::<Vec<u8>>());
    assert_eq!(*state.busy_bit_table(), vec![false; 64]);
    assert_eq!(*state.physical_register_file(), vec![0u64; 64]);
    assert_eq!(state.alus().len(), 4);
    assert!(state.is_done());
}

#[test]
fn empty_program_logs_the_initial_state_only() {
    let log = run(&[], 50);
    assert_eq!(log.len(), 1);
    let state = &log[0];
    assert_eq!(state.pc(), 0);
    assert!(!state.exception_mode());
    assert!(state.active_list().is_empty());
    assert!(state.integer_queue().is_empty());
    assert!(state.decoded_pcs().is_empty());
    assert_eq!(*state.free_list(), (32u8..64).collect::<Vec<u8>>());
    assert_eq!(*state.register_map_table(), (0u8..32).collect::<Vec<u8>>());
}

#[test]
fn single_add_with_constant_inputs() {
    let log = run(&["addi x1, x0, 5", "addi x2, x0, 7", "add x3, x1, x2"], 50);
    check_invariants(&log);
    let last = log.last().unwrap();
    assert_eq!(value_of(last, 3), 12);
    assert_eq!(value_of(last, 1), 5);
    assert_eq!(value_of(last, 2), 7);
    assert!(log.iter().all(|state| !state.exception_mode()));
    assert!(last.active_list().is_empty());
    assert!(drained(last));
    assert_eq!(log.len(), 6);
    assert_eq!(last.pc(), 3);
}

#[test]
fn divide_by_zero() {
    let log = run(&["addi x1, x0, 0", "addi x2, x0, 10", "divu x3, x2, x1"], 50);
    check_invariants(&log);
    let entered = log.iter().position(|state| state.exception_mode()).unwrap();
    assert_eq!(entered, 5);
    assert_eq!(log[entered].exception_pc(), 2);
    assert_eq!(log[entered].pc(), 0x10000);
    assert_eq!(
        *log[entered].active_list(),
        vec![ActiveListEntry::new(false, true, 3, 3, 2)]
    );
    assert!(log[6].exception_mode());
    assert!(log[6].active_list().is_empty());
    let last = log.last().unwrap();
    assert_eq!(log.len(), 8);
    assert!(!last.exception_mode());
    assert_eq!(last.exception_pc(), 2);
    assert_eq!(last.pc(), 0x10000);
    assert!(last.active_list().is_empty());
    assert_eq!(value_of(last, 1), 0);
    assert_eq!(value_of(last, 2), 10);
    assert_eq!(value_of(last, 3), 0);
}

#[test]
fn subtract_underflow() {
    let log = run(&["addi x1, x0, 3", "addi x2, x0, 5", "sub x3, x1, x2"], 50);
    check_invariants(&log);
    let entered = log.iter().position(|state| state.exception_mode()).unwrap();
    assert_eq!(log[entered].exception_pc(), 2);
    assert_eq!(log[entered].pc(), 0x10000);
    let last = log.last().unwrap();
    assert!(!last.exception_mode());
    assert_eq!(last.exception_pc(), 2);
    assert_eq!(last.pc(), 0x10000);
    assert!(last.active_list().is_empty());
    assert_eq!(log.len(), 8);
}

#[test]
fn rollback_restores_the_map_and_frees_what_was_allocated() {
    let log = run(&["addi x1, x0, 0", "addi x2, x0, 10", "divu x3, x2, x1"], 50);
    let last = log.last().unwrap();
    let mut map: Vec<u8> = (0u8..32).collect();
    map[1] = 32;
    map[2] = 33;
    assert_eq!(*last.register_map_table(), map);
    let mut free: Vec<u8> = (35u8..64).collect();
    free.extend([1, 2, 34]);
    assert_eq!(*last.free_list(), free);
    assert_eq!(*last.busy_bit_table(), vec![false; 64]);
}

#[test]
fn rollback_takes_four_entries_per_cycle_youngest_first() {
    let log = run(
        &[
            "divu x1, x0, x0",
            "addi x2, x0, 1",
            "addi x3, x0, 1",
            "addi x4, x0, 1",
            "addi x5, x0, 1",
            "addi x6, x0, 1",
        ],
        50,
    );
    check_invariants(&log);
    let entered = log.iter().position(|state| state.exception_mode()).unwrap();
    assert_eq!(log[entered].exception_pc(), 0);
    assert_eq!(log[entered].active_list().len(), 6);
    assert_eq!(log[entered + 1].active_list().len(), 2);
    assert_eq!(
        log[entered + 1].active_list().iter().map(|entry| entry.pc).collect::<Vec<u64>>(),
        vec![0, 1]
    );
    assert_eq!(log[entered + 2].active_list().len(), 0);
    assert!(log[entered + 2].exception_mode());
    assert!(!log[entered + 3].exception_mode());
    let last = log.last().unwrap();
    assert_eq!(*last.register_map_table(), (0u8..32).collect::<Vec<u8>>());
    let mut free: Vec<u8> = (38u8..64).collect();
    free.extend([37, 36, 35, 34, 33, 32]);
    assert_eq!(*last.free_list(), free);
}

#[test]
fn backpressure_forty_independent_instructions() {
    let lines: Vec<String> =
        (0..40).map(|i| format!("addi x{}, x0, {}", i % 31 + 1, i + 100)).collect();
    let refs: Vec<&str> = lines.iter().map(|line| line.as_str()).collect();
    let log = run(&refs, 200);
    check_invariants(&log);
    let last = log.last().unwrap();
    assert!(drained(last));
    assert!(log.iter().all(|state| !state.exception_mode()));
    assert_eq!(last.pc(), 40);
    for logical in 1..=9usize {
        assert_eq!(value_of(last, logical), logical as u64 - 1 + 31 + 100);
    }
    for logical in 10..=31usize {
        assert_eq!(value_of(last, logical), logical as u64 - 1 + 100);
    }
    for pair in log.windows(2) {
        let held = pair[1].pc() == pair[0].pc();
        if held && pair[1].decoded_pcs().len() == 4 && pair[0].decoded_pcs().len() == 4 {
            assert_eq!(pair[1].decoded_pcs(), pair[0].decoded_pcs());
        }
    }
}

#[test]
fn fetch_stalls_when_the_active_list_is_full() {
    let mut lines: Vec<String> = vec![
        "addi x1, x0, 1".to_string(),
        "add x2, x1, x0".to_string(),
        "divu x3, x0, x0".to_string(),
    ];
    for i in 0..60 {
        lines.push(format!("addi x{}, x0, {}", i % 20 + 4, i));
    }
    let refs: Vec<&str> = lines.iter().map(|line| line.as_str()).collect();
    let log = run(&refs, 40);
    check_invariants(&log);
    assert_eq!(log.len(), 40);
    let last = &log[39];
    let before = &log[38];
    assert!(!last.exception_mode());
    assert!(last.active_list().len() > 28);
    assert_eq!(last.active_list()[0].pc, 1);
    assert!(!last.active_list()[0].is_done);
    assert!(last.active_list()[1].is_exception);
    assert_eq!(last.decoded_pcs().len(), 4);
    assert_eq!(last.pc(), before.pc());
    assert_eq!(last.decoded_pcs(), before.decoded_pcs());
    assert_eq!(last.active_list(), before.active_list());
    assert!(last.pc() < 63);
}

#[test]
fn raw_hazard_via_forwarding() {
    let log = run(&["addi x1, x0, 2", "addi x2, x1, 3"], 50);
    check_invariants(&log);
    let dispatched = &log[2];
    assert_eq!(dispatched.register_map_table()[1], 32);
    assert_eq!(
        *dispatched.integer_queue(),
        vec![
            IntegerQueueEntry::new(32, true, 0, 0, true, 0, 2, OpCode::Add, 0),
            IntegerQueueEntry::new(33, false, 32, 0, true, 0, 3, OpCode::Add, 1),
        ]
    );
    assert_eq!(
        *log[3].integer_queue(),
        vec![IntegerQueueEntry::new(33, false, 32, 0, true, 0, 3, OpCode::Add, 1)]
    );
    assert!(log[4].integer_queue().is_empty());
    let last = log.last().unwrap();
    assert_eq!(value_of(last, 2), 5);
    assert_eq!(value_of(last, 1), 2);
    assert_eq!(log.len(), 6);
}

#[test]
fn each_stage_takes_one_cycle() {
    let log = run(&["addi x1, x0, 9"], 50);
    check_invariants(&log);
    assert_eq!(log.len(), 5);
    assert_eq!(*log[1].decoded_pcs(), vec![0]);
    assert_eq!(log[1].pc(), 1);
    assert!(log[1].active_list().is_empty());
    assert_eq!(*log[2].active_list(), vec![ActiveListEntry::new(false, false, 1, 1, 0)]);
    assert_eq!(log[2].integer_queue().len(), 1);
    assert!(log[2].decoded_pcs().is_empty());
    assert!(log[2].busy_bit_table()[32]);
    assert_eq!(*log[2].free_list(), (33u8..64).collect::<Vec<u8>>());
    assert!(log[3].integer_queue().is_empty());
    assert!(log[3].alus()[0].is_forwarding);
    assert_eq!(log[3].alus()[0].forwarding_reg, 32);
    assert_eq!(log[3].alus()[0].forwarding_value, 9);
    assert_eq!(log[3].alus()[0].forwarding_pc, 0);
    assert_eq!(log[3].physical_register_file()[32], 0);
    assert!(log[4].active_list().is_empty());
    assert_eq!(log[4].physical_register_file()[32], 9);
    assert!(!log[4].busy_bit_table()[32]);
    let mut free: Vec<u8> = (33u8..64).collect();
    free.push(1);
    assert_eq!(*log[4].free_list(), free);
    assert!(!log[4].alus()[0].is_forwarding);
}

#[test]
fn issue_takes_the_four_oldest_ready_entries() {
    let log = run(
        &[
            "addi x1, x0, 1",
            "add x2, x1, x0",
            "add x3, x1, x0",
            "add x4, x1, x0",
            "add x5, x1, x0",
            "add x6, x1, x0",
            "add x7, x1, x0",
            "add x8, x1, x0",
        ],
        50,
    );
    check_invariants(&log);
    assert_eq!(log[3].integer_queue().len(), 7);
    assert!(log[3].integer_queue().iter().all(|entry| !entry.is_ready()));
    let issued: Vec<u64> = log[4].alus().iter().map(|alu| alu.forwarding_pc).collect();
    assert_eq!(issued, vec![1, 2, 3, 4]);
    assert!(log[4].alus().iter().all(|alu| alu.is_forwarding));
    assert_eq!(
        log[4].integer_queue().iter().map(|entry| entry.pc).collect::<Vec<u64>>(),
        vec![5, 6, 7]
    );
    assert!(log[4].integer_queue().iter().all(|entry| entry.is_ready()));
    assert!(log[5].integer_queue().is_empty());
    let last = log.last().unwrap();
    assert!(drained(last));
    for logical in 1..=8usize {
        assert_eq!(value_of(last, logical), 1);
    }
}

#[test]
fn retire_is_in_order_and_at_most_four_per_cycle() {
    let lines: Vec<String> = (0..12).map(|i| format!("addi x{}, x0, {}", i + 1, i)).collect();
    let refs: Vec<&str> = lines.iter().map(|line| line.as_str()).collect();
    let log = run(&refs, 50);
    check_invariants(&log);
    for pair in log.windows(2) {
        let before: Vec<u64> = pair[0].active_list().iter().map(|entry| entry.pc).collect();
        let after: Vec<u64> = pair[1].active_list().iter().map(|entry| entry.pc).collect();
        let kept: Vec<u64> = before.iter().copied().filter(|pc| after.contains(pc)).collect();
        let retired = before.len() - kept.len();
        assert!(retired <= 4);
        assert_eq!(kept, before[retired..].to_vec());
    }
    assert!(drained(log.last().unwrap()));
}

#[test]
fn same_destination_twice_in_one_group() {
    let log = run(&["addi x1, x0, 1", "addi x1, x1, 2", "addi x1, x1, 3"], 50);
    check_invariants(&log);
    assert_eq!(
        *log[2].active_list(),
        vec![
            ActiveListEntry::new(false, false, 1, 1, 0),
            ActiveListEntry::new(false, false, 1, 32, 1),
            ActiveListEntry::new(false, false, 1, 33, 2),
        ]
    );
    let last = log.last().unwrap();
    assert!(drained(last));
    assert_eq!(value_of(last, 1), 6);
    assert_eq!(last.register_map_table()[1], 34);
    let mut free: Vec<u8> = (35u8..64).collect();
    free.extend([1, 32, 33]);
    assert_eq!(*last.free_list(), free);
}

#[test]
fn cycle_cap_ends_the_log() {
    let lines = ["addi x1, x0, 5", "addi x2, x0, 7", "add x3, x1, x2"];
    assert_eq!(run(&lines, 3).len(), 3);
    assert_eq!(run(&lines, 1).len(), 1);
    assert_eq!(run(&lines, 0).len(), 1);
    assert_eq!(run(&lines, 6).len(), 6);
    assert_eq!(run(&lines, 7).len(), 6);
}

#[test]
fn propagate_advances_one_cycle() {
    let mut instructions = stream(&["addi x1, x0, 5", "sub x2, x1, x1", "x", "y", "z"]);
    let start = Processor::new();
    instructions.drain(0..3);
    instructions = {
        let mut rest = stream(&["mulu x3, x1, x1", "addi x4, x0, 1", "addi x5, x0, 1"]);
        rest.append(&mut instructions);
        rest
    };
    assert_eq!(instructions.len(), 5);
    let next = start.propagate(&mut instructions);
    assert_eq!(instructions.len(), 1);
    assert_eq!(instructions[0].text(), "addi x5, x0, 1");
    assert_eq!(*next.decoded_pcs(), vec![0, 1, 2, 3]);
    assert_eq!(next.pc(), 4);
    assert_eq!(next.decoded_instructions()[1].op_code, OpCode::Sub);
    assert_eq!(next.decoded_instructions()[2].op_code, OpCode::Mulu);
    assert_eq!(start.pc(), 0);
}

#[test]
fn latch_and_log_state_copy_the_state() {
    let mut instructions = stream(&["addi x1, x0, 5"]);
    let mut state = Processor::new();
    let mut log: Vec<Processor> = Vec::new();
    state.log_state(&mut log);
    let next = state.propagate(&mut instructions);
    state.latch(&next);
    state.log_state(&mut log);
    assert_eq!(log.len(), 2);
    assert_eq!(log[0].pc(), 0);
    assert_eq!(log[1].pc(), 1);
    assert_eq!(state.pc(), 1);
    assert_eq!(*log[1].decoded_pcs(), vec![0]);
    assert!(state.is_done());
}

#[test]
fn set_exception_mode_clears_queue_and_units() {
    let log = run(&["addi x1, x0, 5", "add x2, x1, x1"], 4);
    let mut state = log[3].clone();
    assert!(state.alus()[0].is_forwarding);
    assert_eq!(state.integer_queue().len(), 1);
    state.set_exception_mode(77);
    assert!(state.exception_mode());
    assert_eq!(state.exception_pc(), 77);
    assert!(state.integer_queue().is_empty());
    assert!(state.commit_buffer().is_empty());
    assert!(state.alus().iter().all(|alu| !alu.is_forwarding && !alu.is_busy()));
    assert_eq!(state.active_list().len(), 2);
    assert!(!state.is_done());
}

#[test]
fn commit_entry_writes_the_buffered_result() {
    let log = run(&["addi x1, x0, 5", "add x2, x1, x1", "addi x3, x0, 8"], 5);
    let state = &log[4];
    assert_eq!(state.active_list().len(), 2);
    assert_eq!(state.active_list()[0].pc, 1);
    assert!(!state.active_list()[0].is_done);
    assert!(state.active_list()[1].is_done);
    assert_eq!(state.commit_buffer().len(), 1);
    assert_eq!(state.commit_buffer()[0].pc, 2);
    assert_eq!(state.commit_buffer()[0].dest_register, 34);
    assert_eq!(state.commit_buffer()[0].value, 8);
    assert!(state.busy_bit_table()[34]);
    let mut copy = state.clone();
    let entry = copy.active_list()[1];
    copy.commit_entry(entry);
    assert_eq!(copy.physical_register_file()[34], 8);
    assert!(!copy.busy_bit_table()[34]);
    assert!(copy.commit_buffer().is_empty());
    assert_eq!(copy.active_list().len(), 2);
}

#[test]
fn program_with_a_fault_is_not_run() {
    assert_eq!(
        simulate(stream(&["addi x1, x0, 5", "bogus x1, x2, x3", "add x1"]), 50).err(),
        Some(DecodeError::InvalidOpcode)
    );
    assert_eq!(
        check_program(&stream(&["addi x1, x0, 5", "add x1", "bogus x1, x2, x3"])),
        Err(DecodeError::InvalidFormat)
    );
    assert_eq!(check_program(&stream(&["addi x1, x0, 5"])), Ok(()));
    assert_eq!(check_program(&stream(&[])), Ok(()));
}

#[test]
fn stream_is_the_program_reversed() {
    let instructions = stream(&["addi x1, x0, 5", "add x2, x1, x1", "sub x3, x2, x1"]);
    let texts: Vec<&str> = instructions.iter().map(|instruction| instruction.text()).collect();
    assert_eq!(texts, vec!["sub x3, x2, x1", "add x2, x1, x1", "addi x1, x0, 5"]);
}

#[test]
fn load_program_reads_a_json_array_of_strings() {
    let instructions =
        load_program("[\"addi x1, x0, 5\",\n \"addi x2, x0, 7\", \"add x3, x1, x2\"]").unwrap();
    let texts: Vec<&str> = instructions.iter().map(|instruction| instruction.text()).collect();
    assert_eq!(texts, vec!["add x3, x1, x2", "addi x2, x0, 7", "addi x1, x0, 5"]);
    assert_eq!(load_program("[]").unwrap().len(), 0);
    let escaped = load_program("[\"add\\tx1, x2, x3\"]").unwrap();
    assert_eq!(escaped[0].text(), "add\tx1, x2, x3");
}

#[test]
fn load_program_rejects_other_documents() {
    assert_eq!(load_program("").err(), Some(ProgramError::MalformedInput));
    assert_eq!(load_program("addi x1, x0, 5").err(), Some(ProgramError::MalformedInput));
    assert_eq!(load_program("[1, 2]").err(), Some(ProgramError::MalformedInput));
    assert_eq!(load_program("{\"a\": \"b\"}").err(), Some(ProgramError::MalformedInput));
    assert_eq!(load_program("[\"add x1, x2, x3\"] x").err(), Some(ProgramError::MalformedInput));
}

#[test]
fn loaded_program_runs() {
    let instructions = load_program("[\"addi x1, x0, 6\", \"mulu x2, x1, x1\"]").unwrap();
    let log = simulate(instructions, 50).unwrap();
    check_invariants(&log);
    assert_eq!(value_of(log.last().unwrap(), 2), 36);
}

#[test]
fn exception_taken_by_hand_is_rolled_back() {
    let log = run(&["addi x1, x0, 5", "add x2, x1, x1"], 4);
    let mut state = log[3].clone();
    state.set_exception_mode(1);
    let mut rest: Vec<Instruction> = Vec::new();
    let mut states = vec![state.clone()];
    for _ in 0..3 {
        let next = state.propagate(&mut rest);
        state.latch(&next);
        states.push(state.clone());
    }
    check_invariants(&states[1..]);
    assert!(states[1].exception_mode());
    assert!(states[1].active_list().is_empty());
    assert_eq!(states[1].pc(), 0x10000);
    assert!(states[2].is_done());
    assert_eq!(*states[2].register_map_table(), (0u8..32).collect::<Vec<u8>>());
    let mut free: Vec<u8> = (34u8..64).collect();
    free.extend([33, 32]);
    assert_eq!(*states[2].free_list(), free);
    assert_eq!(*states[2].busy_bit_table(), vec![false; 64]);
}
