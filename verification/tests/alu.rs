use cpusim::alu::ALU;
use cpusim::entries::{ALUEntry, ActiveListEntry, CommitBufferEntry, IntegerQueueEntry};
use cpusim::opcode::OpCode;

fn ready_entry(op_code: OpCode, a: u64, b: u64) -> IntegerQueueEntry {
    IntegerQueueEntry::new(40, true, 0, a, true, 0, b, op_code, 9)
}

fn result_of(op_code: OpCode, a: u64, b: u64) -> (u64, bool) {
    let mut alu = ALU::new();
    alu.latch(ready_entry(op_code, a, b));
    alu.execute();
    assert!(alu.is_forwarding);
    assert_eq!(alu.forwarding_reg, 40);
    assert_eq!(alu.forwarding_pc, 9);
    (alu.forwarding_value, alu.forwarding_exception)
}

#[test]
fn new_alu_is_idle() {
    let alu = ALU::new();
    assert!(!alu.is_busy());
    assert!(!alu.is_forwarding);
    assert!(!alu.forwarding_exception);
    assert_eq!(alu.stage1, None);
    assert_eq!(alu.stage2, None);
}

#[test]
fn latch_occupies_stage_one() {
    let mut alu = ALU::new();
    alu.latch(ready_entry(OpCode::Add, 1, 2));
    assert!(alu.is_busy());
    assert_eq!(alu.stage1, Some(ALUEntry::new(40, 1, 2, OpCode::Add, 9)));
    assert!(!alu.is_forwarding);
}

#[test]
fn execute_moves_stage_one_to_stage_two_and_forwards() {
    let mut alu = ALU::new();
    alu.latch(ready_entry(OpCode::Add, 5, 7));
    alu.execute();
    assert!(!alu.is_busy());
    assert_eq!(alu.stage2, Some(ALUEntry::new(40, 5, 7, OpCode::Add, 9)));
    assert!(alu.is_forwarding);
    assert_eq!(alu.forwarding_value, 12);
    assert!(!alu.forwarding_exception);
}

#[test]
fn execute_on_empty_stage_one_deasserts_forwarding() {
    let mut alu = ALU::new();
    alu.latch(ready_entry(OpCode::Sub, 1, 2));
    alu.execute();
    assert!(alu.is_forwarding);
    assert!(alu.forwarding_exception);
    alu.execute();
    assert_eq!(alu, ALU::new());
}

#[test]
fn reset_clears_the_unit() {
    let mut alu = ALU::new();
    alu.latch(ready_entry(OpCode::Mulu, 3, 4));
    alu.execute();
    alu.latch(ready_entry(OpCode::Mulu, 5, 6));
    alu.reset();
    assert_eq!(alu, ALU::new());
}

#[test]
fn add_sums() {
    assert_eq!(result_of(OpCode::Add, 5, 7), (12, false));
    assert_eq!(result_of(OpCode::Add, 0, 0), (0, false));
    assert_eq!(result_of(OpCode::Add, u64::MAX, 0), (u64::MAX, false));
}

#[test]
fn add_wraps_beyond_64_bits() {
    assert_eq!(result_of(OpCode::Add, u64::MAX, 2), (1, false));
}

#[test]
fn sub_subtracts_and_raises_below_zero() {
    assert_eq!(result_of(OpCode::Sub, 7, 5), (2, false));
    assert_eq!(result_of(OpCode::Sub, 5, 5), (0, false));
    assert_eq!(result_of(OpCode::Sub, 3, 5), (0, true));
}

#[test]
fn mulu_multiplies() {
    assert_eq!(result_of(OpCode::Mulu, 6, 7), (42, false));
    assert_eq!(result_of(OpCode::Mulu, 1 << 63, 2), (0, false));
    assert_eq!(result_of(OpCode::Mulu, u64::MAX, u64::MAX), (1, false));
}

#[test]
fn divu_divides_and_raises_on_zero() {
    assert_eq!(result_of(OpCode::Divu, 10, 3), (3, false));
    assert_eq!(result_of(OpCode::Divu, 0, 3), (0, false));
    assert_eq!(result_of(OpCode::Divu, 10, 0), (0, true));
}

#[test]
fn remu_takes_the_remainder_and_raises_on_zero() {
    assert_eq!(result_of(OpCode::Remu, 10, 3), (1, false));
    assert_eq!(result_of(OpCode::Remu, 9, 3), (0, false));
    assert_eq!(result_of(OpCode::Remu, 10, 0), (0, true));
}

#[test]
fn evaluate_gives_value_and_exception() {
    assert_eq!(OpCode::Add.evaluate(1, 2), (3, false));
    assert_eq!(OpCode::Sub.evaluate(1, 2), (0, true));
    assert_eq!(OpCode::Divu.evaluate(7, 2), (3, false));
}

#[test]
fn queue_entry_is_ready_when_both_operands_are() {
    assert!(IntegerQueueEntry::new(1, true, 0, 0, true, 0, 0, OpCode::Add, 0).is_ready());
    assert!(!IntegerQueueEntry::new(1, false, 3, 0, true, 0, 0, OpCode::Add, 0).is_ready());
    assert!(!IntegerQueueEntry::new(1, true, 0, 0, false, 3, 0, OpCode::Add, 0).is_ready());
    assert!(!IntegerQueueEntry::new(1, false, 3, 0, false, 3, 0, OpCode::Add, 0).is_ready());
}

#[test]
fn forwarding_fills_waiting_operands() {
    let waiting = IntegerQueueEntry::new(40, false, 33, 1, false, 34, 2, OpCode::Add, 5);
    let after_a = waiting.forward(33, 100);
    assert_eq!(after_a, IntegerQueueEntry::new(40, true, 0, 100, false, 34, 2, OpCode::Add, 5));
    let after_b = after_a.forward(34, 200);
    assert_eq!(after_b, IntegerQueueEntry::new(40, true, 0, 100, true, 0, 200, OpCode::Add, 5));
    assert!(after_b.is_ready());
}

#[test]
fn forwarding_fills_both_operands_with_the_same_tag() {
    let waiting = IntegerQueueEntry::new(40, false, 33, 1, false, 33, 2, OpCode::Mulu, 5);
    assert_eq!(
        waiting.forward(33, 6),
        IntegerQueueEntry::new(40, true, 0, 6, true, 0, 6, OpCode::Mulu, 5)
    );
}

#[test]
fn forwarding_leaves_ready_and_other_operands_alone() {
    let entry = IntegerQueueEntry::new(40, true, 0, 1, false, 34, 2, OpCode::Add, 5);
    assert_eq!(entry.forward(0, 77), entry);
    assert_eq!(entry.forward(35, 77), entry);
}

#[test]
fn forwarding_twice_is_forwarding_once() {
    let entries = [
        IntegerQueueEntry::new(40, false, 33, 1, false, 34, 2, OpCode::Add, 5),
        IntegerQueueEntry::new(41, false, 0, 1, false, 33, 2, OpCode::Sub, 6),
        IntegerQueueEntry::new(42, true, 0, 1, true, 0, 2, OpCode::Divu, 7),
    ];
    for entry in entries {
        for reg in [0u8, 33, 34] {
            let once = entry.forward(reg, 9);
            assert_eq!(once.forward(reg, 9), once);
        }
    }
}

#[test]
fn constructors_keep_their_arguments() {
    let entry = ActiveListEntry::new(true, false, 3, 35, 17);
    assert!(entry.is_done);
    assert!(!entry.is_exception);
    assert_eq!(entry.logical_destination, 3);
    assert_eq!(entry.old_destination, 35);
    assert_eq!(entry.pc, 17);
    let write = CommitBufferEntry::new(33, 99, 4);
    assert_eq!((write.dest_register, write.value, write.pc), (33, 99, 4));
    let stage = ALUEntry::new(33, 1, 2, OpCode::Remu, 4);
    assert_eq!(
        (stage.dest_register, stage.op_a_value, stage.op_b_value, stage.op_code, stage.pc),
        (33, 1, 2, OpCode::Remu, 4)
    );
}
