use cpusim::instruction::{DecodeError, DecodedInstruction, Instruction};
use cpusim::opcode::OpCode;

fn decode(text: &str, pc: u64) -> Result<DecodedInstruction, DecodeError> {
    Instruction::new(text.to_string()).decode(pc)
}

#[test]
fn decodes_register_form() {
    assert_eq!(
        decode("add x3, x1, x2", 7),
        Ok(DecodedInstruction::new(7, OpCode::Add, false, 3, 1, 2, 0))
    );
}

#[test]
fn decodes_immediate_form() {
    assert_eq!(
        decode("addi x1, x0, 5", 0),
        Ok(DecodedInstruction::new(0, OpCode::Add, true, 1, 0, 0, 5))
    );
}

#[test]
fn decodes_every_operation() {
    assert_eq!(decode("sub x4, x5, x6", 1).unwrap().op_code, OpCode::Sub);
    assert_eq!(decode("mulu x4, x5, x6", 1).unwrap().op_code, OpCode::Mulu);
    assert_eq!(decode("divu x4, x5, x6", 1).unwrap().op_code, OpCode::Divu);
    assert_eq!(decode("remu x4, x5, x6", 1).unwrap().op_code, OpCode::Remu);
    assert_eq!(decode("add x4, x5, x6", 1).unwrap().op_code, OpCode::Add);
}

#[test]
fn immediate_form_has_no_second_register() {
    let decoded = decode("addi x9, x31, 4294967295", 3).unwrap();
    assert!(decoded.immediate);
    assert_eq!(decoded.op_b_reg_tag, 0);
    assert_eq!(decoded.op_a_reg_tag, 31);
    assert_eq!(decoded.immediate_value, 4294967295);
}

#[test]
fn register_form_has_no_immediate() {
    let decoded = decode("mulu x31, x0, x17", 3).unwrap();
    assert!(!decoded.immediate);
    assert_eq!(decoded.immediate_value, 0);
    assert_eq!(decoded.logical_destination, 31);
    assert_eq!(decoded.op_b_reg_tag, 17);
}

#[test]
fn commas_and_white_space_separate_words() {
    let expected = Ok(DecodedInstruction::new(2, OpCode::Sub, false, 1, 2, 3, 0));
    assert_eq!(decode("sub x1,x2,x3", 2), expected);
    assert_eq!(decode("  sub\tx1 ,, x2 ,x3 \n", 2), expected);
    assert_eq!(decode("sub x1 x2 x3", 2), expected);
}

#[test]
fn wrong_word_count_is_invalid_format() {
    assert_eq!(decode("", 0), Err(DecodeError::InvalidFormat));
    assert_eq!(decode("add x1, x2", 0), Err(DecodeError::InvalidFormat));
    assert_eq!(decode("add x1, x2, x3, x4", 0), Err(DecodeError::InvalidFormat));
    assert_eq!(decode("nop", 0), Err(DecodeError::InvalidFormat));
}

#[test]
fn unknown_operation_is_invalid_opcode() {
    assert_eq!(decode("xor x1, x2, x3", 0), Err(DecodeError::InvalidOpcode));
    assert_eq!(decode("ADD x1, x2, x3", 0), Err(DecodeError::InvalidOpcode));
    assert_eq!(decode("subi x1, x2, 3", 0), Err(DecodeError::InvalidOpcode));
}

#[test]
fn bad_register_is_invalid_register() {
    assert_eq!(decode("add x32, x1, x2", 0), Err(DecodeError::InvalidRegister));
    assert_eq!(decode("add x1, y2, x3", 0), Err(DecodeError::InvalidRegister));
    assert_eq!(decode("add x1, x2, 3", 0), Err(DecodeError::InvalidRegister));
    assert_eq!(decode("add x, x2, x3", 0), Err(DecodeError::InvalidRegister));
    assert_eq!(decode("add x1, x-2, x3", 0), Err(DecodeError::InvalidRegister));
    assert_eq!(decode("addi x1, 2, 3", 0), Err(DecodeError::InvalidRegister));
    assert_eq!(decode("add x1, x2, x999999999999999999999", 0), Err(DecodeError::InvalidRegister));
}

#[test]
fn bad_immediate_is_invalid_immediate() {
    assert_eq!(decode("addi x1, x0, x2", 0), Err(DecodeError::InvalidImmediate));
    assert_eq!(decode("addi x1, x0, -1", 0), Err(DecodeError::InvalidImmediate));
    assert_eq!(decode("addi x1, x0, 4294967296", 0), Err(DecodeError::InvalidImmediate));
    assert_eq!(decode("addi x1, x0, 12a", 0), Err(DecodeError::InvalidImmediate));
    assert_eq!(
        decode("addi x1, x0, 99999999999999999999999999", 0),
        Err(DecodeError::InvalidImmediate)
    );
}

#[test]
fn errors_come_in_the_order_of_the_words() {
    assert_eq!(decode("xor x99, x1", 0), Err(DecodeError::InvalidFormat));
    assert_eq!(decode("xor x99, x1, x2", 0), Err(DecodeError::InvalidOpcode));
    assert_eq!(decode("addi x99, x1, zz", 0), Err(DecodeError::InvalidRegister));
    assert_eq!(decode("addi x1, x99, zz", 0), Err(DecodeError::InvalidRegister));
}

#[test]
fn numerals_follow_the_unsigned_number_syntax() {
    assert_eq!(decode("addi x01, x+2, +7", 0), Ok(DecodedInstruction::new(0, OpCode::Add, true, 1, 2, 0, 7)));
    assert_eq!(decode("addi x1, x2, 007", 0).unwrap().immediate_value, 7);
    assert_eq!(decode("addi x1, x2, +", 0), Err(DecodeError::InvalidImmediate));
    assert_eq!(decode("addi x1, x2, ++7", 0), Err(DecodeError::InvalidImmediate));
}

#[test]
fn decoding_does_not_depend_on_the_address() {
    let line = Instruction::new("remu x7, x8, x9".to_string());
    let low = line.decode(0).unwrap();
    let high = line.decode(u64::MAX).unwrap();
    assert_eq!(low.pc, 0);
    assert_eq!(high.pc, u64::MAX);
    assert_eq!(DecodedInstruction { pc: 0, ..high }, low);
}

#[test]
fn error_messages() {
    assert_eq!(DecodeError::InvalidFormat.message(), "Invalid instruction format");
    assert_eq!(DecodeError::InvalidOpcode.message(), "Invalid op code");
    assert_eq!(DecodeError::InvalidRegister.message(), "Invalid register identifier");
    assert_eq!(DecodeError::InvalidImmediate.message(), "Invalid immediate value");
}

#[test]
fn instruction_keeps_its_text() {
    assert_eq!(Instruction::new("add x1, x2, x3".to_string()).text(), "add x1, x2, x3");
}

#[test]
fn mnemonics() {
    assert_eq!(OpCode::Add.mnemonic(), "add");
    assert_eq!(OpCode::Sub.mnemonic(), "sub");
    assert_eq!(OpCode::Mulu.mnemonic(), "mulu");
    assert_eq!(OpCode::Divu.mnemonic(), "divu");
    assert_eq!(OpCode::Remu.mnemonic(), "remu");
}

#[test]
fn unicode_white_space_separates_words() {
    let expected = Ok(DecodedInstruction::new(0, OpCode::Remu, false, 1, 2, 3, 0));
    assert_eq!(decode("remu\u{a0}x1\u{3000}x2\u{2003}x3\u{85}", 0), expected);
    assert_eq!(decode("remu\u{200b} x1 x2 x3", 0), Err(DecodeError::InvalidOpcode));
    assert_eq!(decode("remu\u{200b}x1 x2 x3", 0), Err(DecodeError::InvalidFormat));
}
