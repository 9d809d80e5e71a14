use bfjit::simpleinterp::parser::{parse, Instruction, Program};
use bfjit::source::{tokenize, translate_to_opcodes, OpCode};

#[test]
fn parser_parse_works() {
    let program = parse(">a<+bcde-._,[]_1234567890ã‹");
    assert_eq!(
        program,
        Program {
            instructions: vec![
                Instruction::IncPtr,
                Instruction::DecPtr,
                Instruction::IncData,
                Instruction::DecData,
                Instruction::Write,
                Instruction::Read,
                Instruction::JumpIfZero,
                Instruction::JumpIfNotZero,
            ],
        }
    );
}

#[test]
fn simple_parse_keeps_unbalanced_brackets() {
    assert_eq!(
        parse("][").instructions,
        vec![Instruction::JumpIfNotZero, Instruction::JumpIfZero]
    );
}

#[test]
fn tokenize_keeps_commands_and_their_source_indices() {
    let scanned = tokenize("a+か[ -]");
    assert_eq!(
        scanned.opcodes,
        vec![
            OpCode::IncData,
            OpCode::JumpIfZero,
            OpCode::DecData,
            OpCode::JumpIfNotZero
        ]
    );
    // "か" takes three bytes, so the bracket stands at byte 5.
    assert_eq!(scanned.positions, vec![1, 5, 7, 8]);
    assert_eq!(translate_to_opcodes("a+か[ -]"), scanned.opcodes);
}

#[test]
fn tokenize_of_nothing_is_nothing() {
    assert_eq!(translate_to_opcodes(""), vec![]);
    assert_eq!(translate_to_opcodes("hello, world").len(), 1);
}
