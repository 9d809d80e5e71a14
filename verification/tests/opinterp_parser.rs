use bfjit::error::BfError;
use bfjit::opinterp::parser::{create_jump_table, parse, Instruction, Program};

#[test]
fn parse_works() {
    let program = parse(">a<+bcde-,_.[]_1234567890ã‹").unwrap();
    assert_eq!(
        program,
        Program {
            instructions: vec![
                Instruction::IncPtr,
                Instruction::DecPtr,
                Instruction::IncData,
                Instruction::DecData,
                Instruction::Read,
                Instruction::Write,
                Instruction::JumpIfZero,
                Instruction::JumpIfNotZero,
            ],
            jump_table: vec![0, 0, 0, 0, 0, 0, 7, 6],
        }
    );
}

#[test]
fn jump_table_is_its_own_inverse_on_brackets() {
    let program = parse("+[[-]>[>+<-]<[.]]+[]").unwrap();
    for (i, instruction) in program.instructions.iter().enumerate() {
        match instruction {
            Instruction::JumpIfZero | Instruction::JumpIfNotZero => {
                assert_eq!(program.jump_table[program.jump_table[i]], i);
            }
            _ => assert_eq!(program.jump_table[i], 0),
        }
    }
    assert_eq!(program.jump_table[1], 16);
    assert_eq!(program.jump_table[2], 4);
    assert_eq!(program.jump_table[13], 15);
}

#[test]
fn create_jump_table_pairs_nested_brackets() {
    let instructions = vec![
        Instruction::JumpIfZero,
        Instruction::JumpIfZero,
        Instruction::IncData,
        Instruction::JumpIfNotZero,
        Instruction::JumpIfNotZero,
    ];
    assert_eq!(create_jump_table(&instructions), Ok(vec![4, 3, 0, 1, 0]));
    assert_eq!(create_jump_table(&vec![]), Ok(vec![]));
}

#[test]
fn create_jump_table_reports_the_first_bracket_without_partner() {
    let unclosed = vec![
        Instruction::Write,
        Instruction::Write,
        Instruction::JumpIfZero,
        Instruction::Write,
        Instruction::Write,
        Instruction::Write,
    ];
    assert_eq!(
        create_jump_table(&unclosed),
        Err(BfError::Parse("unmatched '[' at pc=2".to_owned()))
    );
    let stray = vec![
        Instruction::JumpIfZero,
        Instruction::JumpIfNotZero,
        Instruction::JumpIfNotZero,
        Instruction::JumpIfZero,
    ];
    assert_eq!(
        create_jump_table(&stray),
        Err(BfError::Parse("unmatched ']' at pc=2".to_owned()))
    );
    let outer = vec![
        Instruction::IncData,
        Instruction::JumpIfZero,
        Instruction::JumpIfZero,
        Instruction::JumpIfNotZero,
        Instruction::JumpIfZero,
    ];
    assert_eq!(
        create_jump_table(&outer),
        Err(BfError::Parse("unmatched '[' at pc=1".to_owned()))
    );
}

#[test]
fn simple_form_reports_the_first_bracket_without_partner() {
    assert_eq!(
        parse("..[...").unwrap_err(),
        BfError::Parse("unmatched '[' at pc=2".to_owned())
    );
    assert_eq!(
        parse("..]...").unwrap_err(),
        BfError::Parse("unmatched ']' at pc=2".to_owned())
    );
    // The outermost loop that is never closed is the first offender.
    assert_eq!(
        parse("x[[][").unwrap_err(),
        BfError::Parse("unmatched '[' at pc=1".to_owned())
    );
    // A closing bracket that closes nothing comes before any loop left open.
    assert_eq!(
        parse("[]]..[").unwrap_err(),
        BfError::Parse("unmatched ']' at pc=2".to_owned())
    );
    // The index is that of the source byte, comments included.
    assert_eq!(
        parse("0123456789ab]").unwrap_err(),
        BfError::Parse("unmatched ']' at pc=12".to_owned())
    );
}

#[test]
fn error_message_is_the_text_of_the_error() {
    let e = parse("]").unwrap_err();
    assert_eq!(e.message(), "unmatched ']' at pc=0");
}
