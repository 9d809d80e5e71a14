use bfjit::error::BfError;
use bfjit::opinterp2::parser::{parse, Instruction, Program};

#[test]
fn parse_test() {
    let program = parse(">a<+bcde-,_.[]_1234567890か").unwrap();
    assert_eq!(
        program,
        Program {
            instructions: vec![
                Instruction::IncPtr { count: 1 },
                Instruction::DecPtr { count: 1 },
                Instruction::IncData { count: 1 },
                Instruction::DecData { count: 1 },
                Instruction::Read { count: 1 },
                Instruction::Write { count: 1 },
                Instruction::JumpIfZero { destination: 7 },
                Instruction::JumpIfNotZero { destination: 6 },
            ],
        }
    );
}

#[test]
fn parse_count_test() {
    let program = parse(">>[>>><<+---,,],..").unwrap();
    assert_eq!(
        program,
        Program {
            instructions: vec![
                Instruction::IncPtr { count: 2 },
                Instruction::JumpIfZero { destination: 7 },
                Instruction::IncPtr { count: 3 },
                Instruction::DecPtr { count: 2 },
                Instruction::IncData { count: 1 },
                Instruction::DecData { count: 3 },
                Instruction::Read { count: 2 },
                Instruction::JumpIfNotZero { destination: 1 },
                Instruction::Read { count: 1 },
                Instruction::Write { count: 2 },
            ],
        }
    );
}

#[test]
fn parse_error_test() {
    let err = parse("..[...").unwrap_err();
    assert_eq!(err, BfError::Parse("unmatched '[' at pc=2".to_owned()));

    let err = parse("..]...").unwrap_err();
    assert_eq!(err, BfError::Parse("unmatched ']' at pc=2".to_owned()));
}

#[test]
fn runs_are_not_joined_across_comments_or_brackets() {
    // Comments do not break a run; a bracket does.
    let program = parse("+ + x +[+]+").unwrap();
    assert_eq!(
        program.instructions,
        vec![
            Instruction::IncData { count: 3 },
            Instruction::JumpIfZero { destination: 3 },
            Instruction::IncData { count: 1 },
            Instruction::JumpIfNotZero { destination: 1 },
            Instruction::IncData { count: 1 },
        ]
    );
}

#[test]
fn destinations_point_at_each_other() {
    let program = parse("[[]][[[]]][]").unwrap();
    for (i, instruction) in program.instructions.iter().enumerate() {
        let d = match instruction {
            Instruction::JumpIfZero { destination } => *destination,
            Instruction::JumpIfNotZero { destination } => *destination,
            _ => unreachable!(),
        };
        let back = match program.instructions[d] {
            Instruction::JumpIfZero { destination } => destination,
            Instruction::JumpIfNotZero { destination } => destination,
            _ => unreachable!(),
        };
        assert_eq!(back, i);
    }
}

#[test]
fn set_destination_keeps_the_kind() {
    let mut open = Instruction::JumpIfZero { destination: 0 };
    open.set_destination(9);
    assert_eq!(open, Instruction::JumpIfZero { destination: 9 });
    let mut close = Instruction::JumpIfNotZero { destination: 0 };
    close.set_destination(4);
    assert_eq!(close, Instruction::JumpIfNotZero { destination: 4 });
}

#[test]
fn open_loop_is_reported_by_the_source_index_of_the_outermost() {
    let err = parse("a+[b[-]c[").unwrap_err();
    assert_eq!(err, BfError::Parse("unmatched '[' at pc=2".to_owned()));
    let err = parse("[][[]").unwrap_err();
    assert_eq!(err, BfError::Parse("unmatched '[' at pc=2".to_owned()));
}

#[test]
fn closing_bracket_is_reported_by_its_source_index() {
    let err = parse("ab]").unwrap_err();
    assert_eq!(err, BfError::Parse("unmatched ']' at pc=2".to_owned()));
    let err = parse("[]+]").unwrap_err();
    assert_eq!(err, BfError::Parse("unmatched ']' at pc=3".to_owned()));
}
