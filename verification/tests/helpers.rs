use bfjit::brackets::{check_brackets, check_brackets_at_index, find_offender, match_brackets};
use bfjit::error::{
    append_decimal, narrowing_failed, parse_error, parse_error_at, pointer_out_of_range,
    short_read, BfError,
};
use bfjit::opinterp3::parser::{parse, resolve, Instruction};
use bfjit::runtime::Runtime;
use bfjit::source::{decode, tokenize, OpCode};

#[test]
fn decimal_numerals_have_no_leading_zeros() {
    for (n, text) in [
        (0u64, "0"),
        (7, "7"),
        (10, "10"),
        (909, "909"),
        (30000, "30000"),
        (u64::MAX, "18446744073709551615"),
    ] {
        let mut s = String::from("n=");
        append_decimal(&mut s, n);
        assert_eq!(s, format!("n={text}"));
    }
}

#[test]
fn errors_are_worded() {
    assert_eq!(
        parse_error_at("Unmatched '[' at index ", 42, "."),
        BfError::Parse("Unmatched '[' at index 42.".to_owned())
    );
    assert_eq!(parse_error("unmatched '['"), BfError::Parse("unmatched '['".to_owned()));
    assert_eq!(
        short_read(),
        BfError::Io("failed to fill whole buffer".to_owned())
    );
    assert_eq!(
        pointer_out_of_range(),
        BfError::Numeric("data pointer out of range".to_owned())
    );
    assert_eq!(
        narrowing_failed(),
        BfError::Numeric("out of range integral type conversion attempted".to_owned())
    );
    assert_eq!(narrowing_failed().message(), "out of range integral type conversion attempted");
    assert_eq!(BfError::Assembler("x".to_owned()).message(), "x");
    assert_eq!(BfError::Io("y".to_owned()).message(), "y");
}

#[test]
fn every_command_byte_is_decoded() {
    assert_eq!(decode(b'>'), Some(OpCode::IncPtr));
    assert_eq!(decode(b'<'), Some(OpCode::DecPtr));
    assert_eq!(decode(b'+'), Some(OpCode::IncData));
    assert_eq!(decode(b'-'), Some(OpCode::DecData));
    assert_eq!(decode(b','), Some(OpCode::Read));
    assert_eq!(decode(b'.'), Some(OpCode::Write));
    assert_eq!(decode(b'['), Some(OpCode::JumpIfZero));
    assert_eq!(decode(b']'), Some(OpCode::JumpIfNotZero));
    let commands = (0..=255u8).filter(|b| decode(*b).is_some()).count();
    assert_eq!(commands, 8);
}

#[test]
fn first_offender_is_found() {
    let offender = |source: &str| find_offender(&tokenize(source).opcodes);
    assert_eq!(offender(""), None);
    assert_eq!(offender("[[][]]"), None);
    assert_eq!(offender("[[][]"), Some(0));
    assert_eq!(offender("[][[]"), Some(2));
    assert_eq!(offender("[]][["), Some(2));
    assert_eq!(offender("]"), Some(0));
    assert_eq!(check_brackets(&tokenize("+[-]")), None);
    assert_eq!(
        check_brackets(&tokenize("ab[")),
        Some(BfError::Parse("unmatched '[' at pc=2".to_owned()))
    );
    assert_eq!(
        check_brackets_at_index(&tokenize("ab]")),
        Some(BfError::Parse("Unmatched ']' at index 2.".to_owned()))
    );
}

#[test]
fn brackets_are_matched_with_a_stack() {
    assert_eq!(match_brackets(&vec![]), vec![]);
    assert_eq!(
        match_brackets(&vec![1, 0, 1, -1, 0, -1, 1, -1]),
        vec![5, 0, 3, 2, 0, 0, 7, 6]
    );
}

#[test]
fn optimized_stream_gets_destinations() {
    let program = parse("+[>[-]<[->+<].]").unwrap();
    assert_eq!(
        program.instructions,
        vec![
            Instruction::IncData { count: 1 },
            Instruction::JumpBegin { destination: 7 },
            Instruction::IncPtr { count: 1 },
            Instruction::SetDataToZero,
            Instruction::DecPtr { count: 1 },
            Instruction::MoveData { count: 1, forward: true, amount: 1 },
            Instruction::Write { count: 1 },
            Instruction::JumpEnd { destination: 1 },
        ]
    );
    let stream = bfjit::opjit::parser::parse("[[,]]").unwrap();
    assert_eq!(
        resolve(&stream.instructions),
        vec![
            Instruction::JumpBegin { destination: 4 },
            Instruction::JumpBegin { destination: 3 },
            Instruction::Read { count: 1 },
            Instruction::JumpEnd { destination: 1 },
            Instruction::JumpEnd { destination: 0 },
        ]
    );
    assert_eq!(
        parse("..[...").unwrap_err(),
        BfError::Parse("Unmatched '[' at index 2.".to_owned())
    );
}

#[test]
fn interpreters_tell_how_much_input_comes_next() {
    let runtime = Runtime::new(vec![]);
    let simple = bfjit::simpleinterp::parser::parse(",+");
    assert_eq!(bfjit::simpleinterp::vm::reads_next(&simple, &runtime), 1);
    let table = bfjit::opinterp::parser::parse("+,").unwrap();
    assert_eq!(bfjit::opinterp::vm::reads_next(&table, &runtime), 0);
    let counted = bfjit::opinterp2::parser::parse(",,,+").unwrap();
    assert_eq!(bfjit::opinterp2::vm::reads_next(&counted, &runtime), 3);
    let optimized = parse(",,").unwrap();
    assert_eq!(bfjit::opinterp3::vm::reads_next(&optimized, &runtime), 2);
    let mut ended = Runtime::new(vec![1, 2]);
    assert_eq!(bfjit::opinterp3::vm::run(&optimized, &mut ended, 10), Ok(true));
    assert_eq!(bfjit::opinterp3::vm::reads_next(&optimized, &ended), 0);
}

#[test]
fn a_loop_that_only_the_rewrite_ends() {
    // The cell steps through the odd numbers and never gets to zero, so the
    // loop does not end; written as one node, it clears the cell.
    let mut out = vec![];
    assert_eq!(bfjit::opinterp2::run("+[++].", vec![], &mut out, 100_000), Ok(false));
    let mut out = vec![];
    assert_eq!(bfjit::opinterp3::run("+[++].", vec![], &mut out, 100_000), Ok(true));
    assert_eq!(out, vec![0]);
}
