use bfjit::opjit::parser::{parse, Instruction, Program};
use bfjit::opjit::reparse::write_source;

fn written(program: &Program) -> String {
    String::from_utf8(write_source(program)).unwrap()
}

fn parses_to_itself(source: &str) {
    let program = parse(source).unwrap();
    let text = written(&program);
    assert_eq!(parse(&text), Ok(program), "{source} was written as {text}");
}

#[test]
fn each_instruction_is_written_as_its_loop_or_its_run() {
    let program = Program {
        instructions: vec![
            Instruction::IncPtr { count: 2 },
            Instruction::DecPtr { count: 1 },
            Instruction::IncData { count: 3 },
            Instruction::DecData { count: 2 },
            Instruction::Read { count: 2 },
            Instruction::Write { count: 1 },
            Instruction::JumpBegin,
            Instruction::Write { count: 1 },
            Instruction::JumpEnd,
            Instruction::SetDataToZero,
            Instruction::MovePtrUntilZero { count: 1, forward: true, amount: 3 },
            Instruction::MovePtrUntilZero { count: 2, forward: false, amount: 1 },
            Instruction::MoveData { count: 1, forward: true, amount: 2 },
            Instruction::MoveData { count: 2, forward: false, amount: 1 },
        ],
    };
    assert_eq!(
        written(&program),
        ">><+++--,,.[.][-][>>>][<][<][->>+<<][-<+>][-<+>]"
    );
}

#[test]
fn no_instruction_is_written_as_no_text() {
    assert_eq!(written(&Program { instructions: vec![] }), "");
    parses_to_itself("");
    parses_to_itself("only a comment");
}

#[test]
fn a_written_stream_parses_to_itself() {
    parses_to_itself(">a<+bcde-,_.[]._1[.]234567890");
    parses_to_itself(">>[>>><<+---,,],..");
    parses_to_itself("[-]");
    parses_to_itself("[+]");
    parses_to_itself("[+][+]");
    parses_to_itself("[-][+][-]");
    parses_to_itself("+[-][-].");
    parses_to_itself("[>>>][>>>]");
    parses_to_itself("[<][>]");
    parses_to_itself("[->>+<<]");
    parses_to_itself("[-<+>][-<+>][->+<]");
    parses_to_itself("[[-]]");
    parses_to_itself("[[-][+]]");
    parses_to_itself("+[>[-]<[->+<]>[<<]]");
    parses_to_itself("[][]");
    parses_to_itself("[->+>+<<]");
    parses_to_itself("[-+]");
}

#[test]
fn a_cell_cleared_twice_is_written_once() {
    let program = parse("[+][-]").unwrap();
    assert_eq!(program, Program { instructions: vec![Instruction::SetDataToZero] });
    assert_eq!(written(&program), "[-]");
}

#[test]
fn a_written_hello_program_parses_to_itself() {
    parses_to_itself(
        "++++++++[>++++[>++>+++>+++>+<<<<-]>+>+>->>+[<]<-]>>.>---.+++++++..+++.>>.<-.<.+++.------.--------.>>+.>++.",
    );
}
