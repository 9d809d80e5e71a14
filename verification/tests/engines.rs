use bfjit::error::BfError;
use bfjit::runtime::{Runtime, MEMORY_SIZE};

const HELLO: &str = "++++++++[>++++[>++>+++>+++>+<<<<-]>+>+>->>+[<]<-]>>.>---.+++++++..+++.";

const SQUARES: &str = "++++[>+++++<-]>[<+++++>-]+<+[>[>+>+<<-]++>>[<<+>>-]>>>[-]++>[-]+>>>+[[-]++++++>>>]<<<[[<++++++++<++>>-]+<.<[>----<-]<]<<[>>>>>[>>>[-]+++++++++<[>-<-]+++++++++>[-[<->-]+[<<<]]<[>+<-]>]<<-]<<-]";

const FIBONACCI: &str = "+++++++++++>+>>>>++++++++++++++++++++++++++++++++++++++++++++>++++++++++++++++++++++++++++++++<<<<<<[>[>>>>>>+>+<<<<<<<-]>>>>>>>[<<<<<<<+>>>>>>>-]<[>++++++++++[-<-[>>+>+<<<-]>>>[<<<+>>>-]+<[>[-]<[-]]>[<<[>>>+<<<-]>>[-]]<<]>>>[>>+>+<<<-]>>>[<<<+>>>-]+<[>[-]<[-]]>[<<+>>[-]]<<<<<<<]>>>>>[++++++++++++++++++++++++++++++++++++++++++++++++.[-]]++++++++++<[->-<]>++++++++++++++++++++++++++++++++++++++++++++++++.[-]<<<<<<<<<<<<[>>>+>+<<<<-]>>>>[<<<<+>>>>-]<-[>>.>.<<<[-]]<<[>>+>+<<<-]>>>[<<<+>>>-]<<[<+>-]>[<+>-]<<<-]";

const STEPS: u64 = 10_000_000;

fn run_all(source: &str, input: &[u8]) -> Vec<Result<(bool, Vec<u8>), BfError>> {
    let mut results = vec![];
    let mut out = vec![];
    results.push(bfjit::simpleinterp::run(source, input.to_vec(), &mut out, STEPS).map(|b| (b, out)));
    let mut out = vec![];
    results.push(bfjit::opinterp::run(source, input.to_vec(), &mut out, STEPS).map(|b| (b, out)));
    let mut out = vec![];
    results.push(bfjit::opinterp2::run(source, input.to_vec(), &mut out, STEPS).map(|b| (b, out)));
    let mut out = vec![];
    results.push(bfjit::opinterp3::run(source, input.to_vec(), &mut out, STEPS).map(|b| (b, out)));
    results
}

fn expect_output(source: &str, input: &[u8], expected: &[u8]) {
    for (engine, result) in run_all(source, input).into_iter().enumerate() {
        let (ended, output) = result.unwrap();
        assert!(ended, "engine {engine} did not end");
        assert_eq!(output, expected, "engine {engine}");
    }
}

#[test]
fn hello_is_printed_by_every_interpreter() {
    expect_output(HELLO, b"", b"Hello");
}

#[test]
fn squares_are_printed_by_every_interpreter() {
    let mut expected = String::new();
    for n in 0..=100 {
        expected.push_str(&format!("{}\n", n * n));
    }
    expect_output(SQUARES, b"", expected.as_bytes());
}

#[test]
fn fibonacci_numbers_are_printed_by_every_interpreter() {
    expect_output(FIBONACCI, b"", b"1, 1, 2, 3, 5, 8, 13, 21, 34, 55, 89");
}

#[test]
fn input_is_reversed_by_every_interpreter() {
    expect_output(">,[>,]<[.<]", b"stressed\0", b"desserts");
}

#[test]
fn one_byte_is_echoed() {
    expect_output(",.", &[0x41], &[0x41]);
}

#[test]
fn cleared_cell_counts_from_zero() {
    expect_output("[-]+++.", b"", &[0x03]);
    expect_output("+++++[-]+++.", b"", &[0x03]);
}

#[test]
fn move_data_adds_the_cell_to_its_neighbour() {
    expect_output("++[->+<]>.", b"", &[0x02]);
    expect_output("+++>++++<[->+<]>.<.", b"", &[0x07, 0x00]);
    expect_output(">>+++<<++++>>[-<<+>>]<<.", b"", &[0x07]);
}

#[test]
fn move_ptr_until_zero_writes_nothing() {
    expect_output("+++>+++<[>]", b"", b"");
    expect_output(">+>+>+>>+<<[<]>.>>>[>]<.", b"", &[0x01, 0x01]);
}

#[test]
fn cells_wrap_around() {
    expect_output("-.", b"", &[0xff]);
    expect_output("-++.", b"", &[0x01]);
    let many = "+".repeat(300) + ".";
    expect_output(&many, b"", &[44]);
}

#[test]
fn repeated_reads_keep_the_last_byte() {
    expect_output(",,,.", b"abc", b"c");
    expect_output(",...", b"x", b"xxx");
}

#[test]
fn comments_are_skipped() {
    expect_output("read , then\nwrite . twice .", b"z", b"zz");
}

#[test]
fn engines_agree_on_a_small_corpus() {
    let corpus: [(&str, &[u8]); 6] = [
        (HELLO, b""),
        (",[.,]", b"echo\0"),
        ("++++[>++++[>++++<-]<-]>>+.", b""),
        (",>,<[->+<]>.", &[20, 22]),
        ("+[>+]", b""),
        (">+++++++++[<++++++++>-]<.>+++++++[<++++>-]<+.", b""),
    ];
    for (source, input) in corpus {
        let results = run_all(source, input);
        for result in &results[1..] {
            assert_eq!(result, &results[0], "program {source}");
        }
    }
}

#[test]
fn unmatched_open_is_a_parse_error_with_its_index() {
    for (engine, result) in run_all("..[...", b"").into_iter().enumerate() {
        match result.unwrap_err() {
            BfError::Parse(text) => {
                assert!(text.to_lowercase().contains("unmatched '['"), "engine {engine}");
                assert!(text.contains('2'), "engine {engine}: {text}");
            }
            other => panic!("engine {engine}: {other:?}"),
        }
    }
}

#[test]
fn unmatched_close_is_a_parse_error_with_its_index() {
    for (engine, result) in run_all("..]...", b"").into_iter().enumerate() {
        match result.unwrap_err() {
            BfError::Parse(text) => {
                assert!(text.to_lowercase().contains("unmatched ']'"), "engine {engine}");
                assert!(text.contains('2'), "engine {engine}: {text}");
            }
            other => panic!("engine {engine}: {other:?}"),
        }
    }
}

#[test]
fn brackets_are_checked_before_anything_runs() {
    for result in run_all(".+.[", b"") {
        assert!(matches!(result, Err(BfError::Parse(_))));
    }
    let mut out = vec![];
    let r = bfjit::simpleinterp::run(".]", vec![], &mut out, STEPS);
    assert_eq!(r, Err(BfError::Parse("unmatched ']' at pc=1".to_owned())));
    assert_eq!(out, vec![]);
}

#[test]
fn reading_past_the_input_is_an_io_error() {
    for result in run_all("+.,.", b"") {
        assert_eq!(
            result,
            Err(BfError::Io("failed to fill whole buffer".to_owned()))
        );
    }
    let mut out = vec![];
    let r = bfjit::opinterp2::run("+.,.", vec![], &mut out, STEPS);
    assert!(r.is_err());
    // What was written before the failure stays written.
    assert_eq!(out, vec![1]);
}

#[test]
fn leaving_the_tape_is_a_numeric_error() {
    for result in run_all("<", b"") {
        assert_eq!(
            result,
            Err(BfError::Numeric("data pointer out of range".to_owned()))
        );
    }
    for result in run_all("+[>+]", b"") {
        assert_eq!(
            result,
            Err(BfError::Numeric("data pointer out of range".to_owned()))
        );
    }
}

#[test]
fn a_program_that_never_ends_is_paused() {
    for result in run_all("+[]", b"") {
        let (ended, output) = result.unwrap();
        assert!(!ended);
        assert_eq!(output, vec![]);
    }
    let mut out = vec![];
    assert_eq!(bfjit::opinterp::run("+[.]", vec![], &mut out, 7), Ok(false));
    // One step for `+`, then two for each round of the loop.
    assert_eq!(out, vec![1, 1, 1]);
}

#[test]
fn a_jump_that_is_not_taken_leaves_the_counter_alone() {
    // Even in a program whose brackets do not match.
    let program = bfjit::simpleinterp::parser::parse("]+[");
    let mut runtime = Runtime::new(vec![]);
    bfjit::simpleinterp::vm::jump(false, &program, &mut runtime);
    assert_eq!(runtime.pc, 0);
    runtime.pc = 2;
    runtime.inc_data(1);
    bfjit::simpleinterp::vm::jump(true, &program, &mut runtime);
    assert_eq!(runtime.pc, 2);
    assert_eq!(runtime.cell(), 1);
}

#[test]
fn a_jump_that_is_taken_goes_to_the_partner() {
    let program = bfjit::simpleinterp::parser::parse("[+[-]]");
    let mut runtime = Runtime::new(vec![]);
    bfjit::simpleinterp::vm::jump(true, &program, &mut runtime);
    assert_eq!(runtime.pc, 5);
    runtime.inc_data(1);
    bfjit::simpleinterp::vm::jump(false, &program, &mut runtime);
    assert_eq!(runtime.pc, 0);
}

#[test]
fn runtime_starts_zeroed_and_streams_work() {
    let mut runtime = Runtime::new(vec![7, 8]);
    assert_eq!(runtime.memory.len(), MEMORY_SIZE);
    assert_eq!(MEMORY_SIZE, 30000);
    assert!(runtime.memory.iter().all(|&b| b == 0));
    assert_eq!(runtime.data_pointer, 0);
    assert_eq!(runtime.pc, 0);
    assert_eq!(runtime.read(), Ok(7));
    runtime.feed(9);
    assert_eq!(runtime.read(), Ok(8));
    assert_eq!(runtime.read(), Ok(9));
    assert_eq!(
        runtime.read(),
        Err(BfError::Io("failed to fill whole buffer".to_owned()))
    );
    runtime.write(1);
    runtime.write(2);
    assert_eq!(runtime.take_output(), vec![1, 2]);
    assert_eq!(runtime.take_output(), vec![]);
}

#[test]
fn runtime_moves_and_scans() {
    let mut runtime = Runtime::new(vec![]);
    assert!(runtime.move_ptr(true, 29999).is_ok());
    assert_eq!(runtime.data_pointer, 29999);
    assert!(runtime.move_ptr(true, 1).is_err());
    assert!(runtime.move_ptr(false, 29999).is_ok());
    assert!(runtime.move_ptr(false, 1).is_err());
    runtime.inc_data(300);
    assert_eq!(runtime.cell(), 44);
    runtime.dec_data(45);
    assert_eq!(runtime.cell(), 255);
    assert!(runtime.move_data(1, true, 3).is_ok());
    assert_eq!(runtime.memory[0], 0);
    assert_eq!(runtime.memory[3], 255);
    runtime.memory[0] = 1;
    runtime.memory[6] = 1;
    assert!(runtime.move_ptr_until_zero(1, true, 3).is_ok());
    assert_eq!(runtime.data_pointer, 9);
    runtime.set_data_to_zero();
    assert_eq!(runtime.cell(), 0);
    runtime.memory[9] = 200;
    runtime.memory[8] = 100;
    assert!(runtime.move_data(2, false, 1).is_ok());
    assert_eq!(runtime.memory[8], 44);
    assert_eq!(runtime.memory[9], 0);
}

#[test]
fn interpreters_can_be_stepped_and_resumed() {
    let program = bfjit::opinterp3::parser::parse(",[->+<]>.").unwrap();
    let mut runtime = Runtime::new(vec![]);
    runtime.feed(5);
    assert_eq!(bfjit::opinterp3::vm::run(&program, &mut runtime, 1), Ok(false));
    assert_eq!(runtime.pc, 1);
    assert_eq!(bfjit::opinterp3::vm::run(&program, &mut runtime, 100), Ok(true));
    assert_eq!(runtime.take_output(), vec![5]);

    let program = bfjit::simpleinterp::parser::parse("+[-]");
    let mut runtime = Runtime::new(vec![]);
    for expected_pc in [1, 2, 3, 4] {
        bfjit::simpleinterp::vm::step(&program, &mut runtime).unwrap();
        assert_eq!(runtime.pc, expected_pc);
    }
}

#[test]
fn a_read_that_fails_has_consumed_what_there_was() {
    let mut runtime = Runtime::new(vec![7, 9]);
    runtime.write(4);
    assert_eq!(
        runtime.read_many(3),
        Err(BfError::Io("failed to fill whole buffer".to_owned()))
    );
    assert_eq!(runtime.cell(), 9);
    assert_eq!(runtime.consumed, 2);
    assert_eq!(runtime.data_pointer, 0);
    assert_eq!(runtime.stdout, vec![4]);

    let mut runtime = Runtime::new(vec![]);
    runtime.inc_data(5);
    assert!(runtime.read_many(1).is_err());
    assert_eq!(runtime.cell(), 5);
    assert_eq!(runtime.consumed, 0);
}

#[test]
fn a_scan_that_fails_stays_on_the_cell_it_reached() {
    let mut runtime = Runtime::new(vec![]);
    assert!(runtime.move_ptr(true, 29990).is_ok());
    for cell in [29990, 29993, 29996, 29999] {
        runtime.memory[cell] = 1;
    }
    assert_eq!(
        runtime.move_ptr_until_zero(2, true, 3),
        Err(BfError::Numeric("data pointer out of range".to_owned()))
    );
    assert_eq!(runtime.data_pointer, 29999);
    assert_eq!(runtime.memory[29990], 1);

    let mut runtime = Runtime::new(vec![]);
    runtime.memory[0] = 1;
    assert!(runtime.move_ptr_until_zero(1, false, 1).is_err());
    assert_eq!(runtime.data_pointer, 0);
}

#[test]
fn a_move_of_the_cell_that_fails_changes_nothing() {
    let mut runtime = Runtime::new(vec![]);
    assert!(runtime.move_ptr(true, 2).is_ok());
    runtime.inc_data(6);
    assert_eq!(
        runtime.move_data(3, false, 3),
        Err(BfError::Numeric("data pointer out of range".to_owned()))
    );
    assert_eq!(runtime.data_pointer, 2);
    assert_eq!(runtime.cell(), 6);
    assert!(runtime.memory.iter().enumerate().all(|(i, &b)| b == if i == 2 { 6 } else { 0 }));
}

#[test]
fn a_run_that_fails_stops_at_the_instruction_that_failed() {
    let program = bfjit::simpleinterp::parser::parse("+>,<<");
    let mut runtime = Runtime::new(vec![8]);
    assert_eq!(
        bfjit::simpleinterp::vm::run(&program, &mut runtime, STEPS),
        Err(BfError::Numeric("data pointer out of range".to_owned()))
    );
    assert_eq!(runtime.pc, 4);
    assert_eq!(runtime.data_pointer, 0);
    assert_eq!(runtime.memory[0], 1);
    assert_eq!(runtime.memory[1], 8);

    let program = bfjit::opinterp2::parser::parse("+.,,,.").unwrap();
    let mut runtime = Runtime::new(vec![3, 4]);
    assert_eq!(
        bfjit::opinterp2::vm::run(&program, &mut runtime, STEPS),
        Err(BfError::Io("failed to fill whole buffer".to_owned()))
    );
    assert_eq!(runtime.pc, 2);
    assert_eq!(runtime.cell(), 4);
    assert_eq!(runtime.consumed, 2);
    assert_eq!(runtime.stdout, vec![1]);

    let program = bfjit::opinterp3::parser::parse("+>+>+<<[>].").unwrap();
    let mut runtime = Runtime::new(vec![]);
    runtime.memory[3..].fill(1);
    assert_eq!(
        bfjit::opinterp3::vm::run(&program, &mut runtime, STEPS),
        Err(BfError::Numeric("data pointer out of range".to_owned()))
    );
    assert_eq!(runtime.pc, 6);
    assert_eq!(runtime.data_pointer, 29999);
    assert_eq!(runtime.stdout, vec![]);
}
