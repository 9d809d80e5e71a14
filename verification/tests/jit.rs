use bfjit::assembly::{
    add_sub_u64, call_read, call_write, epilogue, jump_begin, jump_end, load_address, mov_u64,
    prologue, Abi, Addresses, Assembler, LabelPair, Op, Role,
};
use bfjit::error::BfError;
use bfjit::opjit::parser::Instruction as Optimized;
use bfjit::opjit::parser::Program as OptimizedProgram;

const ADDRESSES: Addresses = Addresses {
    memory: 0x1122_3344_5566_7788,
    runtime: 0x10,
    read: 0x20,
    write: 0x30,
};

const ALL: [Abi; 4] = [Abi::SysV64, Abi::SysV32, Abi::Win64, Abi::Aapcs64];

#[test]
fn registers_follow_the_table_of_each_abi() {
    assert_eq!(Abi::SysV64.register(Role::TapePtr), Some(13));
    assert_eq!(Abi::SysV64.register(Role::Arg1), Some(7));
    assert_eq!(Abi::SysV64.register(Role::Arg2), Some(6));
    assert_eq!(Abi::SysV64.register(Role::Temp), Some(8));
    assert_eq!(Abi::SysV64.register(Role::Return), Some(0));
    assert_eq!(Abi::SysV64.register(Role::StackPtr), Some(4));
    assert_eq!(Abi::SysV64.register(Role::FramePtr), None);

    assert_eq!(Abi::SysV32.register(Role::TapePtr), Some(3));
    assert_eq!(Abi::SysV32.register(Role::Arg1), Some(1));
    assert_eq!(Abi::SysV32.register(Role::Arg2), Some(2));
    assert_eq!(Abi::SysV32.register(Role::Temp), Some(0));
    assert_eq!(Abi::SysV32.register(Role::Temp2), None);

    assert_eq!(Abi::Win64.register(Role::TapePtr), Some(13));
    assert_eq!(Abi::Win64.register(Role::Arg1), Some(1));
    assert_eq!(Abi::Win64.register(Role::Arg2), Some(2));
    assert_eq!(Abi::Win64.register(Role::Temp), Some(8));

    assert_eq!(Abi::Aapcs64.register(Role::TapePtr), Some(19));
    assert_eq!(Abi::Aapcs64.register(Role::Arg1), Some(0));
    assert_eq!(Abi::Aapcs64.register(Role::Arg2), Some(1));
    assert_eq!(Abi::Aapcs64.register(Role::Temp), Some(9));
    assert_eq!(Abi::Aapcs64.register(Role::Temp2), Some(10));
    assert_eq!(Abi::Aapcs64.register(Role::Temp3), Some(11));
    assert_eq!(Abi::Aapcs64.register(Role::FramePtr), Some(29));
    assert_eq!(Abi::Aapcs64.register(Role::Link), Some(30));
    assert_eq!(Abi::Aapcs64.register(Role::StackPtr), Some(31));
}

#[test]
fn stack_offsets_follow_the_abi() {
    assert_eq!(Abi::SysV64.stack_offset(), 0);
    assert_eq!(Abi::SysV32.stack_offset(), 0);
    assert_eq!(Abi::Win64.stack_offset(), 32);
    assert_eq!(Abi::Aapcs64.stack_offset(), 32);
    assert!(Abi::Aapcs64.arm());
    assert!(!Abi::Win64.arm());
}

#[test]
fn mov_u64_splits_into_four_lanes() {
    let mut assembler = Assembler::new(Abi::Aapcs64);
    mov_u64(&mut assembler, Role::Temp, 0x1122_3344_5566_7788);
    assert_eq!(
        assembler.ops,
        vec![
            Op::MovZ { dst: Role::Temp, value: 0x7788 },
            Op::MovK { dst: Role::Temp, value: 0x5566, shift: 16 },
            Op::MovK { dst: Role::Temp, value: 0x3344, shift: 32 },
            Op::MovK { dst: Role::Temp, value: 0x1122, shift: 48 },
        ]
    );
    let mut assembler = Assembler::new(Abi::Win64);
    load_address(&mut assembler, Role::Arg1, 77);
    assert_eq!(assembler.ops, vec![Op::MovImm { dst: Role::Arg1, value: 77 }]);
}

#[test]
fn large_immediates_become_a_chain() {
    let mut assembler = Assembler::new(Abi::Aapcs64);
    add_sub_u64(&mut assembler, true, Role::Temp3, Role::TapePtr, 10000);
    assert_eq!(
        assembler.ops,
        vec![
            Op::AddImm { dst: Role::Temp3, src: Role::TapePtr, value: 4096 },
            Op::AddImm { dst: Role::Temp3, src: Role::Temp3, value: 4096 },
            Op::AddImm { dst: Role::Temp3, src: Role::Temp3, value: 1808 },
        ]
    );
    let mut assembler = Assembler::new(Abi::Aapcs64);
    add_sub_u64(&mut assembler, false, Role::TapePtr, Role::TapePtr, 4096);
    assert_eq!(
        assembler.ops,
        vec![Op::SubImm { dst: Role::TapePtr, src: Role::TapePtr, value: 4096 }]
    );
    let mut assembler = Assembler::new(Abi::Aapcs64);
    add_sub_u64(&mut assembler, false, Role::TapePtr, Role::TapePtr, 0);
    assert_eq!(
        assembler.ops,
        vec![Op::SubImm { dst: Role::TapePtr, src: Role::TapePtr, value: 0 }]
    );
}

#[test]
fn prologue_and_epilogue_mirror_each_other() {
    let mut assembler = Assembler::new(Abi::SysV64);
    prologue(&mut assembler, 9);
    epilogue(&mut assembler);
    assert_eq!(
        assembler.ops,
        vec![
            Op::Push(Role::TapePtr),
            Op::MovImm { dst: Role::TapePtr, value: 9 },
            Op::Pop(Role::TapePtr),
            Op::Ret,
        ]
    );

    let mut assembler = Assembler::new(Abi::Win64);
    prologue(&mut assembler, 9);
    epilogue(&mut assembler);
    assert_eq!(
        assembler.ops,
        vec![
            Op::SubSp(32),
            Op::Push(Role::TapePtr),
            Op::MovImm { dst: Role::TapePtr, value: 9 },
            Op::Pop(Role::TapePtr),
            Op::AddSp(32),
            Op::Ret,
        ]
    );

    let mut assembler = Assembler::new(Abi::Aapcs64);
    prologue(&mut assembler, 9);
    epilogue(&mut assembler);
    assert_eq!(
        assembler.ops,
        vec![
            Op::SubSp(32),
            Op::StorePair { first: Role::FramePtr, second: Role::Link, offset: 16 },
            Op::AddFromSp { dst: Role::FramePtr, offset: 16 },
            Op::StoreToStack { src: Role::TapePtr, offset: 8 },
            Op::MovZ { dst: Role::TapePtr, value: 9 },
            Op::MovK { dst: Role::TapePtr, value: 0, shift: 16 },
            Op::MovK { dst: Role::TapePtr, value: 0, shift: 32 },
            Op::MovK { dst: Role::TapePtr, value: 0, shift: 48 },
            Op::LoadFromStack { dst: Role::TapePtr, offset: 8 },
            Op::LoadPair { first: Role::FramePtr, second: Role::Link, offset: 16 },
            Op::AddSp(32),
            Op::Ret,
        ]
    );
}

#[test]
fn callbacks_get_the_runtime_as_first_argument() {
    let mut assembler = Assembler::new(Abi::SysV64);
    call_read(&mut assembler, &ADDRESSES);
    assert_eq!(
        assembler.ops,
        vec![
            Op::MovImm { dst: Role::Arg1, value: 0x10 },
            Op::MovImm { dst: Role::Temp, value: 0x20 },
            Op::Call(Role::Temp),
            Op::StoreByte { src: Role::Return, base: Role::TapePtr },
        ]
    );
    let mut assembler = Assembler::new(Abi::SysV64);
    call_write(&mut assembler, &ADDRESSES);
    assert_eq!(
        assembler.ops,
        vec![
            Op::MovImm { dst: Role::Arg1, value: 0x10 },
            Op::Load { dst: Role::Arg2, base: Role::TapePtr },
            Op::MovImm { dst: Role::Temp, value: 0x30 },
            Op::Call(Role::Temp),
        ]
    );
    let mut assembler = Assembler::new(Abi::Aapcs64);
    call_write(&mut assembler, &ADDRESSES);
    assert_eq!(assembler.ops.len(), 10);
    assert_eq!(
        assembler.ops[4],
        Op::LoadByte { dst: Role::Arg2, base: Role::TapePtr }
    );
    assert_eq!(assembler.ops[9], Op::Call(Role::Temp));
}

#[test]
fn loops_take_fresh_labels() {
    let mut assembler = Assembler::new(Abi::SysV64);
    let mut stack = vec![];
    jump_begin(&mut assembler, &mut stack).unwrap();
    jump_begin(&mut assembler, &mut stack).unwrap();
    assert_eq!(
        stack,
        vec![
            LabelPair { begin_label: 0, end_label: 1 },
            LabelPair { begin_label: 2, end_label: 3 },
        ]
    );
    jump_end(&mut assembler, &mut stack, 7).unwrap();
    jump_end(&mut assembler, &mut stack, 8).unwrap();
    assert_eq!(
        assembler.ops,
        vec![
            Op::CmpByteZero,
            Op::JumpIfEqual(1),
            Op::Label(0),
            Op::CmpByteZero,
            Op::JumpIfEqual(3),
            Op::Label(2),
            Op::CmpByteZero,
            Op::JumpIfNotEqual(2),
            Op::Label(3),
            Op::CmpByteZero,
            Op::JumpIfNotEqual(0),
            Op::Label(1),
        ]
    );
    assert_eq!(assembler.labels, 4);
    let before = assembler.ops.clone();
    assert_eq!(
        jump_end(&mut assembler, &mut stack, 9),
        Err(BfError::Parse("unmatched ']' at pc=9".to_owned()))
    );
    // A failure leaves the stack and the listing as they were.
    assert_eq!(stack, vec![]);
    assert_eq!(assembler.ops, before);
}

#[test]
fn labels_can_run_out() {
    let mut assembler = Assembler::new(Abi::SysV64);
    assembler.labels = usize::MAX - 1;
    let mut stack = vec![];
    assert_eq!(
        jump_begin(&mut assembler, &mut stack),
        Err(BfError::Assembler("out of labels".to_owned()))
    );
    assembler.labels = usize::MAX - 2;
    assert!(jump_begin(&mut assembler, &mut stack).is_ok());
}

#[test]
fn simple_jit_emits_one_command_at_a_time() {
    let listing = bfjit::simplejit::compile_source("+>[-]<,.", Abi::SysV64, &ADDRESSES).unwrap();
    assert_eq!(
        listing.ops,
        vec![
            Op::Push(Role::TapePtr),
            Op::MovImm { dst: Role::TapePtr, value: ADDRESSES.memory },
            Op::AddByte(1),
            Op::Inc(Role::TapePtr),
            Op::CmpByteZero,
            Op::JumpIfEqual(1),
            Op::Label(0),
            Op::SubByte(1),
            Op::CmpByteZero,
            Op::JumpIfNotEqual(0),
            Op::Label(1),
            Op::Dec(Role::TapePtr),
            Op::MovImm { dst: Role::Arg1, value: 0x10 },
            Op::MovImm { dst: Role::Temp, value: 0x20 },
            Op::Call(Role::Temp),
            Op::StoreByte { src: Role::Return, base: Role::TapePtr },
            Op::MovImm { dst: Role::Arg1, value: 0x10 },
            Op::Load { dst: Role::Arg2, base: Role::TapePtr },
            Op::MovImm { dst: Role::Temp, value: 0x30 },
            Op::Call(Role::Temp),
            Op::Pop(Role::TapePtr),
            Op::Ret,
        ]
    );
    let arm = bfjit::simplejit::compile_source("+<", Abi::Aapcs64, &ADDRESSES).unwrap();
    assert_eq!(
        arm.ops[8..12],
        [
            Op::LoadByte { dst: Role::Temp, base: Role::TapePtr },
            Op::AddImm { dst: Role::Temp, src: Role::Temp, value: 1 },
            Op::StoreByte { src: Role::Temp, base: Role::TapePtr },
            Op::SubImm { dst: Role::TapePtr, src: Role::TapePtr, value: 1 },
        ]
    );
}

#[test]
fn simple_jit_reports_unmatched_brackets() {
    assert_eq!(
        bfjit::simplejit::compile_source("..[...", Abi::SysV64, &ADDRESSES),
        Err(BfError::Parse("unmatched '[' at pc=2".to_owned()))
    );
    assert_eq!(
        bfjit::simplejit::compile_source("..]...", Abi::SysV64, &ADDRESSES),
        Err(BfError::Parse("unmatched ']' at pc=2".to_owned()))
    );
    let program = bfjit::simpleinterp::parser::parse("+]");
    assert_eq!(
        bfjit::simplejit::compiler::compile(program, Abi::SysV64, &ADDRESSES),
        Err(BfError::Parse("unmatched ']' at pc=1".to_owned()))
    );
    let program = bfjit::simpleinterp::parser::parse("[[]");
    assert_eq!(
        bfjit::simplejit::compiler::compile(program, Abi::SysV64, &ADDRESSES),
        Err(BfError::Parse("unmatched '['".to_owned()))
    );
}

#[test]
fn optimizing_jit_emits_counts_and_super_ops() {
    let listing = bfjit::opjit::compile_source("+++>>[-]<[>>]", Abi::Win64, &ADDRESSES).unwrap();
    assert_eq!(
        listing.ops,
        vec![
            Op::SubSp(32),
            Op::Push(Role::TapePtr),
            Op::MovImm { dst: Role::TapePtr, value: ADDRESSES.memory },
            Op::AddByte(3),
            Op::AddImm { dst: Role::TapePtr, src: Role::TapePtr, value: 2 },
            Op::StoreZero,
            Op::SubImm { dst: Role::TapePtr, src: Role::TapePtr, value: 1 },
            Op::Label(0),
            Op::CmpByteZero,
            Op::JumpIfEqual(1),
            Op::AddImm { dst: Role::TapePtr, src: Role::TapePtr, value: 2 },
            Op::Jump(0),
            Op::Label(1),
            Op::Pop(Role::TapePtr),
            Op::AddSp(32),
            Op::Ret,
        ]
    );
}

#[test]
fn optimizing_jit_moves_data_by_displacement_or_by_address() {
    let x64 = bfjit::opjit::compile_source("[-<<<+>>>]", Abi::SysV64, &ADDRESSES).unwrap();
    assert_eq!(
        x64.ops[2..8],
        [
            Op::CmpByteZero,
            Op::JumpIfEqual(0),
            Op::LoadByte { dst: Role::Temp, base: Role::TapePtr },
            Op::AddByteAt { displacement: -3, src: Role::Temp },
            Op::StoreZero,
            Op::Label(0),
        ]
    );
    let arm = bfjit::opjit::compile_source("[->>+<<]", Abi::Aapcs64, &ADDRESSES).unwrap();
    assert_eq!(
        arm.ops[8..18],
        [
            Op::LoadByte { dst: Role::Temp2, base: Role::TapePtr },
            Op::CmpZero(Role::Temp2),
            Op::JumpIfEqual(0),
            Op::LoadByte { dst: Role::Temp, base: Role::TapePtr },
            Op::AddImm { dst: Role::Temp3, src: Role::TapePtr, value: 2 },
            Op::LoadByte { dst: Role::Temp2, base: Role::Temp3 },
            Op::AddReg { dst: Role::Temp2, src: Role::Temp },
            Op::StoreByte { src: Role::Temp2, base: Role::Temp3 },
            Op::StoreZero,
            Op::Label(0),
        ]
    );
}

#[test]
fn optimizing_jit_wraps_cell_changes() {
    let plus = "+".repeat(259);
    let listing = bfjit::opjit::compile_source(&plus, Abi::SysV64, &ADDRESSES).unwrap();
    assert_eq!(listing.ops[2], Op::AddByte(3));
    let arm = bfjit::opjit::compile_source(&"-".repeat(257), Abi::Aapcs64, &ADDRESSES).unwrap();
    assert_eq!(
        arm.ops[8..11],
        [
            Op::LoadByte { dst: Role::Temp, base: Role::TapePtr },
            Op::SubImm { dst: Role::Temp, src: Role::Temp, value: 1 },
            Op::StoreByte { src: Role::Temp, base: Role::TapePtr },
        ]
    );
}

#[test]
fn optimizing_jit_repeats_calls() {
    let listing = bfjit::opjit::compile_source(",,..", Abi::SysV64, &ADDRESSES).unwrap();
    let calls = listing.ops.iter().filter(|op| **op == Op::Call(Role::Temp)).count();
    assert_eq!(calls, 4);
    assert_eq!(listing.ops.len(), 2 + 4 * 4 + 2);
}

#[test]
fn amount_must_fit_a_displacement_off_aarch64() {
    let program = || OptimizedProgram {
        instructions: vec![Optimized::MoveData {
            count: 1,
            forward: true,
            amount: 0x8000_0000,
        }],
    };
    for abi in [Abi::SysV64, Abi::SysV32, Abi::Win64] {
        assert_eq!(
            bfjit::opjit::compiler::compile(program(), abi, &ADDRESSES),
            Err(BfError::Numeric(
                "out of range integral type conversion attempted".to_owned()
            ))
        );
    }
    assert!(bfjit::opjit::compiler::compile(program(), Abi::Aapcs64, &ADDRESSES).is_ok());
    let fits = OptimizedProgram {
        instructions: vec![Optimized::MoveData {
            count: 1,
            forward: false,
            amount: 0x7fff_ffff,
        }],
    };
    let listing = bfjit::opjit::compiler::compile(fits, Abi::SysV64, &ADDRESSES).unwrap();
    assert_eq!(
        listing.ops[5],
        Op::AddByteAt { displacement: -0x7fff_ffff, src: Role::Temp }
    );
}

#[test]
fn optimizing_jit_reports_streams_that_do_not_nest() {
    let open = OptimizedProgram {
        instructions: vec![Optimized::JumpBegin],
    };
    let close = OptimizedProgram {
        instructions: vec![Optimized::SetDataToZero, Optimized::JumpEnd],
    };
    for abi in ALL {
        assert_eq!(
            bfjit::opjit::compiler::compile(
                OptimizedProgram { instructions: open.instructions.clone() },
                abi,
                &ADDRESSES
            ),
            Err(BfError::Parse("unmatched '['".to_owned()))
        );
        assert_eq!(
            bfjit::opjit::compiler::compile(
                OptimizedProgram { instructions: close.instructions.clone() },
                abi,
                &ADDRESSES
            ),
            Err(BfError::Parse("unmatched ']' at pc=1".to_owned()))
        );
    }
    assert_eq!(
        bfjit::opjit::compile_source("..[...", Abi::SysV64, &ADDRESSES),
        Err(BfError::Parse("Unmatched '[' at index 2.".to_owned()))
    );
}

#[test]
fn every_label_of_a_listing_is_placed_once() {
    let source = "+[>[-]+[>>]<[->+<]<[.,]]";
    for abi in ALL {
        for listing in [
            bfjit::opjit::compile_source(source, abi, &ADDRESSES).unwrap(),
            bfjit::simplejit::compile_source(source, abi, &ADDRESSES).unwrap(),
        ] {
            let mut placed = vec![0; listing.labels];
            for op in &listing.ops {
                match op {
                    Op::Label(l) => placed[*l] += 1,
                    Op::JumpIfEqual(l) | Op::JumpIfNotEqual(l) | Op::Jump(l) => {
                        assert!(*l < listing.labels)
                    }
                    _ => {}
                }
            }
            assert!(placed.iter().all(|&n| n == 1));
        }
    }
}
