use bfjit::assembly::{Abi, Addresses, Assembler, Op, Role};
use std::collections::HashMap;

// A small machine that carries out a listing, so that what the two JIT
// engines emit can be held against what the interpreters do.

const ADDRESSES: Addresses = Addresses {
    memory: 0x10_0000,
    runtime: 0x5000,
    read: 0x6000,
    write: 0x7000,
};

const TAPE: usize = 30000;

const STACK_TOP: u64 = 0x8000_0000;

const ALL: [Abi; 4] = [Abi::SysV64, Abi::SysV32, Abi::Win64, Abi::Aapcs64];

const HELLO: &str = "++++++++[>++++[>++>+++>+++>+<<<<-]>+>+>->>+[<]<-]>>.>---.+++++++..+++.";

struct Machine {
    abi: Abi,
    regs: [u64; 32],
    stack: HashMap<u64, u64>,
    tape: Vec<u8>,
    zero: bool,
    input: Vec<u8>,
    consumed: usize,
    output: Vec<u8>,
}

impl Machine {
    fn new(abi: Abi, input: &[u8]) -> Machine {
        let mut regs = [0u64; 32];
        for (i, reg) in regs.iter_mut().enumerate() {
            *reg = 0xdead_0000 + i as u64;
        }
        regs[abi.register(Role::StackPtr).unwrap() as usize] = STACK_TOP;
        Machine {
            abi,
            regs,
            stack: HashMap::new(),
            tape: vec![0; TAPE],
            zero: false,
            input: input.to_vec(),
            consumed: 0,
            output: vec![],
        }
    }

    fn width(&self) -> u64 {
        match self.abi {
            Abi::SysV32 => 4,
            _ => 8,
        }
    }

    fn index(&self, role: Role) -> usize {
        self.abi
            .register(role)
            .expect("the listing of an ABI names only the roles of that ABI") as usize
    }

    fn get(&self, role: Role) -> u64 {
        self.regs[self.index(role)]
    }

    fn set(&mut self, role: Role, value: u64) {
        let index = self.index(role);
        self.regs[index] = value;
    }

    fn cell(&self, address: u64) -> usize {
        let offset = address.wrapping_sub(ADDRESSES.memory);
        assert!(offset < TAPE as u64, "access off the tape at {address:#x}");
        offset as usize
    }

    fn call(&mut self, target: u64) {
        assert_eq!(self.get(Role::Arg1), ADDRESSES.runtime);
        let saved_tape = self.get(Role::TapePtr);
        let saved_sp = self.get(Role::StackPtr);
        let result = if target == ADDRESSES.read {
            let byte = self.input[self.consumed];
            self.consumed += 1;
            Some(byte)
        } else if target == ADDRESSES.write {
            let byte = self.get(Role::Arg2) as u8;
            self.output.push(byte);
            None
        } else {
            panic!("call to {target:#x}");
        };
        // A callee may change every register that it need not keep.
        for role in [Role::Arg1, Role::Arg2, Role::Temp, Role::Return] {
            self.set(role, 0xc0ffee);
        }
        if self.abi == Abi::Aapcs64 {
            self.set(Role::Temp2, 0xc0ffee);
            self.set(Role::Temp3, 0xc0ffee);
            self.set(Role::Link, 0xc0ffee);
        }
        if let Some(byte) = result {
            self.set(Role::Return, 0xabcd_ef00 | byte as u64);
        }
        assert_eq!(self.get(Role::TapePtr), saved_tape);
        assert_eq!(self.get(Role::StackPtr), saved_sp);
    }

    /// Runs a listing from its first operation to its return.
    fn run(&mut self, listing: &Assembler) {
        let mut places = vec![None; listing.labels];
        for (at, op) in listing.ops.iter().enumerate() {
            if let Op::Label(l) = op {
                assert!(places[*l].is_none(), "label {l} placed twice");
                places[*l] = Some(at);
            }
        }
        let keep: Vec<usize> = match self.abi {
            Abi::Aapcs64 => vec![19, 29, 30, 31],
            Abi::SysV32 => vec![3, 4],
            _ => vec![13, 4],
        };
        let entry: Vec<u64> = keep.iter().map(|&r| self.regs[r]).collect();
        let mut pc = 0;
        let mut steps = 0u64;
        loop {
            steps += 1;
            assert!(steps < 50_000_000, "the listing does not end");
            let op = listing.ops[pc];
            pc += 1;
            match op {
                Op::SubSp(n) => {
                    let sp = self.get(Role::StackPtr) - n as u64;
                    self.set(Role::StackPtr, sp);
                }
                Op::AddSp(n) => {
                    let sp = self.get(Role::StackPtr) + n as u64;
                    self.set(Role::StackPtr, sp);
                }
                Op::Push(role) => {
                    let sp = self.get(Role::StackPtr) - self.width();
                    self.set(Role::StackPtr, sp);
                    self.stack.insert(sp, self.get(role));
                }
                Op::Pop(role) => {
                    let sp = self.get(Role::StackPtr);
                    let value = self.stack[&sp];
                    self.set(role, value);
                    self.set(Role::StackPtr, sp + self.width());
                }
                Op::StorePair { first, second, offset } => {
                    let at = self.get(Role::StackPtr) + offset as u64;
                    self.stack.insert(at, self.get(first));
                    self.stack.insert(at + 8, self.get(second));
                }
                Op::LoadPair { first, second, offset } => {
                    let at = self.get(Role::StackPtr) + offset as u64;
                    let (a, b) = (self.stack[&at], self.stack[&(at + 8)]);
                    self.set(first, a);
                    self.set(second, b);
                }
                Op::StoreToStack { src, offset } => {
                    let at = self.get(Role::StackPtr) + offset as u64;
                    self.stack.insert(at, self.get(src));
                }
                Op::LoadFromStack { dst, offset } => {
                    let at = self.get(Role::StackPtr) + offset as u64;
                    let value = self.stack[&at];
                    self.set(dst, value);
                }
                Op::AddFromSp { dst, offset } => {
                    let value = self.get(Role::StackPtr) + offset as u64;
                    self.set(dst, value);
                }
                Op::Ret => {
                    let exit: Vec<u64> = keep.iter().map(|&r| self.regs[r]).collect();
                    assert_eq!(exit, entry, "a register of the caller was not restored");
                    assert_eq!(pc, listing.ops.len());
                    return;
                }
                Op::MovImm { dst, value } => self.set(dst, value),
                Op::MovZ { dst, value } => self.set(dst, value as u64),
                Op::MovK { dst, value, shift } => {
                    let kept = self.get(dst) & !(0xffffu64 << shift);
                    self.set(dst, kept | ((value as u64) << shift));
                }
                Op::Call(role) => {
                    let target = self.get(role);
                    self.call(target);
                }
                Op::Inc(role) => {
                    let value = self.get(role).wrapping_add(1);
                    self.set(role, value);
                }
                Op::Dec(role) => {
                    let value = self.get(role).wrapping_sub(1);
                    self.set(role, value);
                }
                Op::AddImm { dst, src, value } => {
                    if self.abi != Abi::Aapcs64 {
                        assert_eq!(dst, src);
                    } else {
                        assert!(value <= 4096);
                    }
                    let sum = self.get(src).wrapping_add(value as u64);
                    self.set(dst, sum);
                }
                Op::SubImm { dst, src, value } => {
                    if self.abi != Abi::Aapcs64 {
                        assert_eq!(dst, src);
                    } else {
                        assert!(value <= 4096);
                    }
                    let difference = self.get(src).wrapping_sub(value as u64);
                    self.set(dst, difference);
                }
                Op::AddReg { dst, src } => {
                    let sum = (self.get(dst) as u32).wrapping_add(self.get(src) as u32);
                    self.set(dst, sum as u64);
                }
                Op::AddByte(n) => {
                    let at = self.cell(self.get(Role::TapePtr));
                    self.tape[at] = self.tape[at].wrapping_add(n);
                }
                Op::SubByte(n) => {
                    let at = self.cell(self.get(Role::TapePtr));
                    self.tape[at] = self.tape[at].wrapping_sub(n);
                }
                Op::StoreZero => {
                    let at = self.cell(self.get(Role::TapePtr));
                    self.tape[at] = 0;
                }
                Op::LoadByte { dst, base } => {
                    let byte = self.tape[self.cell(self.get(base))] as u64;
                    if self.abi == Abi::Aapcs64 {
                        self.set(dst, byte);
                    } else {
                        let kept = self.get(dst) & !0xff;
                        self.set(dst, kept | byte);
                    }
                }
                Op::StoreByte { src, base } => {
                    let at = self.cell(self.get(base));
                    self.tape[at] = self.get(src) as u8;
                }
                Op::Load { dst, base } => {
                    let at = self.cell(self.get(base));
                    let mut value = 0u64;
                    for k in (0..self.width() as usize).rev() {
                        let byte = self.tape.get(at + k).copied().unwrap_or(0);
                        value = (value << 8) | byte as u64;
                    }
                    self.set(dst, value);
                }
                Op::AddByteAt { displacement, src } => {
                    let address = self.get(Role::TapePtr).wrapping_add(displacement as i64 as u64);
                    let at = self.cell(address);
                    self.tape[at] = self.tape[at].wrapping_add(self.get(src) as u8);
                }
                Op::CmpByteZero => {
                    self.zero = self.tape[self.cell(self.get(Role::TapePtr))] == 0;
                }
                Op::CmpZero(role) => self.zero = self.get(role) as u32 == 0,
                Op::Label(_) => {}
                Op::JumpIfEqual(l) => {
                    if self.zero {
                        pc = places[l].unwrap();
                    }
                }
                Op::JumpIfNotEqual(l) => {
                    if !self.zero {
                        pc = places[l].unwrap();
                    }
                }
                Op::Jump(l) => pc = places[l].unwrap(),
            }
        }
    }
}

fn jit_outputs(source: &str, input: &[u8]) -> Vec<Vec<u8>> {
    let mut outputs = vec![];
    for abi in ALL {
        for listing in [
            bfjit::simplejit::compile_source(source, abi, &ADDRESSES).unwrap(),
            bfjit::opjit::compile_source(source, abi, &ADDRESSES).unwrap(),
        ] {
            assert_eq!(listing.abi, abi);
            let mut machine = Machine::new(abi, input);
            machine.run(&listing);
            outputs.push(machine.output);
        }
    }
    outputs
}

fn expect_output(source: &str, input: &[u8], expected: &[u8]) {
    for (engine, output) in jit_outputs(source, input).into_iter().enumerate() {
        assert_eq!(output, expected, "listing {engine} of {source}");
    }
}

const SQUARES: &str = "++++[>+++++<-]>[<+++++>-]+<+[>[>+>+<<-]++>>[<<+>>-]>>>[-]++>[-]+>>>+[[-]++++++>>>]<<<[[<++++++++<++>>-]+<.<[>----<-]<]<<[>>>>>[>>>[-]+++++++++<[>-<-]+++++++++>[-[<->-]+[<<<]]<[>+<-]>]<<-]<<-]";

const FIBONACCI: &str = "+++++++++++>+>>>>++++++++++++++++++++++++++++++++++++++++++++>++++++++++++++++++++++++++++++++<<<<<<[>[>>>>>>+>+<<<<<<<-]>>>>>>>[<<<<<<<+>>>>>>>-]<[>++++++++++[-<-[>>+>+<<<-]>>>[<<<+>>>-]+<[>[-]<[-]]>[<<[>>>+<<<-]>>[-]]<<]>>>[>>+>+<<<-]>>>[<<<+>>>-]+<[>[-]<[-]]>[<<+>>[-]]<<<<<<<]>>>>>[++++++++++++++++++++++++++++++++++++++++++++++++.[-]]++++++++++<[->-<]>++++++++++++++++++++++++++++++++++++++++++++++++.[-]<<<<<<<<<<<<[>>>+>+<<<<-]>>>>[<<<<+>>>>-]<-[>>.>.<<<[-]]<<[>>+>+<<<-]>>>[<<<+>>>-]<<[<+>-]>[<+>-]<<<-]";

#[test]
fn listings_print_fibonacci_numbers() {
    expect_output(FIBONACCI, b"", b"1, 1, 2, 3, 5, 8, 13, 21, 34, 55, 89");
}

#[test]
fn optimized_listings_print_squares() {
    let mut expected = String::new();
    for n in 0..=100 {
        expected.push_str(&format!("{}\n", n * n));
    }
    for abi in [Abi::SysV64, Abi::Aapcs64] {
        let listing = bfjit::opjit::compile_source(SQUARES, abi, &ADDRESSES).unwrap();
        let mut machine = Machine::new(abi, b"");
        machine.run(&listing);
        assert_eq!(machine.output, expected.as_bytes());
    }
}

#[test]
fn listings_reverse_input() {
    expect_output(">,[>,]<[.<]", b"stressed\0", b"desserts");
}

#[test]
fn listings_print_hello() {
    expect_output(HELLO, b"", b"Hello");
}

#[test]
fn listings_echo_one_byte() {
    expect_output(",.", &[0x41], &[0x41]);
}

#[test]
fn listings_clear_cells() {
    expect_output("[-]+++.", b"", &[0x03]);
    expect_output("+++++[-]+++.", b"", &[0x03]);
    expect_output("+++[+].", b"", &[0x00]);
}

#[test]
fn listings_move_data() {
    expect_output("++[->+<]>.", b"", &[0x02]);
    expect_output("+++>++++<[->+<]>.<.", b"", &[0x07, 0x00]);
    expect_output(">>+++<<++++>>[-<<+>>]<<.", b"", &[0x07]);
    expect_output("+++[->+<][->+<]>.", b"", &[0x03]);
}

#[test]
fn listings_scan_for_zero_cells() {
    expect_output("+++>+++<[>]", b"", b"");
    expect_output(">+>+>+>>+<<[<]>.>>>[>]<.", b"", &[0x01, 0x01]);
    expect_output(">>+>>+>>+[<<]>>.", b"", &[0x01]);
}

#[test]
fn listings_wrap_cells_and_repeat_calls() {
    expect_output("-.", b"", &[0xff]);
    expect_output(&("+".repeat(300) + "."), b"", &[44]);
    expect_output(&("-".repeat(513) + "."), b"", &[0xff]);
    expect_output(",,,...", b"abc", b"ccc");
}

#[test]
fn listings_move_the_pointer_far() {
    let far = ">".repeat(10000);
    let back = "<".repeat(10000);
    expect_output(&format!("{far}+++{back}{far}."), b"", &[3]);
    let source = format!("++[-{far}+{back}]{far}.");
    expect_output(&source, b"", &[2]);
}

#[test]
fn listings_agree_with_the_interpreters() {
    let corpus: [(&str, &[u8]); 5] = [
        (HELLO, b""),
        (",[.,]", b"echo\0"),
        ("++++[>++++[>++++<-]<-]>>+.", b""),
        (",>,<[->+<]>.", &[20, 22]),
        (">+++++++++[<++++++++>-]<.>+++++++[<++++>-]<+.", b""),
    ];
    for (source, input) in corpus {
        let mut expected = vec![];
        let ended = bfjit::simpleinterp::run(source, input.to_vec(), &mut expected, 1_000_000);
        assert_eq!(ended, Ok(true));
        for (engine, output) in jit_outputs(source, input).into_iter().enumerate() {
            assert_eq!(output, expected, "listing {engine} of {source}");
        }
    }
}
