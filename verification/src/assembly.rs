//! The assembler abstraction: a listing of machine operations over register
//! roles, which a table assigns to the registers of each host ABI, and the
//! pieces that every compiled program is made of.

use vstd::prelude::*;
use vstd::string::StringExecFns;
use crate::error::{
    narrowing_text, parse_error_at, unmatched_close_at_pc, unmatched_open_text, BfError, BfResult,
};

verus! {

/// The host ABIs that code is emitted for.
#[derive(Debug, PartialEq, Eq, Clone, Copy, Structural)]
pub enum Abi {
    /// System V on x86-64.
    SysV64,
    /// System V on x86-32, with the fastcall convention for callbacks.
    SysV32,
    /// Microsoft x64.
    Win64,
    /// AAPCS64.
    Aapcs64,
}

/// What a register is used for.
#[derive(Debug, PartialEq, Eq, Clone, Copy, Structural)]
pub enum Role {
    StackPtr,
    FramePtr,
    Link,
    TapePtr,
    Arg1,
    Arg2,
    Temp,
    Temp2,
    Temp3,
    Return,
}

/// One machine operation of a listing. Registers are named by their role;
/// the byte operations without a base work on the cell that the tape pointer
/// points at.
#[allow(inconsistent_fields)]
#[derive(Debug, PartialEq, Eq, Clone, Copy, Structural)]
pub enum Op {
    /// Lowers the stack pointer by so many bytes.
    SubSp(u32),
    /// Raises the stack pointer by so many bytes.
    AddSp(u32),
    /// Pushes a register.
    Push(Role),
    /// Pops a register.
    Pop(Role),
    /// Stores two registers at an offset from the stack pointer.
    StorePair { first: Role, second: Role, offset: u32 },
    /// Loads two registers from an offset from the stack pointer.
    LoadPair { first: Role, second: Role, offset: u32 },
    /// Stores a register at an offset from the stack pointer.
    StoreToStack { src: Role, offset: u32 },
    /// Loads a register from an offset from the stack pointer.
    LoadFromStack { dst: Role, offset: u32 },
    /// Sets a register to the stack pointer plus an offset.
    AddFromSp { dst: Role, offset: u32 },
    /// Returns to the caller.
    Ret,
    /// Sets a register to an immediate of the width of a pointer.
    MovImm { dst: Role, value: u64 },
    /// Sets the lowest 16 bits of a register and clears the others.
    MovZ { dst: Role, value: u16 },
    /// Sets 16 bits of a register at a shift and keeps the others.
    MovK { dst: Role, value: u16, shift: u8 },
    /// Calls the function whose address a register holds.
    Call(Role),
    /// Adds one to a register.
    Inc(Role),
    /// Subtracts one from a register.
    Dec(Role),
    /// Sets a register to another plus an immediate.
    AddImm { dst: Role, src: Role, value: u32 },
    /// Sets a register to another minus an immediate.
    SubImm { dst: Role, src: Role, value: u32 },
    /// Adds the low byte of a register to the low byte of another.
    AddReg { dst: Role, src: Role },
    /// Adds an immediate to the cell, wrapping.
    AddByte(u8),
    /// Subtracts an immediate from the cell, wrapping.
    SubByte(u8),
    /// Clears the cell.
    StoreZero,
    /// Loads the byte that a register points at.
    LoadByte { dst: Role, base: Role },
    /// Stores the low byte of a register where another points.
    StoreByte { src: Role, base: Role },
    /// Loads a register, in its full width, from where another points.
    Load { dst: Role, base: Role },
    /// Adds the low byte of a register to the byte at a displacement from
    /// the tape pointer.
    AddByteAt { displacement: i32, src: Role },
    /// Compares the cell with zero.
    CmpByteZero,
    /// Compares the low byte of a register with zero.
    CmpZero(Role),
    /// Places a label here.
    Label(usize),
    /// Jumps to a label where the comparison found zero.
    JumpIfEqual(usize),
    /// Jumps to a label where the comparison found something else.
    JumpIfNotEqual(usize),
    /// Jumps to a label.
    Jump(usize),
}

/// The two labels of a loop: `begin_label` behind the test at its head,
/// `end_label` behind the test at its end.
#[derive(Debug, PartialEq, Eq, Clone, Copy, Structural)]
pub struct LabelPair {
    pub begin_label: usize,
    pub end_label: usize,
}

/// The absolute addresses that are written into the code.
#[derive(Debug, PartialEq, Eq, Clone, Copy, Structural)]
pub struct Addresses {
    /// The base of the tape.
    pub memory: u64,
    /// The runtime, handed to both callbacks as their first argument.
    pub runtime: u64,
    /// The callback that reads a byte.
    pub read: u64,
    /// The callback that writes a byte.
    pub write: u64,
}

/// A listing under construction.
#[derive(Debug, PartialEq, Eq)]
pub struct Assembler {
    pub abi: Abi,
    pub ops: Vec<Op>,
    /// The number of labels handed out; the next label gets this number.
    pub labels: usize,
}

impl Abi {
    /// Whether the ABI is that of aarch64, where memory is reached by loads
    /// and stores alone.
    pub open spec fn is_arm(self) -> bool {
        self == Abi::Aapcs64
    }

    /// Whether the ABI is that of aarch64.
    pub fn arm(self) -> (r: bool)
        ensures
            r == self.is_arm(),
    {
        match self {
            Abi::Aapcs64 => true,
            _ => false,
        }
    }

    /// By how many bytes a compiled program lowers the stack pointer on
    /// entry: nothing under System V, the shadow space of 32 bytes under
    /// Microsoft x64, and 32 bytes under AAPCS64 for the frame record and
    /// the saved tape pointer, kept at a multiple of 16.
    pub open spec fn stack_bytes(self) -> u32 {
        match self {
            Abi::SysV64 => 0,
            Abi::SysV32 => 0,
            Abi::Win64 => 32,
            Abi::Aapcs64 => 32,
        }
    }

    /// By how many bytes a compiled program lowers the stack pointer on
    /// entry.
    pub fn stack_offset(self) -> (r: u32)
        ensures
            r == self.stack_bytes(),
    {
        match self {
            Abi::SysV64 => 0,
            Abi::SysV32 => 0,
            Abi::Win64 => 32,
            Abi::Aapcs64 => 32,
        }
    }

    /// The hardware number of the register that plays a role, where the ABI
    /// has one for it.
    pub open spec fn register_of(self, role: Role) -> Option<u8> {
        match self {
            Abi::SysV64 => match role {
                Role::StackPtr => Some(4u8),
                Role::TapePtr => Some(13u8),
                Role::Arg1 => Some(7u8),
                Role::Arg2 => Some(6u8),
                Role::Temp => Some(8u8),
                Role::Return => Some(0u8),
                _ => None,
            },
            Abi::SysV32 => match role {
                Role::StackPtr => Some(4u8),
                Role::TapePtr => Some(3u8),
                Role::Arg1 => Some(1u8),
                Role::Arg2 => Some(2u8),
                Role::Temp => Some(0u8),
                Role::Return => Some(0u8),
                _ => None,
            },
            Abi::Win64 => match role {
                Role::StackPtr => Some(4u8),
                Role::TapePtr => Some(13u8),
                Role::Arg1 => Some(1u8),
                Role::Arg2 => Some(2u8),
                Role::Temp => Some(8u8),
                Role::Return => Some(0u8),
                _ => None,
            },
            Abi::Aapcs64 => match role {
                Role::StackPtr => Some(31u8),
                Role::FramePtr => Some(29u8),
                Role::Link => Some(30u8),
                Role::TapePtr => Some(19u8),
                Role::Arg1 => Some(0u8),
                Role::Arg2 => Some(1u8),
                Role::Temp => Some(9u8),
                Role::Temp2 => Some(10u8),
                Role::Temp3 => Some(11u8),
                Role::Return => Some(0u8),
            },
        }
    }

    /// The hardware number of the register that plays a role: `r13`, `ebx`
    /// or `x19` for the tape pointer, and so on.
    pub fn register(self, role: Role) -> (r: Option<u8>)
        ensures
            r == self.register_of(role),
    {
        match self {
            Abi::SysV64 => match role {
                Role::StackPtr => Some(4u8),
                Role::TapePtr => Some(13u8),
                Role::Arg1 => Some(7u8),
                Role::Arg2 => Some(6u8),
                Role::Temp => Some(8u8),
                Role::Return => Some(0u8),
                _ => None,
            },
            Abi::SysV32 => match role {
                Role::StackPtr => Some(4u8),
                Role::TapePtr => Some(3u8),
                Role::Arg1 => Some(1u8),
                Role::Arg2 => Some(2u8),
                Role::Temp => Some(0u8),
                Role::Return => Some(0u8),
                _ => None,
            },
            Abi::Win64 => match role {
                Role::StackPtr => Some(4u8),
                Role::TapePtr => Some(13u8),
                Role::Arg1 => Some(1u8),
                Role::Arg2 => Some(2u8),
                Role::Temp => Some(8u8),
                Role::Return => Some(0u8),
                _ => None,
            },
            Abi::Aapcs64 => match role {
                Role::StackPtr => Some(31u8),
                Role::FramePtr => Some(29u8),
                Role::Link => Some(30u8),
                Role::TapePtr => Some(19u8),
                Role::Arg1 => Some(0u8),
                Role::Arg2 => Some(1u8),
                Role::Temp => Some(9u8),
                Role::Temp2 => Some(10u8),
                Role::Temp3 => Some(11u8),
                Role::Return => Some(0u8),
            },
        }
    }
}

/// The 16 bits of `value` at lane `lane`, counted from the lowest.
pub open spec fn lane(value: u64, lane: u8) -> u16 {
    ((value >> (16 * lane) as u64) & 0xffff) as u16
}

/// The operations that set a register to a 64-bit immediate on aarch64: one
/// `movz` for the lowest 16 bits and a `movk` for each of the other three
/// lanes.
pub open spec fn mov_u64_ops(dst: Role, value: u64) -> Seq<Op> {
    seq![
        Op::MovZ { dst, value: lane(value, 0) },
        Op::MovK { dst, value: lane(value, 1), shift: 16 },
        Op::MovK { dst, value: lane(value, 2), shift: 32 },
        Op::MovK { dst, value: lane(value, 3), shift: 48 },
    ]
}

/// The operations that set a register to an immediate of pointer width.
pub open spec fn load_address_ops(abi: Abi, dst: Role, value: u64) -> Seq<Op> {
    if abi.is_arm() {
        mov_u64_ops(dst, value)
    } else {
        seq![Op::MovImm { dst, value }]
    }
}

/// The largest immediate of one addition or subtraction on aarch64.
pub const MAX_IMMEDIATE: u32 = 4096;

/// One addition, or one subtraction.
pub open spec fn add_or_sub(add: bool, dst: Role, src: Role, value: u32) -> Op {
    if add {
        Op::AddImm { dst, src, value }
    } else {
        Op::SubImm { dst, src, value }
    }
}

/// The operations that set `dst` to `src` plus or minus `value` on aarch64:
/// while more than the largest immediate is left, a step by the largest
/// immediate; then a step by what is left. The first step reads `src`, the
/// others go on from `dst`.
pub open spec fn add_sub_ops(add: bool, dst: Role, src: Role, value: u32) -> Seq<Op>
    decreases value,
{
    if value > MAX_IMMEDIATE {
        seq![add_or_sub(add, dst, src, MAX_IMMEDIATE)] + add_sub_ops(
            add,
            dst,
            dst,
            (value - MAX_IMMEDIATE) as u32,
        )
    } else {
        seq![add_or_sub(add, dst, src, value)]
    }
}

/// The operations at the entry of a compiled program: room on the stack,
/// the frame record on aarch64, the caller's tape pointer register saved,
/// and the base of the tape loaded into it.
pub open spec fn prologue_ops(abi: Abi, memory: u64) -> Seq<Op> {
    if abi.is_arm() {
        seq![
            Op::SubSp(abi.stack_bytes()),
            Op::StorePair { first: Role::FramePtr, second: Role::Link, offset: 16 },
            Op::AddFromSp { dst: Role::FramePtr, offset: 16 },
            Op::StoreToStack { src: Role::TapePtr, offset: 8 },
        ] + mov_u64_ops(Role::TapePtr, memory)
    } else {
        (if abi.stack_bytes() > 0 {
            seq![Op::SubSp(abi.stack_bytes())]
        } else {
            Seq::empty()
        }) + seq![Op::Push(Role::TapePtr), Op::MovImm { dst: Role::TapePtr, value: memory }]
    }
}

/// The operations at the exit of a compiled program: those of the entry
/// undone in reverse order, and the return.
pub open spec fn epilogue_ops(abi: Abi) -> Seq<Op> {
    if abi.is_arm() {
        seq![
            Op::LoadFromStack { dst: Role::TapePtr, offset: 8 },
            Op::LoadPair { first: Role::FramePtr, second: Role::Link, offset: 16 },
            Op::AddSp(abi.stack_bytes()),
            Op::Ret,
        ]
    } else {
        seq![Op::Pop(Role::TapePtr)] + (if abi.stack_bytes() > 0 {
            seq![Op::AddSp(abi.stack_bytes())]
        } else {
            Seq::empty()
        }) + seq![Op::Ret]
    }
}

/// The operations that read a byte into the cell: the runtime as first
/// argument, the callback called through the temporary register, and what
/// it returns stored.
pub open spec fn call_read_ops(abi: Abi, addresses: Addresses) -> Seq<Op> {
    load_address_ops(abi, Role::Arg1, addresses.runtime) + load_address_ops(
        abi,
        Role::Temp,
        addresses.read,
    ) + seq![Op::Call(Role::Temp), Op::StoreByte { src: Role::Return, base: Role::TapePtr }]
}

/// The operations that write the cell: the runtime as first argument, the
/// cell as second, and the callback called through the temporary register.
pub open spec fn call_write_ops(abi: Abi, addresses: Addresses) -> Seq<Op> {
    load_address_ops(abi, Role::Arg1, addresses.runtime) + seq![
        if abi.is_arm() {
            Op::LoadByte { dst: Role::Arg2, base: Role::TapePtr }
        } else {
            Op::Load { dst: Role::Arg2, base: Role::TapePtr }
        },
    ] + load_address_ops(abi, Role::Temp, addresses.write) + seq![Op::Call(Role::Temp)]
}

/// The operations that compare the cell with zero.
pub open spec fn test_cell_ops(abi: Abi, temp: Role) -> Seq<Op> {
    if abi.is_arm() {
        seq![Op::LoadByte { dst: temp, base: Role::TapePtr }, Op::CmpZero(temp)]
    } else {
        seq![Op::CmpByteZero]
    }
}

/// The operations at the head of a loop: past the loop where the cell is
/// zero, and the label to come back to.
pub open spec fn jump_begin_ops(abi: Abi, pair: LabelPair) -> Seq<Op> {
    test_cell_ops(abi, Role::Temp) + seq![
        Op::JumpIfEqual(pair.end_label),
        Op::Label(pair.begin_label),
    ]
}

/// The operations at the end of a loop: back to its head where the cell is
/// not zero, and the label to leave it by.
pub open spec fn jump_end_ops(abi: Abi, pair: LabelPair) -> Seq<Op> {
    test_cell_ops(abi, Role::Temp) + seq![
        Op::JumpIfNotEqual(pair.begin_label),
        Op::Label(pair.end_label),
    ]
}

/// What has been emitted so far: the model of an assembler and of the stack
/// of open loops beside it.
pub struct Emitted {
    pub ops: Seq<Op>,
    pub labels: nat,
    pub stack: Seq<LabelPair>,
}

/// Why a program cannot be compiled.
pub enum Failure {
    /// The instruction at this index ends a loop, and none is open.
    UnmatchedClose(nat),
    /// The program ends inside a loop.
    UnmatchedOpen,
    /// An amount does not fit the signed 32 bits of a displacement.
    Narrowing,
    /// The program needs more labels than there are numbers.
    OutOfLabels,
}

/// Whether `e` is the error that reports the failure `f`.
pub open spec fn fails_with(e: BfError, f: Failure) -> bool {
    match f {
        Failure::UnmatchedClose(index) => e.is_parse(unmatched_close_at_pc(index)),
        Failure::UnmatchedOpen => e.is_parse(unmatched_open_text()),
        Failure::Narrowing => e.is_numeric(narrowing_text()),
        Failure::OutOfLabels => e is Assembler && e.text() == out_of_labels_text(),
    }
}

impl Emitted {
    /// The same with more operations behind.
    pub open spec fn with(self, ops: Seq<Op>) -> Emitted {
        Emitted { ops: self.ops + ops, ..self }
    }

    /// The head of a loop emitted, with two fresh labels.
    pub open spec fn begin_loop(self, abi: Abi) -> Result<Emitted, Failure> {
        if self.labels + 2 > usize::MAX {
            Err(Failure::OutOfLabels)
        } else {
            let pair = LabelPair {
                begin_label: self.labels as usize,
                end_label: (self.labels + 1) as usize,
            };
            Ok(
                Emitted {
                    ops: self.ops + jump_begin_ops(abi, pair),
                    labels: self.labels + 2,
                    stack: self.stack.push(pair),
                },
            )
        }
    }

    /// The end of the innermost open loop emitted.
    pub open spec fn end_loop(self, abi: Abi, index: nat) -> Result<Emitted, Failure> {
        if self.stack.len() == 0 {
            Err(Failure::UnmatchedClose(index))
        } else {
            Ok(
                Emitted {
                    ops: self.ops + jump_end_ops(abi, self.stack.last()),
                    labels: self.labels,
                    stack: self.stack.drop_last(),
                },
            )
        }
    }
}

/// A run of operations `n` times over.
pub open spec fn repeated(ops: Seq<Op>, n: nat) -> Seq<Op>
    decreases n,
{
    if n == 0 {
        Seq::empty()
    } else {
        repeated(ops, (n - 1) as nat) + ops
    }
}

/// By how many bytes a listing moves the stack pointer, all of its
/// operations taken one after the other.
pub open spec fn stack_change(ops: Seq<Op>, width: int) -> int
    decreases ops.len(),
{
    if ops.len() == 0 {
        0
    } else {
        stack_change(ops.drop_last(), width) + match ops.last() {
            Op::SubSp(n) => -(n as int),
            Op::AddSp(n) => n as int,
            Op::Push(_) => -width,
            Op::Pop(_) => width,
            _ => 0,
        }
    }
}

/// The value that a `movz` and three `movk` with the lanes of `value` leave
/// in a register is `value`.
pub proof fn lemma_lanes(value: u64)
    ensures
        (lane(value, 0) as u64) | ((lane(value, 1) as u64) << 16) | ((lane(value, 2) as u64)
            << 32) | ((lane(value, 3) as u64) << 48) == value,
{
    let a = lane(value, 0);
    let b = lane(value, 1);
    let c = lane(value, 2);
    let d = lane(value, 3);
    assert(a == ((value >> 0) & 0xffff) as u16);
    assert(b == ((value >> 16) & 0xffff) as u16);
    assert(c == ((value >> 32) & 0xffff) as u16);
    assert(d == ((value >> 48) & 0xffff) as u16);
    assert((((value >> 0) & 0xffff) as u16 as u64) | ((((value >> 16) & 0xffff) as u16 as u64)
        << 16) | ((((value >> 32) & 0xffff) as u16 as u64) << 32) | ((((value >> 48)
        & 0xffff) as u16 as u64) << 48) == value) by (bit_vector);
}

/// The sum of the immediates of the additions and subtractions in a
/// listing.
pub open spec fn total_immediate(ops: Seq<Op>) -> int
    decreases ops.len(),
{
    if ops.len() == 0 {
        0
    } else {
        total_immediate(ops.drop_first()) + match ops[0] {
            Op::AddImm { value, .. } => value as int,
            Op::SubImm { value, .. } => value as int,
            _ => 0,
        }
    }
}

/// Whether `op` is one step of a chain: an addition, or a subtraction, of
/// no more than the largest immediate, from `from` into `dst`.
pub open spec fn is_chain_step(op: Op, add: bool, dst: Role, from: Role) -> bool {
    match op {
        Op::AddImm { dst: d, src: s, value } => add && d == dst && s == from && value
            <= MAX_IMMEDIATE,
        Op::SubImm { dst: d, src: s, value } => !add && d == dst && s == from && value
            <= MAX_IMMEDIATE,
        _ => false,
    }
}

/// A chain of additions or subtractions adds up to the value asked for, in
/// steps of no more than the largest immediate, the first from `src` and
/// the others from `dst`.
pub proof fn lemma_add_sub_chain(add: bool, dst: Role, src: Role, value: u32)
    ensures
        total_immediate(add_sub_ops(add, dst, src, value)) == value,
        add_sub_ops(add, dst, src, value).len() >= 1,
        is_chain_step(add_sub_ops(add, dst, src, value)[0], add, dst, src),
        forall|i: int|
            1 <= i < add_sub_ops(add, dst, src, value).len() ==> is_chain_step(
                #[trigger] add_sub_ops(add, dst, src, value)[i],
                add,
                dst,
                dst,
            ),
    decreases value,
{
    let ops = add_sub_ops(add, dst, src, value);
    if value > MAX_IMMEDIATE {
        let less = (value - MAX_IMMEDIATE) as u32;
        let rest = add_sub_ops(add, dst, dst, less);
        lemma_add_sub_chain(add, dst, dst, less);
        assert(ops == seq![add_or_sub(add, dst, src, MAX_IMMEDIATE)] + rest);
        assert(ops[0] == add_or_sub(add, dst, src, MAX_IMMEDIATE));
        assert(ops.drop_first() =~= rest);
        assert(total_immediate(ops) == total_immediate(rest) + MAX_IMMEDIATE);
        assert forall|i: int| 1 <= i < ops.len() implies is_chain_step(
            #[trigger] ops[i],
            add,
            dst,
            dst,
        ) by {
            assert(ops[i] == rest[i - 1]);
        }
    } else {
        assert(ops == seq![add_or_sub(add, dst, src, value)]);
        assert(ops[0] == add_or_sub(add, dst, src, value));
        assert(ops.drop_first() =~= Seq::<Op>::empty());
        assert(total_immediate(ops.drop_first()) == 0);
    }
}

/// What the entry of a compiled program takes from the stack, its exit
/// gives back.
pub proof fn lemma_stack_is_restored(abi: Abi, memory: u64, width: int)
    ensures
        stack_change(prologue_ops(abi, memory) + epilogue_ops(abi), width) == 0,
{
    let ops = prologue_ops(abi, memory) + epilogue_ops(abi);
    reveal_with_fuel(stack_change, 13);
    match abi {
        Abi::SysV64 => {
            assert(ops =~= seq![
                Op::Push(Role::TapePtr),
                Op::MovImm { dst: Role::TapePtr, value: memory },
                Op::Pop(Role::TapePtr),
                Op::Ret,
            ]);
        },
        Abi::SysV32 => {
            assert(ops =~= seq![
                Op::Push(Role::TapePtr),
                Op::MovImm { dst: Role::TapePtr, value: memory },
                Op::Pop(Role::TapePtr),
                Op::Ret,
            ]);
        },
        Abi::Win64 => {
            assert(ops =~= seq![
                Op::SubSp(32),
                Op::Push(Role::TapePtr),
                Op::MovImm { dst: Role::TapePtr, value: memory },
                Op::Pop(Role::TapePtr),
                Op::AddSp(32),
                Op::Ret,
            ]);
        },
        Abi::Aapcs64 => {
            assert(ops =~= seq![
                Op::SubSp(32),
                Op::StorePair { first: Role::FramePtr, second: Role::Link, offset: 16 },
                Op::AddFromSp { dst: Role::FramePtr, offset: 16 },
                Op::StoreToStack { src: Role::TapePtr, offset: 8 },
                Op::MovZ { dst: Role::TapePtr, value: lane(memory, 0) },
                Op::MovK { dst: Role::TapePtr, value: lane(memory, 1), shift: 16 },
                Op::MovK { dst: Role::TapePtr, value: lane(memory, 2), shift: 32 },
                Op::MovK { dst: Role::TapePtr, value: lane(memory, 3), shift: 48 },
                Op::LoadFromStack { dst: Role::TapePtr, offset: 8 },
                Op::LoadPair { first: Role::FramePtr, second: Role::Link, offset: 16 },
                Op::AddSp(32),
                Op::Ret,
            ]);
        },
    }
}

/// The label that an operation places or jumps to, if it does either.
pub open spec fn mentioned(op: Op) -> Option<usize> {
    match op {
        Op::Label(l) => Some(l),
        Op::JumpIfEqual(l) => Some(l),
        Op::JumpIfNotEqual(l) => Some(l),
        Op::Jump(l) => Some(l),
        _ => None,
    }
}

/// How often a listing places the label `l`.
pub open spec fn placed(ops: Seq<Op>, l: usize) -> nat
    decreases ops.len(),
{
    if ops.len() == 0 {
        0
    } else {
        placed(ops.drop_last(), l) + if ops.last() == Op::Label(l) {
            1nat
        } else {
            0nat
        }
    }
}

/// Every label that a listing places or jumps to is below `n`.
pub open spec fn mentions_below(ops: Seq<Op>, n: nat) -> bool {
    forall|i: int| 0 <= i < ops.len() && mentioned(#[trigger] ops[i]) is Some ==> mentioned(
        ops[i],
    )->Some_0 < n
}

/// A listing places no label and jumps to none.
pub open spec fn label_free(ops: Seq<Op>) -> bool {
    forall|i: int| 0 <= i < ops.len() ==> mentioned(#[trigger] ops[i]) is None
}

/// A listing is complete for `labels` labels: it places each of them
/// exactly once, and places and jumps to no other. Every jump of such a
/// listing can be resolved, and in one way only.
pub open spec fn complete(ops: Seq<Op>, labels: nat) -> bool {
    &&& mentions_below(ops, labels)
    &&& forall|l: usize| l < labels ==> #[trigger] placed(ops, l) == 1
}

/// The label `l` is the end of a loop that is still open.
pub open spec fn pending(stack: Seq<LabelPair>, l: usize) -> bool {
    exists|t: int| 0 <= t < stack.len() && (#[trigger] stack[t]).end_label == l
}

/// What holds of a listing under construction: every label handed out has
/// been placed exactly once, but for the ends of the loops that are open,
/// which have not been placed and are all different.
pub open spec fn well_labelled(e: Emitted) -> bool {
    &&& e.labels <= usize::MAX
    &&& mentions_below(e.ops, e.labels)
    &&& forall|l: usize|
        l < e.labels ==> #[trigger] placed(e.ops, l) == if pending(e.stack, l) {
            0nat
        } else {
            1nat
        }
    &&& forall|t: int|
        0 <= t < e.stack.len() ==> (#[trigger] e.stack[t]).end_label < e.labels
            && e.stack[t].begin_label < e.labels
    &&& forall|t: int, u: int|
        0 <= t < u < e.stack.len() ==> (#[trigger] e.stack[t]).end_label != (
        #[trigger] e.stack[u]).end_label
}

/// An empty listing, and one that is free of labels, is well labelled.
pub proof fn lemma_start_well_labelled(ops: Seq<Op>)
    requires
        label_free(ops),
    ensures
        well_labelled(Emitted { ops, labels: 0, stack: Seq::empty() }),
{
}

/// A label is placed in two listings put together as often as in the one
/// and in the other.
pub proof fn lemma_placed_concat(a: Seq<Op>, b: Seq<Op>, l: usize)
    ensures
        placed(a + b, l) == placed(a, l) + placed(b, l),
    decreases b.len(),
{
    if b.len() == 0 {
        assert(a + b =~= a);
    } else {
        lemma_placed_concat(a, b.drop_last(), l);
        assert((a + b).drop_last() =~= a + b.drop_last());
    }
}

/// A listing that is free of labels places none.
pub proof fn lemma_label_free_placed(ops: Seq<Op>, l: usize)
    requires
        label_free(ops),
    ensures
        placed(ops, l) == 0,
    decreases ops.len(),
{
    if ops.len() > 0 {
        assert(mentioned(ops[ops.len() - 1]) is None);
        lemma_label_free_placed(ops.drop_last(), l);
    }
}

/// Two listings that are free of labels stay so when put together.
pub proof fn lemma_label_free_concat(a: Seq<Op>, b: Seq<Op>)
    requires
        label_free(a),
        label_free(b),
    ensures
        label_free(a + b),
{
    assert forall|i: int| 0 <= i < (a + b).len() implies mentioned(#[trigger] (a + b)[i])
        is None by {
        if i < a.len() {
            assert((a + b)[i] == a[i]);
        } else {
            assert((a + b)[i] == b[i - a.len()]);
        }
    }
}

/// A chain of additions or subtractions is free of labels.
pub proof fn lemma_add_sub_label_free(add: bool, dst: Role, src: Role, value: u32)
    ensures
        label_free(add_sub_ops(add, dst, src, value)),
    decreases value,
{
    if value > MAX_IMMEDIATE {
        lemma_add_sub_label_free(add, dst, dst, (value - MAX_IMMEDIATE) as u32);
        lemma_label_free_concat(
            seq![add_or_sub(add, dst, src, MAX_IMMEDIATE)],
            add_sub_ops(add, dst, dst, (value - MAX_IMMEDIATE) as u32),
        );
    }
}

/// A listing that is free of labels stays so when repeated.
pub proof fn lemma_repeated_label_free(ops: Seq<Op>, n: nat)
    requires
        label_free(ops),
    ensures
        label_free(repeated(ops, n)),
    decreases n,
{
    if n > 0 {
        lemma_repeated_label_free(ops, (n - 1) as nat);
        lemma_label_free_concat(repeated(ops, (n - 1) as nat), ops);
    }
}

/// The pieces that every compiled program is made of are free of labels,
/// but for the head and the end of a loop.
pub proof fn lemma_pieces_label_free(abi: Abi, addresses: Addresses, temp: Role)
    ensures
        label_free(prologue_ops(abi, addresses.memory)),
        label_free(epilogue_ops(abi)),
        label_free(call_read_ops(abi, addresses)),
        label_free(call_write_ops(abi, addresses)),
        label_free(test_cell_ops(abi, temp)),
{
    let read = call_read_ops(abi, addresses);
    assert forall|i: int| 0 <= i < read.len() implies mentioned(#[trigger] read[i]) is None by {}
    let write = call_write_ops(abi, addresses);
    assert forall|i: int| 0 <= i < write.len() implies mentioned(#[trigger] write[i])
        is None by {}
}

/// Operations that are free of labels keep a listing well labelled.
pub proof fn lemma_with_label_free(e: Emitted, ops: Seq<Op>)
    requires
        well_labelled(e),
        label_free(ops),
    ensures
        well_labelled(e.with(ops)),
{
    let e2 = e.with(ops);
    assert forall|i: int| 0 <= i < e2.ops.len() && mentioned(#[trigger] e2.ops[i])
        is Some implies mentioned(e2.ops[i])->Some_0 < e.labels by {
        if i < e.ops.len() {
            assert(e2.ops[i] == e.ops[i]);
        } else {
            assert(e2.ops[i] == ops[i - e.ops.len()]);
        }
    }
    assert forall|l: usize| l < e.labels implies #[trigger] placed(e2.ops, l) == placed(
        e.ops,
        l,
    ) by {
        lemma_placed_concat(e.ops, ops, l);
        lemma_label_free_placed(ops, l);
    }
}

/// Operations that place fresh labels, each once, and jump to no label that
/// has not been handed out, keep a listing well labelled.
pub proof fn lemma_with_fresh(e: Emitted, ops: Seq<Op>, fresh: nat)
    requires
        well_labelled(e),
        e.labels + fresh <= usize::MAX,
        mentions_below(ops, e.labels + fresh),
        forall|l: usize| l < e.labels ==> #[trigger] placed(ops, l) == 0,
        forall|l: usize| e.labels <= l < e.labels + fresh ==> #[trigger] placed(ops, l) == 1,
    ensures
        well_labelled(Emitted { ops: e.ops + ops, labels: e.labels + fresh, stack: e.stack }),
{
    let e2 = Emitted { ops: e.ops + ops, labels: e.labels + fresh, stack: e.stack };
    assert forall|i: int| 0 <= i < e2.ops.len() && mentioned(#[trigger] e2.ops[i])
        is Some implies mentioned(e2.ops[i])->Some_0 < e2.labels by {
        if i < e.ops.len() {
            assert(e2.ops[i] == e.ops[i]);
        } else {
            assert(e2.ops[i] == ops[i - e.ops.len()]);
        }
    }
    assert forall|l: usize| l < e2.labels implies #[trigger] placed(e2.ops, l) == if pending(
        e2.stack,
        l,
    ) {
        0nat
    } else {
        1nat
    } by {
        lemma_placed_concat(e.ops, ops, l);
        if l >= e.labels {
            lemma_unmentioned_unplaced(e.ops, e.labels, l);
            if pending(e.stack, l) {
                let t = choose|t: int| 0 <= t < e.stack.len() && (#[trigger] e.stack[t]).end_label
                    == l;
                assert(e.stack[t].end_label < e.labels);
            }
        }
    }
}

/// A listing of one operation places the label of that operation, if it
/// is a label, once, and no other.
pub proof fn lemma_placed_one(op: Op, l: usize)
    ensures
        placed(seq![op], l) == if op == Op::Label(l) {
            1nat
        } else {
            0nat
        },
{
    reveal_with_fuel(placed, 2);
    assert(seq![op].drop_last() =~= Seq::<Op>::empty());
}

/// Two listings that mention only labels below `n` do so when put
/// together.
pub proof fn lemma_mentions_concat(a: Seq<Op>, b: Seq<Op>, n: nat)
    requires
        mentions_below(a, n),
        mentions_below(b, n),
    ensures
        mentions_below(a + b, n),
{
    assert forall|i: int| 0 <= i < (a + b).len() && mentioned(#[trigger] (a + b)[i])
        is Some implies mentioned((a + b)[i])->Some_0 < n by {
        if i < a.len() {
            assert((a + b)[i] == a[i]);
        } else {
            assert((a + b)[i] == b[i - a.len()]);
        }
    }
}

/// A listing that is free of labels mentions none.
pub proof fn lemma_label_free_mentions(ops: Seq<Op>, n: nat)
    requires
        label_free(ops),
    ensures
        mentions_below(ops, n),
{
}

/// A label that a listing does not mention is not placed in it.
pub proof fn lemma_unmentioned_unplaced(ops: Seq<Op>, n: nat, l: usize)
    requires
        mentions_below(ops, n),
        l >= n,
    ensures
        placed(ops, l) == 0,
    decreases ops.len(),
{
    if ops.len() > 0 {
        let last = ops.len() - 1;
        assert(mentioned(ops[last]) is Some ==> mentioned(ops[last])->Some_0 < n);
        assert forall|i: int| 0 <= i < ops.drop_last().len() && mentioned(
            #[trigger] ops.drop_last()[i],
        ) is Some implies mentioned(ops.drop_last()[i])->Some_0 < n by {
            assert(ops.drop_last()[i] == ops[i]);
        }
        lemma_unmentioned_unplaced(ops.drop_last(), n, l);
    }
}

/// The head of a loop keeps a listing well labelled.
pub proof fn lemma_begin_loop(e: Emitted, abi: Abi)
    requires
        well_labelled(e),
        e.begin_loop(abi) is Ok,
    ensures
        well_labelled(e.begin_loop(abi)->Ok_0),
{
    let e2 = e.begin_loop(abi)->Ok_0;
    let pair = LabelPair { begin_label: e.labels as usize, end_label: (e.labels + 1) as usize };
    let ops = jump_begin_ops(abi, pair);
    lemma_pieces_label_free(abi, arbitrary(), Role::Temp);
    let test = test_cell_ops(abi, Role::Temp);
    let tail = seq![Op::JumpIfEqual(pair.end_label), Op::Label(pair.begin_label)];
    assert forall|i: int| 0 <= i < e2.ops.len() && mentioned(#[trigger] e2.ops[i])
        is Some implies mentioned(e2.ops[i])->Some_0 < e2.labels by {
        if i < e.ops.len() {
            assert(e2.ops[i] == e.ops[i]);
        } else if i < e.ops.len() + test.len() {
            assert(e2.ops[i] == test[i - e.ops.len()]);
        } else {
            assert(e2.ops[i] == tail[i - e.ops.len() - test.len()]);
        }
    }
    assert forall|l: usize| l < e2.labels implies #[trigger] placed(e2.ops, l) == if pending(
        e2.stack,
        l,
    ) {
        0nat
    } else {
        1nat
    } by {
        lemma_placed_concat(e.ops, ops, l);
        lemma_placed_concat(test, tail, l);
        lemma_label_free_placed(test, l);
        reveal_with_fuel(placed, 3);
        assert(tail.drop_last() =~= seq![Op::JumpIfEqual(pair.end_label)]);
        assert(tail.drop_last().drop_last() =~= Seq::<Op>::empty());
        assert(placed(tail, l) == if l == pair.begin_label {
            1nat
        } else {
            0nat
        });
        if l >= e.labels {
            lemma_unmentioned_unplaced(e.ops, e.labels, l);
        }
        if l == pair.end_label {
            assert(e2.stack[e2.stack.len() - 1].end_label == l);
        } else {
            if pending(e2.stack, l) {
                let t = choose|t: int| 0 <= t < e2.stack.len() && (#[trigger] e2.stack[t]).end_label
                    == l;
                assert(e.stack[t].end_label == l);
            }
            if pending(e.stack, l) {
                let t = choose|t: int| 0 <= t < e.stack.len() && (#[trigger] e.stack[t]).end_label
                    == l;
                assert(e2.stack[t].end_label == l);
            }
        }
    }
    assert forall|t: int| 0 <= t < e2.stack.len() implies (#[trigger] e2.stack[t]).end_label
        < e2.labels && e2.stack[t].begin_label < e2.labels by {
        if t < e.stack.len() {
            assert(e.stack[t].end_label < e.labels);
        }
    }
    assert forall|t: int, u: int| 0 <= t < u < e2.stack.len() implies (
    #[trigger] e2.stack[t]).end_label != (#[trigger] e2.stack[u]).end_label by {
        assert(e.stack[t].end_label < e.labels);
        if u < e.stack.len() {
            assert(e.stack[t].end_label != e.stack[u].end_label);
        }
    }
}

/// The end of a loop keeps a listing well labelled, where the head of the
/// loop was placed before.
pub proof fn lemma_end_loop(e: Emitted, abi: Abi, index: nat)
    requires
        well_labelled(e),
        e.end_loop(abi, index) is Ok,
    ensures
        well_labelled(e.end_loop(abi, index)->Ok_0),
{
    let e2 = e.end_loop(abi, index)->Ok_0;
    let pair = e.stack.last();
    let top = e.stack.len() - 1;
    let ops = jump_end_ops(abi, pair);
    lemma_pieces_label_free(abi, arbitrary(), Role::Temp);
    let test = test_cell_ops(abi, Role::Temp);
    let tail = seq![Op::JumpIfNotEqual(pair.begin_label), Op::Label(pair.end_label)];
    assert(e.stack[top].end_label < e.labels);
    assert forall|i: int| 0 <= i < e2.ops.len() && mentioned(#[trigger] e2.ops[i])
        is Some implies mentioned(e2.ops[i])->Some_0 < e2.labels by {
        if i < e.ops.len() {
            assert(e2.ops[i] == e.ops[i]);
        } else if i < e.ops.len() + test.len() {
            assert(e2.ops[i] == test[i - e.ops.len()]);
        } else {
            assert(e2.ops[i] == tail[i - e.ops.len() - test.len()]);
        }
    }
    assert forall|l: usize| l < e2.labels implies #[trigger] placed(e2.ops, l) == if pending(
        e2.stack,
        l,
    ) {
        0nat
    } else {
        1nat
    } by {
        lemma_placed_concat(e.ops, ops, l);
        lemma_placed_concat(test, tail, l);
        lemma_label_free_placed(test, l);
        reveal_with_fuel(placed, 3);
        assert(tail.drop_last() =~= seq![Op::JumpIfNotEqual(pair.begin_label)]);
        assert(tail.drop_last().drop_last() =~= Seq::<Op>::empty());
        assert(placed(tail, l) == if l == pair.end_label {
            1nat
        } else {
            0nat
        });
        if l == pair.end_label {
            assert(pending(e.stack, l));
            if pending(e2.stack, l) {
                let t = choose|t: int| 0 <= t < e2.stack.len() && (#[trigger] e2.stack[t]).end_label
                    == l;
                assert(e.stack[t].end_label != e.stack[top].end_label);
            }
        } else {
            if pending(e2.stack, l) {
                let t = choose|t: int| 0 <= t < e2.stack.len() && (#[trigger] e2.stack[t]).end_label
                    == l;
                assert(e.stack[t].end_label == l);
            }
            if pending(e.stack, l) {
                let t = choose|t: int| 0 <= t < e.stack.len() && (#[trigger] e.stack[t]).end_label
                    == l;
                assert(e2.stack[t].end_label == l);
            }
        }
    }
    assert forall|t: int| 0 <= t < e2.stack.len() implies (#[trigger] e2.stack[t]).end_label
        < e2.labels && e2.stack[t].begin_label < e2.labels by {
        assert(e.stack[t].end_label < e.labels);
    }
    assert forall|t: int, u: int| 0 <= t < u < e2.stack.len() implies (
    #[trigger] e2.stack[t]).end_label != (#[trigger] e2.stack[u]).end_label by {
        assert(e.stack[t].end_label != e.stack[u].end_label);
    }
}

/// A well-labelled listing with no loop open is complete, and stays so
/// with operations behind it that are free of labels.
pub proof fn lemma_complete(e: Emitted, tail: Seq<Op>)
    requires
        well_labelled(e),
        e.stack.len() == 0,
        label_free(tail),
    ensures
        complete(e.ops + tail, e.labels),
{
    lemma_with_label_free(e, tail);
    let e2 = e.with(tail);
    assert forall|l: usize| l < e.labels implies #[trigger] placed(e2.ops, l) == 1 by {
        assert(!pending(e2.stack, l));
    }
}

/// The text of the error for a listing that needs more labels than there
/// are numbers.
pub open spec fn out_of_labels_text() -> Seq<char> {
    "out of labels"@
}

/// What an assembler and the stack of open loops beside it have emitted.
pub open spec fn emitted(assembler: Assembler, stack: Seq<LabelPair>) -> Emitted {
    Emitted { ops: assembler.ops@, labels: assembler.labels as nat, stack }
}

/// An addition, or a subtraction.
fn step_op(add: bool, dst: Role, src: Role, value: u32) -> (op: Op)
    ensures
        op == add_or_sub(add, dst, src, value),
{
    if add {
        Op::AddImm { dst, src, value }
    } else {
        Op::SubImm { dst, src, value }
    }
}

impl Assembler {
    /// An empty listing for an ABI.
    pub fn new(abi: Abi) -> (r: Assembler)
        ensures
            r.abi == abi,
            r.ops@ == Seq::<Op>::empty(),
            r.labels == 0,
    {
        Assembler { abi, ops: Vec::new(), labels: 0 }
    }

    /// Adds an operation to the listing.
    pub fn emit(&mut self, op: Op)
        ensures
            final(self).ops@ == old(self).ops@.push(op),
            final(self).abi == old(self).abi,
            final(self).labels == old(self).labels,
    {
        self.ops.push(op);
    }

    /// Hands out a label that no one has yet; fails with `Assembler` where
    /// the numbers have run out.
    pub fn new_dynamic_label(&mut self) -> (r: BfResult<usize>)
        ensures
            final(self).ops@ == old(self).ops@,
            final(self).abi == old(self).abi,
            r is Ok <==> old(self).labels < usize::MAX,
            r matches Ok(label) ==> label == old(self).labels && final(self).labels == label + 1,
            r matches Err(e) ==> e is Assembler && e.text() == out_of_labels_text()
                && final(self).labels == old(self).labels,
    {
        if self.labels == usize::MAX {
            Err(BfError::Assembler(String::from_str("out of labels")))
        } else {
            let label = self.labels;
            self.labels += 1;
            Ok(label)
        }
    }
}

/// Sets a register to a 64-bit immediate on aarch64, 16 bits at a time.
pub fn mov_u64(assembler: &mut Assembler, dst: Role, value: u64)
    ensures
        final(assembler).ops@ == old(assembler).ops@ + mov_u64_ops(dst, value),
        final(assembler).abi == old(assembler).abi,
        final(assembler).labels == old(assembler).labels,
{
    let part1: u16 = ((value >> 0) & 0xffff) as u16;
    let part2: u16 = ((value >> 16) & 0xffff) as u16;
    let part3: u16 = ((value >> 32) & 0xffff) as u16;
    let part4: u16 = ((value >> 48) & 0xffff) as u16;
    assembler.emit(Op::MovZ { dst, value: part1 });
    assembler.emit(Op::MovK { dst, value: part2, shift: 16 });
    assembler.emit(Op::MovK { dst, value: part3, shift: 32 });
    assembler.emit(Op::MovK { dst, value: part4, shift: 48 });
    proof {
        assert(assembler.ops@ =~= old(assembler).ops@ + mov_u64_ops(dst, value));
    }
}

/// Sets a register to an immediate of pointer width.
pub fn load_address(assembler: &mut Assembler, dst: Role, value: u64)
    ensures
        final(assembler).ops@ == old(assembler).ops@ + load_address_ops(
            old(assembler).abi,
            dst,
            value,
        ),
        final(assembler).abi == old(assembler).abi,
        final(assembler).labels == old(assembler).labels,
{
    if assembler.abi.arm() {
        mov_u64(assembler, dst, value);
    } else {
        assembler.emit(Op::MovImm { dst, value });
        proof {
            assert(assembler.ops@ =~= old(assembler).ops@ + seq![Op::MovImm { dst, value }]);
        }
    }
}

/// Sets `dst` to `src` plus or minus `value` on aarch64, in steps of no
/// more than the largest immediate.
pub fn add_sub_u64(assembler: &mut Assembler, add: bool, dst: Role, src: Role, value: u32)
    ensures
        final(assembler).ops@ == old(assembler).ops@ + add_sub_ops(add, dst, src, value),
        final(assembler).abi == old(assembler).abi,
        final(assembler).labels == old(assembler).labels,
{
    let mut left: u32 = value;
    let mut from: Role = src;
    while left > MAX_IMMEDIATE
        invariant
            assembler.abi == old(assembler).abi,
            assembler.labels == old(assembler).labels,
            old(assembler).ops@ + add_sub_ops(add, dst, src, value) == assembler.ops@
                + add_sub_ops(add, dst, from, left),
        decreases left,
    {
        let ghost before = assembler.ops@;
        assembler.emit(step_op(add, dst, from, MAX_IMMEDIATE));
        proof {
            let rest = add_sub_ops(add, dst, dst, (left - MAX_IMMEDIATE) as u32);
            assert(before + (seq![add_or_sub(add, dst, from, MAX_IMMEDIATE)] + rest)
                =~= assembler.ops@ + rest);
        }
        left -= MAX_IMMEDIATE;
        from = dst;
    }
    let ghost before = assembler.ops@;
    assembler.emit(step_op(add, dst, from, left));
    proof {
        assert(before + seq![add_or_sub(add, dst, from, left)] =~= assembler.ops@);
    }
}

/// Loads the base of the tape into the tape pointer register.
pub fn set_data_pointer_initial_value(assembler: &mut Assembler, memory: u64)
    ensures
        final(assembler).ops@ == old(assembler).ops@ + load_address_ops(
            old(assembler).abi,
            Role::TapePtr,
            memory,
        ),
        final(assembler).abi == old(assembler).abi,
        final(assembler).labels == old(assembler).labels,
{
    load_address(assembler, Role::TapePtr, memory);
}

/// Emits the entry of a compiled program.
pub fn prologue(assembler: &mut Assembler, memory: u64)
    ensures
        final(assembler).ops@ == old(assembler).ops@ + prologue_ops(old(assembler).abi, memory),
        final(assembler).abi == old(assembler).abi,
        final(assembler).labels == old(assembler).labels,
{
    let stack_offset = assembler.abi.stack_offset();
    if assembler.abi.arm() {
        assembler.emit(Op::SubSp(stack_offset));
        // The frame record: the caller's frame pointer and the return address.
        assembler.emit(Op::StorePair { first: Role::FramePtr, second: Role::Link, offset: 16 });
        assembler.emit(Op::AddFromSp { dst: Role::FramePtr, offset: 16 });
        // The tape pointer register belongs to the caller.
        assembler.emit(Op::StoreToStack { src: Role::TapePtr, offset: 8 });
    } else {
        if stack_offset > 0 {
            assembler.emit(Op::SubSp(stack_offset));
        }
        assembler.emit(Op::Push(Role::TapePtr));
    }
    set_data_pointer_initial_value(assembler, memory);
    proof {
        assert(assembler.ops@ =~= old(assembler).ops@ + prologue_ops(old(assembler).abi, memory));
    }
}

/// Emits the exit of a compiled program.
pub fn epilogue(assembler: &mut Assembler)
    ensures
        final(assembler).ops@ == old(assembler).ops@ + epilogue_ops(old(assembler).abi),
        final(assembler).abi == old(assembler).abi,
        final(assembler).labels == old(assembler).labels,
{
    let stack_offset = assembler.abi.stack_offset();
    if assembler.abi.arm() {
        assembler.emit(Op::LoadFromStack { dst: Role::TapePtr, offset: 8 });
        assembler.emit(Op::LoadPair { first: Role::FramePtr, second: Role::Link, offset: 16 });
        assembler.emit(Op::AddSp(stack_offset));
    } else {
        assembler.emit(Op::Pop(Role::TapePtr));
        if stack_offset > 0 {
            assembler.emit(Op::AddSp(stack_offset));
        }
    }
    assembler.emit(Op::Ret);
    proof {
        assert(assembler.ops@ =~= old(assembler).ops@ + epilogue_ops(old(assembler).abi));
    }
}

/// Emits the call that reads a byte into the cell.
pub fn call_read(assembler: &mut Assembler, addresses: &Addresses)
    ensures
        final(assembler).ops@ == old(assembler).ops@ + call_read_ops(
            old(assembler).abi,
            *addresses,
        ),
        final(assembler).abi == old(assembler).abi,
        final(assembler).labels == old(assembler).labels,
{
    load_address(assembler, Role::Arg1, addresses.runtime);
    load_address(assembler, Role::Temp, addresses.read);
    assembler.emit(Op::Call(Role::Temp));
    assembler.emit(Op::StoreByte { src: Role::Return, base: Role::TapePtr });
    proof {
        assert(assembler.ops@ =~= old(assembler).ops@ + call_read_ops(
            old(assembler).abi,
            *addresses,
        ));
    }
}

/// Emits the call that writes the cell.
pub fn call_write(assembler: &mut Assembler, addresses: &Addresses)
    ensures
        final(assembler).ops@ == old(assembler).ops@ + call_write_ops(
            old(assembler).abi,
            *addresses,
        ),
        final(assembler).abi == old(assembler).abi,
        final(assembler).labels == old(assembler).labels,
{
    load_address(assembler, Role::Arg1, addresses.runtime);
    if assembler.abi.arm() {
        assembler.emit(Op::LoadByte { dst: Role::Arg2, base: Role::TapePtr });
    } else {
        assembler.emit(Op::Load { dst: Role::Arg2, base: Role::TapePtr });
    }
    load_address(assembler, Role::Temp, addresses.write);
    assembler.emit(Op::Call(Role::Temp));
    proof {
        assert(assembler.ops@ =~= old(assembler).ops@ + call_write_ops(
            old(assembler).abi,
            *addresses,
        ));
    }
}

/// Emits the comparison of the cell with zero.
pub fn test_cell(assembler: &mut Assembler, temp: Role)
    ensures
        final(assembler).ops@ == old(assembler).ops@ + test_cell_ops(old(assembler).abi, temp),
        final(assembler).abi == old(assembler).abi,
        final(assembler).labels == old(assembler).labels,
{
    if assembler.abi.arm() {
        assembler.emit(Op::LoadByte { dst: temp, base: Role::TapePtr });
        assembler.emit(Op::CmpZero(temp));
    } else {
        assembler.emit(Op::CmpByteZero);
    }
    proof {
        assert(assembler.ops@ =~= old(assembler).ops@ + test_cell_ops(old(assembler).abi, temp));
    }
}

/// Emits the head of a loop: takes two fresh labels, puts the pair on the
/// stack of open loops, and emits the test that skips the loop and the
/// label to come back to. Fails with `Assembler` where the labels have run
/// out.
pub fn jump_begin(assembler: &mut Assembler, open_bracket_stack: &mut Vec<LabelPair>) -> (r:
    BfResult<()>)
    ensures
        final(assembler).abi == old(assembler).abi,
        r is Ok <==> old(assembler).labels + 2 <= usize::MAX,
        r is Ok ==> {
            let pair = LabelPair {
                begin_label: old(assembler).labels,
                end_label: (old(assembler).labels + 1) as usize,
            };
            &&& final(assembler).labels == old(assembler).labels + 2
            &&& final(open_bracket_stack)@ == old(open_bracket_stack)@.push(pair)
            &&& final(assembler).ops@ == old(assembler).ops@ + jump_begin_ops(
                old(assembler).abi,
                pair,
            )
        },
        r matches Err(e) ==> {
            &&& e is Assembler && e.text() == out_of_labels_text()
            &&& final(open_bracket_stack)@ == old(open_bracket_stack)@
            &&& final(assembler).ops@ == old(assembler).ops@
        },
{
    let begin_label = match assembler.new_dynamic_label() {
        Ok(label) => label,
        Err(e) => {
            return Err(e);
        },
    };
    let end_label = match assembler.new_dynamic_label() {
        Ok(label) => label,
        Err(e) => {
            return Err(e);
        },
    };
    open_bracket_stack.push(LabelPair { begin_label, end_label });
    test_cell(assembler, Role::Temp);
    assembler.emit(Op::JumpIfEqual(end_label));
    assembler.emit(Op::Label(begin_label));
    proof {
        let pair = LabelPair { begin_label, end_label };
        assert(assembler.ops@ =~= old(assembler).ops@ + jump_begin_ops(old(assembler).abi, pair));
    }
    Ok(())
}

/// Emits the end of a loop: takes the pair of the innermost open loop from
/// the stack and emits the test that goes back to its head and the label to
/// leave it by. Fails with `Parse` where no loop is open, naming the
/// instruction.
pub fn jump_end(
    assembler: &mut Assembler,
    open_bracket_stack: &mut Vec<LabelPair>,
    instruction_index: usize,
) -> (r: BfResult<()>)
    ensures
        final(assembler).abi == old(assembler).abi,
        final(assembler).labels == old(assembler).labels,
        r is Ok <==> old(open_bracket_stack)@.len() > 0,
        r is Ok ==> {
            &&& final(open_bracket_stack)@ == old(open_bracket_stack)@.drop_last()
            &&& final(assembler).ops@ == old(assembler).ops@ + jump_end_ops(
                old(assembler).abi,
                old(open_bracket_stack)@.last(),
            )
        },
        r matches Err(e) ==> {
            &&& e.is_parse(unmatched_close_at_pc(instruction_index as nat))
            &&& final(open_bracket_stack)@ == old(open_bracket_stack)@
            &&& final(assembler).ops@ == old(assembler).ops@
        },
{
    let pair = match open_bracket_stack.pop() {
        Some(pair) => pair,
        None => {
            let e = parse_error_at("unmatched ']' at pc=", instruction_index, "");
            proof {
                reveal_strlit("");
                let n = instruction_index as nat;
                assert(unmatched_close_at_pc(n) + ""@ =~= unmatched_close_at_pc(n));
            }
            return Err(e);
        },
    };
    test_cell(assembler, Role::Temp);
    assembler.emit(Op::JumpIfNotEqual(pair.begin_label));
    assembler.emit(Op::Label(pair.end_label));
    proof {
        assert(assembler.ops@ =~= old(assembler).ops@ + jump_end_ops(old(assembler).abi, pair));
    }
    Ok(())
}

} // verus!
