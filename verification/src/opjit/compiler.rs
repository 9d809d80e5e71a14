//! The code emitter of the optimizing JIT: walks the optimized instruction
//! stream and emits the operations of each instruction.

use vstd::prelude::*;
use vstd::string::StringExecFns;
use crate::assembly::{
    add_or_sub, add_sub_ops, add_sub_u64, call_read, call_read_ops, call_write, call_write_ops,
    complete, emitted, epilogue, epilogue_ops, fails_with, jump_begin, jump_end, label_free,
    lemma_add_sub_label_free, lemma_begin_loop, lemma_complete, lemma_end_loop,
    lemma_label_free_concat, lemma_label_free_mentions, lemma_label_free_placed,
    lemma_mentions_concat, lemma_pieces_label_free, lemma_placed_concat, lemma_placed_one,
    lemma_repeated_label_free, lemma_start_well_labelled, lemma_with_fresh,
    lemma_with_label_free, mentions_below, placed, prologue, prologue_ops, repeated, test_cell,
    test_cell_ops, well_labelled, Abi, Addresses, Assembler, Emitted, Failure, LabelPair, Op, Role,
};
use crate::brackets::{balanced, depth};
use crate::error::{narrowing_failed, parse_error, BfResult};
use crate::opjit::parser::{jdeltas, Instruction, Program};

verus! {

/// The operations that move the tape pointer by `value` cells.
pub open spec fn ptr_ops(abi: Abi, forward: bool, value: u32) -> Seq<Op> {
    if abi.is_arm() {
        add_sub_ops(forward, Role::TapePtr, Role::TapePtr, value)
    } else {
        seq![add_or_sub(forward, Role::TapePtr, Role::TapePtr, value)]
    }
}

/// The operations that raise or lower the cell `count` times: by the
/// residue of `count` modulo 256, since the cell wraps.
pub open spec fn data_ops(abi: Abi, raise: bool, count: u32) -> Seq<Op> {
    let wrapped = (count % 256) as u8;
    if abi.is_arm() {
        seq![Op::LoadByte { dst: Role::Temp, base: Role::TapePtr }] + add_sub_ops(
            raise,
            Role::Temp,
            Role::Temp,
            wrapped as u32,
        ) + seq![Op::StoreByte { src: Role::Temp, base: Role::TapePtr }]
    } else {
        seq![
            if raise {
                Op::AddByte(wrapped)
            } else {
                Op::SubByte(wrapped)
            },
        ]
    }
}

/// The operations of one scan: while the cell is not zero, the tape pointer
/// moves by `amount` cells.
pub open spec fn scan_ops(abi: Abi, forward: bool, amount: u32, pair: LabelPair) -> Seq<Op> {
    seq![Op::Label(pair.begin_label)] + test_cell_ops(abi, Role::Temp) + seq![
        Op::JumpIfEqual(pair.end_label),
    ] + ptr_ops(abi, forward, amount) + seq![Op::Jump(pair.begin_label), Op::Label(pair.end_label)]
}

/// The displacement of the cell `amount` away in a direction.
pub open spec fn displacement(forward: bool, amount: u32) -> i32 {
    if forward {
        amount as i32
    } else {
        (-(amount as int)) as i32
    }
}

/// The operations of one move of the cell: where it is not zero, it is
/// added to the cell `amount` away and cleared. On aarch64 the address of
/// that cell is put into a spare register first.
pub open spec fn move_data_ops(abi: Abi, forward: bool, amount: u32, skip: usize) -> Seq<Op> {
    if abi.is_arm() {
        test_cell_ops(abi, Role::Temp2) + seq![
            Op::JumpIfEqual(skip),
            Op::LoadByte { dst: Role::Temp, base: Role::TapePtr },
        ] + add_sub_ops(forward, Role::Temp3, Role::TapePtr, amount) + seq![
            Op::LoadByte { dst: Role::Temp2, base: Role::Temp3 },
            Op::AddReg { dst: Role::Temp2, src: Role::Temp },
            Op::StoreByte { src: Role::Temp2, base: Role::Temp3 },
            Op::StoreZero,
            Op::Label(skip),
        ]
    } else {
        seq![
            Op::CmpByteZero,
            Op::JumpIfEqual(skip),
            Op::LoadByte { dst: Role::Temp, base: Role::TapePtr },
            Op::AddByteAt { displacement: displacement(forward, amount), src: Role::Temp },
            Op::StoreZero,
            Op::Label(skip),
        ]
    }
}

/// `count` scans emitted, each with two fresh labels.
pub open spec fn scans(abi: Abi, e: Emitted, forward: bool, amount: u32, count: nat) -> Result<
    Emitted,
    Failure,
>
    decreases count,
{
    if count == 0 {
        Ok(e)
    } else if e.labels + 2 > usize::MAX {
        Err(Failure::OutOfLabels)
    } else {
        let pair = LabelPair {
            begin_label: e.labels as usize,
            end_label: (e.labels + 1) as usize,
        };
        scans(
            abi,
            Emitted {
                ops: e.ops + scan_ops(abi, forward, amount, pair),
                labels: e.labels + 2,
                stack: e.stack,
            },
            forward,
            amount,
            (count - 1) as nat,
        )
    }
}

/// `count` moves of the cell emitted, each with a fresh label. Off aarch64
/// the amount has to fit the displacement of an address.
pub open spec fn moves(abi: Abi, e: Emitted, forward: bool, amount: u32, count: nat) -> Result<
    Emitted,
    Failure,
>
    decreases count,
{
    if count == 0 {
        Ok(e)
    } else if e.labels + 1 > usize::MAX {
        Err(Failure::OutOfLabels)
    } else if !abi.is_arm() && amount > i32::MAX {
        Err(Failure::Narrowing)
    } else {
        moves(
            abi,
            Emitted {
                ops: e.ops + move_data_ops(abi, forward, amount, e.labels as usize),
                labels: e.labels + 1,
                stack: e.stack,
            },
            forward,
            amount,
            (count - 1) as nat,
        )
    }
}

/// What is emitted for the instruction at `index`.
pub open spec fn emit_one(
    abi: Abi,
    addresses: Addresses,
    e: Emitted,
    instruction: Instruction,
    index: nat,
) -> Result<Emitted, Failure> {
    match instruction {
        Instruction::IncPtr { count } => Ok(e.with(ptr_ops(abi, true, count))),
        Instruction::DecPtr { count } => Ok(e.with(ptr_ops(abi, false, count))),
        Instruction::IncData { count } => Ok(e.with(data_ops(abi, true, count))),
        Instruction::DecData { count } => Ok(e.with(data_ops(abi, false, count))),
        Instruction::Read { count } => Ok(
            e.with(repeated(call_read_ops(abi, addresses), count as nat)),
        ),
        Instruction::Write { count } => Ok(
            e.with(repeated(call_write_ops(abi, addresses), count as nat)),
        ),
        Instruction::JumpBegin => e.begin_loop(abi),
        Instruction::JumpEnd => e.end_loop(abi, index),
        Instruction::SetDataToZero => Ok(e.with(seq![Op::StoreZero])),
        Instruction::MovePtrUntilZero { count, forward, amount } => scans(
            abi,
            e,
            forward,
            amount,
            count as nat,
        ),
        Instruction::MoveData { count, forward, amount } => moves(
            abi,
            e,
            forward,
            amount,
            count as nat,
        ),
    }
}

/// What is emitted for the first `n` instructions, behind `start`.
pub open spec fn emit_upto(
    abi: Abi,
    addresses: Addresses,
    start: Emitted,
    ins: Seq<Instruction>,
    n: nat,
) -> Result<Emitted, Failure>
    decreases n,
{
    if n == 0 || n > ins.len() {
        Ok(start)
    } else {
        match emit_upto(abi, addresses, start, ins, (n - 1) as nat) {
            Ok(e) => emit_one(abi, addresses, e, ins[n - 1], (n - 1) as nat),
            Err(f) => Err(f),
        }
    }
}

/// The listing of a program: the entry, the operations of every
/// instruction, and the exit; or why there is none.
pub open spec fn compile_spec(abi: Abi, addresses: Addresses, ins: Seq<Instruction>) -> Result<
    Seq<Op>,
    Failure,
> {
    let start = Emitted {
        ops: prologue_ops(abi, addresses.memory),
        labels: 0,
        stack: Seq::empty(),
    };
    match emit_upto(abi, addresses, start, ins, ins.len()) {
        Ok(e) => if e.stack.len() > 0 {
            Err(Failure::UnmatchedOpen)
        } else {
            Ok(e.ops + epilogue_ops(abi))
        },
        Err(f) => Err(f),
    }
}

/// How many labels the listing of a program has.
pub open spec fn labels_spec(abi: Abi, addresses: Addresses, ins: Seq<Instruction>) -> nat {
    let start = Emitted {
        ops: prologue_ops(abi, addresses.memory),
        labels: 0,
        stack: Seq::empty(),
    };
    match emit_upto(abi, addresses, start, ins, ins.len()) {
        Ok(e) => e.labels,
        Err(f) => 0,
    }
}

/// The operations that move the tape pointer, and those that change the
/// cell, are free of labels.
pub proof fn lemma_steps_label_free(abi: Abi, forward: bool, value: u32)
    ensures
        label_free(ptr_ops(abi, forward, value)),
        label_free(data_ops(abi, forward, value)),
{
    lemma_add_sub_label_free(forward, Role::TapePtr, Role::TapePtr, value);
    let wrapped = (value % 256) as u8;
    lemma_add_sub_label_free(forward, Role::Temp, Role::Temp, wrapped as u32);
    if abi.is_arm() {
        let load = seq![Op::LoadByte { dst: Role::Temp, base: Role::TapePtr }];
        let store = seq![Op::StoreByte { src: Role::Temp, base: Role::TapePtr }];
        let chain = add_sub_ops(forward, Role::Temp, Role::Temp, wrapped as u32);
        lemma_label_free_concat(load, chain);
        lemma_label_free_concat(load + chain, store);
    }
}

/// One scan places its two labels, each once, and mentions no other.
pub proof fn lemma_scan_labels(abi: Abi, forward: bool, amount: u32, pair: LabelPair, n: nat)
    requires
        pair.begin_label < n,
        pair.end_label < n,
        pair.begin_label != pair.end_label,
    ensures
        mentions_below(scan_ops(abi, forward, amount, pair), n),
        forall|l: usize|
            #[trigger] placed(scan_ops(abi, forward, amount, pair), l) == if l == pair.begin_label
                || l == pair.end_label {
                1nat
            } else {
                0nat
            },
{
    let a = seq![Op::Label(pair.begin_label)];
    let b = test_cell_ops(abi, Role::Temp);
    let c = seq![Op::JumpIfEqual(pair.end_label)];
    let d = ptr_ops(abi, forward, amount);
    let e = seq![Op::Jump(pair.begin_label)];
    let f = seq![Op::Label(pair.end_label)];
    let ops = scan_ops(abi, forward, amount, pair);
    assert(ops =~= a + b + c + d + e + f);
    lemma_pieces_label_free(abi, arbitrary(), Role::Temp);
    lemma_steps_label_free(abi, forward, amount);
    lemma_label_free_mentions(b, n);
    lemma_label_free_mentions(d, n);
    lemma_mentions_concat(a, b, n);
    lemma_mentions_concat(a + b, c, n);
    lemma_mentions_concat(a + b + c, d, n);
    lemma_mentions_concat(a + b + c + d, e, n);
    lemma_mentions_concat(a + b + c + d + e, f, n);
    assert forall|l: usize| #[trigger]
        placed(ops, l) == if l == pair.begin_label || l == pair.end_label {
            1nat
        } else {
            0nat
        } by {
        lemma_placed_concat(a + b + c + d + e, f, l);
        lemma_placed_concat(a + b + c + d, e, l);
        lemma_placed_concat(a + b + c, d, l);
        lemma_placed_concat(a + b, c, l);
        lemma_placed_concat(a, b, l);
        lemma_placed_one(Op::Label(pair.begin_label), l);
        lemma_placed_one(Op::JumpIfEqual(pair.end_label), l);
        lemma_placed_one(Op::Jump(pair.begin_label), l);
        lemma_placed_one(Op::Label(pair.end_label), l);
        lemma_label_free_placed(b, l);
        lemma_label_free_placed(d, l);
    }
}

/// One move of the cell places its label once, and mentions no other.
pub proof fn lemma_move_labels(abi: Abi, forward: bool, amount: u32, skip: usize, n: nat)
    requires
        skip < n,
    ensures
        mentions_below(move_data_ops(abi, forward, amount, skip), n),
        forall|l: usize|
            #[trigger] placed(move_data_ops(abi, forward, amount, skip), l) == if l == skip {
                1nat
            } else {
                0nat
            },
{
    let ops = move_data_ops(abi, forward, amount, skip);
    let jump = seq![Op::JumpIfEqual(skip)];
    let label = seq![Op::Label(skip)];
    if abi.is_arm() {
        let a = test_cell_ops(abi, Role::Temp2);
        let b = seq![Op::LoadByte { dst: Role::Temp, base: Role::TapePtr }];
        let c = add_sub_ops(forward, Role::Temp3, Role::TapePtr, amount);
        let d = seq![
            Op::LoadByte { dst: Role::Temp2, base: Role::Temp3 },
            Op::AddReg { dst: Role::Temp2, src: Role::Temp },
            Op::StoreByte { src: Role::Temp2, base: Role::Temp3 },
            Op::StoreZero,
        ];
        assert(ops =~= a + jump + b + c + d + label);
        lemma_pieces_label_free(abi, arbitrary(), Role::Temp2);
        lemma_add_sub_label_free(forward, Role::Temp3, Role::TapePtr, amount);
        lemma_label_free_mentions(a, n);
        lemma_label_free_mentions(b, n);
        lemma_label_free_mentions(c, n);
        lemma_label_free_mentions(d, n);
        lemma_mentions_concat(a, jump, n);
        lemma_mentions_concat(a + jump, b, n);
        lemma_mentions_concat(a + jump + b, c, n);
        lemma_mentions_concat(a + jump + b + c, d, n);
        lemma_mentions_concat(a + jump + b + c + d, label, n);
        assert forall|l: usize| #[trigger]
            placed(ops, l) == if l == skip {
                1nat
            } else {
                0nat
            } by {
            lemma_placed_concat(a + jump + b + c + d, label, l);
            lemma_placed_concat(a + jump + b + c, d, l);
            lemma_placed_concat(a + jump + b, c, l);
            lemma_placed_concat(a + jump, b, l);
            lemma_placed_concat(a, jump, l);
            lemma_placed_one(Op::JumpIfEqual(skip), l);
            lemma_placed_one(Op::Label(skip), l);
            lemma_label_free_placed(a, l);
            lemma_label_free_placed(b, l);
            lemma_label_free_placed(c, l);
            lemma_label_free_placed(d, l);
        }
    } else {
        let a = seq![Op::CmpByteZero];
        let b = seq![
            Op::LoadByte { dst: Role::Temp, base: Role::TapePtr },
            Op::AddByteAt { displacement: displacement(forward, amount), src: Role::Temp },
            Op::StoreZero,
        ];
        assert(ops =~= a + jump + b + label);
        lemma_label_free_mentions(a, n);
        lemma_label_free_mentions(b, n);
        lemma_mentions_concat(a, jump, n);
        lemma_mentions_concat(a + jump, b, n);
        lemma_mentions_concat(a + jump + b, label, n);
        assert forall|l: usize| #[trigger]
            placed(ops, l) == if l == skip {
                1nat
            } else {
                0nat
            } by {
            lemma_placed_concat(a + jump + b, label, l);
            lemma_placed_concat(a + jump, b, l);
            lemma_placed_concat(a, jump, l);
            lemma_placed_one(Op::JumpIfEqual(skip), l);
            lemma_placed_one(Op::Label(skip), l);
            lemma_label_free_placed(a, l);
            lemma_label_free_placed(b, l);
        }
    }
}

/// Scans keep a listing well labelled and leave the open loops alone, and
/// nothing but a lack of labels makes them fail.
pub proof fn lemma_scans(abi: Abi, e: Emitted, forward: bool, amount: u32, count: nat)
    requires
        well_labelled(e),
    ensures
        match scans(abi, e, forward, amount, count) {
            Ok(e2) => well_labelled(e2) && e2.stack == e.stack,
            Err(f) => f == Failure::OutOfLabels,
        },
    decreases count,
{
    if count > 0 && e.labels + 2 <= usize::MAX {
        let pair = LabelPair {
            begin_label: e.labels as usize,
            end_label: (e.labels + 1) as usize,
        };
        let ops = scan_ops(abi, forward, amount, pair);
        lemma_scan_labels(abi, forward, amount, pair, e.labels + 2);
        lemma_with_fresh(e, ops, 2);
        lemma_scans(
            abi,
            Emitted { ops: e.ops + ops, labels: e.labels + 2, stack: e.stack },
            forward,
            amount,
            (count - 1) as nat,
        );
    }
}

/// Moves of the cell keep a listing well labelled and leave the open loops
/// alone, and nothing but a lack of labels or an amount that is too large
/// makes them fail.
pub proof fn lemma_moves(abi: Abi, e: Emitted, forward: bool, amount: u32, count: nat)
    requires
        well_labelled(e),
    ensures
        match moves(abi, e, forward, amount, count) {
            Ok(e2) => well_labelled(e2) && e2.stack == e.stack,
            Err(f) => f == Failure::OutOfLabels || f == Failure::Narrowing,
        },
    decreases count,
{
    if count > 0 && e.labels + 1 <= usize::MAX && !(!abi.is_arm() && amount > i32::MAX) {
        let ops = move_data_ops(abi, forward, amount, e.labels as usize);
        lemma_move_labels(abi, forward, amount, e.labels as usize, e.labels + 1);
        lemma_with_fresh(e, ops, 1);
        lemma_moves(
            abi,
            Emitted { ops: e.ops + ops, labels: e.labels + 1, stack: e.stack },
            forward,
            amount,
            (count - 1) as nat,
        );
    }
}

/// What one instruction does to a well-labelled listing: it stays well
/// labelled, and the number of open loops follows the instruction. Only the
/// end of a loop that is not open, a lack of labels and an amount that is
/// too large make an instruction fail.
pub proof fn lemma_emit_one(
    abi: Abi,
    addresses: Addresses,
    e: Emitted,
    instruction: Instruction,
    index: nat,
)
    requires
        well_labelled(e),
    ensures
        match emit_one(abi, addresses, e, instruction, index) {
            Ok(e2) => well_labelled(e2) && e2.stack.len() == e.stack.len() + instruction.delta(),
            Err(f) => f == Failure::OutOfLabels || f == Failure::Narrowing || (f
                == Failure::UnmatchedClose(index) && instruction == Instruction::JumpEnd
                && e.stack.len() == 0),
        },
{
    lemma_pieces_label_free(abi, addresses, Role::Temp);
    match instruction {
        Instruction::IncPtr { count } => {
            lemma_steps_label_free(abi, true, count);
            lemma_with_label_free(e, ptr_ops(abi, true, count));
        },
        Instruction::DecPtr { count } => {
            lemma_steps_label_free(abi, false, count);
            lemma_with_label_free(e, ptr_ops(abi, false, count));
        },
        Instruction::IncData { count } => {
            lemma_steps_label_free(abi, true, count);
            lemma_with_label_free(e, data_ops(abi, true, count));
        },
        Instruction::DecData { count } => {
            lemma_steps_label_free(abi, false, count);
            lemma_with_label_free(e, data_ops(abi, false, count));
        },
        Instruction::Read { count } => {
            lemma_repeated_label_free(call_read_ops(abi, addresses), count as nat);
            lemma_with_label_free(e, repeated(call_read_ops(abi, addresses), count as nat));
        },
        Instruction::Write { count } => {
            lemma_repeated_label_free(call_write_ops(abi, addresses), count as nat);
            lemma_with_label_free(e, repeated(call_write_ops(abi, addresses), count as nat));
        },
        Instruction::JumpBegin => {
            if e.begin_loop(abi) is Ok {
                lemma_begin_loop(e, abi);
            }
        },
        Instruction::JumpEnd => {
            if e.end_loop(abi, index) is Ok {
                lemma_end_loop(e, abi, index);
            }
        },
        Instruction::SetDataToZero => {
            lemma_with_label_free(e, seq![Op::StoreZero]);
        },
        Instruction::MovePtrUntilZero { count, forward, amount } => {
            lemma_scans(abi, e, forward, amount, count as nat);
        },
        Instruction::MoveData { count, forward, amount } => {
            lemma_moves(abi, e, forward, amount, count as nat);
        },
    }
}

/// Every label that has been handed out while the first `n` instructions
/// were emitted has been placed exactly once, but for the ends of the loops
/// that are still open.
pub proof fn lemma_emit_well_labelled(
    abi: Abi,
    addresses: Addresses,
    start: Emitted,
    ins: Seq<Instruction>,
    n: nat,
)
    requires
        well_labelled(start),
        n <= ins.len(),
    ensures
        emit_upto(abi, addresses, start, ins, n) matches Ok(e) ==> well_labelled(e),
    decreases n,
{
    if n > 0 {
        lemma_emit_well_labelled(abi, addresses, start, ins, (n - 1) as nat);
        match emit_upto(abi, addresses, start, ins, (n - 1) as nat) {
            Ok(e) => {
                lemma_emit_one(abi, addresses, e, ins[n - 1], (n - 1) as nat);
            },
            Err(f) => {},
        }
    }
}

/// The listing of a program places every label that it jumps to, and each
/// of its labels exactly once.
pub proof fn lemma_listing_complete(abi: Abi, addresses: Addresses, ins: Seq<Instruction>)
    ensures
        compile_spec(abi, addresses, ins) matches Ok(ops) ==> complete(
            ops,
            labels_spec(abi, addresses, ins),
        ),
{
    let start = Emitted {
        ops: prologue_ops(abi, addresses.memory),
        labels: 0,
        stack: Seq::empty(),
    };
    lemma_pieces_label_free(abi, addresses, Role::Temp);
    lemma_start_well_labelled(start.ops);
    lemma_emit_well_labelled(abi, addresses, start, ins, ins.len());
    match emit_upto(abi, addresses, start, ins, ins.len()) {
        Ok(e) => {
            if e.stack.len() == 0 {
                lemma_complete(e, epilogue_ops(abi));
            }
        },
        Err(f) => {},
    }
}

/// While the stream nests, as many loops are open in the listing as in the
/// stream, and only a lack of labels and an amount that is too large make
/// an instruction fail.
pub proof fn lemma_emit_follows_nesting(
    abi: Abi,
    addresses: Addresses,
    start: Emitted,
    ins: Seq<Instruction>,
    n: nat,
)
    requires
        n <= ins.len(),
        well_labelled(start),
        start.stack.len() == 0,
        forall|k: int| 0 <= k <= n ==> #[trigger] depth(jdeltas(ins), k) >= 0,
    ensures
        match emit_upto(abi, addresses, start, ins, n) {
            Ok(e) => well_labelled(e) && e.stack.len() == depth(jdeltas(ins), n as int),
            Err(f) => f == Failure::OutOfLabels || f == Failure::Narrowing,
        },
    decreases n,
{
    if n > 0 {
        let d = jdeltas(ins);
        lemma_emit_follows_nesting(abi, addresses, start, ins, (n - 1) as nat);
        assert(depth(d, n as int) == depth(d, n - 1) + d[n - 1]);
        assert(depth(d, n as int) >= 0);
        match emit_upto(abi, addresses, start, ins, (n - 1) as nat) {
            Ok(e) => {
                lemma_emit_one(abi, addresses, e, ins[n - 1], (n - 1) as nat);
            },
            Err(f) => {},
        }
    }
}

/// A stream in which every `JumpBegin` has its `JumpEnd` has a listing,
/// unless the labels run out or an amount is too large for a displacement.
pub proof fn lemma_balanced_compiles(abi: Abi, addresses: Addresses, ins: Seq<Instruction>)
    requires
        balanced(jdeltas(ins)),
    ensures
        compile_spec(abi, addresses, ins) matches Err(f) ==> f == Failure::OutOfLabels || f
            == Failure::Narrowing,
{
    let start = Emitted {
        ops: prologue_ops(abi, addresses.memory),
        labels: 0,
        stack: Seq::empty(),
    };
    lemma_pieces_label_free(abi, addresses, Role::Temp);
    lemma_start_well_labelled(start.ops);
    lemma_emit_follows_nesting(abi, addresses, start, ins, ins.len());
}

/// Emits the move of the tape pointer by `value` cells.
fn emit_ptr(assembler: &mut Assembler, forward: bool, value: u32)
    ensures
        final(assembler).ops@ == old(assembler).ops@ + ptr_ops(old(assembler).abi, forward, value),
        final(assembler).abi == old(assembler).abi,
        final(assembler).labels == old(assembler).labels,
{
    if assembler.abi.arm() {
        add_sub_u64(assembler, forward, Role::TapePtr, Role::TapePtr, value);
    } else {
        let op = if forward {
            Op::AddImm { dst: Role::TapePtr, src: Role::TapePtr, value }
        } else {
            Op::SubImm { dst: Role::TapePtr, src: Role::TapePtr, value }
        };
        assembler.emit(op);
        proof {
            assert(assembler.ops@ =~= old(assembler).ops@ + ptr_ops(
                old(assembler).abi,
                forward,
                value,
            ));
        }
    }
}

/// Emits the change of the cell by `count`, reduced modulo 256.
fn emit_data(assembler: &mut Assembler, raise: bool, count: u32)
    ensures
        final(assembler).ops@ == old(assembler).ops@ + data_ops(old(assembler).abi, raise, count),
        final(assembler).abi == old(assembler).abi,
        final(assembler).labels == old(assembler).labels,
{
    // A change by 256 changes nothing, so only the residue is emitted.
    let wrapped_count: u8 = (count % 256) as u8;
    if assembler.abi.arm() {
        assembler.emit(Op::LoadByte { dst: Role::Temp, base: Role::TapePtr });
        add_sub_u64(assembler, raise, Role::Temp, Role::Temp, wrapped_count as u32);
        assembler.emit(Op::StoreByte { src: Role::Temp, base: Role::TapePtr });
    } else if raise {
        assembler.emit(Op::AddByte(wrapped_count));
    } else {
        assembler.emit(Op::SubByte(wrapped_count));
    }
    proof {
        assert(assembler.ops@ =~= old(assembler).ops@ + data_ops(
            old(assembler).abi,
            raise,
            count,
        ));
    }
}

/// Emits `count` scans.
fn emit_scans(assembler: &mut Assembler, stack: &Vec<LabelPair>, count: u32, forward: bool, amount: u32) -> (r:
    BfResult<()>)
    ensures
        final(assembler).abi == old(assembler).abi,
        match scans(
            old(assembler).abi,
            emitted(*old(assembler), stack@),
            forward,
            amount,
            count as nat,
        ) {
            Ok(e) => r is Ok && emitted(*final(assembler), stack@) == e,
            Err(f) => r is Err && fails_with(r->Err_0, f),
        },
{
    let ghost abi = assembler.abi;
    let ghost goal = scans(abi, emitted(*assembler, stack@), forward, amount, count as nat);
    let mut i: u32 = 0;
    while i < count
        invariant
            0 <= i <= count,
            assembler.abi == abi,
            abi == old(assembler).abi,
            goal == scans(
                old(assembler).abi,
                emitted(*old(assembler), stack@),
                forward,
                amount,
                count as nat,
            ),
            goal == scans(abi, emitted(*assembler, stack@), forward, amount, (count - i) as nat),
        decreases count - i,
    {
        let ghost before = emitted(*assembler, stack@);
        let begin_loop = match assembler.new_dynamic_label() {
            Ok(label) => label,
            Err(e) => {
                proof {
                    assert(goal == Err::<Emitted, Failure>(Failure::OutOfLabels));
                }
                return Err(e);
            },
        };
        let end_loop = match assembler.new_dynamic_label() {
            Ok(label) => label,
            Err(e) => {
                proof {
                    assert(before.labels + 2 > usize::MAX);
                    assert(goal == Err::<Emitted, Failure>(Failure::OutOfLabels));
                }
                return Err(e);
            },
        };
        assembler.emit(Op::Label(begin_loop));
        test_cell(assembler, Role::Temp);
        assembler.emit(Op::JumpIfEqual(end_loop));
        emit_ptr(assembler, forward, amount);
        assembler.emit(Op::Jump(begin_loop));
        assembler.emit(Op::Label(end_loop));
        proof {
            let pair = LabelPair { begin_label: begin_loop, end_label: end_loop };
            assert(assembler.ops@ =~= before.ops + scan_ops(abi, forward, amount, pair));
        }
        i += 1;
    }
    Ok(())
}

/// Emits `count` moves of the cell.
fn emit_moves(assembler: &mut Assembler, stack: &Vec<LabelPair>, count: u32, forward: bool, amount: u32) -> (r:
    BfResult<()>)
    ensures
        final(assembler).abi == old(assembler).abi,
        match moves(
            old(assembler).abi,
            emitted(*old(assembler), stack@),
            forward,
            amount,
            count as nat,
        ) {
            Ok(e) => r is Ok && emitted(*final(assembler), stack@) == e,
            Err(f) => r is Err && fails_with(r->Err_0, f),
        },
{
    let ghost abi = assembler.abi;
    let ghost goal = moves(abi, emitted(*assembler, stack@), forward, amount, count as nat);
    let mut i: u32 = 0;
    while i < count
        invariant
            0 <= i <= count,
            assembler.abi == abi,
            abi == old(assembler).abi,
            goal == moves(
                old(assembler).abi,
                emitted(*old(assembler), stack@),
                forward,
                amount,
                count as nat,
            ),
            goal == moves(abi, emitted(*assembler, stack@), forward, amount, (count - i) as nat),
        decreases count - i,
    {
        let ghost before = emitted(*assembler, stack@);
        let skip_move = match assembler.new_dynamic_label() {
            Ok(label) => label,
            Err(e) => {
                proof {
                    assert(goal == Err::<Emitted, Failure>(Failure::OutOfLabels));
                }
                return Err(e);
            },
        };
        if assembler.abi.arm() {
            test_cell(assembler, Role::Temp2);
            assembler.emit(Op::JumpIfEqual(skip_move));
            assembler.emit(Op::LoadByte { dst: Role::Temp, base: Role::TapePtr });
            // The offset of a single load is too narrow: the address of the
            // other cell goes into a register of its own.
            add_sub_u64(assembler, forward, Role::Temp3, Role::TapePtr, amount);
            assembler.emit(Op::LoadByte { dst: Role::Temp2, base: Role::Temp3 });
            assembler.emit(Op::AddReg { dst: Role::Temp2, src: Role::Temp });
            assembler.emit(Op::StoreByte { src: Role::Temp2, base: Role::Temp3 });
        } else {
            if amount > 0x7fff_ffff {
                proof {
                    assert(goal == Err::<Emitted, Failure>(Failure::Narrowing));
                }
                return Err(narrowing_failed());
            }
            let amount_i32: i32 = amount as i32;
            let displacement: i32 = if forward {
                amount_i32
            } else {
                -amount_i32
            };
            assembler.emit(Op::CmpByteZero);
            assembler.emit(Op::JumpIfEqual(skip_move));
            assembler.emit(Op::LoadByte { dst: Role::Temp, base: Role::TapePtr });
            assembler.emit(Op::AddByteAt { displacement, src: Role::Temp });
        }
        assembler.emit(Op::StoreZero);
        assembler.emit(Op::Label(skip_move));
        proof {
            assert(assembler.ops@ =~= before.ops + move_data_ops(abi, forward, amount, skip_move));
        }
        i += 1;
    }
    Ok(())
}

/// Emits the operations of the instruction at `index`.
pub fn emit_instruction(
    assembler: &mut Assembler,
    open_bracket_stack: &mut Vec<LabelPair>,
    addresses: &Addresses,
    instruction: Instruction,
    index: usize,
) -> (r: BfResult<()>)
    ensures
        final(assembler).abi == old(assembler).abi,
        match emit_one(
            old(assembler).abi,
            *addresses,
            emitted(*old(assembler), old(open_bracket_stack)@),
            instruction,
            index as nat,
        ) {
            Ok(e) => r is Ok && emitted(*final(assembler), final(open_bracket_stack)@) == e,
            Err(f) => r is Err && fails_with(r->Err_0, f),
        },
{
    let ghost abi = assembler.abi;
    match instruction {
        Instruction::IncPtr { count } => {
            emit_ptr(assembler, true, count);
            Ok(())
        },
        Instruction::DecPtr { count } => {
            emit_ptr(assembler, false, count);
            Ok(())
        },
        Instruction::IncData { count } => {
            emit_data(assembler, true, count);
            Ok(())
        },
        Instruction::DecData { count } => {
            emit_data(assembler, false, count);
            Ok(())
        },
        Instruction::Read { count } => {
            let mut i: u32 = 0;
            while i < count
                invariant
                    0 <= i <= count,
                    assembler.abi == abi,
                    assembler.labels == old(assembler).labels,
                    assembler.ops@ == old(assembler).ops@ + repeated(
                        call_read_ops(abi, *addresses),
                        i as nat,
                    ),
                decreases count - i,
            {
                let ghost before = assembler.ops@;
                call_read(assembler, addresses);
                proof {
                    let unit = call_read_ops(abi, *addresses);
                    assert(before + unit =~= old(assembler).ops@ + repeated(
                        unit,
                        (i + 1) as nat,
                    ));
                }
                i += 1;
            }
            Ok(())
        },
        Instruction::Write { count } => {
            let mut i: u32 = 0;
            while i < count
                invariant
                    0 <= i <= count,
                    assembler.abi == abi,
                    assembler.labels == old(assembler).labels,
                    assembler.ops@ == old(assembler).ops@ + repeated(
                        call_write_ops(abi, *addresses),
                        i as nat,
                    ),
                decreases count - i,
            {
                let ghost before = assembler.ops@;
                call_write(assembler, addresses);
                proof {
                    let unit = call_write_ops(abi, *addresses);
                    assert(before + unit =~= old(assembler).ops@ + repeated(
                        unit,
                        (i + 1) as nat,
                    ));
                }
                i += 1;
            }
            Ok(())
        },
        Instruction::JumpBegin => jump_begin(assembler, open_bracket_stack),
        Instruction::JumpEnd => jump_end(assembler, open_bracket_stack, index),
        Instruction::SetDataToZero => {
            assembler.emit(Op::StoreZero);
            proof {
                assert(assembler.ops@ =~= old(assembler).ops@ + seq![Op::StoreZero]);
            }
            Ok(())
        },
        Instruction::MovePtrUntilZero { count, forward, amount } => emit_scans(
            assembler,
            open_bracket_stack,
            count,
            forward,
            amount,
        ),
        Instruction::MoveData { count, forward, amount } => emit_moves(
            assembler,
            open_bracket_stack,
            count,
            forward,
            amount,
        ),
    }
}

/// Compiles a program to a listing for an ABI, with the addresses of the
/// tape, of the runtime and of its two callbacks written into the code.
///
/// Fails with `Parse` where the instruction stream closes a loop that is not
/// open or ends inside one, with `Numeric` where an amount does not fit a
/// displacement, and with `Assembler` where the labels run out.
pub fn compile(program: Program, abi: Abi, addresses: &Addresses) -> (r: BfResult<Assembler>)
    ensures
        match compile_spec(abi, *addresses, program.instructions@) {
            Ok(ops) => r is Ok && r->Ok_0.ops@ == ops && r->Ok_0.abi == abi,
            Err(f) => r is Err && fails_with(r->Err_0, f),
        },
        r matches Ok(listing) ==> listing.labels == labels_spec(
            abi,
            *addresses,
            program.instructions@,
        ) && complete(listing.ops@, listing.labels as nat),
{
    let mut assembler = Assembler::new(abi);
    prologue(&mut assembler, addresses.memory);
    let mut open_bracket_stack: Vec<LabelPair> = Vec::new();
    let ghost start = emitted(assembler, open_bracket_stack@);
    let ghost ins = program.instructions@;
    proof {
        assert(start.ops =~= prologue_ops(abi, addresses.memory));
        assert(start.stack =~= Seq::<LabelPair>::empty());
        assert(start == Emitted {
            ops: prologue_ops(abi, addresses.memory),
            labels: 0,
            stack: Seq::empty(),
        });
    }
    let len = program.instructions.len();
    let mut i: usize = 0;
    while i < len
        invariant
            0 <= i <= len,
            len == ins.len(),
            ins == program.instructions@,
            assembler.abi == abi,
            start == (Emitted {
                ops: prologue_ops(abi, addresses.memory),
                labels: 0,
                stack: Seq::empty(),
            }),
            emit_upto(abi, *addresses, start, ins, i as nat) == Ok::<Emitted, Failure>(
                emitted(assembler, open_bracket_stack@),
            ),
        decreases len - i,
    {
        let ghost before = emitted(assembler, open_bracket_stack@);
        match emit_instruction(
            &mut assembler,
            &mut open_bracket_stack,
            addresses,
            program.instructions[i],
            i,
        ) {
            Ok(()) => {},
            Err(e) => {
                proof {
                    let next = emit_upto(abi, *addresses, start, ins, (i + 1) as nat);
                    assert(next == emit_one(abi, *addresses, before, ins[i as int], i as nat));
                    lemma_failure_stays(abi, *addresses, start, ins, (i + 1) as nat, len as nat);
                }
                return Err(e);
            },
        }
        i += 1;
    }
    if open_bracket_stack.len() != 0 {
        return Err(parse_error("unmatched '['"));
    }
    proof {
        lemma_pieces_label_free(abi, *addresses, Role::Temp);
        lemma_start_well_labelled(start.ops);
        lemma_emit_well_labelled(abi, *addresses, start, ins, len as nat);
        lemma_complete(emitted(assembler, open_bracket_stack@), epilogue_ops(abi));
    }
    epilogue(&mut assembler);
    Ok(assembler)
}

/// Once an instruction has failed, the program has.
pub proof fn lemma_failure_stays(
    abi: Abi,
    addresses: Addresses,
    start: Emitted,
    ins: Seq<Instruction>,
    n: nat,
    m: nat,
)
    requires
        n <= m <= ins.len(),
        emit_upto(abi, addresses, start, ins, n) is Err,
    ensures
        emit_upto(abi, addresses, start, ins, m) == emit_upto(abi, addresses, start, ins, n),
    decreases m,
{
    if m > n {
        lemma_failure_stays(abi, addresses, start, ins, n, (m - 1) as nat);
    }
}

} // verus!
