//! Tokenization: a source program is a byte sequence of which only the eight
//! command bytes count; every other byte is a comment.

use vstd::prelude::*;
use vstd::string::StringSliceAdditionalSpecFns;

verus! {

/// The eight commands of the language.
#[derive(Debug, PartialEq, Eq, Clone, Copy, Structural)]
pub enum OpCode {
    IncPtr,
    DecPtr,
    IncData,
    DecData,
    Read,
    Write,
    JumpIfZero,
    JumpIfNotZero,
}

/// `>`
pub const INC_PTR: u8 = 0x3e;

/// `<`
pub const DEC_PTR: u8 = 0x3c;

/// `+`
pub const INC_DATA: u8 = 0x2b;

/// `-`
pub const DEC_DATA: u8 = 0x2d;

/// `,`
pub const READ: u8 = 0x2c;

/// `.`
pub const WRITE: u8 = 0x2e;

/// `[`
pub const JUMP_IF_ZERO: u8 = 0x5b;

/// `]`
pub const JUMP_IF_NOT_ZERO: u8 = 0x5d;

/// The command that a source byte stands for, if it is one of the eight.
pub open spec fn opcode_of(byte: u8) -> Option<OpCode> {
    if byte == INC_PTR {
        Some(OpCode::IncPtr)
    } else if byte == DEC_PTR {
        Some(OpCode::DecPtr)
    } else if byte == INC_DATA {
        Some(OpCode::IncData)
    } else if byte == DEC_DATA {
        Some(OpCode::DecData)
    } else if byte == READ {
        Some(OpCode::Read)
    } else if byte == WRITE {
        Some(OpCode::Write)
    } else if byte == JUMP_IF_ZERO {
        Some(OpCode::JumpIfZero)
    } else if byte == JUMP_IF_NOT_ZERO {
        Some(OpCode::JumpIfNotZero)
    } else {
        None
    }
}

/// The source byte that spells a command.
pub open spec fn byte_of(op: OpCode) -> u8 {
    match op {
        OpCode::IncPtr => INC_PTR,
        OpCode::DecPtr => DEC_PTR,
        OpCode::IncData => INC_DATA,
        OpCode::DecData => DEC_DATA,
        OpCode::Read => READ,
        OpCode::Write => WRITE,
        OpCode::JumpIfZero => JUMP_IF_ZERO,
        OpCode::JumpIfNotZero => JUMP_IF_NOT_ZERO,
    }
}

/// Whether a source byte is one of the eight command bytes.
pub open spec fn is_command(byte: u8) -> bool {
    opcode_of(byte) is Some
}

/// The commands of a source, in source order.
pub open spec fn tokens(src: Seq<u8>) -> Seq<OpCode>
    decreases src.len(),
{
    if src.len() == 0 {
        Seq::empty()
    } else {
        let rest = tokens(src.drop_last());
        match opcode_of(src.last()) {
            Some(op) => rest.push(op),
            None => rest,
        }
    }
}

/// The source index of each command, in source order.
pub open spec fn positions(src: Seq<u8>) -> Seq<int>
    decreases src.len(),
{
    if src.len() == 0 {
        Seq::empty()
    } else {
        let rest = positions(src.drop_last());
        if is_command(src.last()) {
            rest.push(src.len() - 1)
        } else {
            rest
        }
    }
}

/// What the scan of a source yields: its commands and where each one stands.
pub struct Tokens {
    pub opcodes: Vec<OpCode>,
    pub positions: Vec<usize>,
}

/// Whether `scanned` is what the scan of the source `src` yields: its
/// commands, and the source index of each.
pub open spec fn scan_of(scanned: Tokens, src: Seq<u8>) -> bool {
    &&& scanned.opcodes@ == tokens(src)
    &&& scanned.positions@.len() == scanned.opcodes@.len()
    &&& forall|k: int|
        0 <= k < scanned.positions@.len() ==> scanned.positions@[k] as int == #[trigger] positions(
            src,
        )[k]
}

/// Decodes one source byte.
pub fn decode(byte: u8) -> (r: Option<OpCode>)
    ensures
        r == opcode_of(byte),
{
    if byte == INC_PTR {
        Some(OpCode::IncPtr)
    } else if byte == DEC_PTR {
        Some(OpCode::DecPtr)
    } else if byte == INC_DATA {
        Some(OpCode::IncData)
    } else if byte == DEC_DATA {
        Some(OpCode::DecData)
    } else if byte == READ {
        Some(OpCode::Read)
    } else if byte == WRITE {
        Some(OpCode::Write)
    } else if byte == JUMP_IF_ZERO {
        Some(OpCode::JumpIfZero)
    } else if byte == JUMP_IF_NOT_ZERO {
        Some(OpCode::JumpIfNotZero)
    } else {
        None
    }
}

/// Scans a source: keeps the command bytes, skips all others, and records the
/// source index of each command kept.
pub fn tokenize(source_code: &str) -> (r: Tokens)
    ensures
        scan_of(r, source_code.spec_bytes()),
        r.opcodes@ == tokens(source_code.spec_bytes()),
        r.positions@.len() == r.opcodes@.len(),
        forall|k: int|
            0 <= k < r.positions@.len() ==> r.positions@[k] as int == #[trigger] positions(
                source_code.spec_bytes(),
            )[k],
{
    let bytes = source_code.as_bytes();
    let mut opcodes: Vec<OpCode> = Vec::new();
    let mut places: Vec<usize> = Vec::new();
    let mut i: usize = 0;
    proof {
        lemma_positions_len(bytes@.take(0));
    }
    while i < bytes.len()
        invariant
            0 <= i <= bytes@.len(),
            bytes@ == source_code.spec_bytes(),
            opcodes@ == tokens(bytes@.take(i as int)),
            places@.len() == opcodes@.len(),
            places@.len() == positions(bytes@.take(i as int)).len(),
            forall|k: int|
                0 <= k < places@.len() ==> places@[k] as int == #[trigger] positions(
                    bytes@.take(i as int),
                )[k],
        decreases bytes@.len() - i,
    {
        proof {
            assert(bytes@.take(i + 1).drop_last() =~= bytes@.take(i as int));
            lemma_positions_len(bytes@.take(i + 1));
        }
        match decode(bytes[i]) {
            Some(op) => {
                opcodes.push(op);
                places.push(i);
            },
            None => {},
        }
        i += 1;
    }
    proof {
        assert(bytes@.take(i as int) =~= bytes@);
    }
    Tokens { opcodes, positions: places }
}

/// Keeps the command bytes of a source and skips all others.
pub fn translate_to_opcodes(source_code: &str) -> (r: Vec<OpCode>)
    ensures
        r@ == tokens(source_code.spec_bytes()),
{
    tokenize(source_code).opcodes
}

/// There is one position for each command.
pub proof fn lemma_positions_len(src: Seq<u8>)
    ensures
        positions(src).len() == tokens(src).len(),
    decreases src.len(),
{
    if src.len() > 0 {
        lemma_positions_len(src.drop_last());
    }
}

/// The positions are the source indices of the command bytes, in rising
/// order, and the commands are what stands there.
pub proof fn lemma_positions(src: Seq<u8>)
    ensures
        positions(src).len() == tokens(src).len(),
        forall|k: int|
            0 <= k < positions(src).len() ==> {
                let p = #[trigger] positions(src)[k];
                &&& 0 <= p < src.len()
                &&& opcode_of(src[p]) == Some(tokens(src)[k])
            },
        forall|j: int, k: int|
            0 <= j < k < positions(src).len() ==> positions(src)[j] < positions(src)[k],
        forall|p: int|
            0 <= p < src.len() && is_command(#[trigger] src[p]) ==> positions(src).contains(p),
    decreases src.len(),
{
    if src.len() > 0 {
        let front = src.drop_last();
        lemma_positions(front);
        let ps = positions(src);
        assert forall|p: int| 0 <= p < src.len() && is_command(src[p]) implies ps.contains(
            p,
        ) by {
            if p < src.len() - 1 {
                assert(front[p] == src[p]);
                assert(positions(front).contains(p));
                let k = choose|k: int| 0 <= k < positions(front).len() && positions(front)[k] == p;
                assert(ps[k] == p);
            } else {
                assert(ps[ps.len() - 1] == p);
            }
        }
    }
}

/// Tokenization only filters: the commands of a source are its bytes without
/// the comment bytes, each command byte read as its command.
pub proof fn lemma_tokens_filter(src: Seq<u8>)
    ensures
        tokens(src) == src.filter(|b: u8| is_command(b)).map_values(
            |b: u8| opcode_of(b)->Some_0,
        ),
        tokens(src).map_values(|op: OpCode| byte_of(op)) == src.filter(|b: u8| is_command(b)),
    decreases src.len(),
{
    reveal(Seq::filter);
    let keep = |b: u8| is_command(b);
    let read = |b: u8| opcode_of(b)->Some_0;
    let spell = |op: OpCode| byte_of(op);
    if src.len() > 0 {
        lemma_tokens_filter(src.drop_last());
    }
    assert(tokens(src) =~= src.filter(keep).map_values(read));
    assert(tokens(src).map_values(spell) =~= src.filter(keep));
}

/// The bytes that spell a run of commands.
pub open spec fn spell(ops: Seq<OpCode>) -> Seq<u8> {
    ops.map_values(|op: OpCode| byte_of(op))
}

/// A source made of command bytes alone is read back command for command.
pub proof fn lemma_tokens_of_commands(ops: Seq<OpCode>)
    ensures
        tokens(spell(ops)) == ops,
    decreases ops.len(),
{
    if ops.len() > 0 {
        lemma_tokens_of_commands(ops.drop_last());
        assert(spell(ops).drop_last() =~= spell(ops.drop_last()));
        assert(ops.drop_last().push(ops.last()) =~= ops);
    } else {
        assert(tokens(spell(ops)) =~= ops);
    }
}

} // verus!
