//! The simple parser: source bytes to a flat list of commands.

use vstd::prelude::*;
use vstd::string::StringSliceAdditionalSpecFns;
use crate::source::{tokenize, tokens, OpCode};

verus! {

#[derive(Debug, PartialEq, Eq, Clone, Copy, Structural)]
pub enum Instruction {
    IncPtr,
    DecPtr,
    IncData,
    DecData,
    Write,
    Read,
    JumpIfZero,
    JumpIfNotZero,
}

#[derive(Debug, PartialEq, Eq)]
pub struct Program {
    pub instructions: Vec<Instruction>,
}

impl Instruction {
    /// The command that the instruction carries out.
    pub open spec fn opcode(self) -> OpCode {
        match self {
            Instruction::IncPtr => OpCode::IncPtr,
            Instruction::DecPtr => OpCode::DecPtr,
            Instruction::IncData => OpCode::IncData,
            Instruction::DecData => OpCode::DecData,
            Instruction::Write => OpCode::Write,
            Instruction::Read => OpCode::Read,
            Instruction::JumpIfZero => OpCode::JumpIfZero,
            Instruction::JumpIfNotZero => OpCode::JumpIfNotZero,
        }
    }

    /// The instruction that carries out a command.
    pub open spec fn of(op: OpCode) -> Instruction {
        match op {
            OpCode::IncPtr => Instruction::IncPtr,
            OpCode::DecPtr => Instruction::DecPtr,
            OpCode::IncData => Instruction::IncData,
            OpCode::DecData => Instruction::DecData,
            OpCode::Write => Instruction::Write,
            OpCode::Read => Instruction::Read,
            OpCode::JumpIfZero => Instruction::JumpIfZero,
            OpCode::JumpIfNotZero => Instruction::JumpIfNotZero,
        }
    }

    /// The instruction that carries out a command.
    pub fn from_opcode(op: OpCode) -> (i: Instruction)
        ensures
            i == Instruction::of(op),
            i.opcode() == op,
    {
        match op {
            OpCode::IncPtr => Instruction::IncPtr,
            OpCode::DecPtr => Instruction::DecPtr,
            OpCode::IncData => Instruction::IncData,
            OpCode::DecData => Instruction::DecData,
            OpCode::Write => Instruction::Write,
            OpCode::Read => Instruction::Read,
            OpCode::JumpIfZero => Instruction::JumpIfZero,
            OpCode::JumpIfNotZero => Instruction::JumpIfNotZero,
        }
    }
}

/// The commands that a list of instructions carries out.
pub open spec fn opcodes(instructions: Seq<Instruction>) -> Seq<OpCode> {
    instructions.map_values(|i: Instruction| i.opcode())
}

/// Parses a source: one instruction for each command byte, in source order,
/// and nothing for any other byte.
pub fn parse(source_code: &str) -> (program: Program)
    ensures
        program.instructions@ == tokens(source_code.spec_bytes()).map_values(
            |op: OpCode| Instruction::of(op),
        ),
        opcodes(program.instructions@) == tokens(source_code.spec_bytes()),
{
    let scanned = tokenize(source_code);
    let mut instructions: Vec<Instruction> = Vec::new();
    let mut i: usize = 0;
    while i < scanned.opcodes.len()
        invariant
            0 <= i <= scanned.opcodes@.len(),
            instructions@ == scanned.opcodes@.take(i as int).map_values(
                |op: OpCode| Instruction::of(op),
            ),
        decreases scanned.opcodes@.len() - i,
    {
        instructions.push(Instruction::from_opcode(scanned.opcodes[i]));
        proof {
            assert(instructions@ =~= scanned.opcodes@.take(i + 1).map_values(
                |op: OpCode| Instruction::of(op),
            ));
        }
        i += 1;
    }
    proof {
        assert(scanned.opcodes@.take(i as int) =~= scanned.opcodes@);
        assert(opcodes(instructions@) =~= scanned.opcodes@);
    }
    Program { instructions }
}

} // verus!
