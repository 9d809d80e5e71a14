//! The fifth engine: the simple template JIT.

use vstd::prelude::*;
use vstd::string::StringSliceAdditionalSpecFns;
use crate::assembly::{fails_with, Abi, Addresses, Assembler};
use crate::brackets::{balanced, check_brackets, deltas, first_offender, unmatched_at_pc};
use crate::error::BfResult;
use crate::simpleinterp::parser::{parse, Instruction};
use crate::source::{tokenize, tokens, OpCode};

pub mod compiler;

verus! {

/// Compiles a source program to a listing for an ABI.
///
/// Brackets that do not match are reported first, with the source index of
/// the first one that has no partner.
pub fn compile_source(source_code: &str, abi: Abi, addresses: &Addresses) -> (r: BfResult<
    Assembler,
>)
    ensures
        ({
            let src = source_code.spec_bytes();
            let ops = tokens(src);
            if balanced(deltas(ops)) {
                match compiler::compile_spec(
                    abi,
                    *addresses,
                    ops.map_values(|op: OpCode| Instruction::of(op)),
                ) {
                    Ok(listing) => r is Ok && r->Ok_0.ops@ == listing && r->Ok_0.abi == abi,
                    Err(f) => r is Err && fails_with(r->Err_0, f),
                }
            } else {
                &&& r is Err
                &&& exists|k: int|
                    first_offender(deltas(ops), k) && r->Err_0.is_parse(unmatched_at_pc(src, k))
            }
        }),
{
    let scanned = tokenize(source_code);
    match check_brackets(&scanned) {
        Some(e) => {
            Err(e)
        },
        None => compiler::compile(parse(source_code), abi, addresses),
    }
}

} // verus!
