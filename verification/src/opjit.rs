//! The sixth engine: the optimizing template JIT.

use vstd::prelude::*;
use vstd::string::StringSliceAdditionalSpecFns;
use crate::assembly::{fails_with, Abi, Addresses, Assembler};
use crate::brackets::{balanced, deltas, first_offender, unmatched_at_index};
use crate::error::{narrowing_text, BfResult};
use crate::opjit::parser::{is_ast_of, lower, optimize_all, Tree, MAX_COMMANDS};
use crate::source::tokens;

pub mod compiler;
pub mod parser;
pub mod reparse;
pub mod rewrites;

verus! {

/// Compiles a source program to a listing for an ABI: the source is parsed
/// into its optimized instruction stream, and the stream is compiled.
///
/// Brackets that do not match are reported first, with the source index of
/// the first one that has no partner.
pub fn compile_source(source_code: &str, abi: Abi, addresses: &Addresses) -> (r: BfResult<
    Assembler,
>)
    ensures
        ({
            let src = source_code.spec_bytes();
            let ops = tokens(src);
            if balanced(deltas(ops)) && ops.len() <= MAX_COMMANDS {
                exists|ast: Seq<Tree>|
                    #![trigger is_ast_of(src, ast)]
                    is_ast_of(src, ast) && match compiler::compile_spec(
                        abi,
                        *addresses,
                        lower(optimize_all(ast)),
                    ) {
                        Ok(listing) => r is Ok && r->Ok_0.ops@ == listing && r->Ok_0.abi == abi,
                        Err(f) => r is Err && fails_with(r->Err_0, f),
                    }
            } else {
                &&& r is Err
                &&& if balanced(deltas(ops)) {
                    r->Err_0.is_numeric(narrowing_text())
                } else {
                    exists|k: int|
                        first_offender(deltas(ops), k) && r->Err_0.is_parse(
                            unmatched_at_index(src, k),
                        )
                }
            }
        }),
{
    match parser::parse(source_code) {
        Ok(program) => {
            let ghost stream = program.instructions@;
            let r = compiler::compile(program, abi, addresses);
            proof {
                let src = source_code.spec_bytes();
                let ast = choose|ast: Seq<Tree>| #[trigger]
                    is_ast_of(src, ast) && stream == lower(optimize_all(ast));
                assert(is_ast_of(src, ast));
            }
            r
        },
        Err(e) => Err(e),
    }
}

} // verus!
