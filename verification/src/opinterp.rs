//! The second engine: an interpreter over the simple form with a jump
//! table that is built once, when the program is parsed.

use vstd::prelude::*;
use vstd::string::StringSliceAdditionalSpecFns;
use crate::brackets::{balanced, deltas, first_offender, unmatched_at_pc};
use crate::error::BfResult;
use crate::runtime::{tells, Runtime, State};
use crate::semantics::run_ops;
use crate::source::tokens;

pub mod parser;
pub mod vm;

verus! {

/// Runs a source program on the input `stdin` for at most `max_steps`
/// commands and appends what it writes to `stdout`.
///
/// Brackets that do not match are reported before anything runs, with the
/// source index of the first one that has no partner. `Ok(true)` says that
/// the program ended, `Ok(false)` that the steps ran out first.
pub fn run(source_code: &str, stdin: Vec<u8>, stdout: &mut Vec<u8>, max_steps: u64) -> (r:
    BfResult<bool>)
    ensures
        ({
            let src = source_code.spec_bytes();
            let ops = tokens(src);
            if balanced(deltas(ops)) {
                let (s, status) = run_ops(ops, State::initial(stdin@), max_steps as nat);
                &&& final(stdout)@ == old(stdout)@ + s.output
                &&& tells(r, status)
            } else {
                &&& final(stdout)@ == old(stdout)@
                &&& r is Err
                &&& exists|k: int|
                    first_offender(deltas(ops), k) && r->Err_0.is_parse(unmatched_at_pc(src, k))
            }
        }),
{
    match parser::parse(source_code) {
        Ok(program) => {
            let mut runtime = Runtime::new(stdin);
            let r = vm::run(&program, &mut runtime, max_steps);
            stdout.append(&mut runtime.stdout);
            r
        },
        Err(e) => Err(e),
    }
}

} // verus!
