//! The first engine: an interpreter that walks the commands one by one and
//! looks for the partner of a bracket each time it jumps.

use vstd::prelude::*;
use vstd::string::StringSliceAdditionalSpecFns;
use crate::brackets::{balanced, check_brackets, deltas, first_offender, unmatched_at_pc};
use crate::error::BfResult;
use crate::runtime::{tells, Runtime, State};
use crate::semantics::run_ops;
use crate::source::{tokenize, tokens};

pub mod parser;
pub mod vm;

verus! {

/// Runs a source program on the input `stdin` for at most `max_steps`
/// commands and appends what it writes to `stdout`.
///
/// Brackets that do not match are reported before anything runs, with the
/// source index of the first one that has no partner. `Ok(true)` says that
/// the program ended, `Ok(false)` that the steps ran out first.
pub fn run(source_code: &str, stdin: Vec<u8>, stdout: &mut Vec<u8>, max_steps: u64) -> (r:
    BfResult<bool>)
    ensures
        ({
            let src = source_code.spec_bytes();
            let ops = tokens(src);
            if balanced(deltas(ops)) {
                let (s, status) = run_ops(ops, State::initial(stdin@), max_steps as nat);
                &&& final(stdout)@ == old(stdout)@ + s.output
                &&& tells(r, status)
            } else {
                &&& final(stdout)@ == old(stdout)@
                &&& r is Err
                &&& exists|k: int|
                    first_offender(deltas(ops), k) && r->Err_0.is_parse(unmatched_at_pc(src, k))
            }
        }),
{
    let scanned = tokenize(source_code);
    match check_brackets(&scanned) {
        Some(e) => {
            Err(e)
        },
        None => {
            let program = parser::parse(source_code);
            let mut runtime = Runtime::new(stdin);
            let r = vm::run(&program, &mut runtime, max_steps);
            stdout.append(&mut runtime.stdout);
            r
        },
    }
}

} // verus!
