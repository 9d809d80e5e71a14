//! The fourth engine: an interpreter over the optimized instruction
//! stream.

use vstd::prelude::*;
use vstd::string::StringSliceAdditionalSpecFns;
use crate::brackets::{balanced, deltas, first_offender, unmatched_at_index};
use crate::error::{narrowing_text, BfResult};
use crate::opinterp3::parser::{optimized_form, Instruction};
use crate::opjit::parser::MAX_COMMANDS;
use crate::runtime::{tells, Runtime, State};
use crate::source::tokens;

pub mod parser;
pub mod vm;

verus! {

/// Runs a source program on the input `stdin` for at most `max_steps`
/// instructions of its optimized form and appends what it writes to
/// `stdout`.
///
/// Brackets that do not match are reported before anything runs, and so is
/// a source with more commands than a count can tell. `Ok(true)` says that
/// the program ended, `Ok(false)` that the steps ran out first.
pub fn run(source_code: &str, stdin: Vec<u8>, stdout: &mut Vec<u8>, max_steps: u64) -> (r:
    BfResult<bool>)
    ensures
        ({
            let src = source_code.spec_bytes();
            let ops = tokens(src);
            if balanced(deltas(ops)) && ops.len() <= MAX_COMMANDS {
                exists|ins: Seq<Instruction>|
                    {
                        let (s, status) = vm::run_spec(
                            ins,
                            State::initial(stdin@),
                            max_steps as nat,
                        );
                        &&& #[trigger] optimized_form(src, ins)
                        &&& final(stdout)@ == old(stdout)@ + s.output
                        &&& tells(r, status)
                    }
            } else {
                &&& final(stdout)@ == old(stdout)@
                &&& r is Err
                &&& if balanced(deltas(ops)) {
                    r->Err_0.is_numeric(narrowing_text())
                } else {
                    exists|k: int|
                        first_offender(deltas(ops), k) && r->Err_0.is_parse(
                            unmatched_at_index(src, k),
                        )
                }
            }
        }),
{
    match parser::parse(source_code) {
        Ok(program) => {
            let mut runtime = Runtime::new(stdin);
            let r = vm::run(&program, &mut runtime, max_steps);
            stdout.append(&mut runtime.stdout);
            proof {
                assert(optimized_form(source_code.spec_bytes(), program.instructions@));
            }
            r
        },
        Err(e) => Err(e),
    }
}

} // verus!
