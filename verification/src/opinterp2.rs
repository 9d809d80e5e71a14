//! The third engine: an interpreter over the run-length form.

use vstd::prelude::*;
use vstd::string::StringSliceAdditionalSpecFns;
use crate::brackets::{
    balanced, deltas, first_offender, lemma_resolves_unique, resolves, unmatched_at_pc,
};
use crate::error::BfResult;
use crate::opinterp2::parser::{
    destinations, expand, ideltas, lemma_maximal_unique, maximal, Instruction,
};
use crate::opinterp2::equivalence::{cost, lemma_run_simulates};
use crate::runtime::{tells, Runtime, State};
use crate::semantics::run_ops;
use crate::source::tokens;

pub mod equivalence;
pub mod parser;
pub mod vm;

verus! {

/// Whether `ins` is the run-length form of the source `src`.
pub open spec fn run_length_form(src: Seq<u8>, ins: Seq<Instruction>) -> bool {
    &&& expand(ins) == tokens(src)
    &&& maximal(ins)
    &&& resolves(ideltas(ins), destinations(ins))
}

/// A source has one run-length form only.
pub proof fn lemma_run_length_form_unique(src: Seq<u8>, a: Seq<Instruction>, b: Seq<Instruction>)
    requires
        run_length_form(src, a),
        run_length_form(src, b),
    ensures
        a == b,
{
    lemma_maximal_unique(a, b);
    assert(ideltas(a) =~= ideltas(b)) by {
        assert forall|i: int| 0 <= i < a.len() implies ideltas(a)[i] == ideltas(b)[i] by {
            assert(a[i].opcode() == b[i].opcode());
        }
    }
    assert forall|i: int| 0 <= i < a.len() implies a[i] == b[i] by {
        assert(a[i].opcode() == b[i].opcode() && a[i].count() == b[i].count());
        if a[i].is_jump() {
            lemma_resolves_unique(ideltas(a), destinations(a), destinations(b), i);
            assert(destinations(a)[i] == a[i].destination());
            assert(destinations(b)[i] == b[i].destination());
        }
    }
    assert(a =~= b);
}

/// The run-length form of a source does what its simple form does: for
/// every number of instructions there is a number of commands after which
/// the simple form has ended, is still running, or has failed just as the
/// run-length form has, with the same output.
pub proof fn lemma_agrees_with_simple_form(
    src: Seq<u8>,
    ins: Seq<Instruction>,
    input: Seq<u8>,
    budget: nat,
)
    requires
        run_length_form(src, ins),
    ensures
        ({
            let start = State::initial(input);
            let (s, status) = vm::run_spec(ins, start, budget);
            let (t, simple) = run_ops(tokens(src), start, cost(ins, start, budget));
            &&& simple == status
            &&& t.output == s.output
            &&& !(status is Faulted) ==> t.tape == s.tape && t.dp == s.dp && t.input == s.input
        }),
{
    let start = State::initial(input);
    lemma_run_simulates(ins, tokens(src), start, budget);
    assert(start.at(0) == start);
}

/// Runs a source program on the input `stdin` for at most `max_steps`
/// instructions of its run-length form and appends what it writes to
/// `stdout`.
///
/// Brackets that do not match are reported before anything runs, with the
/// source index of the first one that has no partner.
/// `Ok(true)` says that the program ended, `Ok(false)` that the steps ran
/// out first.
pub fn run(source_code: &str, stdin: Vec<u8>, stdout: &mut Vec<u8>, max_steps: u64) -> (r:
    BfResult<bool>)
    ensures
        ({
            let src = source_code.spec_bytes();
            if balanced(deltas(tokens(src))) {
                exists|ins: Seq<Instruction>|
                    {
                        let (s, status) = vm::run_spec(
                            ins,
                            State::initial(stdin@),
                            max_steps as nat,
                        );
                        &&& #[trigger] run_length_form(src, ins)
                        &&& final(stdout)@ == old(stdout)@ + s.output
                        &&& tells(r, status)
                    }
            } else {
                &&& final(stdout)@ == old(stdout)@
                &&& r is Err
                &&& exists|k: int|
                    first_offender(deltas(tokens(src)), k) && r->Err_0.is_parse(
                        unmatched_at_pc(src, k),
                    )
            }
        }),
{
    match parser::parse(source_code) {
        Ok(program) => {
            let mut runtime = Runtime::new(stdin);
            let r = vm::run(&program, &mut runtime, max_steps);
            stdout.append(&mut runtime.stdout);
            proof {
                assert(run_length_form(source_code.spec_bytes(), program.instructions@));
            }
            r
        },
        Err(e) => Err(e),
    }
}

} // verus!
