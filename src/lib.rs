//! An interpreter for the eight-instruction tape language: a compiler that
//! turns source bytes into folded instructions with a jump table, and a run
//! loop over a pluggable tape, input source and output sink.
mod data;
pub mod executor;
mod io;
mod laws;
mod machine;
mod program;

pub use data::{ArrayData, Data, ResizableData};
pub use executor::Executor;
pub use io::{Input, Output, StdinError};
pub use machine::{Machine, Status};
pub use laws::{lemma_byte_arithmetic_wraps, lemma_comments_ignored, lemma_jump_table_symmetric};
pub use program::{
    CLOSE, COMMA, DOT, Instruction, LEFT, MINUS, OPEN, PLUS, RIGHT, balanced, depth, expand,
    first_unmatched_end, flatten, fold, fold_run, is_bracket, is_op, jumps_ok, nested,
    never_negative, ops, outermost_unclosed_start, run_lengths, runs, single, unfold,
};
pub use executor::{cells_of, outcome, ran, reach_of};
pub use machine::{appended, extends, fits_i32, halted, next, run_n, start, store};

use vstd::prelude::*;

verus! {

/// Why a program could not be compiled or run to its end.
#[derive(Debug, Clone, Copy, PartialEq, Eq)]
pub enum Error<InputError> {
    /// The source does not compile.
    Executor(executor::Error),
    /// The input source failed at a `,`.
    Input(InputError),
    /// The cursor would leave `i32`, or the tape cannot reach its cell.
    CursorOutOfRange,
    /// The instruction count would overflow `usize`.
    StepLimit,
}

} // verus!

verus! {

/// A tape that holds 0 everywhere.
pub open spec fn zeros() -> spec_fn(int) -> u8 {
    |i: int| 0u8
}

/// A tape that reaches every index.
pub open spec fn everywhere() -> spec_fn(int) -> bool {
    |i: int| true
}

/// Compiles `code` and runs it on a fresh unbounded tape.
pub fn run_simple<I: Input, O: Output>(code: &[u8], input: &mut I, output: &mut O) -> (r: Result<
    usize,
    Error<I::ErrorType>,
>)
    ensures
        r matches Err(Error::Executor(_)) <==> !balanced(code@),
        r matches Err(Error::Executor(_)) ==> final(input).history() == old(input).history()
            && final(output).written() == old(output).written(),
        extends(old(input).history(), final(input).history()),
        extends(old(output).written(), final(output).written()),
        r matches Err(Error::Input(e)) ==> final(input).last_failure() == Some(e),
        match r {
            Err(Error::Executor(executor::Error::UnmatchedLoopEnd(k))) => first_unmatched_end(
                code@,
                k as int,
            ),
            Err(Error::Executor(executor::Error::UnmatchedLoopStart(k))) => outermost_unclosed_start(
                code@,
                k as int,
            ),
            _ => exists|e: Executor, after: spec_fn(int) -> u8|
                {
                    &&& e.wf()
                    &&& e.program() == fold(runs(code@))
                    &&& #[trigger] outcome(
                        e.program(),
                        e.targets(),
                        everywhere(),
                        zeros(),
                        after,
                        appended(old(input).history(), final(input).history()),
                        appended(old(output).written(), final(output).written()),
                        r,
                    )
                },
        },
{
    let executor = match Executor::new(code) {
        Ok(e) => e,
        Err(err) => {
            proof {
                assert(appended(input.history(), input.history()) =~= Seq::<u8>::empty());
                assert(input.history().take(input.history().len() as int) =~= input.history());
                assert(output.written().take(output.written().len() as int) =~= output.written());
            }
            return Err(Error::Executor(err));
        },
    };
    let mut data = ResizableData::new();
    proof {
        assert(cells_of(data) =~= zeros());
        assert(reach_of(data) =~= everywhere());
    }
    executor.run(&mut data, input, output)
}

} // verus!
