use vstd::prelude::*;
use crate::program::Instruction;

verus! {

/// Whether the machine can go on.
pub enum Status {
    Running,
    /// It reached `,` with no input byte left to take.
    Blocked,
    /// It would move the cursor out of `i32`, or touch a cell the tape cannot
    /// reach.
    OutOfRange,
}

/// The whole state of an interpreted program.
pub struct Machine {
    pub ip: int,
    pub cursor: int,
    pub tape: spec_fn(int) -> u8,
    pub output: Seq<u8>,
    pub consumed: nat,
    pub status: Status,
}

pub open spec fn fits_i32(c: int) -> bool {
    i32::MIN <= c <= i32::MAX
}

/// `tape` with the cell at `c` set to `v`.
pub open spec fn store(tape: spec_fn(int) -> u8, c: int, v: u8) -> spec_fn(int) -> u8 {
    |j: int| if j == c { v } else { tape(j) }
}

/// A machine about to run, over a tape holding `tape`.
pub open spec fn start(tape: spec_fn(int) -> u8) -> Machine {
    Machine { ip: 0, cursor: 0, tape, output: Seq::empty(), consumed: 0, status: Status::Running }
}

pub open spec fn halted(p: Seq<Instruction>, m: Machine) -> bool {
    m.ip >= p.len()
}

/// One step of program `p` with jump table `t`, over a tape that can reach
/// the cells `reach` accepts, taking input bytes from `inputs` in order.
/// A stopped or halted machine stays as it is.
#[verifier::opaque]
pub open spec fn next(
    p: Seq<Instruction>,
    t: Seq<usize>,
    reach: spec_fn(int) -> bool,
    inputs: Seq<u8>,
    m: Machine,
) -> Machine {
    if !(m.status is Running) || m.ip < 0 || m.ip >= p.len() {
        m
    } else {
        let c = m.cursor;
        let v = (m.tape)(c);
        let adv = Machine { ip: m.ip + 1, ..m };
        match p[m.ip] {
            Instruction::Right(n) => if fits_i32(c + n) {
                Machine { cursor: c + n, ..adv }
            } else {
                Machine { status: Status::OutOfRange, ..m }
            },
            Instruction::Left(n) => if fits_i32(c - n) {
                Machine { cursor: c - n, ..adv }
            } else {
                Machine { status: Status::OutOfRange, ..m }
            },
            ins => if !reach(c) {
                Machine { status: Status::OutOfRange, ..m }
            } else {
                match ins {
                    Instruction::Increment(n) => Machine {
                        tape: store(m.tape, c, ((v + n) % 256) as u8),
                        ..adv
                    },
                    Instruction::Decrement(n) => Machine {
                        tape: store(m.tape, c, ((v - n) % 256) as u8),
                        ..adv
                    },
                    Instruction::WriteOutput => Machine { output: m.output.push(v), ..adv },
                    Instruction::ReadInput => if m.consumed < inputs.len() {
                        Machine {
                            tape: store(m.tape, c, inputs[m.consumed as int]),
                            consumed: m.consumed + 1,
                            ..adv
                        }
                    } else {
                        Machine { status: Status::Blocked, ..m }
                    },
                    Instruction::StartLoop => if v == 0 {
                        Machine { ip: t[m.ip] + 1, ..m }
                    } else {
                        adv
                    },
                    _ => if v != 0 {
                        Machine { ip: t[m.ip] + 1, ..m }
                    } else {
                        adv
                    },
                }
            },
        }
    }
}

/// The machine after `n` steps from `m0`.
#[verifier::opaque]
pub open spec fn run_n(
    p: Seq<Instruction>,
    t: Seq<usize>,
    reach: spec_fn(int) -> bool,
    inputs: Seq<u8>,
    m0: Machine,
    n: nat,
) -> Machine
    decreases n,
{
    if n == 0 {
        m0
    } else {
        next(p, t, reach, inputs, run_n(p, t, reach, inputs, m0, (n - 1) as nat))
    }
}

/// More input changes nothing for a machine that never ran out of it.
pub proof fn lemma_more_input(
    p: Seq<Instruction>,
    t: Seq<usize>,
    reach: spec_fn(int) -> bool,
    a: Seq<u8>,
    b: u8,
    m0: Machine,
    n: nat,
)
    requires
        !(m0.status is Blocked),
        !(run_n(p, t, reach, a, m0, n).status is Blocked),
    ensures
        run_n(p, t, reach, a.push(b), m0, n) == run_n(p, t, reach, a, m0, n),
    decreases n,
{
    reveal(run_n);
    reveal(next);
    if n > 0 {
        let prev = run_n(p, t, reach, a, m0, (n - 1) as nat);
        if prev.status is Blocked {
            assert(run_n(p, t, reach, a, m0, n) == prev);
        }
        lemma_more_input(p, t, reach, a, b, m0, (n - 1) as nat);
    }
}

/// The machine after one step more.
pub proof fn lemma_run_step(
    p: Seq<Instruction>,
    t: Seq<usize>,
    reach: spec_fn(int) -> bool,
    inputs: Seq<u8>,
    m0: Machine,
    n: nat,
)
    ensures
        run_n(p, t, reach, inputs, m0, n + 1) == next(p, t, reach, inputs, run_n(p, t, reach, inputs, m0, n)),
        run_n(p, t, reach, inputs, m0, 0) == m0,
{
    reveal(run_n);
}

/// Bytes added after `before`.
pub open spec fn appended(before: Seq<u8>, after: Seq<u8>) -> Seq<u8> {
    after.subrange(before.len() as int, after.len() as int)
}

/// `after` is `before` with bytes added at the end.
pub open spec fn extends(before: Seq<u8>, after: Seq<u8>) -> bool {
    before.len() <= after.len() && after.take(before.len() as int) == before
}

} // verus!
