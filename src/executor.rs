use itertools::Itertools;
use vstd::prelude::*;
use crate::data::Data;
use crate::io::{Input, Output};
use crate::machine::{
    Machine, appended, extends, halted, lemma_more_input, lemma_run_step, next, run_n, start,
};
use crate::program::{
    CLOSE, COMMA, DOT, Instruction, LEFT, MINUS, OPEN, PLUS, RIGHT, balanced, depth, expand,
    first_unmatched_end, flatten, fold, is_bracket, jumps_ok, lemma_depth_push, lemma_flatten_prefix,
    lemma_fold_push, lemma_plain_run, lemma_unfold_push, nested, ops, outermost_unclosed_start,
    run_lengths, runs, single, unfold,
};

verus! {

/// Why a source does not compile.
#[derive(Debug, Clone, Copy, PartialEq, Eq, Structural)]
pub enum Error {
    /// A `]` at this source offset closes no open loop.
    UnmatchedLoopEnd(usize),
    /// The `[` at this source offset is never closed.
    UnmatchedLoopStart(usize),
}

/// A compiled program: its instructions and, for each loop bracket, the
/// position of its partner.
pub struct Executor {
    instructions: Vec<Instruction>,
    loop_targets: Vec<usize>,
}

/// Relies on itertools' `Itertools::dedup_with_count`: it yields each maximal
/// run of equal consecutive items once, in order, with the run's length.
#[verifier::external_body]
fn runs_of(code: &[u8]) -> (r: Vec<(usize, u8)>)
    ensures
        flatten(r@) == code@,
        run_lengths(r@) == runs(code@),
        forall|k: int| 0 <= k < r@.len() ==> #[trigger] r@[k].0 >= 1,
        forall|k: int| 0 <= k < r@.len() - 1 ==> #[trigger] r@[k].1 != r@[k + 1].1,
{
    code.iter().dedup_with_count().map(|(n, b)| (n, *b)).collect()
}

/// What holds after compiling the first `pos` source bytes; `st` holds the
/// loop starts still open, as (source offset, instruction position).
spec fn compiling(
    code: Seq<u8>,
    pos: int,
    p: Seq<Instruction>,
    t: Seq<usize>,
    st: Seq<(usize, usize)>,
) -> bool {
    &&& 0 <= pos <= code.len()
    &&& unfold(p) == ops(code.take(pos))
    &&& forall|j: int| 0 <= j <= pos ==> depth(#[trigger] code.take(j)) >= 0
    &&& st.len() == depth(code.take(pos))
    &&& t.len() == p.len()
    &&& forall|k: int|
        0 <= k < st.len() ==> {
            &&& (#[trigger] st[k]).1 < p.len()
            &&& p[st[k].1 as int] == Instruction::StartLoop
            &&& t[st[k].1 as int] == 0
            &&& st[k].0 < pos
        }
    &&& forall|k1: int, k2: int| 0 <= k1 < k2 < st.len() ==> (#[trigger] st[k1]).1 < (#[trigger] st[k2]).1
    &&& st.len() > 0 ==> {
        &&& depth(code.take(st[0].0 as int)) == 0
        &&& forall|j: int| st[0].0 < j <= pos ==> depth(#[trigger] code.take(j)) >= 1
    }
    &&& forall|j: int|
        0 <= j < p.len() && #[trigger] p[j] == Instruction::StartLoop ==> (exists|k: int|
            0 <= k < st.len() && (#[trigger] st[k]).1 == j) || {
            &&& j < t[j] < p.len()
            &&& p[t[j] as int] == Instruction::EndLoop
            &&& t[t[j] as int] == j
        }
    &&& forall|j: int|
        0 <= j < p.len() && #[trigger] p[j] == Instruction::EndLoop ==> {
            &&& 0 <= t[j] < j
            &&& p[t[j] as int] == Instruction::StartLoop
            &&& t[t[j] as int] == j
        }
    &&& nested(p, t)
    &&& forall|k: int, j: int|
        #![trigger st[k], p[j]]
        0 <= k < st.len() && st[k].1 < j < p.len() && is_bracket(p[j]) ==> st[k].1 < t[j]
            || exists|k2: int| k < k2 < st.len() && (#[trigger] st[k2]).1 == j
}

/// The cells of a tape, as a function of the index.
pub open spec fn cells_of<D: Data>(d: D) -> spec_fn(int) -> u8 {
    |i: int| d.cell(i)
}

/// The indices a tape can reach.
pub open spec fn reach_of<D: Data>(d: D) -> spec_fn(int) -> bool {
    |i: int| d.addressable(i)
}

/// The machine ran `n` steps without halting before the last of them, having
/// taken all of `ins`, written `out`, and left `after` on the tape.
pub open spec fn ran(
    p: Seq<Instruction>,
    t: Seq<usize>,
    reach: spec_fn(int) -> bool,
    tape: spec_fn(int) -> u8,
    after: spec_fn(int) -> u8,
    ins: Seq<u8>,
    out: Seq<u8>,
    n: nat,
) -> bool {
    let m = run_n(p, t, reach, ins, start(tape), n);
    &&& m.status is Running
    &&& m.consumed == ins.len()
    &&& m.output == out
    &&& forall|i: int| #[trigger] after(i) == (m.tape)(i)
    &&& forall|k: nat| k < n ==> !halted(p, #[trigger] run_n(p, t, reach, ins, start(tape), k))
}

/// What a run of program `p` with jump table `t` gave: `ins` is the input it
/// took, `out` the output it wrote, and `after` the tape it left, from a tape
/// holding `tape` whose reach is `reach`. A count is the number of steps to
/// the first halt; an error comes at the step that could not be taken, with
/// everything done before it kept.
pub open spec fn outcome<E>(
    p: Seq<Instruction>,
    t: Seq<usize>,
    reach: spec_fn(int) -> bool,
    tape: spec_fn(int) -> u8,
    after: spec_fn(int) -> u8,
    ins: Seq<u8>,
    out: Seq<u8>,
    r: Result<usize, crate::Error<E>>,
) -> bool {
    match r {
        Ok(n) => {
            &&& ran(p, t, reach, tape, after, ins, out, n as nat)
            &&& halted(p, run_n(p, t, reach, ins, start(tape), n as nat))
        },
        Err(crate::Error::Input(_)) => exists|n: nat|
            {
                &&& ran(p, t, reach, tape, after, ins, out, n)
                &&& p[run_n(p, t, reach, ins, start(tape), n).ip] == Instruction::ReadInput
                &&& (#[trigger] run_n(p, t, reach, ins, start(tape), n + 1)).status is Blocked
            },
        Err(crate::Error::CursorOutOfRange) => exists|n: nat|
            {
                &&& ran(p, t, reach, tape, after, ins, out, n)
                &&& (#[trigger] run_n(p, t, reach, ins, start(tape), n + 1)).status is OutOfRange
            },
        Err(crate::Error::StepLimit) => {
            &&& ran(p, t, reach, tape, after, ins, out, usize::MAX as nat)
            &&& !halted(p, run_n(p, t, reach, ins, start(tape), usize::MAX as nat))
        },
        Err(crate::Error::Executor(_)) => false,
    }
}

/// More input leaves every state up to step `n` as it was, where none of them
/// ran out of input.
proof fn lemma_more_input_upto(
    p: Seq<Instruction>,
    t: Seq<usize>,
    reach: spec_fn(int) -> bool,
    ins: Seq<u8>,
    more: Seq<u8>,
    m0: Machine,
    n: nat,
)
    requires
        more.len() <= 1,
        !(m0.status is Blocked),
        forall|k: nat| k <= n ==> !((#[trigger] run_n(p, t, reach, ins, m0, k)).status is Blocked),
    ensures
        forall|k: nat|
            k <= n ==> #[trigger] run_n(p, t, reach, ins + more, m0, k) == run_n(p, t, reach, ins, m0, k),
{
    assert forall|k: nat| k <= n implies #[trigger] run_n(p, t, reach, ins + more, m0, k) == run_n(
        p,
        t,
        reach,
        ins,
        m0,
        k,
    ) by {
        if more.len() == 1 {
            lemma_more_input(p, t, reach, ins, more[0], m0, k);
            assert(ins + more =~= ins.push(more[0]));
        } else {
            assert(ins + more =~= ins);
        }
    }
}

proof fn lemma_appended(a: Seq<u8>, b: Seq<u8>)
    ensures
        appended(a, a + b) == b,
        extends(a, a + b),
{
    assert(appended(a, a + b) =~= b);
    assert((a + b).take(a.len() as int) =~= a);
}

proof fn lemma_advance(
    p: Seq<Instruction>,
    t: Seq<usize>,
    reach: spec_fn(int) -> bool,
    ins: Seq<u8>,
    more: Seq<u8>,
    m0: Machine,
    k: nat,
)
    requires
        more.len() <= 1,
        m0.status is Running,
        run_n(p, t, reach, ins, m0, k).status is Running,
    ensures
        run_n(p, t, reach, ins + more, m0, k + 1) == next(
            p,
            t,
            reach,
            ins + more,
            run_n(p, t, reach, ins, m0, k),
        ),
{
    lemma_run_step(p, t, reach, ins + more, m0, k);
    if more.len() == 1 {
        lemma_more_input(p, t, reach, ins, more[0], m0, k);
        assert(ins + more =~= ins.push(more[0]));
    } else {
        assert(ins + more =~= ins);
    }
}

/// Where `b` is `a` with `x` added and `c` is `b` with more added, `c` is
/// `a` with `x` and the rest of `c` added.
proof fn lemma_extends(a: Seq<u8>, c: Seq<u8>)
    requires
        extends(a, c),
    ensures
        c == a + appended(a, c),
{
    assert(c =~= a + appended(a, c));
}

proof fn lemma_glue(a: Seq<u8>, x: Seq<u8>, b: Seq<u8>, c: Seq<u8>)
    requires
        b == a + x,
        extends(b, c),
    ensures
        c == a + (x + appended(b, c)),
{
    assert(c =~= b + appended(b, c));
    assert(c =~= a + (x + appended(b, c)));
}

/// Compiles the byte `ch` (one of `.`, `,`, `[`, `]`) at source offset `pos`.
#[verifier::rlimit(50)]
fn push_one(
    ch: u8,
    pos: usize,
    instructions: &mut Vec<Instruction>,
    loop_targets: &mut Vec<usize>,
    starts: &mut Vec<(usize, usize)>,
    Ghost(code): Ghost<Seq<u8>>,
) -> (r: Result<(), Error>)
    requires
        ch == DOT || ch == COMMA || ch == OPEN || ch == CLOSE,
        pos < code.len(),
        code[pos as int] == ch,
        compiling(code, pos as int, old(instructions)@, old(loop_targets)@, old(starts)@),
    ensures
        match r {
            Ok(()) => {
                &&& compiling(code, pos + 1, final(instructions)@, final(loop_targets)@, final(starts)@)
                &&& final(instructions)@ == old(instructions)@.push(single(ch))
            },
            Err(e) => e == Error::UnmatchedLoopEnd(pos) && first_unmatched_end(code, pos as int),
        },
{
    proof {
        assert(code.take(pos + 1) =~= code.take(pos as int).push(ch));
        lemma_depth_push(code.take(pos as int), ch);
    }
    let ghost p0 = instructions@;
    let ghost t0 = loop_targets@;
    let ghost s0 = starts@;
    if ch == DOT {
        instructions.push(Instruction::WriteOutput);
        loop_targets.push(0);
    } else if ch == COMMA {
        instructions.push(Instruction::ReadInput);
        loop_targets.push(0);
    } else if ch == OPEN {
        starts.push((pos, instructions.len()));
        instructions.push(Instruction::StartLoop);
        loop_targets.push(0);
        proof {
            assert forall|j: int|
                0 <= j < instructions@.len() && #[trigger] instructions@[j]
                    == Instruction::StartLoop implies (exists|k: int|
                0 <= k < starts@.len() && (#[trigger] starts@[k]).1 == j) || {
                &&& j < loop_targets@[j] < instructions@.len()
                &&& instructions@[loop_targets@[j] as int] == Instruction::EndLoop
                &&& loop_targets@[loop_targets@[j] as int] == j
            } by {
                if j == p0.len() {
                    assert(starts@[s0.len() as int].1 == j);
                } else if exists|k: int| 0 <= k < s0.len() && (#[trigger] s0[k]).1 == j {
                    let k = choose|k: int| 0 <= k < s0.len() && (#[trigger] s0[k]).1 == j;
                    assert(starts@[k].1 == j);
                }
            }
        }
    } else {
        match starts.pop() {
            None => {
                proof {
                    assert forall|j: int| 0 <= j <= pos implies depth(
                        #[trigger] code.take(pos as int).take(j),
                    ) >= 0 by {
                        assert(code.take(pos as int).take(j) =~= code.take(j));
                    }
                    assert(!balanced(code)) by {
                        assert(depth(code.take(pos + 1)) < 0);
                    }
                }
                return Err(Error::UnmatchedLoopEnd(pos));
            },
            Some((src, start)) => {
                let e = instructions.len();
                loop_targets.set(start, e);
                instructions.push(Instruction::EndLoop);
                loop_targets.push(start);
                proof {
                    assert(s0[s0.len() - 1] == (src, start));
                    assert forall|j: int|
                        0 <= j < instructions@.len() && #[trigger] instructions@[j]
                            == Instruction::StartLoop implies (exists|k: int|
                        0 <= k < starts@.len() && (#[trigger] starts@[k]).1 == j)
                        || {
                        &&& j < loop_targets@[j] < instructions@.len()
                        &&& instructions@[loop_targets@[j] as int]
                            == Instruction::EndLoop
                        &&& loop_targets@[loop_targets@[j] as int] == j
                    } by {
                        if j != start && exists|k: int|
                            0 <= k < s0.len() && (#[trigger] s0[k]).1 == j {
                            let k = choose|k: int|
                                0 <= k < s0.len() && (#[trigger] s0[k]).1 == j;
                            if k == s0.len() - 1 {
                            } else {
                                assert(starts@[k].1 == j);
                            }
                        }
                    }
                    assert forall|j: int|
                        0 <= j < instructions@.len() && #[trigger] instructions@[j]
                            == Instruction::EndLoop implies {
                        &&& 0 <= loop_targets@[j] < j
                        &&& instructions@[loop_targets@[j] as int]
                            == Instruction::StartLoop
                        &&& loop_targets@[loop_targets@[j] as int] == j
                    } by {
                        if j < p0.len() {
                            assert(t0[start as int] == 0);
                        }
                    }
                }
            },
        }
    }
    proof {
        if ch == DOT {
            lemma_unfold_push(p0, Instruction::WriteOutput);
        } else if ch == COMMA {
            lemma_unfold_push(p0, Instruction::ReadInput);
        } else if ch == OPEN {
            lemma_unfold_push(p0, Instruction::StartLoop);
        } else {
            lemma_unfold_push(p0, Instruction::EndLoop);
        }
    }
    proof {
        let c = code;
        let q = pos + 1;
        let p = instructions@;
        let t = loop_targets@;
        let st = starts@;
        assert(unfold(p) == ops(c.take(q)));
        assert(forall|j: int| 0 <= j <= q ==> depth(#[trigger] c.take(j)) >= 0);
        assert(st.len() == depth(c.take(q)));
        assert(forall|k: int|
            0 <= k < st.len() ==> {
                &&& (#[trigger] st[k]).1 < p.len()
                &&& p[st[k].1 as int] == Instruction::StartLoop
                &&& t[st[k].1 as int] == 0
                &&& st[k].0 < q
            });
        assert(forall|k1: int, k2: int| 0 <= k1 < k2 < st.len() ==> (#[trigger] st[k1]).1 < (#[trigger] st[k2]).1);
        assert(st.len() > 0 ==> {
            &&& depth(c.take(st[0].0 as int)) == 0
            &&& forall|j: int| st[0].0 < j <= q ==> depth(#[trigger] c.take(j)) >= 1
        });
    }
    Ok(())
}

impl Executor {
    /// The instructions, in order.
    pub closed spec fn program(&self) -> Seq<Instruction> {
        self.instructions@
    }

    /// For each loop bracket, the position of its partner.
    pub closed spec fn targets(&self) -> Seq<usize> {
        self.loop_targets@
    }

    pub open spec fn wf(&self) -> bool {
        jumps_ok(self.program(), self.targets())
    }

    /// Compiles source bytes. Runs of `>`, `<`, `+` and `-` fold into one
    /// counted instruction each; every other instruction byte gives one
    /// instruction; all other bytes are comments.
    pub fn new(code: &[u8]) -> (r: Result<Self, Error>)
        ensures
            r is Ok <==> balanced(code@),
            match r {
                Ok(e) => {
                    &&& e.wf()
                    &&& e.program() == fold(runs(code@))
                    &&& unfold(e.program()) == ops(code@)
                },
                Err(Error::UnmatchedLoopEnd(k)) => first_unmatched_end(code@, k as int),
                Err(Error::UnmatchedLoopStart(k)) => outermost_unclosed_start(code@, k as int),
            },
    {
        let code_len = code.len();
        let groups = runs_of(code);
        let ghost rl = run_lengths(groups@);
        let mut index: usize = 0;
        let mut r: usize = 0;
        let mut starts: Vec<(usize, usize)> = Vec::new();
        let mut instructions: Vec<Instruction> = Vec::new();
        let mut loop_targets: Vec<usize> = Vec::new();
        proof {
            assert(groups@.take(0) =~= Seq::<(usize, u8)>::empty());
            assert(rl.take(0) =~= Seq::<(nat, u8)>::empty());
            assert(code@.take(0) =~= Seq::<u8>::empty());
        }
        while r < groups.len()
            invariant
                r <= groups.len(),
                code_len == code@.len(),
                flatten(groups@) == code@,
                forall|k: int| 0 <= k < groups@.len() ==> #[trigger] groups@[k].0 >= 1,
                code@.take(index as int) == flatten(groups@.take(r as int)),
                run_lengths(groups@) == runs(code@),
                rl == run_lengths(groups@),
                instructions@ == fold(rl.take(r as int)),
                compiling(code@, index as int, instructions@, loop_targets@, starts@),
            decreases groups.len() - r,
        {
            let (repeats, ch) = groups[r];
            proof {
                assert(rl.take(r + 1) =~= rl.take(r as int).push((repeats as nat, ch)));
                lemma_fold_push(rl.take(r as int), (repeats as nat, ch));
                lemma_flatten_prefix(groups@, r + 1);
                assert(groups@.take(r + 1).drop_last() =~= groups@.take(r as int));
                let f = flatten(groups@.take(r + 1));
                assert(f.len() == index + repeats);
                assert(code@.take(index + repeats) =~= f);
                assert(code@.take(index + repeats) == code@.take(index as int) + Seq::new(
                    repeats as nat,
                    |j: int| ch,
                ));
            }
            if ch == RIGHT || ch == LEFT || ch == PLUS || ch == MINUS {
                let ins = if ch == RIGHT {
                    Instruction::Right(repeats)
                } else if ch == LEFT {
                    Instruction::Left(repeats)
                } else if ch == PLUS {
                    Instruction::Increment(repeats)
                } else {
                    Instruction::Decrement(repeats)
                };
                proof {
                    lemma_plain_run(code@, index as int, repeats as int, ch);
                    lemma_unfold_push(instructions@, ins);
                    assert(expand(ins) =~= Seq::new(repeats as nat, |j: int| ch));
                }
                instructions.push(ins);
                loop_targets.push(0);
            } else if ch == DOT || ch == COMMA || ch == OPEN || ch == CLOSE {
                let mut i: usize = 0;
                while i < repeats
                    invariant
                        i <= repeats,
                        index + repeats <= code.len(),
                        ch == DOT || ch == COMMA || ch == OPEN || ch == CLOSE,
                        code@.take(index + repeats) == code@.take(index as int) + Seq::new(
                            repeats as nat,
                            |j: int| ch,
                        ),
                        compiling(code@, index + i, instructions@, loop_targets@, starts@),
                        instructions@ == fold(rl.take(r as int)) + Seq::new(i as nat, |j: int| single(ch)),
                    decreases repeats - i,
                {
                    let pos = index + i;
                    proof {
                        assert(code@[pos as int] == code@.take(index + repeats)[pos as int]);
                    }
                    match push_one(ch, pos, &mut instructions, &mut loop_targets, &mut starts, Ghost(code@)) {
                        Ok(()) => {},
                        Err(e) => {
                            proof {
                                assert(!balanced(code@)) by {
                                    assert(depth(code@.take(pos + 1)) < 0);
                                }
                            }
                            return Err(e);
                        },
                    }
                    proof {
                        assert(instructions@ =~= fold(rl.take(r as int)) + Seq::new((i + 1) as nat, |j: int| single(ch)));
                    }
                    i += 1;
                }
                proof {
                    assert(instructions@ =~= fold(rl.take(r + 1)));
                }
            } else {
                proof {
                    lemma_plain_run(code@, index as int, repeats as int, ch);
                    assert(instructions@ =~= fold(rl.take(r + 1)));
                }
            }
            index += repeats;
            r += 1;
        }
        proof {
            lemma_flatten_prefix(groups@, r as int);
            assert(groups@.take(r as int) =~= groups@);
            assert(code@.take(index as int) =~= code@);
            assert(rl.take(r as int) =~= rl);
        }
        if starts.len() > 0 {
            proof {
                assert(depth(code@.take(code@.len() as int)) >= 1);
            }
            return Err(Error::UnmatchedLoopStart(starts[0].0));
        }
        Ok(Executor { instructions, loop_targets })
    }

    /// Runs the instruction at `ip` with the cursor at `cursor`: one step of
    /// `m`, the machine these stand for. The new position and cursor come back.
    #[verifier::rlimit(100)]
    #[verifier::spinoff_prover]
    fn step<D: Data, I: Input, O: Output>(
        &self,
        data: &mut D,
        input: &mut I,
        output: &mut O,
        ip: usize,
        cursor: i32,
        Ghost(reach): Ghost<spec_fn(int) -> bool>,
        Ghost(ins): Ghost<Seq<u8>>,
        Ghost(m): Ghost<Machine>,
    ) -> (r: Result<(usize, i32), crate::Error<I::ErrorType>>)
        requires
            jumps_ok(self.instructions@, self.loop_targets@),
            m.status is Running,
            m.ip == ip,
            ip < self.instructions@.len(),
            m.cursor == cursor,
            m.consumed == ins.len(),
            forall|i: int| #[trigger] old(data).cell(i) == (m.tape)(i),
            forall|i: int| #[trigger] old(data).addressable(i) == reach(i),
        ensures
            forall|i: int| #[trigger] final(data).addressable(i) == reach(i),
            extends(old(input).history(), final(input).history()),
            ({
                let more = appended(old(input).history(), final(input).history());
                let m2 = next(self.instructions@, self.loop_targets@, reach, ins + more, m);
                &&& more.len() <= 1
                &&& extends(m.output, m2.output)
                &&& final(output).written() == old(output).written() + appended(m.output, m2.output)
                &&& match r {
                    Ok((ip2, c2)) => {
                        &&& m2.status is Running
                        &&& m2.ip == ip2
                        &&& m2.cursor == c2
                        &&& m2.consumed == (ins + more).len()
                        &&& forall|i: int| #[trigger] final(data).cell(i) == (m2.tape)(i)
                    },
                    Err(crate::Error::Input(e)) => {
                        &&& final(input).last_failure() == Some(e)
                        &&& forall|i: int| #[trigger] final(data).cell(i) == old(data).cell(i)
                        &&& more.len() == 0
                        &&& m2.status is Blocked
                        &&& self.instructions@[ip as int] == Instruction::ReadInput
                        &&& m2.output == m.output
                        &&& m2.consumed == m.consumed
                    },
                    Err(crate::Error::CursorOutOfRange) => {
                        &&& forall|i: int| #[trigger] final(data).cell(i) == old(data).cell(i)
                        &&& more.len() == 0
                        &&& m2.status is OutOfRange
                        &&& m2.output == m.output
                        &&& m2.consumed == m.consumed
                    },
                    Err(_) => false,
                }
            }),
    {
        let ghost p = self.instructions@;
        let ghost t = self.loop_targets@;
        let ghost h = input.history();
        let len = self.instructions.len();
        proof {
            reveal(next);
            assert(appended(h, h) =~= Seq::<u8>::empty());
            assert(ins + Seq::<u8>::empty() =~= ins);
            assert(h.take(h.len() as int) =~= h);
            assert(appended(m.output, m.output) =~= Seq::<u8>::empty());
            assert(m.output.take(m.output.len() as int) =~= m.output);
            assert(output.written() + Seq::<u8>::empty() =~= output.written());
        }
        match self.instructions[ip] {
            Instruction::Right(n) => {
                if n > (i32::MAX as i64 - cursor as i64) as usize {
                    return Err(crate::Error::CursorOutOfRange);
                }
                Ok((ip + 1, (cursor as i64 + n as i64) as i32))
            },
            Instruction::Left(n) => {
                if n > (cursor as i64 - i32::MIN as i64) as usize {
                    return Err(crate::Error::CursorOutOfRange);
                }
                Ok((ip + 1, (cursor as i64 - n as i64) as i32))
            },
            Instruction::Increment(n) => {
                if !data.in_bounds(cursor) {
                    return Err(crate::Error::CursorOutOfRange);
                }
                let c = data.get(cursor);
                *c = ((*c as usize + n % 256) % 256) as u8;
                Ok((ip + 1, cursor))
            },
            Instruction::Decrement(n) => {
                if !data.in_bounds(cursor) {
                    return Err(crate::Error::CursorOutOfRange);
                }
                let c = data.get(cursor);
                *c = ((*c as usize + 256 - n % 256) % 256) as u8;
                Ok((ip + 1, cursor))
            },
            Instruction::WriteOutput => {
                if !data.in_bounds(cursor) {
                    return Err(crate::Error::CursorOutOfRange);
                }
                let v = *data.get(cursor);
                output.write(v);
                proof {
                    assert(appended(m.output, m.output.push(v)) =~= seq![v]);
                    assert(m.output.push(v).take(m.output.len() as int) =~= m.output);
                }
                Ok((ip + 1, cursor))
            },
            Instruction::ReadInput => {
                if !data.in_bounds(cursor) {
                    return Err(crate::Error::CursorOutOfRange);
                }
                match input.read() {
                    Ok(b) => {
                        proof {
                            assert(appended(h, h.push(b)) =~= seq![b]);
                            assert(h.push(b).take(h.len() as int) =~= h);
                            assert((ins + seq![b])[ins.len() as int] == b);
                        }
                        *data.get(cursor) = b;
                        Ok((ip + 1, cursor))
                    },
                    Err(e) => Err(crate::Error::Input(e)),
                }
            },
            Instruction::StartLoop => {
                if !data.in_bounds(cursor) {
                    return Err(crate::Error::CursorOutOfRange);
                }
                if *data.get(cursor) == 0 {
                    Ok((self.loop_targets[ip] + 1, cursor))
                } else {
                    Ok((ip + 1, cursor))
                }
            },
            Instruction::EndLoop => {
                if !data.in_bounds(cursor) {
                    return Err(crate::Error::CursorOutOfRange);
                }
                if *data.get(cursor) != 0 {
                    Ok((self.loop_targets[ip] + 1, cursor))
                } else {
                    Ok((ip + 1, cursor))
                }
            },
        }
    }

    /// Runs the program from its first instruction with the cursor at 0,
    /// until it runs off its end; returns the number of instructions run.
    #[verifier::rlimit(100)]
    pub fn run<D: Data, I: Input, O: Output>(
        &self,
        data: &mut D,
        input: &mut I,
        output: &mut O,
    ) -> (r: Result<usize, crate::Error<I::ErrorType>>)
        requires
            self.wf(),
        ensures
            extends(old(input).history(), final(input).history()),
            extends(old(output).written(), final(output).written()),
            outcome(
                self.program(),
                self.targets(),
                reach_of(*old(data)),
                cells_of(*old(data)),
                cells_of(*final(data)),
                appended(old(input).history(), final(input).history()),
                appended(old(output).written(), final(output).written()),
                r,
            ),
            r matches Err(crate::Error::Input(e)) ==> final(input).last_failure() == Some(e),
    {
        let ghost p = self.instructions@;
        let ghost t = self.loop_targets@;
        let ghost d0 = *data;
        let ghost reach = reach_of(d0);
        let ghost m0 = start(cells_of(d0));
        let ghost h0 = input.history();
        let ghost w0 = output.written();
        let ghost mut ins: Seq<u8> = Seq::empty();
        let ghost mut m: Machine = m0;
        proof {
            lemma_run_step(p, t, reach, ins, m0, 0);
            assert forall|i: int| #[trigger] data.addressable(i) == reach(i) by {
                assert(reach(i) == d0.addressable(i));
            }
            assert forall|i: int| #[trigger] data.cell(i) == (m0.tape)(i) by {
                assert((m0.tape)(i) == d0.cell(i));
            }
        }
        let mut data_index: i32 = 0;
        let mut inst_index: usize = 0;
        let mut num_insts: usize = 0;
        while inst_index < self.instructions.len() && num_insts < usize::MAX
            invariant
                jumps_ok(p, t),
                p == self.instructions@,
                t == self.loop_targets@,
                m0 == start(cells_of(d0)),
                reach == reach_of(d0),
                d0 == *old(data),
                m0.status is Running,
                m == run_n(p, t, reach, ins, m0, num_insts as nat),
                forall|k: nat| k < num_insts ==> !halted(p, #[trigger] run_n(p, t, reach, ins, m0, k)),
                forall|k: nat|
                    k <= num_insts ==> !((#[trigger] run_n(p, t, reach, ins, m0, k)).status is Blocked),
                m.status is Running,
                m.ip == inst_index,
                m.cursor == data_index,
                m.consumed == ins.len(),
                forall|i: int| #[trigger] data.cell(i) == (m.tape)(i),
                forall|i: int| #[trigger] data.addressable(i) == reach(i),
                input.history() == h0 + ins,
                h0 == old(input).history(),
                w0 == old(output).written(),
                output.written() == w0 + m.output,
            decreases usize::MAX - num_insts,
        {
            let ghost hb = input.history();
            let ghost wb = output.written();
            let res = self.step(data, input, output, inst_index, data_index, Ghost(reach), Ghost(ins), Ghost(m));
            let ghost more = appended(hb, input.history());
            let ghost m2 = next(p, t, reach, ins + more, m);
            match res {
                Ok((ip2, c2)) => {
                    proof {
                        lemma_advance(p, t, reach, ins, more, m0, num_insts as nat);
                        lemma_more_input_upto(p, t, reach, ins, more, m0, num_insts as nat);
                        lemma_glue(h0, ins, hb, input.history());
                        lemma_appended(wb, appended(m.output, m2.output));
                        lemma_glue(w0, m.output, wb, output.written());
                        lemma_extends(m.output, m2.output);
                        ins = ins + more;
                        m = m2;
                    }
                    inst_index = ip2;
                    data_index = c2;
                },
                Err(e) => {
                    proof {
                        assert(ins + more =~= ins);
                        lemma_extends(hb, input.history());
                        lemma_extends(m.output, m2.output);
                        lemma_appended(wb, appended(m.output, m2.output));
                        lemma_extends(wb, output.written());
                        assert(input.history() =~= hb);
                        assert(output.written() =~= wb);
                        lemma_run_step(p, t, reach, ins, m0, num_insts as nat);
                        let n: nat = num_insts as nat;
                        assert(run_n(p, t, reach, ins, m0, n + 1) == m2);
                        assert(run_n(p, t, reach, ins, m0, n) == m);
                        lemma_appended(h0, ins);
                        lemma_appended(w0, m.output);
                    }
                    return Err(e);
                },
            }
            num_insts += 1;
        }
        proof {
            lemma_appended(h0, ins);
            lemma_appended(w0, m.output);
        }
        if inst_index < self.instructions.len() {
            return Err(crate::Error::StepLimit);
        }
        Ok(num_insts)
    }
}

} // verus!
