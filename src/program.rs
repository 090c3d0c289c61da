use vstd::prelude::*;

verus! {

/// `>`: move the cursor right.
pub const RIGHT: u8 = 62;
/// `<`: move the cursor left.
pub const LEFT: u8 = 60;
/// `+`: add one to the current cell.
pub const PLUS: u8 = 43;
/// `-`: take one from the current cell.
pub const MINUS: u8 = 45;
/// `.`: write the current cell to the output.
pub const DOT: u8 = 46;
/// `,`: read one input byte into the current cell.
pub const COMMA: u8 = 44;
/// `[`: start of a loop.
pub const OPEN: u8 = 91;
/// `]`: end of a loop.
pub const CLOSE: u8 = 93;

/// One compiled instruction. The four counted kinds stand for a run of that
/// many identical source characters.
#[derive(Debug, Clone, Copy, PartialEq, Eq, Structural)]
pub enum Instruction {
    Right(usize),
    Left(usize),
    Increment(usize),
    Decrement(usize),
    WriteOutput,
    ReadInput,
    StartLoop,
    EndLoop,
}

/// The eight source characters that carry meaning; all others are comments.
pub open spec fn is_op(b: u8) -> bool {
    b == RIGHT || b == LEFT || b == PLUS || b == MINUS || b == DOT || b == COMMA
        || b == OPEN || b == CLOSE
}

/// The source with every comment byte removed.
pub open spec fn ops(s: Seq<u8>) -> Seq<u8>
    decreases s.len(),
{
    if s.len() == 0 {
        Seq::empty()
    } else if is_op(s.last()) {
        ops(s.drop_last()).push(s.last())
    } else {
        ops(s.drop_last())
    }
}

/// Open brackets minus close brackets in `s`.
pub open spec fn depth(s: Seq<u8>) -> int
    decreases s.len(),
{
    if s.len() == 0 {
        0
    } else {
        depth(s.drop_last()) + if s.last() == OPEN {
            1int
        } else if s.last() == CLOSE {
            -1int
        } else {
            0int
        }
    }
}

/// No prefix of the source closes more loops than it opened.
pub open spec fn never_negative(s: Seq<u8>) -> bool {
    forall|j: int| 0 <= j <= s.len() ==> depth(#[trigger] s.take(j)) >= 0
}

/// Every `[` has its `]` and the other way round, properly nested.
pub open spec fn balanced(s: Seq<u8>) -> bool {
    never_negative(s) && depth(s) == 0
}

/// `k` is the offset of the first `]` that closes no open loop.
pub open spec fn first_unmatched_end(s: Seq<u8>, k: int) -> bool {
    &&& 0 <= k < s.len()
    &&& depth(s.take(k + 1)) == -1
    &&& never_negative(s.take(k))
}

/// `k` is the offset of the outermost `[` left open at the end of `s`.
pub open spec fn outermost_unclosed_start(s: Seq<u8>, k: int) -> bool {
    &&& never_negative(s)
    &&& 0 <= k < s.len()
    &&& depth(s.take(k)) == 0
    &&& forall|j: int| k < j <= s.len() ==> depth(#[trigger] s.take(j)) >= 1
}

/// The source characters an instruction stands for.
pub open spec fn expand(i: Instruction) -> Seq<u8> {
    match i {
        Instruction::Right(n) => Seq::new(n as nat, |j: int| RIGHT),
        Instruction::Left(n) => Seq::new(n as nat, |j: int| LEFT),
        Instruction::Increment(n) => Seq::new(n as nat, |j: int| PLUS),
        Instruction::Decrement(n) => Seq::new(n as nat, |j: int| MINUS),
        Instruction::WriteOutput => seq![DOT],
        Instruction::ReadInput => seq![COMMA],
        Instruction::StartLoop => seq![OPEN],
        Instruction::EndLoop => seq![CLOSE],
    }
}

/// The source characters a whole program stands for.
pub open spec fn unfold(p: Seq<Instruction>) -> Seq<u8>
    decreases p.len(),
{
    if p.len() == 0 {
        Seq::empty()
    } else {
        unfold(p.drop_last()) + expand(p.last())
    }
}

/// The jump table pairs each loop start with a later loop end, both ways,
/// and the pairs nest.
pub open spec fn jumps_ok(p: Seq<Instruction>, t: Seq<usize>) -> bool {
    &&& t.len() == p.len()
    &&& forall|j: int|
        0 <= j < p.len() && #[trigger] p[j] == Instruction::StartLoop ==> {
            &&& j < t[j] < p.len()
            &&& p[t[j] as int] == Instruction::EndLoop
            &&& t[t[j] as int] == j
        }
    &&& forall|j: int|
        0 <= j < p.len() && #[trigger] p[j] == Instruction::EndLoop ==> {
            &&& 0 <= t[j] < j
            &&& p[t[j] as int] == Instruction::StartLoop
            &&& t[t[j] as int] == j
        }
    &&& nested(p, t)
}

/// Loops nest: every bracket inside a loop has its partner inside that loop
/// too.
pub open spec fn nested(p: Seq<Instruction>, t: Seq<usize>) -> bool {
    forall|s: int, j: int|
        #![trigger p[s], p[j]]
        0 <= s < p.len() && p[s] == Instruction::StartLoop && s < j < t[s] && is_bracket(p[j])
            ==> s < t[j] < t[s]
}

pub open spec fn is_bracket(i: Instruction) -> bool {
    i == Instruction::StartLoop || i == Instruction::EndLoop
}

/// Runs of equal bytes laid end to end.
pub open spec fn flatten(runs: Seq<(usize, u8)>) -> Seq<u8>
    decreases runs.len(),
{
    if runs.len() == 0 {
        Seq::empty()
    } else {
        flatten(runs.drop_last()) + Seq::new(runs.last().0 as nat, |j: int| runs.last().1)
    }
}

/// The maximal runs of equal consecutive bytes of `s`, in order, each with
/// its length.
pub open spec fn runs(s: Seq<u8>) -> Seq<(nat, u8)>
    decreases s.len(),
{
    if s.len() == 0 {
        Seq::empty()
    } else {
        let r = runs(s.drop_last());
        if r.len() > 0 && r.last().1 == s.last() {
            r.update(r.len() - 1, (r.last().0 + 1, s.last()))
        } else {
            r.push((1nat, s.last()))
        }
    }
}

/// The instruction of `.`, `,`, `[` or `]`.
pub open spec fn single(b: u8) -> Instruction {
    if b == DOT {
        Instruction::WriteOutput
    } else if b == COMMA {
        Instruction::ReadInput
    } else if b == OPEN {
        Instruction::StartLoop
    } else {
        Instruction::EndLoop
    }
}

/// The instructions for one run of `n` copies of byte `b`: one counted
/// instruction for `>`, `<`, `+`, `-`; one instruction per copy for the
/// other four; none for a comment.
pub open spec fn fold_run(n: nat, b: u8) -> Seq<Instruction> {
    if b == RIGHT {
        seq![Instruction::Right(n as usize)]
    } else if b == LEFT {
        seq![Instruction::Left(n as usize)]
    } else if b == PLUS {
        seq![Instruction::Increment(n as usize)]
    } else if b == MINUS {
        seq![Instruction::Decrement(n as usize)]
    } else if b == DOT || b == COMMA || b == OPEN || b == CLOSE {
        Seq::new(n, |j: int| single(b))
    } else {
        Seq::empty()
    }
}

/// The instructions for a sequence of runs.
pub open spec fn fold(rs: Seq<(nat, u8)>) -> Seq<Instruction>
    decreases rs.len(),
{
    if rs.len() == 0 {
        Seq::empty()
    } else {
        fold(rs.drop_last()) + fold_run(rs.last().0, rs.last().1)
    }
}

/// Run lengths as numbers.
pub open spec fn run_lengths(r: Seq<(usize, u8)>) -> Seq<(nat, u8)> {
    r.map_values(|x: (usize, u8)| (x.0 as nat, x.1))
}

pub proof fn lemma_fold_push(rs: Seq<(nat, u8)>, x: (nat, u8))
    ensures
        fold(rs.push(x)) == fold(rs) + fold_run(x.0, x.1),
{
    assert(rs.push(x).drop_last() =~= rs);
}

pub proof fn lemma_depth_push(s: Seq<u8>, b: u8)
    ensures
        depth(s.push(b)) == depth(s) + if b == OPEN {
            1int
        } else if b == CLOSE {
            -1int
        } else {
            0int
        },
        ops(s.push(b)) == if is_op(b) { ops(s).push(b) } else { ops(s) },
{
    assert(s.push(b).drop_last() =~= s);
}

/// A run of `n` copies of a byte that is no bracket leaves the depth of every
/// prefix it ends as it was, and adds itself (or nothing, for a comment) to
/// the instruction bytes.
pub proof fn lemma_plain_run(code: Seq<u8>, index: int, n: int, b: u8)
    requires
        0 <= index,
        0 <= n,
        index + n <= code.len(),
        code.take(index + n) == code.take(index) + Seq::new(n as nat, |j: int| b),
        b != OPEN && b != CLOSE,
    ensures
        forall|j: int| index <= j <= index + n ==> depth(#[trigger] code.take(j)) == depth(code.take(index)),
        ops(code.take(index + n)) == ops(code.take(index)) + if is_op(b) {
            Seq::new(n as nat, |j: int| b)
        } else {
            Seq::empty()
        },
    decreases n,
{
    if n > 0 {
        let prev = code.take(index + n - 1);
        assert(prev =~= code.take(index) + Seq::new((n - 1) as nat, |j: int| b)) by {
            assert(prev =~= code.take(index + n).take(index + n - 1));
        }
        lemma_plain_run(code, index, n - 1, b);
        assert(code.take(index + n) =~= prev.push(b));
        lemma_depth_push(prev, b);
        if is_op(b) {
            assert(ops(code.take(index)) + Seq::new(n as nat, |j: int| b) =~= (ops(code.take(index))
                + Seq::new((n - 1) as nat, |j: int| b)).push(b));
        }
    }
}

/// A prefix of the runs lays out a prefix of the whole.
pub proof fn lemma_flatten_prefix(runs: Seq<(usize, u8)>, m: int)
    requires
        0 <= m <= runs.len(),
    ensures
        flatten(runs.take(m)).len() <= flatten(runs).len(),
        flatten(runs.take(m)) == flatten(runs).take(flatten(runs.take(m)).len() as int),
    decreases runs.len(),
{
    if m == runs.len() {
        assert(runs.take(m) =~= runs);
    } else {
        lemma_flatten_prefix(runs.drop_last(), m);
        assert(runs.drop_last().take(m) =~= runs.take(m));
        let f = flatten(runs.drop_last());
        assert(flatten(runs) == f + Seq::new(runs.last().0 as nat, |j: int| runs.last().1));
        assert(f.take(flatten(runs.take(m)).len() as int) =~= flatten(runs).take(
            flatten(runs.take(m)).len() as int,
        ));
    }
}

pub proof fn lemma_unfold_push(p: Seq<Instruction>, i: Instruction)
    ensures
        unfold(p.push(i)) == unfold(p) + expand(i),
{
    assert(p.push(i).drop_last() =~= p);
}

} // verus!
