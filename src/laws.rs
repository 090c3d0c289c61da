use vstd::prelude::*;
use crate::executor::Executor;
use crate::machine::{Machine, next};
use crate::program::{
    CLOSE, COMMA, DOT, Instruction, OPEN, balanced, depth, expand, fold, fold_run, is_bracket, is_op,
    lemma_depth_push, lemma_unfold_push, never_negative, ops, runs, single, unfold,
};

verus! {

/// The jump table is symmetric: a loop start `s` is sent to a later loop end
/// `e`, and `e` is sent back to `s`; likewise from a loop end. The partner is
/// the matching bracket: every bracket strictly between `s` and `e` has its
/// own partner strictly between them too.
pub proof fn lemma_jump_table_symmetric(e: Executor, s: int)
    requires
        e.wf(),
        0 <= s < e.program().len(),
    ensures
        e.program()[s] == Instruction::StartLoop ==> {
            &&& s < e.targets()[s] < e.program().len()
            &&& e.program()[e.targets()[s] as int] == Instruction::EndLoop
            &&& e.targets()[e.targets()[s] as int] == s
            &&& forall|j: int|
                s < j < e.targets()[s] && is_bracket(#[trigger] e.program()[j]) ==> s
                    < e.targets()[j] < e.targets()[s]
        },
        e.program()[s] == Instruction::EndLoop ==> {
            &&& 0 <= e.targets()[s] < s
            &&& e.program()[e.targets()[s] as int] == Instruction::StartLoop
            &&& e.targets()[e.targets()[s] as int] == s
        },
{
}

/// Byte arithmetic wraps modulo 256: one step of `Increment(n)` leaves
/// `(v + n) mod 256` in a cell holding `v`, and one of `Decrement(n)` leaves
/// `(v - n) mod 256`; so `+` on 255 gives 0 and `-` on 0 gives 255. No other
/// cell changes.
pub proof fn lemma_byte_arithmetic_wraps(
    p: Seq<Instruction>,
    t: Seq<usize>,
    reach: spec_fn(int) -> bool,
    inputs: Seq<u8>,
    m: Machine,
)
    requires
        m.status is Running,
        0 <= m.ip < p.len(),
        reach(m.cursor),
    ensures
        forall|n: usize|
            p[m.ip] == Instruction::Increment(n) ==> (next(p, t, reach, inputs, m).tape)(m.cursor) as int
                == ((m.tape)(m.cursor) as int + n) % 256,
        forall|n: usize|
            p[m.ip] == Instruction::Decrement(n) ==> (next(p, t, reach, inputs, m).tape)(m.cursor) as int
                == ((m.tape)(m.cursor) as int - n) % 256,
        p[m.ip] is Increment || p[m.ip] is Decrement ==> forall|i: int|
            i != m.cursor ==> (#[trigger] (next(p, t, reach, inputs, m).tape)(i)) == (m.tape)(i),
        p[m.ip] == Instruction::Increment(1) && (m.tape)(m.cursor) == 255 ==> (next(
            p,
            t,
            reach,
            inputs,
            m,
        ).tape)(m.cursor) == 0,
        p[m.ip] == Instruction::Decrement(1) && (m.tape)(m.cursor) == 0 ==> (next(
            p,
            t,
            reach,
            inputs,
            m,
        ).tape)(m.cursor) == 255,
{
    reveal(next);
}

/// Comments do not count towards the bracket depth.
proof fn lemma_depth_of_ops(s: Seq<u8>)
    ensures
        depth(ops(s)) == depth(s),
    decreases s.len(),
{
    if s.len() > 0 {
        lemma_depth_of_ops(s.drop_last());
        lemma_depth_push(s.drop_last(), s.last());
        assert(s.drop_last().push(s.last()) =~= s);
        lemma_depth_push(ops(s.drop_last()), s.last());
    }
}

/// The instruction bytes of a prefix are a prefix of the instruction bytes.
proof fn lemma_ops_of_prefix(s: Seq<u8>, j: int)
    requires
        0 <= j <= s.len(),
    ensures
        ops(s.take(j)).len() <= ops(s).len(),
        ops(s.take(j)) == ops(s).take(ops(s.take(j)).len() as int),
    decreases s.len(),
{
    if j == s.len() {
        assert(s.take(j) =~= s);
    } else {
        lemma_ops_of_prefix(s.drop_last(), j);
        assert(s.drop_last().take(j) =~= s.take(j));
        let o = ops(s.drop_last());
        let l = ops(s.take(j)).len() as int;
        assert(o.take(l) =~= ops(s).take(l));
    }
}

/// Each prefix of the instruction bytes is that of some prefix of the source.
proof fn lemma_prefix_of_ops(s: Seq<u8>, k: int) -> (j: int)
    requires
        0 <= k <= ops(s).len(),
    ensures
        0 <= j <= s.len(),
        ops(s.take(j)) == ops(s).take(k),
    decreases s.len(),
{
    if k == ops(s).len() {
        assert(s.take(s.len() as int) =~= s);
        assert(ops(s).take(k) =~= ops(s));
        s.len() as int
    } else {
        let j = lemma_prefix_of_ops(s.drop_last(), k);
        assert(s.drop_last().take(j) =~= s.take(j));
        assert(ops(s.drop_last()).take(k) =~= ops(s).take(k));
        j
    }
}

proof fn lemma_balanced_iff_ops(s: Seq<u8>)
    ensures
        balanced(s) == balanced(ops(s)),
{
    lemma_depth_of_ops(s);
    let o = ops(s);
    if never_negative(s) {
        assert forall|k: int| 0 <= k <= o.len() implies depth(#[trigger] o.take(k)) >= 0 by {
            let j = lemma_prefix_of_ops(s, k);
            lemma_depth_of_ops(s.take(j));
        }
    }
    if never_negative(o) {
        assert forall|j: int| 0 <= j <= s.len() implies depth(#[trigger] s.take(j)) >= 0 by {
            lemma_ops_of_prefix(s, j);
            lemma_depth_of_ops(s.take(j));
            assert(o.take(ops(s.take(j)).len() as int) == ops(s.take(j)));
        }
    }
}

proof fn lemma_unfold_concat(x: Seq<Instruction>, y: Seq<Instruction>)
    ensures
        unfold(x + y) == unfold(x) + unfold(y),
    decreases y.len(),
{
    if y.len() == 0 {
        assert(x + y =~= x);
        assert(unfold(x) + unfold(y) =~= unfold(x));
    } else {
        lemma_unfold_concat(x, y.drop_last());
        assert((x + y).drop_last() =~= x + y.drop_last());
        assert(unfold(x) + unfold(y) =~= unfold(x) + unfold(y.drop_last()) + expand(y.last()));
    }
}

proof fn lemma_unfold_singles(n: nat, b: u8)
    requires
        b == DOT || b == COMMA || b == OPEN || b == CLOSE,
    ensures
        unfold(Seq::new(n, |j: int| single(b))) == Seq::new(n, |j: int| b),
    decreases n,
{
    if n > 0 {
        lemma_unfold_singles((n - 1) as nat, b);
        assert(Seq::new(n, |j: int| single(b)).drop_last() =~= Seq::new((n - 1) as nat, |j: int| single(b)));
        assert(expand(single(b)) =~= seq![b]);
        assert(Seq::new(n, |j: int| b) =~= Seq::new((n - 1) as nat, |j: int| b) + seq![b]);
    } else {
        assert(Seq::new(n, |j: int| single(b)) =~= Seq::<Instruction>::empty());
        assert(Seq::new(n, |j: int| b) =~= Seq::<u8>::empty());
    }
}

/// What a run of `n` copies of `b` spells out.
proof fn lemma_unfold_fold_run(n: nat, b: u8)
    requires
        n <= usize::MAX,
    ensures
        unfold(fold_run(n, b)) == if is_op(b) { Seq::new(n, |j: int| b) } else { Seq::empty() },
{
    if b == DOT || b == COMMA || b == OPEN || b == CLOSE {
        lemma_unfold_singles(n, b);
    } else if is_op(b) {
        let x = fold_run(n, b)[0];
        assert(fold_run(n, b) =~= Seq::<Instruction>::empty().push(x));
        lemma_unfold_push(Seq::<Instruction>::empty(), x);
        assert(Seq::<Instruction>::empty().len() == 0);
        assert(unfold(Seq::<Instruction>::empty()) == Seq::<u8>::empty());
        assert(expand(x) =~= Seq::new(n, |j: int| b));
        assert(Seq::<u8>::empty() + expand(x) =~= expand(x));
    } else {
        assert(unfold(Seq::<Instruction>::empty()) == Seq::<u8>::empty());
    }
}

proof fn lemma_runs_bounded(s: Seq<u8>)
    ensures
        forall|k: int| 0 <= k < runs(s).len() ==> 1 <= (#[trigger] runs(s)[k]).0 <= s.len(),
    decreases s.len(),
{
    if s.len() > 0 {
        let s1 = s.drop_last();
        lemma_runs_bounded(s1);
        let r1 = runs(s1);
        assert forall|k: int| 0 <= k < runs(s).len() implies 1 <= (#[trigger] runs(s)[k]).0 <= s.len() by {
            if r1.len() > 0 && r1.last().1 == s.last() {
                assert(runs(s) == r1.update(r1.len() - 1, (r1.last().0 + 1, s.last())));
                if k < r1.len() - 1 {
                    assert(runs(s)[k] == r1[k]);
                }
            } else {
                assert(runs(s) == r1.push((1nat, s.last())));
                if k < r1.len() {
                    assert(runs(s)[k] == r1[k]);
                }
            }
        }
    }
}

/// The compiled form of a source spells out exactly its instruction bytes.
proof fn lemma_unfold_fold_runs(s: Seq<u8>)
    requires
        s.len() <= usize::MAX,
    ensures
        unfold(fold(runs(s))) == ops(s),
    decreases s.len(),
{
    if s.len() == 0 {
        assert(unfold(Seq::<Instruction>::empty()) == Seq::<u8>::empty());
    } else {
        let s1 = s.drop_last();
        let b = s.last();
        lemma_unfold_fold_runs(s1);
        lemma_runs_bounded(s1);
        assert(s1.push(b) =~= s);
        lemma_depth_push(s1, b);
        let r1 = runs(s1);
        let rs = runs(s);
        if r1.len() > 0 && r1.last().1 == b {
            let c = r1.last().0;
            assert(rs.drop_last() =~= r1.drop_last());
            assert(rs.last() == (c + 1, b));
            lemma_unfold_concat(fold(r1.drop_last()), fold_run(c, b));
            lemma_unfold_concat(fold(r1.drop_last()), fold_run(c + 1, b));
            lemma_unfold_fold_run(c, b);
            lemma_unfold_fold_run(c + 1, b);
            if is_op(b) {
                assert(Seq::new(c + 1, |j: int| b) =~= Seq::new(c, |j: int| b).push(b));
                assert(unfold(fold(rs)) =~= unfold(fold(r1)).push(b));
            } else {
                assert(unfold(fold(rs)) =~= unfold(fold(r1)));
            }
        } else {
            assert(rs.drop_last() =~= r1);
            lemma_unfold_concat(fold(r1), fold_run(1, b));
            lemma_unfold_fold_run(1, b);
            if is_op(b) {
                assert(Seq::new(1, |j: int| b) =~= seq![b]);
                assert(unfold(fold(rs)) =~= unfold(fold(r1)).push(b));
            } else {
                assert(unfold(fold(rs)) =~= unfold(fold(r1)));
            }
        }
    }
}

/// Comments change nothing that compiles: for two sources with the same
/// instruction bytes (one with comment bytes inserted anywhere in the other),
/// both are balanced or both are not, and their compiled programs
/// (`fold(runs(..))`, what `Executor::new` gives) spell out the same
/// instructions; they differ at most in how runs are folded.
pub proof fn lemma_comments_ignored(a: Seq<u8>, b: Seq<u8>)
    requires
        ops(a) == ops(b),
        a.len() <= usize::MAX,
        b.len() <= usize::MAX,
    ensures
        balanced(a) == balanced(b),
        unfold(fold(runs(a))) == unfold(fold(runs(b))),
{
    lemma_balanced_iff_ops(a);
    lemma_balanced_iff_ops(b);
    lemma_unfold_fold_runs(a);
    lemma_unfold_fold_runs(b);
}

} // verus!
