//! Properties of the machine that hold for all inputs.
use vstd::prelude::*;
use crate::token::{Prim, TokenV};
use crate::machine::{
    MAX_DEPTH, ErrorV, Frame, FrameKind, State, Status, find_binding, find_word, frame_fits, goto,
    lemma_find_word_fits, run_spec, stack_op, step_spec,
};

verus! {

/// The token that the next step runs, if the top span has one left.
pub open spec fn next_token(s: State) -> Option<TokenV> {
    let n = s.frames.len() as int;
    if n > 0 && s.frames[n - 1].pos < s.frames[n - 1].end {
        Some(s.program[s.frames[n - 1].pos as int])
    } else {
        None
    }
}

pub open spec fn is_shuffle(p: Prim) -> bool {
    matches!(p, Prim::Dup | Prim::Swap | Prim::Over | Prim::Rot)
}

/// The stack after the stack operations `ops` in order, or `None` at the
/// first that finds too few values.
pub open spec fn shuffles(ops: Seq<Prim>, st: Seq<i32>) -> Option<Seq<i32>>
    decreases ops.len(),
{
    if ops.len() == 0 {
        Some(st)
    } else {
        match stack_op(ops[0], st) {
            None => None,
            Some(t) => shuffles(ops.skip(1), t),
        }
    }
}

/// How many of `ops` add a value (`dup` and `over`).
pub open spec fn growth(ops: Seq<Prim>) -> nat
    decreases ops.len(),
{
    if ops.len() == 0 {
        0
    } else {
        (if ops[0] == Prim::Dup || ops[0] == Prim::Over { 1nat } else { 0nat }) + growth(ops.skip(1))
    }
}

/// On top of any stack `below`, with `a b c` on top (`c` topmost):
/// `dup` gives `a b c c`, `swap` gives `a c b`, `over` gives `a b c b` and
/// `rot` gives `b c a`; nothing below is touched.
pub proof fn law_shuffle_permutations(below: Seq<i32>, a: i32, b: i32, c: i32)
    ensures
        stack_op(Prim::Dup, below + seq![a, b, c]) == Some(below + seq![a, b, c, c]),
        stack_op(Prim::Swap, below + seq![a, b, c]) == Some(below + seq![a, c, b]),
        stack_op(Prim::Over, below + seq![a, b, c]) == Some(below + seq![a, b, c, b]),
        stack_op(Prim::Rot, below + seq![a, b, c]) == Some(below + seq![b, c, a]),
{
    let st = below + seq![a, b, c];
    let n = st.len() as int;
    assert(st.take(n - 2) =~= below + seq![a]);
    assert(st.take(n - 3) =~= below);
    assert(stack_op(Prim::Dup, st)->Some_0 =~= below + seq![a, b, c, c]);
    assert(stack_op(Prim::Swap, st)->Some_0 =~= below + seq![a, c, b]);
    assert(stack_op(Prim::Over, st)->Some_0 =~= below + seq![a, b, c, b]);
    assert(stack_op(Prim::Rot, st)->Some_0 =~= below + seq![b, c, a]);
}

/// Any sequence of `dup`, `swap`, `over` and `rot` on a stack of at least
/// three values succeeds; it grows the stack by one for each `dup` and
/// `over`, leaves every value below the top three in place, and every
/// value above them is a copy of one of the top three.
pub proof fn law_shuffle_sequence(ops: Seq<Prim>, st: Seq<i32>)
    requires
        st.len() >= 3,
        forall|i: int| 0 <= i < ops.len() ==> is_shuffle(#[trigger] ops[i]),
    ensures
        shuffles(ops, st) is Some,
        shuffles(ops, st)->Some_0.len() == st.len() + growth(ops),
        shuffles(ops, st)->Some_0.take(st.len() - 3) == st.take(st.len() - 3),
        forall|i: int|
            st.len() - 3 <= i < shuffles(ops, st)->Some_0.len() ==> exists|j: int|
                st.len() - 3 <= j < st.len() && #[trigger] shuffles(ops, st)->Some_0[i] == st[j],
    decreases ops.len(),
{
    if ops.len() > 0 {
        let p = ops[0];
        assert(is_shuffle(ops[0]));
        let n = st.len() as int;
        let t = stack_op(p, st)->Some_0;
        let rest = ops.skip(1);
        assert forall|i: int| 0 <= i < rest.len() implies is_shuffle(#[trigger] rest[i]) by {
            assert(rest[i] == ops[i + 1]);
        }
        assert(t.take(n - 3) =~= st.take(n - 3));
        assert forall|i: int| n - 3 <= i < t.len() implies exists|j: int|
            n - 3 <= j < n && #[trigger] t[i] == st[j] by {
            if i < n {
                if p == Prim::Swap && i >= n - 2 {
                    assert(t[i] == st[2 * n - 3 - i]);
                } else if p == Prim::Rot {
                    if i == n - 3 {
                        assert(t[i] == st[n - 2]);
                    } else if i == n - 2 {
                        assert(t[i] == st[n - 1]);
                    } else {
                        assert(t[i] == st[n - 3]);
                    }
                } else {
                    assert(t[i] == st[i]);
                }
            } else if p == Prim::Dup {
                assert(t[i] == st[n - 1]);
            } else {
                assert(t[i] == st[n - 2]);
            }
        }
        law_shuffle_sequence(rest, t);
        let r = shuffles(rest, t)->Some_0;
        assert(r.take(n - 3) =~= t.take(t.len() - 3).take(n - 3));
        assert forall|i: int| n - 3 <= i < r.len() implies exists|j: int|
            n - 3 <= j < n && #[trigger] r[i] == st[j] by {
            if i < t.len() - 3 {
                assert(r[i] == r.take(t.len() - 3)[i]);
                assert(r[i] == t[i]);
            } else {
                let k = choose|k: int| t.len() - 3 <= k < t.len() && r[i] == t[k];
                assert(n - 3 <= k < t.len());
            }
        }
    }
}

/// A step that fails changes nothing: the failure carries the state as it
/// was, so everything printed before it stays printed and no later token
/// runs.
pub proof fn law_failed_step_changes_nothing(s: State)
    ensures
        step_spec(s) is Err ==> step_spec(s)->Err_0.0 == s,
{
}

/// A run that fails stops at the first failing step, with the state as it
/// was just before that step.
pub proof fn law_failed_run_stops_at_failure(s: State, fuel: nat)
    requires
        run_spec(s, fuel) is Err,
    ensures
        step_spec(run_spec(s, fuel)->Err_0.0) is Err,
        step_spec(run_spec(s, fuel)->Err_0.0)->Err_0 == run_spec(s, fuel)->Err_0,
    decreases fuel,
{
    if fuel > 0 {
        if let Ok((t, st)) = step_spec(s) {
            law_failed_run_stops_at_failure(t, (fuel - 1) as nat);
        }
    }
}

/// A primitive that pops, run on an empty stack, fails with
/// `StackUnderflow` and changes nothing.
pub proof fn law_underflow(s: State, p: Prim)
    requires
        s.wf(),
        next_token(s) == Some(TokenV::Prim(p)),
        s.stack.len() == 0,
        matches!(p, Prim::Plus | Prim::Minus | Prim::Mul | Prim::Div | Prim::Mod | Prim::And
            | Prim::Or | Prim::Less | Prim::Greater | Prim::Equal | Prim::Drop | Prim::Dup
            | Prim::Swap | Prim::Over | Prim::Rot | Prim::Invert | Prim::Dot | Prim::Emit
            | Prim::Fetch | Prim::Store | Prim::Increment | Prim::Allot | Prim::Cells | Prim::If
            | Prim::Do | Prim::Until),
    ensures
        step_spec(s) == Err::<(State, Status), (State, ErrorV)>((s, ErrorV::StackUnderflow)),
{
}

/// A name with no word, variable or constant bound to it fails with
/// `UndefinedWord`, leaving the stack, memory and tables as they were.
pub proof fn law_undefined_word(s: State, name: Seq<char>)
    requires
        s.wf(),
        next_token(s) == Some(TokenV::Word(name)),
        find_word(s.words, name) is None,
        find_binding(s.variables, name) is None,
        find_binding(s.constants, name) is None,
    ensures
        step_spec(s) == Err::<(State, Status), (State, ErrorV)>((s, ErrorV::UndefinedWord(name))),
{
}

/// `@` and `!` with an index outside memory fail with `OutOfBounds` and
/// write no cell.
pub proof fn law_out_of_bounds(s: State, p: Prim)
    requires
        s.wf(),
        next_token(s) == Some(TokenV::Prim(p)),
        p == Prim::Fetch || p == Prim::Store,
        s.stack.len() >= (if p == Prim::Store { 2int } else { 1int }),
        s.stack.last() < 0 || s.stack.last() >= s.memory.len(),
    ensures
        step_spec(s) == Err::<(State, Status), (State, ErrorV)>(
            (s, ErrorV::OutOfBounds(s.stack.last())),
        ),
{
}

/// A word whose whole body is a call of itself never returns: each call
/// adds a span, and the run fails with `ResourceExhausted` once the nesting
/// reaches its bound, rather than going on or wrapping around.
pub proof fn law_endless_recursion(s: State, name: Seq<char>, start: usize, end: usize)
    requires
        s.wf(),
        s.frames.len() < MAX_DEPTH,
        end == start + 1,
        find_word(s.words, name) == Some((start, end)),
        s.program[start as int] == TokenV::Word(name),
        next_token(s) == Some(TokenV::Word(name)),
    ensures
        run_spec(s, (MAX_DEPTH - s.frames.len() + 1) as nat) is Err,
        run_spec(s, (MAX_DEPTH - s.frames.len() + 1) as nat)->Err_0.1 == ErrorV::ResourceExhausted,
    decreases MAX_DEPTH - s.frames.len(),
{
    let n = s.frames.len() as int;
    let f = s.frames[n - 1];
    assert(frame_fits(f, s.program.len()));
    lemma_find_word_fits(s.words, name, s.program.len());
    let s1 = goto(s, (f.pos + 1) as usize);
    let t = State { frames: s1.frames.push(Frame { pos: start, end: end, kind: FrameKind::Plain }), ..s1 };
    assert(step_spec(s) == Ok::<(State, Status), (State, ErrorV)>((t, Status::Running)));
    assert(s1.frames.len() == n);
    assert(t.frames.len() == n + 1);
    assert(t.frames[n] == Frame { pos: start, end: end, kind: FrameKind::Plain });
    assert(t.program == s.program);
    assert(next_token(t) == Some(TokenV::Word(name)));
    if n + 1 < MAX_DEPTH {
        assert(t.wf()) by {
            assert forall|i: int| 0 <= i < t.frames.len() implies frame_fits(#[trigger] t.frames[i], t.program.len()) by {
                if i < n {
                    assert(frame_fits(s.frames[i], s.program.len()));
                }
            }
        }
        law_endless_recursion(t, name, start, end);
    } else {
        let t1 = goto(t, end);
        assert(step_spec(t) == Err::<(State, Status), (State, ErrorV)>((t, ErrorV::ResourceExhausted)));
    }
}

} // verus!
