//! The abstract machine: interpreter state as mathematical values, and what
//! one step of execution does to it.
use vstd::prelude::*;
use crate::token::{Prim, TokenV};
use crate::numeric::{decimal, div_i32, rem_i32};

verus! {

/// The deepest nesting of active token spans (word calls, loop bodies).
pub const MAX_DEPTH: usize = 100000;

/// The most memory cells a program may allocate: every cell index must be
/// a value on the stack.
pub const MAX_CELLS: usize = 2147483647;

/// The size of one cell, as `cells` scales it.
pub const CELL_WIDTH: i32 = 1;

/// What happens when an active span runs out of tokens.
#[derive(Clone, Copy, Debug, PartialEq, Eq, Structural)]
pub enum FrameKind {
    /// The span is finished and removed.
    Plain,
    /// The body of a `do … loop`: the counter advances and, while it stays
    /// below `limit`, the body runs again from `start`.
    Counted { start: usize, limit: i32 },
    /// A `begin` body that had no `until`: an `until` runs when it ends.
    UntilTail,
}

/// An active span `[pos, end)` of the token buffer.
#[derive(Clone, Copy, Debug, PartialEq, Eq, Structural)]
pub struct Frame {
    pub pos: usize,
    pub end: usize,
    pub kind: FrameKind,
}

/// The body stored by `begin`: `[start, end)` of the token buffer, with an
/// `until` added at its end when `tail_until` holds.
#[derive(Clone, Copy, Debug, PartialEq, Eq, Structural)]
pub struct Span {
    pub start: usize,
    pub end: usize,
    pub tail_until: bool,
}

/// What a step left the machine waiting for.
#[derive(Clone, Copy, Debug, PartialEq, Eq, Structural)]
pub enum Status {
    /// More tokens remain.
    Running,
    /// Every span is finished.
    Done,
    /// `key` ran: the caller must supply the code of one input byte.
    NeedKey,
}

/// The failures of a run; each one ends it.
#[derive(Clone, Debug, PartialEq)]
pub enum ForthError {
    StackUnderflow,
    OutOfBounds(i32),
    UndefinedWord(Vec<char>),
    ExpectedIdentifier,
    NotInLoop,
    ArithmeticFailure,
    IoFailure,
    ResourceExhausted,
}

pub enum ErrorV {
    StackUnderflow,
    OutOfBounds(i32),
    UndefinedWord(Seq<char>),
    ExpectedIdentifier,
    NotInLoop,
    ArithmeticFailure,
    IoFailure,
    ResourceExhausted,
}

impl View for ForthError {
    type V = ErrorV;

    open spec fn view(&self) -> ErrorV {
        match self {
            ForthError::StackUnderflow => ErrorV::StackUnderflow,
            ForthError::OutOfBounds(i) => ErrorV::OutOfBounds(*i),
            ForthError::UndefinedWord(w) => ErrorV::UndefinedWord(w@),
            ForthError::ExpectedIdentifier => ErrorV::ExpectedIdentifier,
            ForthError::NotInLoop => ErrorV::NotInLoop,
            ForthError::ArithmeticFailure => ErrorV::ArithmeticFailure,
            ForthError::IoFailure => ErrorV::IoFailure,
            ForthError::ResourceExhausted => ErrorV::ResourceExhausted,
        }
    }
}

/// The whole interpreter state.
#[verifier::ext_equal]
pub struct State {
    pub stack: Seq<i32>,
    pub if_stack: Seq<bool>,
    pub memory: Seq<i32>,
    /// Variable names and their cell indices; the last binding of a name wins.
    pub variables: Seq<(Seq<char>, i32)>,
    /// Constant names and their values; the last binding of a name wins.
    pub constants: Seq<(Seq<char>, i32)>,
    /// Word names and their bodies as spans of the token buffer.
    pub words: Seq<(Seq<char>, usize, usize)>,
    pub counter: i32,
    pub in_loop: bool,
    pub repeat: Option<Span>,
    pub program: Seq<TokenV>,
    pub frames: Seq<Frame>,
    pub output: Seq<char>,
}

/// What one primitive does: the new state, or the error it raises.
pub type Effect = Result<(State, Status), ErrorV>;

/// What a step or a run ends in. A failure carries the state as it was just
/// before the failing step: a step that fails changes nothing, and what was
/// printed before it stays printed.
pub type Outcome = Result<(State, Status), (State, ErrorV)>;

impl State {
    pub open spec fn wf(self) -> bool {
        &&& self.frames.len() <= MAX_DEPTH
        &&& forall|i: int|
            0 <= i < self.frames.len() ==> frame_fits(#[trigger] self.frames[i], self.program.len())
        &&& forall|i: int|
            0 <= i < self.words.len() ==> #[trigger] self.words[i].1 <= self.words[i].2
                <= self.program.len()
        &&& (self.repeat matches Some(sp) ==> sp.start <= sp.end <= self.program.len())
        &&& self.memory.len() <= MAX_CELLS
    }
}

pub open spec fn frame_fits(f: Frame, n: nat) -> bool {
    &&& f.pos <= f.end <= n
    &&& (f.kind matches FrameKind::Counted { start, .. } ==> start <= f.end)
}

/// The value that the last binding of `name` gives it.
pub open spec fn find_binding(bs: Seq<(Seq<char>, i32)>, name: Seq<char>) -> Option<i32>
    decreases bs.len(),
{
    if bs.len() == 0 {
        None
    } else if bs.last().0 == name {
        Some(bs.last().1)
    } else {
        find_binding(bs.drop_last(), name)
    }
}

/// The body span of the last definition of `name`.
pub open spec fn find_word(ws: Seq<(Seq<char>, usize, usize)>, name: Seq<char>) -> Option<
    (usize, usize),
>
    decreases ws.len(),
{
    if ws.len() == 0 {
        None
    } else if ws.last().0 == name {
        Some((ws.last().1, ws.last().2))
    } else {
        find_word(ws.drop_last(), name)
    }
}

/// The index of the first token in `[from, end)` that is the primitive `p`
/// or `q`, or `end` when there is none.
pub open spec fn scan(prog: Seq<TokenV>, from: int, end: int, p: Prim, q: Prim) -> int
    decreases end - from,
{
    if from >= end {
        end
    } else if prog[from] == TokenV::Prim(p) || prog[from] == TokenV::Prim(q) {
        from
    } else {
        scan(prog, from + 1, end, p, q)
    }
}

/// The position just past the marker found by [`scan`], or `end`.
pub open spec fn past(j: int, end: int) -> usize {
    (if j < end { j + 1 } else { end }) as usize
}

/// The Forth truth value: all bits set for true, zero for false.
pub open spec fn flag(b: bool) -> i32 {
    if b { -1i32 } else { 0i32 }
}

pub open spec fn is_binary(p: Prim) -> bool {
    matches!(p, Prim::Plus | Prim::Minus | Prim::Mul | Prim::Div | Prim::Mod | Prim::And | Prim::Or
        | Prim::Less | Prim::Greater | Prim::Equal)
}

/// `b <p> a`, where `a` was on top of the stack; `None` on division by zero.
pub open spec fn binary_value(p: Prim, b: i32, a: i32) -> Option<i32> {
    match p {
        Prim::Plus => Some(b.wrapping_add(a)),
        Prim::Minus => Some(b.wrapping_sub(a)),
        Prim::Mul => Some(b.wrapping_mul(a)),
        Prim::Div => if a == 0 { None } else { Some(div_i32(b, a)) },
        Prim::Mod => if a == 0 { None } else { Some(rem_i32(b, a)) },
        Prim::And => Some(b & a),
        Prim::Or => Some(b | a),
        Prim::Less => Some(flag(b < a)),
        Prim::Greater => Some(flag(b > a)),
        _ => Some(flag(b == a)),
    }
}

pub open spec fn is_stack_op(p: Prim) -> bool {
    matches!(p, Prim::Drop | Prim::Dup | Prim::Swap | Prim::Over | Prim::Rot | Prim::Invert)
}

/// The stack after a shuffle, `drop` or `invert`; `None` when it holds too
/// few values.
pub open spec fn stack_op(p: Prim, st: Seq<i32>) -> Option<Seq<i32>> {
    let n = st.len() as int;
    match p {
        Prim::Drop => if n < 1 { None } else { Some(st.take(n - 1)) },
        Prim::Dup => if n < 1 { None } else { Some(st.push(st[n - 1])) },
        Prim::Swap => if n < 2 { None } else { Some(st.take(n - 2).push(st[n - 1]).push(st[n - 2])) },
        Prim::Over => if n < 2 { None } else { Some(st.push(st[n - 2])) },
        Prim::Rot => if n < 3 {
            None
        } else {
            Some(st.take(n - 3).push(st[n - 2]).push(st[n - 1]).push(st[n - 3]))
        },
        _ => if n < 1 { None } else { Some(st.take(n - 1).push((-1 - st[n - 1]) as i32)) },
    }
}

pub open spec fn is_memory_op(p: Prim) -> bool {
    matches!(p, Prim::Fetch | Prim::Store | Prim::Increment | Prim::Allot | Prim::Cells)
}

pub open spec fn in_memory(s: State, idx: i32) -> bool {
    0 <= idx < s.memory.len()
}

/// `@ ! +! allot cells`.
pub open spec fn memory_op(s: State, p: Prim) -> Effect {
    let st = s.stack;
    let n = st.len() as int;
    if n < 1 {
        Err(ErrorV::StackUnderflow)
    } else {
        let a = st[n - 1];
        let rest = st.take(n - 1);
        match p {
            Prim::Fetch => if !in_memory(s, a) {
                Err(ErrorV::OutOfBounds(a))
            } else {
                Ok((State { stack: rest.push(s.memory[a as int]), ..s }, Status::Running))
            },
            Prim::Store => if n < 2 {
                Err(ErrorV::StackUnderflow)
            } else if !in_memory(s, a) {
                Err(ErrorV::OutOfBounds(a))
            } else {
                Ok((
                    State { stack: st.take(n - 2), memory: s.memory.update(a as int, st[n - 2]), ..s },
                    Status::Running,
                ))
            },
            Prim::Increment => if !in_memory(s, a) {
                Err(ErrorV::OutOfBounds(a))
            } else {
                Ok((
                    State {
                        stack: rest,
                        memory: s.memory.update(a as int, s.memory[a as int].wrapping_add(1)),
                        ..s
                    },
                    Status::Running,
                ))
            },
            Prim::Allot => if a < 0 {
                Err(ErrorV::OutOfBounds(a))
            } else if s.memory.len() + a > MAX_CELLS {
                Err(ErrorV::ResourceExhausted)
            } else {
                Ok((
                    State { stack: rest, memory: s.memory + Seq::new(a as nat, |i: int| 0i32), ..s },
                    Status::Running,
                ))
            },
            _ => Ok((State { stack: rest.push((a * CELL_WIDTH) as i32), ..s }, Status::Running)),
        }
    }
}

/// `s` with the top frame's position set to `pos`.
pub open spec fn goto(s: State, pos: usize) -> State {
    let n = s.frames.len() as int;
    State { frames: s.frames.update(n - 1, Frame { pos, ..s.frames[n - 1] }), ..s }
}

/// `s` with a new active span on top.
pub open spec fn enter(s: State, f: Frame) -> Effect {
    if s.frames.len() >= MAX_DEPTH {
        Err(ErrorV::ResourceExhausted)
    } else {
        Ok((State { frames: s.frames.push(f), ..s }, Status::Running))
    }
}

/// Whether the result `r` and the state `t` after it are what the effect
/// `o` says, where `before` is the state it started from: a failure leaves
/// `before` untouched.
pub open spec fn effect_matches(o: Effect, before: State, t: State, r: Result<Status, ForthError>) -> bool {
    match o {
        Ok((s, st)) => r is Ok && r->Ok_0 == st && t == s,
        Err(e) => r is Err && r->Err_0@ == e && t == before,
    }
}

/// Whether the result `r` and the state `t` after it are what the outcome
/// `o` says, on success and on failure alike.
pub open spec fn outcome_matches(o: Outcome, t: State, r: Result<Status, ForthError>) -> bool {
    match o {
        Ok((s, st)) => r is Ok && r->Ok_0 == st && t == s,
        Err((s, e)) => r is Err && r->Err_0@ == e && t == s,
    }
}

pub open spec fn continue_with(s: State) -> Effect {
    Ok((s, Status::Running))
}

/// The frame that runs the body stored by `begin`.
pub open spec fn repeat_frame(sp: Span) -> Frame {
    Frame {
        pos: sp.start,
        end: sp.end,
        kind: if sp.tail_until { FrameKind::UntilTail } else { FrameKind::Plain },
    }
}

/// `until`: pop the condition; on zero, run the body stored by `begin`
/// again. When `closing`, the top frame has nothing left to do after the
/// `until`: it is removed, or replaced by the repeated body, so that a
/// `begin … until` loop runs at a fixed depth.
pub open spec fn until_op(s: State, closing: bool) -> Effect {
    let n = s.stack.len() as int;
    let m = s.frames.len() as int;
    if n < 1 {
        Err(ErrorV::StackUnderflow)
    } else {
        let c = s.stack[n - 1];
        let s1 = State { stack: s.stack.take(n - 1), ..s };
        if c != 0 || s.repeat is None {
            continue_with(
                State { frames: if closing { s.frames.drop_last() } else { s.frames }, ..s1 },
            )
        } else if closing {
            continue_with(
                State { frames: s.frames.update(m - 1, repeat_frame(s.repeat->Some_0)), ..s1 },
            )
        } else {
            enter(s1, repeat_frame(s.repeat->Some_0))
        }
    }
}

/// Whether the top frame has nothing left to run after the current token.
pub open spec fn top_closing(s: State) -> bool {
    let m = s.frames.len() as int;
    m > 0 && s.frames[m - 1].pos >= s.frames[m - 1].end && s.frames[m - 1].kind == FrameKind::Plain
}

/// The primitives that read the token buffer: `: variable constant if else
/// do begin`. `pos` is the position just past the primitive, `end` the end
/// of its span.
pub open spec fn control_op(s: State, p: Prim, pos: int, end: int) -> Effect {
    let prog = s.program;
    let st = s.stack;
    let n = st.len() as int;
    match p {
        Prim::Colon => if pos >= end {
            Err(ErrorV::ExpectedIdentifier)
        } else {
            match prog[pos] {
                TokenV::Word(name) => {
                    let semi = scan(prog, pos + 1, end, Prim::Semi, Prim::Semi);
                    continue_with(
                        goto(
                            State { words: s.words.push((name, (pos + 1) as usize, semi as usize)), ..s },
                            past(semi, end),
                        ),
                    )
                },
                _ => Err(ErrorV::ExpectedIdentifier),
            }
        },
        Prim::Variable => if pos >= end {
            Err(ErrorV::ExpectedIdentifier)
        } else {
            match prog[pos] {
                TokenV::Word(name) => if s.memory.len() >= MAX_CELLS {
                    Err(ErrorV::ResourceExhausted)
                } else {
                    continue_with(
                        goto(
                            State {
                                variables: s.variables.push((name, s.memory.len() as i32)),
                                memory: s.memory.push(0),
                                ..s
                            },
                            (pos + 1) as usize,
                        ),
                    )
                },
                _ => Err(ErrorV::ExpectedIdentifier),
            }
        },
        Prim::Constant => if pos >= end {
            Err(ErrorV::ExpectedIdentifier)
        } else if n < 1 {
            Err(ErrorV::StackUnderflow)
        } else {
            match prog[pos] {
                TokenV::Word(name) => continue_with(
                    goto(
                        State {
                            stack: st.take(n - 1),
                            constants: s.constants.push((name, st[n - 1])),
                            ..s
                        },
                        (pos + 1) as usize,
                    ),
                ),
                _ => Err(ErrorV::ExpectedIdentifier),
            }
        },
        Prim::If => if n < 1 {
            Err(ErrorV::StackUnderflow)
        } else {
            let c = st[n - 1];
            let s1 = State { stack: st.take(n - 1), if_stack: s.if_stack.push(c != 0), ..s };
            if c != 0 {
                continue_with(s1)
            } else {
                continue_with(goto(s1, past(scan(prog, pos, end, Prim::Then, Prim::Else), end)))
            }
        },
        Prim::Else => if s.if_stack.len() == 0 {
            Err(ErrorV::StackUnderflow)
        } else {
            let taken = s.if_stack.last();
            let s1 = State { if_stack: s.if_stack.drop_last(), ..s };
            if taken {
                continue_with(goto(s1, past(scan(prog, pos, end, Prim::Then, Prim::Then), end)))
            } else {
                continue_with(s1)
            }
        },
        Prim::Do => if n < 2 {
            Err(ErrorV::StackUnderflow)
        } else if st[n - 2] < st[n - 1] && s.frames.len() >= MAX_DEPTH {
            Err(ErrorV::ResourceExhausted)
        } else {
            let limit = st[n - 1];
            let start = st[n - 2];
            let body_end = scan(prog, pos, end, Prim::Loop, Prim::Loop);
            let s1 = goto(
                State { stack: st.take(n - 2), in_loop: true, counter: start, ..s },
                body_end as usize,
            );
            if start < limit {
                enter(
                    s1,
                    Frame {
                        pos: pos as usize,
                        end: body_end as usize,
                        kind: FrameKind::Counted { start: pos as usize, limit },
                    },
                )
            } else {
                continue_with(s1)
            }
        },
        _ => {
            let u = scan(prog, pos, end, Prim::Until, Prim::Until);
            let sp = if u < end {
                Span { start: pos as usize, end: (u + 1) as usize, tail_until: false }
            } else {
                Span { start: pos as usize, end: end as usize, tail_until: true }
            };
            continue_with(State { repeat: Some(sp), ..s })
        },
    }
}

pub open spec fn is_control_op(p: Prim) -> bool {
    matches!(p, Prim::Colon | Prim::Variable | Prim::Constant | Prim::If | Prim::Else | Prim::Do
        | Prim::Begin)
}

/// What the primitive `p` does; `s` already has the top frame moved past it,
/// to `pos`, and `end` ends that frame.
pub open spec fn prim_op(s: State, p: Prim, pos: int, end: int) -> Effect {
    let st = s.stack;
    let n = st.len() as int;
    if is_binary(p) {
        if n < 2 {
            Err(ErrorV::StackUnderflow)
        } else {
            match binary_value(p, st[n - 2], st[n - 1]) {
                None => Err(ErrorV::ArithmeticFailure),
                Some(v) => continue_with(State { stack: st.take(n - 2).push(v), ..s }),
            }
        }
    } else if is_stack_op(p) {
        match stack_op(p, st) {
            None => Err(ErrorV::StackUnderflow),
            Some(st2) => continue_with(State { stack: st2, ..s }),
        }
    } else if is_memory_op(p) {
        memory_op(s, p)
    } else if is_control_op(p) {
        control_op(s, p, pos, end)
    } else {
        match p {
            Prim::Dot => if n < 1 {
                Err(ErrorV::StackUnderflow)
            } else {
                continue_with(
                    State { stack: st.take(n - 1), output: s.output + decimal(st[n - 1] as int), ..s },
                )
            },
            Prim::Emit => if n < 1 {
                Err(ErrorV::StackUnderflow)
            } else {
                continue_with(
                    State {
                        stack: st.take(n - 1),
                        output: s.output.push(((st[n - 1] as u8) as char)),
                        ..s
                    },
                )
            },
            Prim::Cr => continue_with(State { output: s.output.push('\n'), ..s }),
            Prim::Key => Ok((s, Status::NeedKey)),
            Prim::Loop => continue_with(State { in_loop: false, ..s }),
            Prim::Until => until_op(s, top_closing(s)),
            Prim::I => if s.in_loop {
                continue_with(State { stack: st.push(s.counter), ..s })
            } else {
                Err(ErrorV::NotInLoop)
            },
            // `;`, `."`, `"` and `then` only mark places in the buffer.
            _ => continue_with(s),
        }
    }
}

/// A name: run the word's body, else push the variable's cell index, else
/// push the constant's value.
pub open spec fn word_op(s: State, name: Seq<char>) -> Effect {
    match find_word(s.words, name) {
        Some((start, end)) => enter(s, Frame { pos: start, end, kind: FrameKind::Plain }),
        None => match find_binding(s.variables, name) {
            Some(i) => continue_with(State { stack: s.stack.push(i), ..s }),
            None => match find_binding(s.constants, name) {
                Some(v) => continue_with(State { stack: s.stack.push(v), ..s }),
                None => Err(ErrorV::UndefinedWord(name)),
            },
        },
    }
}

/// What the top frame does once its span is used up.
pub open spec fn finish_frame(s: State) -> Effect {
    let n = s.frames.len() as int;
    let f = s.frames[n - 1];
    match f.kind {
        FrameKind::Plain => continue_with(State { frames: s.frames.drop_last(), ..s }),
        FrameKind::Counted { start, limit } => {
            let next = if s.counter < i32::MAX { (s.counter + 1) as i32 } else { s.counter };
            if next < limit {
                continue_with(State { counter: next, ..goto(s, start) })
            } else {
                continue_with(State { counter: next, frames: s.frames.drop_last(), ..s })
            }
        },
        FrameKind::UntilTail => until_op(s, true),
    }
}

/// The outcome of a step from `s` with the effect `e`.
pub open spec fn settle(s: State, e: Effect) -> Outcome {
    match e {
        Ok(x) => Ok(x),
        Err(err) => Err((s, err)),
    }
}

/// One step: finish the top frame if it is used up, else run its next token.
/// A step that fails leaves `s` as it was.
pub open spec fn step_spec(s: State) -> Outcome {
    settle(s, step_effect(s))
}

pub open spec fn step_effect(s: State) -> Effect {
    let n = s.frames.len() as int;
    if n == 0 {
        Ok((s, Status::Done))
    } else {
        let f = s.frames[n - 1];
        if f.pos >= f.end {
            finish_frame(s)
        } else {
            let s1 = goto(s, (f.pos + 1) as usize);
            match s.program[f.pos as int] {
                TokenV::Prim(p) => prim_op(s1, p, f.pos + 1, f.end as int),
                TokenV::Int(v) => continue_with(State { stack: s1.stack.push(v), ..s1 }),
                TokenV::Str(t) => continue_with(State { output: s1.output + t, ..s1 }),
                TokenV::Word(name) => word_op(s1, name),
            }
        }
    }
}

/// Up to `fuel` steps, stopping early at a failure or when a step leaves
/// the machine done or waiting for a key.
pub open spec fn run_spec(s: State, fuel: nat) -> Outcome
    decreases fuel,
{
    if fuel == 0 {
        Ok((s, Status::Running))
    } else {
        match step_spec(s) {
            Err(e) => Err(e),
            Ok((t, Status::Running)) => run_spec(t, (fuel - 1) as nat),
            Ok((t, st)) => Ok((t, st)),
        }
    }
}

/// Appends `ts` to the token buffer and schedules them to run next, on top
/// of whatever is active.
pub open spec fn load_spec(s: State, ts: Seq<TokenV>) -> Result<State, ErrorV> {
    if s.frames.len() >= MAX_DEPTH {
        Err(ErrorV::ResourceExhausted)
    } else {
        let prog = s.program + ts;
        Ok(State {
            program: prog,
            frames: s.frames.push(
                Frame { pos: s.program.len() as usize, end: prog.len() as usize, kind: FrameKind::Plain },
            ),
            ..s
        })
    }
}

pub proof fn lemma_scan_bounds(prog: Seq<TokenV>, from: int, end: int, p: Prim, q: Prim)
    requires
        from <= end,
    ensures
        from <= scan(prog, from, end, p, q) <= end,
    decreases end - from,
{
    if from < end {
        lemma_scan_bounds(prog, from + 1, end, p, q);
    }
}

proof fn lemma_goto_wf(s: State, pos: usize)
    requires
        s.wf(),
        s.frames.len() > 0,
        pos <= s.frames.last().end,
    ensures
        goto(s, pos).wf(),
{
    let t = goto(s, pos);
    assert forall|i: int| 0 <= i < t.frames.len() implies frame_fits(#[trigger] t.frames[i], t.program.len()) by {
        assert(frame_fits(s.frames[i], s.program.len()));
    }
}

proof fn lemma_enter_wf(s: State, f: Frame)
    requires
        s.wf(),
        frame_fits(f, s.program.len()),
        enter(s, f) is Ok,
    ensures
        enter(s, f)->Ok_0.0.wf(),
{
    let t = enter(s, f)->Ok_0.0;
    assert forall|i: int| 0 <= i < t.frames.len() implies frame_fits(#[trigger] t.frames[i], t.program.len()) by {
        if i < s.frames.len() {
            assert(frame_fits(s.frames[i], s.program.len()));
        }
    }
}

proof fn lemma_until_wf(s: State, closing: bool)
    requires
        s.wf(),
        closing ==> s.frames.len() > 0,
        until_op(s, closing) is Ok,
    ensures
        until_op(s, closing)->Ok_0.0.wf(),
{
    let n = s.stack.len() as int;
    let m = s.frames.len() as int;
    let s1 = State { stack: s.stack.take(n - 1), ..s };
    let t = until_op(s, closing)->Ok_0.0;
    if s.stack[n - 1] == 0 && s.repeat is Some && !closing {
        lemma_enter_wf(s1, repeat_frame(s.repeat->Some_0));
    } else {
        assert forall|i: int| 0 <= i < t.frames.len() implies frame_fits(#[trigger] t.frames[i], t.program.len()) by {
            if !(i == m - 1 && closing) || s.stack[n - 1] != 0 || s.repeat is None {
                assert(frame_fits(s.frames[i], s.program.len()));
            }
        }
    }
}

/// A step from a well-formed state that does not fail leaves a well-formed
/// state.
pub proof fn lemma_step_wf(s: State)
    requires
        s.wf(),
    ensures
        step_spec(s) is Ok ==> step_spec(s)->Ok_0.0.wf(),
{
    let n = s.frames.len() as int;
    if n > 0 && step_spec(s) is Ok {
        let f = s.frames[n - 1];
        assert(frame_fits(f, s.program.len()));
        if f.pos >= f.end {
            match f.kind {
                FrameKind::Plain => {
                    let t = step_spec(s)->Ok_0.0;
                    assert forall|i: int| 0 <= i < t.frames.len() implies frame_fits(#[trigger] t.frames[i], t.program.len()) by {
                        assert(frame_fits(s.frames[i], s.program.len()));
                    }
                },
                FrameKind::Counted { start, limit } => {
                    lemma_goto_wf(s, start);
                    let t = step_spec(s)->Ok_0.0;
                    assert forall|i: int| 0 <= i < t.frames.len() implies frame_fits(#[trigger] t.frames[i], t.program.len()) by {
                        assert(frame_fits(s.frames[i], s.program.len()));
                        assert(frame_fits(goto(s, start).frames[i], s.program.len()));
                    }
                },
                FrameKind::UntilTail => {
                    lemma_until_wf(s, true);
                },
            }
        } else {
            let pos = f.pos + 1;
            let end = f.end as int;
            lemma_goto_wf(s, pos as usize);
            let s1 = goto(s, pos as usize);
            match s.program[f.pos as int] {
                TokenV::Prim(p) => lemma_prim_wf(s1, p, pos, end),
                TokenV::Int(v) => {
                    let t = State { stack: s1.stack.push(v), ..s1 };
                    assert forall|i: int| 0 <= i < t.frames.len() implies frame_fits(#[trigger] t.frames[i], t.program.len()) by {
                        assert(frame_fits(s1.frames[i], s1.program.len()));
                    }
                },
                TokenV::Str(x) => {
                    let t = State { output: s1.output + x, ..s1 };
                    assert forall|i: int| 0 <= i < t.frames.len() implies frame_fits(#[trigger] t.frames[i], t.program.len()) by {
                        assert(frame_fits(s1.frames[i], s1.program.len()));
                    }
                },
                TokenV::Word(name) => {
                    lemma_word_wf(s1, name);
                },
            }
        }
    }
}

pub proof fn lemma_find_word_fits(ws: Seq<(Seq<char>, usize, usize)>, name: Seq<char>, n: nat)
    requires
        forall|i: int| 0 <= i < ws.len() ==> #[trigger] ws[i].1 <= ws[i].2 <= n,
    ensures
        find_word(ws, name) matches Some((a, b)) ==> a <= b <= n,
    decreases ws.len(),
{
    if ws.len() > 0 && ws.last().0 != name {
        let w = ws.drop_last();
        assert forall|i: int| 0 <= i < w.len() implies #[trigger] w[i].1 <= w[i].2 <= n by {
            assert(w[i] == ws[i]);
        }
        lemma_find_word_fits(w, name, n);
    }
}

proof fn lemma_word_wf(s: State, name: Seq<char>)
    requires
        s.wf(),
        word_op(s, name) is Ok,
    ensures
        word_op(s, name)->Ok_0.0.wf(),
{
    lemma_find_word_fits(s.words, name, s.program.len());
    match find_word(s.words, name) {
        Some((start, end)) => lemma_enter_wf(s, Frame { pos: start, end, kind: FrameKind::Plain }),
        None => {
            let t = word_op(s, name)->Ok_0.0;
            assert forall|i: int| 0 <= i < t.frames.len() implies frame_fits(#[trigger] t.frames[i], t.program.len()) by {
                assert(frame_fits(s.frames[i], s.program.len()));
            }
        },
    }
}

proof fn lemma_prim_wf(s: State, p: Prim, pos: int, end: int)
    requires
        s.wf(),
        s.frames.len() > 0,
        s.frames.last().end == end,
        0 <= pos <= end,
        prim_op(s, p, pos, end) is Ok,
    ensures
        prim_op(s, p, pos, end)->Ok_0.0.wf(),
{
    let t = prim_op(s, p, pos, end)->Ok_0.0;
    assert(frame_fits(s.frames[s.frames.len() - 1], s.program.len()));
    if is_control_op(p) {
        lemma_control_wf(s, p, pos, end);
    } else if p == Prim::Until {
        lemma_until_wf(s, top_closing(s));
    } else {
        assert(t.frames == s.frames && t.program == s.program && t.words == s.words && t.repeat == s.repeat);
        assert forall|i: int| 0 <= i < t.frames.len() implies frame_fits(#[trigger] t.frames[i], t.program.len()) by {
            assert(frame_fits(s.frames[i], s.program.len()));
        }
    }
}

proof fn lemma_control_wf(s: State, p: Prim, pos: int, end: int)
    requires
        s.wf(),
        s.frames.len() > 0,
        s.frames.last().end == end,
        end <= s.program.len(),
        0 <= pos <= end,
        is_control_op(p),
        control_op(s, p, pos, end) is Ok,
    ensures
        control_op(s, p, pos, end)->Ok_0.0.wf(),
{
    let prog = s.program;
    let st = s.stack;
    let n = st.len() as int;
    let t = control_op(s, p, pos, end)->Ok_0.0;
    match p {
        Prim::Colon => {
            let name = prog[pos]->Word_0;
            lemma_scan_bounds(prog, pos + 1, end, Prim::Semi, Prim::Semi);
            let semi = scan(prog, pos + 1, end, Prim::Semi, Prim::Semi);
            let s1 = State { words: s.words.push((name, (pos + 1) as usize, semi as usize)), ..s };
            assert(s1.wf()) by {
                assert forall|i: int| 0 <= i < s1.words.len() implies #[trigger] s1.words[i].1 <= s1.words[i].2 <= s1.program.len() by {
                    if i < s.words.len() {
                        assert(s1.words[i] == s.words[i]);
                    }
                }
            }
            lemma_goto_wf(s1, past(semi, end));
        },
        Prim::Variable => {
            let name = prog[pos]->Word_0;
            let s1 = State {
                variables: s.variables.push((name, s.memory.len() as i32)),
                memory: s.memory.push(0),
                ..s
            };
            lemma_goto_wf(s1, (pos + 1) as usize);
        },
        Prim::Constant => {
            let name = prog[pos]->Word_0;
            let s1 = State { stack: st.take(n - 1), constants: s.constants.push((name, st[n - 1])), ..s };
            lemma_goto_wf(s1, (pos + 1) as usize);
        },
        Prim::If => {
            let c = st[n - 1];
            let s1 = State { stack: st.take(n - 1), if_stack: s.if_stack.push(c != 0), ..s };
            lemma_scan_bounds(prog, pos, end, Prim::Then, Prim::Else);
            if c == 0 {
                lemma_goto_wf(s1, past(scan(prog, pos, end, Prim::Then, Prim::Else), end));
            }
        },
        Prim::Else => {
            let s1 = State { if_stack: s.if_stack.drop_last(), ..s };
            lemma_scan_bounds(prog, pos, end, Prim::Then, Prim::Then);
            if s.if_stack.last() {
                lemma_goto_wf(s1, past(scan(prog, pos, end, Prim::Then, Prim::Then), end));
            }
        },
        Prim::Do => {
            let limit = st[n - 1];
            let start = st[n - 2];
            lemma_scan_bounds(prog, pos, end, Prim::Loop, Prim::Loop);
            let body_end = scan(prog, pos, end, Prim::Loop, Prim::Loop);
            let s0 = State { stack: st.take(n - 2), in_loop: true, counter: start, ..s };
            lemma_goto_wf(s0, body_end as usize);
            let s1 = goto(s0, body_end as usize);
            if start < limit {
                lemma_enter_wf(
                    s1,
                    Frame {
                        pos: pos as usize,
                        end: body_end as usize,
                        kind: FrameKind::Counted { start: pos as usize, limit },
                    },
                );
            }
        },
        _ => {
            lemma_scan_bounds(prog, pos, end, Prim::Until, Prim::Until);
        },
    }
}
} // verus!
