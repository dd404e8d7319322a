//! The executable interpreter.
use vstd::prelude::*;
use crate::token::{Prim, Token, TokenV, same_chars};
use crate::lexer::{append_chars, token_views};
use crate::numeric::{decimal, divide, push_decimal, remainder};
use crate::machine::{
    CELL_WIDTH, MAX_CELLS, MAX_DEPTH, ErrorV, Frame, FrameKind, ForthError, Span, State, Status,
    binary_value, control_op, enter, find_binding, find_word, finish_frame, frame_fits, goto,
    effect_matches, is_binary, is_control_op, repeat_frame, top_closing, is_memory_op, lemma_step_wf, load_spec, memory_op, outcome_matches,
    past, prim_op, run_spec, scan, stack_op, step_spec, until_op, word_op,
};

verus! {

/// A name bound to an integer.
pub struct Binding {
    pub name: Vec<char>,
    pub value: i32,
}

/// A word: its name and its body, a span of the token buffer.
pub struct WordDef {
    pub name: Vec<char>,
    pub start: usize,
    pub end: usize,
}

pub open spec fn bindings_view(bs: Seq<Binding>) -> Seq<(Seq<char>, i32)> {
    bs.map_values(|b: Binding| (b.name@, b.value))
}

pub open spec fn words_view(ws: Seq<WordDef>) -> Seq<(Seq<char>, usize, usize)> {
    ws.map_values(|w: WordDef| (w.name@, w.start, w.end))
}

/// The interpreter: all run-time state, and the token buffer that word
/// bodies and loop bodies are spans of.
pub struct Interpreter {
    pub stack: Vec<i32>,
    pub if_stack: Vec<bool>,
    pub memory: Vec<i32>,
    pub variables: Vec<Binding>,
    pub constants: Vec<Binding>,
    pub words: Vec<WordDef>,
    /// The counter of the current `do … loop`.
    pub counter: i32,
    /// Whether a `do … loop` is active, which `i` needs.
    pub in_loop: bool,
    /// The body stored by the last `begin`.
    pub repeat: Option<Span>,
    pub program: Vec<Token>,
    pub frames: Vec<Frame>,
    /// What the program printed.
    pub output: Vec<char>,
}

impl View for Interpreter {
    type V = State;

    open spec fn view(&self) -> State {
        State {
            stack: self.stack@,
            if_stack: self.if_stack@,
            memory: self.memory@,
            variables: bindings_view(self.variables@),
            constants: bindings_view(self.constants@),
            words: words_view(self.words@),
            counter: self.counter,
            in_loop: self.in_loop,
            repeat: self.repeat,
            program: token_views(self.program@),
            frames: self.frames@,
            output: self.output@,
        }
    }
}

/// The value of a binary primitive (see [`binary_value`]).
fn binary_of(p: Prim, b: i32, a: i32) -> (r: Option<i32>)
    requires
        is_binary(p),
    ensures
        r == binary_value(p, b, a),
{
    match p {
        Prim::Plus => Some(b.wrapping_add(a)),
        Prim::Minus => Some(b.wrapping_sub(a)),
        Prim::Mul => Some(b.wrapping_mul(a)),
        Prim::Div => if a == 0 { None } else { Some(divide(b, a)) },
        Prim::Mod => if a == 0 { None } else { Some(remainder(b, a)) },
        Prim::And => Some(b & a),
        Prim::Or => Some(b | a),
        Prim::Less => Some(if b < a { -1 } else { 0 }),
        Prim::Greater => Some(if b > a { -1 } else { 0 }),
        _ => Some(if b == a { -1 } else { 0 }),
    }
}

/// Whether `r` and `new` are what the stack operation `p` gives on `old`.
pub open spec fn stack_op_matches(p: Prim, old: State, new: State, r: Result<(), ForthError>) -> bool {
    match stack_op(p, old.stack) {
        None => r is Err && r->Err_0@ == ErrorV::StackUnderflow && new == old,
        Some(st) => r is Ok && new == (State { stack: st, ..old }),
    }
}

/// Whether the names are equal.
fn same_name(a: &Vec<char>, b: &Vec<char>) -> (r: bool)
    ensures
        r == (a@ == b@),
{
    same_chars(a, b.as_slice())
}

/// Looks `name` up in `bs`, the last binding first.
fn lookup(bs: &Vec<Binding>, name: &Vec<char>) -> (r: Option<i32>)
    ensures
        r == find_binding(bindings_view(bs@), name@),
{
    let mut i = bs.len();
    assert(bs@.take(i as int) =~= bs@);
    while i > 0
        invariant
            i <= bs@.len(),
            find_binding(bindings_view(bs@), name@) == find_binding(
                bindings_view(bs@.take(i as int)),
                name@,
            ),
        decreases i,
    {
        let ghost pre = bindings_view(bs@.take(i as int));
        assert(pre.drop_last() =~= bindings_view(bs@.take(i - 1)));
        if same_name(&bs[i - 1].name, name) {
            return Some(bs[i - 1].value);
        }
        i -= 1;
    }
    None
}

impl Interpreter {
    pub open spec fn wf(&self) -> bool {
        self@.wf()
    }

    /// An interpreter with empty stacks, memory and tables, and nothing to run.
    pub fn new() -> (r: Self)
        ensures
            r.wf(),
            r@.stack.len() == 0,
            r@.if_stack.len() == 0,
            r@.memory.len() == 0,
            r@.variables.len() == 0,
            r@.constants.len() == 0,
            r@.words.len() == 0,
            r@.counter == 0,
            !r@.in_loop,
            r@.repeat is None,
            r@.program.len() == 0,
            r@.frames.len() == 0,
            r@.output.len() == 0,
    {
        Interpreter {
            stack: Vec::new(),
            if_stack: Vec::new(),
            memory: Vec::new(),
            variables: Vec::new(),
            constants: Vec::new(),
            words: Vec::new(),
            counter: 0,
            in_loop: false,
            repeat: None,
            program: Vec::new(),
            frames: Vec::new(),
            output: Vec::new(),
        }
    }

    pub fn push(&mut self, value: i32)
        ensures
            final(self)@ == (State { stack: old(self)@.stack.push(value), ..old(self)@ }),
    {
        self.stack.push(value);
        assert(final(self)@ =~= (State { stack: old(self)@.stack.push(value), ..old(self)@ }));
    }

    /// Removes and returns the top of the stack.
    pub fn pop(&mut self) -> (r: Result<i32, ForthError>)
        ensures
            old(self)@.stack.len() == 0 ==> r is Err && r->Err_0@ == ErrorV::StackUnderflow
                && final(self)@ == old(self)@,
            old(self)@.stack.len() > 0 ==> r == Ok::<i32, ForthError>(old(self)@.stack.last())
                && final(self)@ == (State { stack: old(self)@.stack.drop_last(), ..old(self)@ }),
    {
        match self.stack.pop() {
            Some(v) => {
                assert(final(self)@ =~= (State { stack: old(self)@.stack.drop_last(), ..old(self)@ }));
                Ok(v)
            },
            None => {
                assert(final(self)@ =~= old(self)@);
                Err(ForthError::StackUnderflow)
            },
        }
    }

    /// Copies the top value.
    pub fn dup(&mut self) -> (r: Result<(), ForthError>)
        ensures
            stack_op_matches(Prim::Dup, old(self)@, final(self)@, r),
    {
        let n = self.stack.len();
        if n < 1 {
            return Err(ForthError::StackUnderflow);
        }
        let a = self.stack[n - 1];
        self.stack.push(a);
        assert(final(self)@ =~= (State { stack: stack_op(Prim::Dup, old(self)@.stack)->Some_0, ..old(self)@ }));
        Ok(())
    }

    /// Exchanges the two top values.
    pub fn swap(&mut self) -> (r: Result<(), ForthError>)
        ensures
            stack_op_matches(Prim::Swap, old(self)@, final(self)@, r),
    {
        let n = self.stack.len();
        if n < 2 {
            return Err(ForthError::StackUnderflow);
        }
        let a = self.stack[n - 1];
        let b = self.stack[n - 2];
        self.stack[n - 1] = b;
        self.stack[n - 2] = a;
        assert(self.stack@ =~= stack_op(Prim::Swap, old(self)@.stack)->Some_0);
        assert(final(self)@ =~= (State { stack: stack_op(Prim::Swap, old(self)@.stack)->Some_0, ..old(self)@ }));
        Ok(())
    }

    /// Copies the second value onto the top.
    pub fn over(&mut self) -> (r: Result<(), ForthError>)
        ensures
            stack_op_matches(Prim::Over, old(self)@, final(self)@, r),
    {
        let n = self.stack.len();
        if n < 2 {
            return Err(ForthError::StackUnderflow);
        }
        let b = self.stack[n - 2];
        self.stack.push(b);
        assert(final(self)@ =~= (State { stack: stack_op(Prim::Over, old(self)@.stack)->Some_0, ..old(self)@ }));
        Ok(())
    }

    /// Moves the third value to the top: `c b a` becomes `b a c`.
    pub fn rot(&mut self) -> (r: Result<(), ForthError>)
        ensures
            stack_op_matches(Prim::Rot, old(self)@, final(self)@, r),
    {
        let n = self.stack.len();
        if n < 3 {
            return Err(ForthError::StackUnderflow);
        }
        let a = self.stack[n - 1];
        let b = self.stack[n - 2];
        let c = self.stack[n - 3];
        self.stack[n - 3] = b;
        self.stack[n - 2] = a;
        self.stack[n - 1] = c;
        assert(self.stack@ =~= stack_op(Prim::Rot, old(self)@.stack)->Some_0);
        assert(final(self)@ =~= (State { stack: stack_op(Prim::Rot, old(self)@.stack)->Some_0, ..old(self)@ }));
        Ok(())
    }

    /// Replaces the top value `a` with `-a - 1`, its bitwise complement.
    pub fn invert(&mut self) -> (r: Result<(), ForthError>)
        ensures
            stack_op_matches(Prim::Invert, old(self)@, final(self)@, r),
    {
        let n = self.stack.len();
        if n < 1 {
            return Err(ForthError::StackUnderflow);
        }
        let a = self.stack[n - 1];
        self.stack[n - 1] = -1 - a;
        assert(self.stack@ =~= stack_op(Prim::Invert, old(self)@.stack)->Some_0);
        assert(final(self)@ =~= (State { stack: stack_op(Prim::Invert, old(self)@.stack)->Some_0, ..old(self)@ }));
        Ok(())
    }

    /// Discards the top value.
    pub fn drop(&mut self) -> (r: Result<(), ForthError>)
        ensures
            stack_op_matches(Prim::Drop, old(self)@, final(self)@, r),
    {
        let n = self.stack.len();
        if n < 1 {
            return Err(ForthError::StackUnderflow);
        }
        self.stack.pop();
        assert(self.stack@ =~= stack_op(Prim::Drop, old(self)@.stack)->Some_0);
        assert(final(self)@ =~= (State { stack: stack_op(Prim::Drop, old(self)@.stack)->Some_0, ..old(self)@ }));
        Ok(())
    }

    /// Pops `a` then `b` and pushes `b <p> a`.
    fn binary(&mut self, p: Prim) -> (r: Result<Status, ForthError>)
        requires
            is_binary(p),
        ensures
            effect_matches(prim_op(old(self)@, p, 0, 0), old(self)@, final(self)@, r),
    {
        let n = self.stack.len();
        if n < 2 {
            return Err(ForthError::StackUnderflow);
        }
        let a = self.stack[n - 1];
        let b = self.stack[n - 2];
        match binary_of(p, b, a) {
            None => Err(ForthError::ArithmeticFailure),
            Some(v) => {
                self.stack.pop();
                self.stack[n - 2] = v;
                assert(final(self)@ =~= (State { stack: old(self)@.stack.take(n - 2).push(v), ..old(self)@ }));
                Ok(Status::Running)
            },
        }
    }

    /// `@ ! +! allot cells` (see [`memory_op`]).
    fn memory_prim(&mut self, p: Prim) -> (r: Result<Status, ForthError>)
        requires
            old(self).wf(),
            is_memory_op(p),
        ensures
            effect_matches(memory_op(old(self)@, p), old(self)@, final(self)@, r),
    {
        let ghost s = old(self)@;
        let n = self.stack.len();
        if n < 1 {
            return Err(ForthError::StackUnderflow);
        }
        let a = self.stack[n - 1];
        let in_range = 0 <= a && (a as usize) < self.memory.len();
        match p {
            Prim::Fetch => {
                if !in_range {
                    return Err(ForthError::OutOfBounds(a));
                }
                let v = self.memory[a as usize];
                self.stack[n - 1] = v;
                assert(final(self)@ =~= (State { stack: s.stack.take(n - 1).push(v), ..s }));
            },
            Prim::Store => {
                if n < 2 {
                    return Err(ForthError::StackUnderflow);
                }
                if !in_range {
                    return Err(ForthError::OutOfBounds(a));
                }
                let v = self.stack[n - 2];
                self.stack.pop();
                self.stack.pop();
                self.memory[a as usize] = v;
                assert(final(self)@ =~= (State {
                    stack: s.stack.take(n - 2),
                    memory: s.memory.update(a as int, v),
                    ..s
                }));
            },
            Prim::Increment => {
                if !in_range {
                    return Err(ForthError::OutOfBounds(a));
                }
                let v = self.memory[a as usize].wrapping_add(1);
                self.stack.pop();
                self.memory[a as usize] = v;
                assert(final(self)@ =~= (State {
                    stack: s.stack.take(n - 1),
                    memory: s.memory.update(a as int, v),
                    ..s
                }));
            },
            Prim::Allot => {
                if a < 0 {
                    return Err(ForthError::OutOfBounds(a));
                }
                if (a as usize) > MAX_CELLS - self.memory.len() {
                    return Err(ForthError::ResourceExhausted);
                }
                self.stack.pop();
                let ghost s1 = self@;
                let mut k: usize = 0;
                while k < a as usize
                    invariant
                        0 <= k <= a,
                        self@ == (State { memory: self.memory@, ..s1 }),
                        self.memory@ == s.memory + Seq::new(k as nat, |i: int| 0i32),
                    decreases a - k,
                {
                    self.memory.push(0);
                    k += 1;
                    assert(self.memory@ =~= s.memory + Seq::new(k as nat, |i: int| 0i32));
                }
                assert(final(self)@ =~= (State {
                    stack: s.stack.take(n - 1),
                    memory: s.memory + Seq::new(a as nat, |i: int| 0i32),
                    ..s
                }));
            },
            _ => {
                self.stack[n - 1] = a * CELL_WIDTH;
                assert(final(self)@ =~= (State { stack: s.stack.take(n - 1).push((a * CELL_WIDTH) as i32), ..s }));
            },
        }
        Ok(Status::Running)
    }


    /// Moves the top frame to `pos`.
    fn goto_pos(&mut self, pos: usize)
        requires
            old(self)@.frames.len() > 0,
        ensures
            final(self)@ == goto(old(self)@, pos),
    {
        let n = self.frames.len();
        let f = self.frames[n - 1];
        self.frames[n - 1] = Frame { pos, ..f };
        assert(final(self)@ =~= goto(old(self)@, pos));
    }

    /// Starts running the span `f`.
    fn enter_frame(&mut self, f: Frame) -> (r: Result<Status, ForthError>)
        ensures
            effect_matches(enter(old(self)@, f), old(self)@, final(self)@, r),
    {
        if self.frames.len() >= MAX_DEPTH {
            return Err(ForthError::ResourceExhausted);
        }
        self.frames.push(f);
        assert(final(self)@ =~= (State { frames: old(self)@.frames.push(f), ..old(self)@ }));
        Ok(Status::Running)
    }

    /// The first position in `[from, end)` holding `p` or `q`, else `end`.
    fn scan_for(&self, from: usize, end: usize, p: Prim, q: Prim) -> (r: usize)
        requires
            from <= end <= self@.program.len(),
        ensures
            r == scan(self@.program, from as int, end as int, p, q),
            from <= r <= end,
    {
        let mut i = from;
        while i < end
            invariant
                from <= i <= end <= self@.program.len(),
                scan(self@.program, from as int, end as int, p, q) == scan(
                    self@.program,
                    i as int,
                    end as int,
                    p,
                    q,
                ),
            decreases end - i,
        {
            let hit = match &self.program[i] {
                Token::Prim(x) => *x == p || *x == q,
                _ => false,
            };
            assert(self@.program[i as int] == self.program@[i as int]@);
            if hit {
                return i;
            }
            i += 1;
        }
        i
    }

    /// `until` (see [`until_op`]); `closing` says that the top frame has
    /// nothing left to run.
    fn until(&mut self, closing: bool) -> (r: Result<Status, ForthError>)
        requires
            closing ==> old(self)@.frames.len() > 0,
        ensures
            effect_matches(until_op(old(self)@, closing), old(self)@, final(self)@, r),
    {
        let ghost s = old(self)@;
        let n = self.stack.len();
        if n < 1 {
            return Err(ForthError::StackUnderflow);
        }
        let c = self.stack[n - 1];
        let repeat = self.repeat;
        if c == 0 {
            if let Some(sp) = repeat {
                if !closing && self.frames.len() >= MAX_DEPTH {
                    return Err(ForthError::ResourceExhausted);
                }
                let f = Frame {
                    pos: sp.start,
                    end: sp.end,
                    kind: if sp.tail_until { FrameKind::UntilTail } else { FrameKind::Plain },
                };
                self.stack.pop();
                if closing {
                    let m = self.frames.len();
                    self.frames[m - 1] = f;
                } else {
                    self.frames.push(f);
                }
                assert(self@ =~= until_op(s, closing)->Ok_0.0);
                return Ok(Status::Running);
            }
        }
        self.stack.pop();
        if closing {
            self.frames.pop();
        }
        assert(self@ =~= until_op(s, closing)->Ok_0.0);
        Ok(Status::Running)
    }

    /// The name held by the token at `pos`, if it is a name.
    fn name_at(&self, pos: usize) -> (r: Option<Vec<char>>)
        requires
            pos < self@.program.len(),
        ensures
            match self@.program[pos as int] {
                TokenV::Word(w) => r is Some && r->Some_0@ == w,
                _ => r is None,
            },
    {
        assert(self@.program[pos as int] == self.program@[pos as int]@);
        match &self.program[pos] {
            Token::Word(w) => Some(w.clone()),
            _ => None,
        }
    }

    /// `: variable constant if else do begin` (see [`control_op`]).
    fn control_prim(&mut self, p: Prim, pos: usize, end: usize) -> (r: Result<Status, ForthError>)
        requires
            old(self)@.frames.len() > 0,
            pos <= end <= old(self)@.program.len(),
            old(self)@.memory.len() <= MAX_CELLS,
            is_control_op(p),
        ensures
            effect_matches(control_op(old(self)@, p, pos as int, end as int), old(self)@, final(self)@, r),
    {
        let ghost s = old(self)@;
        let n = self.stack.len();
        match p {
            Prim::Colon => {
                if pos >= end {
                    return Err(ForthError::ExpectedIdentifier);
                }
                match self.name_at(pos) {
                    None => Err(ForthError::ExpectedIdentifier),
                    Some(name) => {
                        let semi = self.scan_for(pos + 1, end, Prim::Semi, Prim::Semi);
                        let ghost nm = name@;
                        self.add_word(name, pos + 1, semi);
                        self.goto_pos(if semi < end { semi + 1 } else { end });
                        assert(self@ =~= goto(
                            State { words: s.words.push((nm, (pos + 1) as usize, semi)), ..s },
                            past(semi as int, end as int),
                        ));
                        Ok(Status::Running)
                    },
                }
            },
            Prim::Variable => {
                if pos >= end {
                    return Err(ForthError::ExpectedIdentifier);
                }
                match self.name_at(pos) {
                    None => Err(ForthError::ExpectedIdentifier),
                    Some(name) => {
                        if self.memory.len() >= MAX_CELLS {
                            return Err(ForthError::ResourceExhausted);
                        }
                        let ghost nm = name@;
                        let index = self.memory.len() as i32;
                        self.variables.push(Binding { name, value: index });
                        self.memory.push(0);
                        self.goto_pos(pos + 1);
                        assert(self@ =~= goto(
                            State {
                                variables: s.variables.push((nm, s.memory.len() as i32)),
                                memory: s.memory.push(0),
                                ..s
                            },
                            (pos + 1) as usize,
                        ));
                        Ok(Status::Running)
                    },
                }
            },
            Prim::Constant => {
                if pos >= end {
                    return Err(ForthError::ExpectedIdentifier);
                }
                if n < 1 {
                    return Err(ForthError::StackUnderflow);
                }
                match self.name_at(pos) {
                    None => Err(ForthError::ExpectedIdentifier),
                    Some(name) => {
                        let ghost nm = name@;
                        let v = self.stack[n - 1];
                        self.stack.pop();
                        self.constants.push(Binding { name, value: v });
                        self.goto_pos(pos + 1);
                        assert(self@ =~= goto(
                            State {
                                stack: s.stack.take(n - 1),
                                constants: s.constants.push((nm, v)),
                                ..s
                            },
                            (pos + 1) as usize,
                        ));
                        Ok(Status::Running)
                    },
                }
            },
            Prim::If => {
                if n < 1 {
                    return Err(ForthError::StackUnderflow);
                }
                let c = self.stack[n - 1];
                self.stack.pop();
                self.if_stack.push(c != 0);
                assert(self@ =~= (State { stack: s.stack.take(n - 1), if_stack: s.if_stack.push(c != 0), ..s }));
                if c == 0 {
                    let j = self.scan_for(pos, end, Prim::Then, Prim::Else);
                    self.goto_pos(if j < end { j + 1 } else { end });
                }
                Ok(Status::Running)
            },
            Prim::Else => {
                let m = self.if_stack.len();
                if m == 0 {
                    return Err(ForthError::StackUnderflow);
                }
                let taken = self.if_stack[m - 1];
                self.if_stack.pop();
                assert(self@ =~= (State { if_stack: s.if_stack.drop_last(), ..s }));
                if taken {
                    let j = self.scan_for(pos, end, Prim::Then, Prim::Then);
                    self.goto_pos(if j < end { j + 1 } else { end });
                }
                Ok(Status::Running)
            },
            Prim::Do => {
                if n < 2 {
                    return Err(ForthError::StackUnderflow);
                }
                let limit = self.stack[n - 1];
                let start = self.stack[n - 2];
                if start < limit && self.frames.len() >= MAX_DEPTH {
                    return Err(ForthError::ResourceExhausted);
                }
                self.stack.pop();
                self.stack.pop();
                self.in_loop = true;
                self.counter = start;
                let body_end = self.scan_for(pos, end, Prim::Loop, Prim::Loop);
                self.goto_pos(body_end);
                assert(self@ =~= goto(
                    State { stack: s.stack.take(n - 2), in_loop: true, counter: start, ..s },
                    body_end,
                ));
                if start < limit {
                    self.enter_frame(
                        Frame { pos, end: body_end, kind: FrameKind::Counted { start: pos, limit } },
                    )
                } else {
                    Ok(Status::Running)
                }
            },
            _ => {
                let u = self.scan_for(pos, end, Prim::Until, Prim::Until);
                let sp = if u < end {
                    Span { start: pos, end: u + 1, tail_until: false }
                } else {
                    Span { start: pos, end, tail_until: true }
                };
                self.repeat = Some(sp);
                assert(self@ =~= (State { repeat: Some(sp), ..s }));
                Ok(Status::Running)
            },
        }
    }

    /// Defines (or redefines) the word `name` with the body `[start, end)`.
    pub fn add_word(&mut self, name: Vec<char>, start: usize, end: usize)
        ensures
            final(self)@ == (State {
                words: old(self)@.words.push((name@, start, end)),
                ..old(self)@
            }),
    {
        let ghost nm = name@;
        self.words.push(WordDef { name, start, end });
        assert(final(self)@ =~= (State { words: old(self)@.words.push((nm, start, end)), ..old(self)@ }));
    }


    /// The body of the last definition of `name`.
    fn lookup_word(&self, name: &Vec<char>) -> (r: Option<(usize, usize)>)
        ensures
            r == find_word(self@.words, name@),
    {
        let ghost ws = self@.words;
        let mut i = self.words.len();
        assert(self.words@.take(i as int) =~= self.words@);
        while i > 0
            invariant
                i <= self.words@.len(),
                ws == words_view(self.words@),
                find_word(ws, name@) == find_word(words_view(self.words@.take(i as int)), name@),
            decreases i,
        {
            let ghost pre = words_view(self.words@.take(i as int));
            assert(pre.drop_last() =~= words_view(self.words@.take(i - 1)));
            if same_name(&self.words[i - 1].name, name) {
                return Some((self.words[i - 1].start, self.words[i - 1].end));
            }
            i -= 1;
        }
        None
    }

    /// Runs a name: a word's body, else a variable's index, else a
    /// constant's value (see [`word_op`]). For a word, this only schedules
    /// the body as a new frame; later steps run it.
    pub fn handle_word(&mut self, word: &Vec<char>) -> (r: Result<Status, ForthError>)
        ensures
            effect_matches(word_op(old(self)@, word@), old(self)@, final(self)@, r),
    {
        match self.lookup_word(word) {
            Some((start, end)) => self.enter_frame(Frame { pos: start, end, kind: FrameKind::Plain }),
            None => match lookup(&self.variables, word) {
                Some(index) => {
                    self.push(index);
                    Ok(Status::Running)
                },
                None => match lookup(&self.constants, word) {
                    Some(value) => {
                        self.push(value);
                        Ok(Status::Running)
                    },
                    None => Err(ForthError::UndefinedWord(word.clone())),
                },
            },
        }
    }

    /// Runs the primitive `p`; the top frame already stands at `pos`, and
    /// `end` ends it (see [`prim_op`]).
    fn prim(&mut self, p: Prim, pos: usize, end: usize) -> (r: Result<Status, ForthError>)
        requires
            old(self)@.frames.len() > 0,
            pos <= end <= old(self)@.program.len(),
            old(self).wf(),
        ensures
            effect_matches(prim_op(old(self)@, p, pos as int, end as int), old(self)@, final(self)@, r),
    {
        let ghost s = old(self)@;
        let n = self.stack.len();
        match p {
            Prim::Plus | Prim::Minus | Prim::Mul | Prim::Div | Prim::Mod | Prim::And | Prim::Or
            | Prim::Less | Prim::Greater | Prim::Equal => self.binary(p),
            Prim::Drop | Prim::Dup | Prim::Swap | Prim::Over | Prim::Rot | Prim::Invert => {
                let done = match p {
                    Prim::Drop => self.drop(),
                    Prim::Dup => self.dup(),
                    Prim::Swap => self.swap(),
                    Prim::Over => self.over(),
                    Prim::Rot => self.rot(),
                    _ => self.invert(),
                };
                match done {
                    Ok(()) => Ok(Status::Running),
                    Err(e) => Err(e),
                }
            },
            Prim::Fetch | Prim::Store | Prim::Increment | Prim::Allot | Prim::Cells => {
                self.memory_prim(p)
            },
            Prim::Colon | Prim::Variable | Prim::Constant | Prim::If | Prim::Else | Prim::Do
            | Prim::Begin => self.control_prim(p, pos, end),
            Prim::Dot => {
                if n < 1 {
                    return Err(ForthError::StackUnderflow);
                }
                let a = self.stack[n - 1];
                self.stack.pop();
                push_decimal(&mut self.output, a);
                assert(self@ =~= (State {
                    stack: s.stack.take(n - 1),
                    output: s.output + decimal(a as int),
                    ..s
                }));
                Ok(Status::Running)
            },
            Prim::Emit => {
                if n < 1 {
                    return Err(ForthError::StackUnderflow);
                }
                let a = self.stack[n - 1];
                self.stack.pop();
                #[verifier::truncate]
                let c = (a as u8) as char;
                self.output.push(c);
                assert(self@ =~= (State {
                    stack: s.stack.take(n - 1),
                    output: s.output.push(c),
                    ..s
                }));
                Ok(Status::Running)
            },
            Prim::Cr => {
                self.output.push('\n');
                assert(self@ =~= (State { output: s.output.push('\n'), ..s }));
                Ok(Status::Running)
            },
            Prim::Key => Ok(Status::NeedKey),
            Prim::Loop => {
                self.in_loop = false;
                assert(self@ =~= (State { in_loop: false, ..s }));
                Ok(Status::Running)
            },
            Prim::Until => {
                let m = self.frames.len();
                let top = self.frames[m - 1];
                let closing = top.pos >= top.end && matches!(top.kind, FrameKind::Plain);
                self.until(closing)
            },
            Prim::I => {
                if !self.in_loop {
                    return Err(ForthError::NotInLoop);
                }
                let c = self.counter;
                self.push(c);
                Ok(Status::Running)
            },
            _ => Ok(Status::Running),
        }
    }

    /// Ends the top frame, whose span is used up (see [`finish_frame`]).
    fn finish(&mut self) -> (r: Result<Status, ForthError>)
        requires
            old(self)@.frames.len() > 0,
        ensures
            effect_matches(finish_frame(old(self)@), old(self)@, final(self)@, r),
    {
        let ghost s = old(self)@;
        let n = self.frames.len();
        let f = self.frames[n - 1];
        match f.kind {
            FrameKind::Plain => {
                self.frames.pop();
                assert(self@ =~= (State { frames: s.frames.drop_last(), ..s }));
                Ok(Status::Running)
            },
            FrameKind::Counted { start, limit } => {
                let next = if self.counter < i32::MAX { self.counter + 1 } else { self.counter };
                self.counter = next;
                if next < limit {
                    self.goto_pos(start);
                    assert(self@ =~= (State { counter: next, ..goto(s, start) }));
                } else {
                    self.frames.pop();
                    assert(self@ =~= (State { counter: next, frames: s.frames.drop_last(), ..s }));
                }
                Ok(Status::Running)
            },
            FrameKind::UntilTail => self.until(true),
        }
    }

    /// Runs one step: ends the top frame if its span is used up, else runs
    /// the frame's next token (see [`step_spec`]).
    pub fn step(&mut self) -> (r: Result<Status, ForthError>)
        requires
            old(self).wf(),
        ensures
            outcome_matches(step_spec(old(self)@), final(self)@, r),
            r is Ok ==> final(self).wf(),
    {
        proof {
            lemma_step_wf(self@);
        }
        let ghost s = old(self)@;
        let n = self.frames.len();
        if n == 0 {
            return Ok(Status::Done);
        }
        let f = self.frames[n - 1];
        assert(frame_fits(s.frames[n - 1], s.program.len()));
        if f.pos >= f.end {
            return self.finish();
        }
        let pos = f.pos;
        self.goto_pos(pos + 1);
        assert(self@.program[pos as int] == self.program@[pos as int]@);
        let r = match &self.program[pos] {
            Token::Prim(p) => {
                let p = *p;
                self.prim(p, pos + 1, f.end)
            },
            Token::Int(v) => {
                let v = *v;
                self.push(v);
                Ok(Status::Running)
            },
            Token::Str(t) => {
                let t = t.clone();
                let ghost s1 = self@;
                append_chars(&mut self.output, &t);
                assert(self@ =~= (State { output: s1.output + t@, ..s1 }));
                Ok(Status::Running)
            },
            Token::Word(w) => {
                let w = w.clone();
                self.handle_word(&w)
            },
        };
        match r {
            Err(e) => {
                // A failing token leaves the frame where it was.
                self.goto_pos(pos);
                assert(self@.frames =~= s.frames);
                assert(self@ =~= s);
                Err(e)
            },
            _ => r,
        }
    }


    /// Appends `tokens` to the token buffer and schedules them to run next
    /// (see [`load_spec`]).
    pub fn load(&mut self, tokens: Vec<Token>) -> (r: Result<(), ForthError>)
        requires
            old(self).wf(),
        ensures
            match load_spec(old(self)@, token_views(tokens@)) {
                Ok(t) => r is Ok && final(self)@ == t && final(self).wf(),
                Err(e) => r is Err && r->Err_0@ == e && final(self)@ == old(self)@,
            },
    {
        let ghost s = old(self)@;
        if self.frames.len() >= MAX_DEPTH {
            assert(self@ =~= s);
            assert(load_spec(s, token_views(tokens@)) == Err::<State, ErrorV>(ErrorV::ResourceExhausted));
            return Err(ForthError::ResourceExhausted);
        }
        let start = self.program.len();
        let mut tokens = tokens;
        let ghost ts = tokens@;
        self.program.append(&mut tokens);
        let end = self.program.len();
        self.frames.push(Frame { pos: start, end, kind: FrameKind::Plain });
        assert(token_views(self.program@) =~= s.program + token_views(ts));
        assert(self@ =~= load_spec(s, token_views(ts))->Ok_0);
        assert forall|i: int| 0 <= i < self@.frames.len() implies frame_fits(#[trigger] self@.frames[i], self@.program.len()) by {
            if i < s.frames.len() {
                assert(frame_fits(s.frames[i], s.program.len()));
            }
        }
        Ok(())
    }

    /// Runs up to `fuel` steps (see [`run_spec`]). `Running` means the fuel
    /// ran out; `NeedKey` asks for [`Interpreter::supply_key`] before the run
    /// goes on.
    pub fn run(&mut self, fuel: usize) -> (r: Result<Status, ForthError>)
        requires
            old(self).wf(),
        ensures
            outcome_matches(run_spec(old(self)@, fuel as nat), final(self)@, r),
            r is Ok ==> final(self).wf(),
    {
        let mut left = fuel;
        while left > 0
            invariant
                self.wf(),
                run_spec(old(self)@, fuel as nat) == run_spec(self@, left as nat),
            decreases left,
        {
            let r = self.step();
            match r {
                Ok(Status::Running) => {},
                _ => {
                    return r;
                },
            }
            left -= 1;
        }
        Ok(Status::Running)
    }

    /// Loads `tokens` and runs up to `fuel` steps.
    pub fn interpret_tokens(&mut self, tokens: Vec<Token>, fuel: usize) -> (r: Result<
        Status,
        ForthError,
    >)
        requires
            old(self).wf(),
        ensures
            match load_spec(old(self)@, token_views(tokens@)) {
                Ok(t) => outcome_matches(run_spec(t, fuel as nat), final(self)@, r),
                Err(e) => r is Err && r->Err_0@ == e && final(self)@ == old(self)@,
            },
            r is Ok ==> final(self).wf(),
    {
        match self.load(tokens) {
            Ok(()) => self.run(fuel),
            Err(e) => Err(e),
        }
    }

    /// Answers `key`: pushes the code of the byte that was read.
    pub fn supply_key(&mut self, code: u8)
        ensures
            final(self)@ == (State { stack: old(self)@.stack.push(code as i32), ..old(self)@ }),
    {
        self.push(code as i32);
    }

    /// Hands out what was printed so far and clears it.
    pub fn take_output(&mut self) -> (r: Vec<char>)
        ensures
            r@ == old(self)@.output,
            final(self)@ == (State { output: seq![], ..old(self)@ }),
    {
        let out = self.output.split_off(0);
        assert(self@ =~= (State { output: seq![], ..old(self)@ }));
        out
    }

}

} // verus!

