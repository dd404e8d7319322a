//! The token model: fixed primitives, literals and identifiers.
use vstd::prelude::*;

verus! {

/// The words with a fixed meaning.
#[derive(Clone, Copy, Debug, PartialEq, Eq, Structural)]
pub enum Prim {
    Plus,
    Minus,
    Mul,
    Div,
    Mod,
    Dot,
    Colon,
    Semi,
    Emit,
    Cr,
    Drop,
    Dup,
    Swap,
    Over,
    Rot,
    And,
    Or,
    Invert,
    DotQuote,
    Quote,
    Less,
    Greater,
    Equal,
    If,
    Else,
    Then,
    Do,
    Loop,
    Begin,
    Until,
    I,
    Variable,
    Constant,
    Fetch,
    Store,
    Increment,
    Allot,
    Cells,
    Key,
}

/// One unit of a program.
#[derive(Clone, Debug, PartialEq)]
pub enum Token {
    Prim(Prim),
    /// A string literal, printed verbatim.
    Str(Vec<char>),
    /// A name looked up at run time.
    Word(Vec<char>),
    /// An integer literal.
    Int(i32),
}

/// The mathematical value of a token.
pub enum TokenV {
    Prim(Prim),
    Str(Seq<char>),
    Word(Seq<char>),
    Int(i32),
}

impl View for Token {
    type V = TokenV;

    open spec fn view(&self) -> TokenV {
        match self {
            Token::Prim(p) => TokenV::Prim(*p),
            Token::Str(s) => TokenV::Str(s@),
            Token::Word(w) => TokenV::Word(w@),
            Token::Int(n) => TokenV::Int(*n),
        }
    }
}

/// The primitive spelled `w`, if any.
pub open spec fn keyword(w: Seq<char>) -> Option<Prim> {
    if w == seq!['+'] { Some(Prim::Plus) }
    else if w == seq!['-'] { Some(Prim::Minus) }
    else if w == seq!['*'] { Some(Prim::Mul) }
    else if w == seq!['/'] { Some(Prim::Div) }
    else if w == seq!['m', 'o', 'd'] { Some(Prim::Mod) }
    else if w == seq!['.'] { Some(Prim::Dot) }
    else if w == seq![':'] { Some(Prim::Colon) }
    else if w == seq![';'] { Some(Prim::Semi) }
    else if w == seq!['e', 'm', 'i', 't'] { Some(Prim::Emit) }
    else if w == seq!['c', 'r'] { Some(Prim::Cr) }
    else if w == seq!['d', 'r', 'o', 'p'] { Some(Prim::Drop) }
    else if w == seq!['d', 'u', 'p'] { Some(Prim::Dup) }
    else if w == seq!['s', 'w', 'a', 'p'] { Some(Prim::Swap) }
    else if w == seq!['o', 'v', 'e', 'r'] { Some(Prim::Over) }
    else if w == seq!['r', 'o', 't'] { Some(Prim::Rot) }
    else if w == seq!['a', 'n', 'd'] { Some(Prim::And) }
    else if w == seq!['o', 'r'] { Some(Prim::Or) }
    else if w == seq!['i', 'n', 'v', 'e', 'r', 't'] { Some(Prim::Invert) }
    else if w == seq!['.', '"'] { Some(Prim::DotQuote) }
    else if w == seq!['"'] { Some(Prim::Quote) }
    else if w == seq!['<'] { Some(Prim::Less) }
    else if w == seq!['>'] { Some(Prim::Greater) }
    else if w == seq!['='] { Some(Prim::Equal) }
    else if w == seq!['i', 'f'] { Some(Prim::If) }
    else if w == seq!['e', 'l', 's', 'e'] { Some(Prim::Else) }
    else if w == seq!['t', 'h', 'e', 'n'] { Some(Prim::Then) }
    else if w == seq!['d', 'o'] { Some(Prim::Do) }
    else if w == seq!['l', 'o', 'o', 'p'] { Some(Prim::Loop) }
    else if w == seq!['b', 'e', 'g', 'i', 'n'] { Some(Prim::Begin) }
    else if w == seq!['u', 'n', 't', 'i', 'l'] { Some(Prim::Until) }
    else if w == seq!['i'] { Some(Prim::I) }
    else if w == seq!['v', 'a', 'r', 'i', 'a', 'b', 'l', 'e'] { Some(Prim::Variable) }
    else if w == seq!['c', 'o', 'n', 's', 't', 'a', 'n', 't'] { Some(Prim::Constant) }
    else if w == seq!['@'] { Some(Prim::Fetch) }
    else if w == seq!['!'] { Some(Prim::Store) }
    else if w == seq!['+', '!'] { Some(Prim::Increment) }
    else if w == seq!['a', 'l', 'l', 'o', 't'] { Some(Prim::Allot) }
    else if w == seq!['c', 'e', 'l', 'l', 's'] { Some(Prim::Cells) }
    else if w == seq!['k', 'e', 'y'] { Some(Prim::Key) }
    else { None }
}

/// Whether `w` equals the character array `k`.
pub fn same_chars(w: &Vec<char>, k: &[char]) -> (r: bool)
    ensures
        r == (w@ == k@),
{
    if w.len() != k.len() {
        return false;
    }
    let mut i: usize = 0;
    while i < w.len()
        invariant
            w@.len() == k@.len(),
            0 <= i <= w@.len(),
            forall|j: int| 0 <= j < i ==> w@[j] == k@[j],
        decreases w@.len() - i,
    {
        if w[i] != k[i] {
            return false;
        }
        i += 1;
    }
    assert(w@ =~= k@);
    true
}

/// Looks `w` up in the table of primitives.
#[verifier::rlimit(50)]
pub fn keyword_of(w: &Vec<char>) -> (r: Option<Prim>)
    ensures
        r == keyword(w@),
{
    let k: &[char] = &['+'];
    assert(k@ =~= seq!['+']);
    if same_chars(w, k) {
        return Some(Prim::Plus);
    }
    let k: &[char] = &['-'];
    assert(k@ =~= seq!['-']);
    if same_chars(w, k) {
        return Some(Prim::Minus);
    }
    let k: &[char] = &['*'];
    assert(k@ =~= seq!['*']);
    if same_chars(w, k) {
        return Some(Prim::Mul);
    }
    let k: &[char] = &['/'];
    assert(k@ =~= seq!['/']);
    if same_chars(w, k) {
        return Some(Prim::Div);
    }
    let k: &[char] = &['m', 'o', 'd'];
    assert(k@ =~= seq!['m', 'o', 'd']);
    if same_chars(w, k) {
        return Some(Prim::Mod);
    }
    let k: &[char] = &['.'];
    assert(k@ =~= seq!['.']);
    if same_chars(w, k) {
        return Some(Prim::Dot);
    }
    let k: &[char] = &[':'];
    assert(k@ =~= seq![':']);
    if same_chars(w, k) {
        return Some(Prim::Colon);
    }
    let k: &[char] = &[';'];
    assert(k@ =~= seq![';']);
    if same_chars(w, k) {
        return Some(Prim::Semi);
    }
    let k: &[char] = &['e', 'm', 'i', 't'];
    assert(k@ =~= seq!['e', 'm', 'i', 't']);
    if same_chars(w, k) {
        return Some(Prim::Emit);
    }
    let k: &[char] = &['c', 'r'];
    assert(k@ =~= seq!['c', 'r']);
    if same_chars(w, k) {
        return Some(Prim::Cr);
    }
    let k: &[char] = &['d', 'r', 'o', 'p'];
    assert(k@ =~= seq!['d', 'r', 'o', 'p']);
    if same_chars(w, k) {
        return Some(Prim::Drop);
    }
    let k: &[char] = &['d', 'u', 'p'];
    assert(k@ =~= seq!['d', 'u', 'p']);
    if same_chars(w, k) {
        return Some(Prim::Dup);
    }
    let k: &[char] = &['s', 'w', 'a', 'p'];
    assert(k@ =~= seq!['s', 'w', 'a', 'p']);
    if same_chars(w, k) {
        return Some(Prim::Swap);
    }
    let k: &[char] = &['o', 'v', 'e', 'r'];
    assert(k@ =~= seq!['o', 'v', 'e', 'r']);
    if same_chars(w, k) {
        return Some(Prim::Over);
    }
    let k: &[char] = &['r', 'o', 't'];
    assert(k@ =~= seq!['r', 'o', 't']);
    if same_chars(w, k) {
        return Some(Prim::Rot);
    }
    let k: &[char] = &['a', 'n', 'd'];
    assert(k@ =~= seq!['a', 'n', 'd']);
    if same_chars(w, k) {
        return Some(Prim::And);
    }
    let k: &[char] = &['o', 'r'];
    assert(k@ =~= seq!['o', 'r']);
    if same_chars(w, k) {
        return Some(Prim::Or);
    }
    let k: &[char] = &['i', 'n', 'v', 'e', 'r', 't'];
    assert(k@ =~= seq!['i', 'n', 'v', 'e', 'r', 't']);
    if same_chars(w, k) {
        return Some(Prim::Invert);
    }
    let k: &[char] = &['.', '"'];
    assert(k@ =~= seq!['.', '"']);
    if same_chars(w, k) {
        return Some(Prim::DotQuote);
    }
    let k: &[char] = &['"'];
    assert(k@ =~= seq!['"']);
    if same_chars(w, k) {
        return Some(Prim::Quote);
    }
    let k: &[char] = &['<'];
    assert(k@ =~= seq!['<']);
    if same_chars(w, k) {
        return Some(Prim::Less);
    }
    let k: &[char] = &['>'];
    assert(k@ =~= seq!['>']);
    if same_chars(w, k) {
        return Some(Prim::Greater);
    }
    let k: &[char] = &['='];
    assert(k@ =~= seq!['=']);
    if same_chars(w, k) {
        return Some(Prim::Equal);
    }
    let k: &[char] = &['i', 'f'];
    assert(k@ =~= seq!['i', 'f']);
    if same_chars(w, k) {
        return Some(Prim::If);
    }
    let k: &[char] = &['e', 'l', 's', 'e'];
    assert(k@ =~= seq!['e', 'l', 's', 'e']);
    if same_chars(w, k) {
        return Some(Prim::Else);
    }
    let k: &[char] = &['t', 'h', 'e', 'n'];
    assert(k@ =~= seq!['t', 'h', 'e', 'n']);
    if same_chars(w, k) {
        return Some(Prim::Then);
    }
    let k: &[char] = &['d', 'o'];
    assert(k@ =~= seq!['d', 'o']);
    if same_chars(w, k) {
        return Some(Prim::Do);
    }
    let k: &[char] = &['l', 'o', 'o', 'p'];
    assert(k@ =~= seq!['l', 'o', 'o', 'p']);
    if same_chars(w, k) {
        return Some(Prim::Loop);
    }
    let k: &[char] = &['b', 'e', 'g', 'i', 'n'];
    assert(k@ =~= seq!['b', 'e', 'g', 'i', 'n']);
    if same_chars(w, k) {
        return Some(Prim::Begin);
    }
    let k: &[char] = &['u', 'n', 't', 'i', 'l'];
    assert(k@ =~= seq!['u', 'n', 't', 'i', 'l']);
    if same_chars(w, k) {
        return Some(Prim::Until);
    }
    let k: &[char] = &['i'];
    assert(k@ =~= seq!['i']);
    if same_chars(w, k) {
        return Some(Prim::I);
    }
    let k: &[char] = &['v', 'a', 'r', 'i', 'a', 'b', 'l', 'e'];
    assert(k@ =~= seq!['v', 'a', 'r', 'i', 'a', 'b', 'l', 'e']);
    if same_chars(w, k) {
        return Some(Prim::Variable);
    }
    let k: &[char] = &['c', 'o', 'n', 's', 't', 'a', 'n', 't'];
    assert(k@ =~= seq!['c', 'o', 'n', 's', 't', 'a', 'n', 't']);
    if same_chars(w, k) {
        return Some(Prim::Constant);
    }
    let k: &[char] = &['@'];
    assert(k@ =~= seq!['@']);
    if same_chars(w, k) {
        return Some(Prim::Fetch);
    }
    let k: &[char] = &['!'];
    assert(k@ =~= seq!['!']);
    if same_chars(w, k) {
        return Some(Prim::Store);
    }
    let k: &[char] = &['+', '!'];
    assert(k@ =~= seq!['+', '!']);
    if same_chars(w, k) {
        return Some(Prim::Increment);
    }
    let k: &[char] = &['a', 'l', 'l', 'o', 't'];
    assert(k@ =~= seq!['a', 'l', 'l', 'o', 't']);
    if same_chars(w, k) {
        return Some(Prim::Allot);
    }
    let k: &[char] = &['c', 'e', 'l', 'l', 's'];
    assert(k@ =~= seq!['c', 'e', 'l', 'l', 's']);
    if same_chars(w, k) {
        return Some(Prim::Cells);
    }
    let k: &[char] = &['k', 'e', 'y'];
    assert(k@ =~= seq!['k', 'e', 'y']);
    if same_chars(w, k) {
        return Some(Prim::Key);
    }
    None
}

} // verus!
