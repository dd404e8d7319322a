//! Splitting source text into words and words into tokens.
use vstd::prelude::*;
use crate::token::{Prim, Token, TokenV, keyword, keyword_of};
use crate::numeric::{parse_int, parse_int_of};

verus! {

/// The characters that separate words: Unicode's White_Space set.
pub open spec fn is_space(c: char) -> bool {
    c == ' ' || c == '\t' || c == '\n' || c == '\u{0B}' || c == '\u{0C}' || c == '\r'
        || c == '\u{85}' || c == '\u{A0}' || c == '\u{1680}' || ('\u{2000}' <= c && c
        <= '\u{200A}') || c == '\u{2028}' || c == '\u{2029}' || c == '\u{202F}' || c
        == '\u{205F}' || c == '\u{3000}'
}

pub fn is_space_char(c: char) -> (r: bool)
    ensures
        r == is_space(c),
{
    c == ' ' || c == '\t' || c == '\n' || c == '\u{0B}' || c == '\u{0C}' || c == '\r'
        || c == '\u{85}' || c == '\u{A0}' || c == '\u{1680}' || ('\u{2000}' <= c && c
        <= '\u{200A}') || c == '\u{2028}' || c == '\u{2029}' || c == '\u{202F}' || c
        == '\u{205F}' || c == '\u{3000}'
}

/// The words completed so far and the word being read, after reading `s`.
pub open spec fn split_state(s: Seq<char>) -> (Seq<Seq<char>>, Seq<char>)
    decreases s.len(),
{
    if s.len() == 0 {
        (seq![], seq![])
    } else {
        let (done, cur) = split_state(s.drop_last());
        if is_space(s.last()) {
            if cur.len() > 0 {
                (done.push(cur), seq![])
            } else {
                (done, cur)
            }
        } else {
            (done, cur.push(s.last()))
        }
    }
}

/// The maximal runs of non-space characters of `s`, in order.
pub open spec fn words(s: Seq<char>) -> Seq<Seq<char>> {
    let (done, cur) = split_state(s);
    if cur.len() > 0 {
        done.push(cur)
    } else {
        done
    }
}

/// The words joined with single spaces.
pub open spec fn join(ws: Seq<Seq<char>>) -> Seq<char>
    decreases ws.len(),
{
    if ws.len() == 0 {
        seq![]
    } else if ws.len() == 1 {
        ws[0]
    } else {
        join(ws.drop_last()) + seq![' '] + ws.last()
    }
}

/// The token of a single word: a primitive, else an integer, else a name.
pub open spec fn classify(w: Seq<char>) -> TokenV {
    match keyword(w) {
        Some(p) => TokenV::Prim(p),
        None => match parse_int(w) {
            Some(n) => TokenV::Int(n),
            None => TokenV::Word(w),
        },
    }
}

/// The index of the first word at or after `j` that is a lone `"`, or the
/// number of words.
pub open spec fn quote_end(ws: Seq<Seq<char>>, j: int) -> int
    decreases ws.len() - j,
{
    if j >= ws.len() {
        ws.len() as int
    } else if ws[j] == seq!['"'] {
        j
    } else {
        quote_end(ws, j + 1)
    }
}

/// The tokens of the words from index `i` on. A `."` word starts a string
/// literal made of the following words up to the next lone `"`, which is
/// dropped.
pub open spec fn lex_from(ws: Seq<Seq<char>>, i: int) -> Seq<TokenV>
    decreases ws.len() - i,
{
    if i < 0 || i >= ws.len() {
        seq![]
    } else if keyword(ws[i]) == Some(Prim::DotQuote) {
        let k = quote_end(ws, i + 1);
        let next = if k < ws.len() { k + 1 } else { k };
        // `quote_end` lies in `(i, ws.len()]`, so this test always holds; it
        // makes the decrease of the measure evident.
        if i < next <= ws.len() {
            seq![TokenV::Str(join(ws.subrange(i + 1, k)))] + lex_from(ws, next)
        } else {
            seq![]
        }
    } else {
        seq![classify(ws[i])] + lex_from(ws, i + 1)
    }
}

pub open spec fn lex_words(ws: Seq<Seq<char>>) -> Seq<TokenV> {
    lex_from(ws, 0)
}

pub open spec fn word_views(ws: Seq<Vec<char>>) -> Seq<Seq<char>> {
    ws.map_values(|w: Vec<char>| w@)
}

pub open spec fn token_views(ts: Seq<Token>) -> Seq<TokenV> {
    ts.map_values(|t: Token| t@)
}

proof fn lemma_quote_end_bounds(ws: Seq<Seq<char>>, j: int)
    requires
        0 <= j,
    ensures
        j <= quote_end(ws, j) <= ws.len() || (j > ws.len() && quote_end(ws, j) == ws.len()),
        quote_end(ws, j) < ws.len() ==> ws[quote_end(ws, j)] == seq!['"'],
        forall|m: int| j <= m < quote_end(ws, j) ==> ws[m] != seq!['"'],
    decreases ws.len() - j,
{
    if j < ws.len() && ws[j] != seq!['"'] {
        lemma_quote_end_bounds(ws, j + 1);
    }
}

/// Appends the characters of `src` to `dst`.
pub fn append_chars(dst: &mut Vec<char>, src: &Vec<char>)
    ensures
        final(dst)@ == old(dst)@ + src@,
{
    let mut i: usize = 0;
    while i < src.len()
        invariant
            0 <= i <= src@.len(),
            dst@ == old(dst)@ + src@.subrange(0, i as int),
        decreases src@.len() - i,
    {
        dst.push(src[i]);
        i += 1;
        assert(dst@ =~= old(dst)@ + src@.subrange(0, i as int));
    }
    assert(src@.subrange(0, src@.len() as int) =~= src@);
}

/// Splits `text` into its whitespace-separated words.
pub fn split_words(text: &Vec<char>) -> (r: Vec<Vec<char>>)
    ensures
        word_views(r@) == words(text@),
{
    let mut done: Vec<Vec<char>> = Vec::new();
    let mut cur: Vec<char> = Vec::new();
    let mut i: usize = 0;
    while i < text.len()
        invariant
            0 <= i <= text@.len(),
            (word_views(done@), cur@) == split_state(text@.subrange(0, i as int)),
        decreases text@.len() - i,
    {
        let c = text[i];
        let ghost pre = text@.subrange(0, i as int);
        assert(text@.subrange(0, i + 1).drop_last() =~= pre);
        if is_space_char(c) {
            if cur.len() > 0 {
                let ghost old_done = word_views(done@);
                let w = cur;
                cur = Vec::new();
                done.push(w);
                assert(word_views(done@) =~= old_done.push(w@));
            }
        } else {
            cur.push(c);
        }
        i += 1;
    }
    assert(text@.subrange(0, text@.len() as int) =~= text@);
    if cur.len() > 0 {
        let ghost old_done = word_views(done@);
        let ghost c = cur@;
        done.push(cur);
        assert(word_views(done@) =~= old_done.push(c));
    }
    done
}

/// Accumulates the tokens of a program.
pub struct Lexer {
    pub token_stack: Vec<Token>,
}

impl Lexer {
    pub fn new() -> (r: Self)
        ensures
            r.token_stack@.len() == 0,
    {
        Lexer { token_stack: Vec::new() }
    }

    /// The token of a single word (see [`classify`]).
    pub fn get_token_from_word(&self, word: &Vec<char>) -> (r: Token)
        ensures
            r@ == classify(word@),
    {
        match keyword_of(word) {
            Some(p) => Token::Prim(p),
            None => match parse_int_of(word) {
                Some(n) => Token::Int(n),
                None => Token::Word(word.clone()),
            },
        }
    }

    pub fn push(&mut self, value: Token)
        ensures
            final(self).token_stack@ == old(self).token_stack@.push(value),
    {
        self.token_stack.push(value);
    }

    /// Appends the tokens of the words `data` (see [`lex_words`]).
    pub fn lex_data(&mut self, data: &Vec<Vec<char>>)
        ensures
            token_views(final(self).token_stack@) == token_views(old(self).token_stack@)
                + lex_words(word_views(data@)),
    {
        let ghost ws = word_views(data@);
        let n = data.len();
        let mut i: usize = 0;
        while i < n
            invariant
                n == data@.len() == ws.len(),
                ws == word_views(data@),
                0 <= i <= n,
                token_views(self.token_stack@) + lex_from(ws, i as int) == token_views(
                    old(self).token_stack@,
                ) + lex_words(ws),
            decreases n - i,
        {
            let ghost before = self.token_stack@;
            assert(ws[i as int] == data@[i as int]@);
            let token = self.get_token_from_word(&data[i]);
            let is_string = match token {
                Token::Prim(Prim::DotQuote) => true,
                _ => false,
            };
            if is_string {
                let mut k: usize = i + 1;
                let mut text: Vec<char> = Vec::new();
                proof {
                    lemma_quote_end_bounds(ws, i + 1);
                }
                while k < n && !(data[k].len() == 1 && data[k][0] == '"')
                    invariant
                        n == data@.len() == ws.len(),
                        ws == word_views(data@),
                        i < k <= n,
                        k <= quote_end(ws, i + 1),
                        i + 1 <= quote_end(ws, i + 1) <= ws.len(),
                        quote_end(ws, i + 1) < ws.len() ==> ws[quote_end(ws, i + 1)] == seq!['"'],
                        text@ == join(ws.subrange(i + 1, k as int)),
                    decreases n - k,
                {
                    assert(ws[k as int] == data@[k as int]@);
                    let ghost old_text = text@;
                    if k > i + 1 {
                        text.push(' ');
                    }
                    append_chars(&mut text, &data[k]);
                    let ghost sub = ws.subrange(i + 1, k + 1);
                    assert(sub.drop_last() =~= ws.subrange(i + 1, k as int));
                    if k == i + 1 {
                        assert(sub.len() == 1);
                    }
                    assert(text@ =~= join(sub));
                    k += 1;
                    assert(ws[k - 1] != seq!['"']) by {
                        if ws[k - 1] == seq!['"'] {
                            assert(data@[k - 1]@ =~= seq!['"']);
                        }
                    }
                }
                proof {
                    if k < n {
                        assert(ws[k as int] =~= seq!['"']);
                    }
                }
                assert(k == quote_end(ws, i + 1));
                self.push(Token::Str(text));
                i = if k < n { k + 1 } else { k };
            } else {
                self.push(token);
                i += 1;
            }
            assert(token_views(self.token_stack@) =~= token_views(before).push(
                self.token_stack@.last()@,
            ));
        }
    }
}

/// The tokens of a source text (see [`words`] and [`lex_words`]).
pub fn tokenize(text: &Vec<char>) -> (r: Vec<Token>)
    ensures
        token_views(r@) == lex_words(words(text@)),
{
    let ws = split_words(text);
    let mut lexer = Lexer::new();
    let ghost start = lexer.token_stack@;
    lexer.lex_data(&ws);
    assert(token_views(start) =~= Seq::<TokenV>::empty());
    assert(token_views(lexer.token_stack@) =~= lex_words(words(text@)));
    lexer.token_stack
}

} // verus!
