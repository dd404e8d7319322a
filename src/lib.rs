//! A small interpreter for a Forth-like stack language.
//!
//! Source text is split into whitespace-separated words and classified into
//! tokens by [`lexer::Lexer`]; [`interpreter::Interpreter`] then executes the
//! token buffer one token per step, against a data stack, a flat cell memory
//! and three name tables.
pub mod token;
pub mod numeric;
pub mod lexer;
pub mod machine;
pub mod interpreter;
pub mod laws;
