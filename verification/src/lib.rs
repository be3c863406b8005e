//! Front end of a small expression language: a tokenizer with two tokens of
//! lookahead and a recursive-descent parser with precedence climbing.
//!
//! [`scan`] states the lexical grammar over the bytes of a source, and
//! [`lexer`] is the tokenizer that follows it. [`grammar`] states the syntax
//! over streams of tokens, and [`parser`] is the parser that follows it;
//! [`token`] and [`syntax`] hold the tokens and trees that both speak of.
//! [`laws`] and [`spelling`] prove what the tokenizer does with words,
//! numbers, the end of a source and a text that spells tokens. [`tail`]
//! proves that parsing takes items from the front of a stream alone,
//! [`climbing`] that the tree of an expression is the one that the
//! precedences of its operators ask for, and [`printer`] that parsing the
//! rendering of a tree gives the tree again.

pub mod climbing;
pub mod grammar;
pub mod laws;
pub mod lexer;
pub mod parser;
pub mod printer;
pub mod scan;
pub mod spelling;
pub mod syntax;
pub mod tail;
pub mod token;
