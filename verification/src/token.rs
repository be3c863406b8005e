//! Tokens of the language, their mathematical views, and token streams.

use vstd::prelude::*;

verus! {

/// Why a run of source bytes is not a token.
#[derive(Debug, PartialEq, Eq, Clone, Copy)]
pub enum LexicalError {
    /// A byte that starts no token; the byte is carried along.
    UnknownByte(u8),
    /// A numeric literal with more than one `.` in it.
    MalformedNumber,
}

/// An indivisible lexical unit.
///
/// An identifier carries its name. A number carries the text of its literal:
/// a run of digits, optionally followed by one `.` and a further, possibly
/// empty, run of digits.
#[derive(Debug, PartialEq, Clone, PartialOrd)]
pub enum Token {
    Eof,
    Def,
    LeftParen,
    RightParen,
    Comma,
    Semi,
    Add,
    Sub,
    Mul,
    Less,
    Extern,
    Identifier(String),
    Number(String),
}

/// The mathematical value of a [`Token`].
pub enum TokenView {
    Eof,
    Def,
    LeftParen,
    RightParen,
    Comma,
    Semi,
    Add,
    Sub,
    Mul,
    Less,
    Extern,
    Identifier(Seq<char>),
    Number(Seq<char>),
}

impl View for Token {
    type V = TokenView;

    open spec fn view(&self) -> TokenView {
        match self {
            Token::Eof => TokenView::Eof,
            Token::Def => TokenView::Def,
            Token::LeftParen => TokenView::LeftParen,
            Token::RightParen => TokenView::RightParen,
            Token::Comma => TokenView::Comma,
            Token::Semi => TokenView::Semi,
            Token::Add => TokenView::Add,
            Token::Sub => TokenView::Sub,
            Token::Mul => TokenView::Mul,
            Token::Less => TokenView::Less,
            Token::Extern => TokenView::Extern,
            Token::Identifier(name) => TokenView::Identifier(name@),
            Token::Number(text) => TokenView::Number(text@),
        }
    }
}

/// One position of a token stream: a token, or the fault found in its place.
pub type Item = Result<TokenView, LexicalError>;

/// The view of what a tokenizer hands out.
pub open spec fn item_view(slot: Result<Token, LexicalError>) -> Item {
    match slot {
        Ok(token) => Ok(token@),
        Err(fault) => Err(fault),
    }
}

/// The item that is the token `token`.
pub open spec fn token_item(token: TokenView) -> Item {
    Ok(token)
}

/// A terminal item ends a stream: the end marker, or a fault.
pub open spec fn is_terminal(item: Item) -> bool {
    item is Err || item == token_item(TokenView::Eof)
}

/// A stream is well terminated when its last item, and no other, is terminal.
pub open spec fn well_terminated(s: Seq<Item>) -> bool {
    &&& s.len() > 0
    &&& is_terminal(s.last())
    &&& forall|i: int| 0 <= i < s.len() - 1 ==> !is_terminal(#[trigger] s[i])
}

/// The item `i` places ahead. The terminal item repeats for ever.
pub open spec fn nth(s: Seq<Item>, i: int) -> Item {
    if s.len() == 0 {
        Ok(TokenView::Eof)
    } else if 0 <= i < s.len() {
        s[i]
    } else {
        s.last()
    }
}

/// The stream after one item was taken. The terminal item is never used up.
pub open spec fn advance(s: Seq<Item>) -> Seq<Item> {
    if s.len() > 1 {
        s.drop_first()
    } else {
        s
    }
}

} // verus!
