//! The lexical grammar, stated over the bytes of a source text, and the
//! executable scanners that follow it.

use vstd::prelude::*;
use crate::token::{is_terminal, well_terminated, Item, LexicalError, TokenView};

verus! {

/// The byte of a space.
pub const SPACE: u8 = 0x20;

/// The byte of a horizontal tab.
pub const TAB: u8 = 0x09;

/// The byte of a line feed.
pub const LINE_FEED: u8 = 0x0a;

/// The byte of a form feed.
pub const FORM_FEED: u8 = 0x0c;

/// The byte of a carriage return.
pub const CARRIAGE_RETURN: u8 = 0x0d;

/// The byte `#`.
pub const HASH: u8 = 0x23;

/// The byte `.`.
pub const DOT: u8 = 0x2e;

/// The byte `(`.
pub const LEFT_PAREN: u8 = 0x28;

/// The byte `)`.
pub const RIGHT_PAREN: u8 = 0x29;

/// The byte `,`.
pub const COMMA: u8 = 0x2c;

/// The byte `;`.
pub const SEMICOLON: u8 = 0x3b;

/// The byte `+`.
pub const PLUS: u8 = 0x2b;

/// The byte `-`.
pub const MINUS: u8 = 0x2d;

/// The byte `*`.
pub const STAR: u8 = 0x2a;

/// The byte `<`.
pub const LESS_THAN: u8 = 0x3c;

/// ASCII white space: space, tab, line feed, form feed, carriage return.
pub open spec fn is_space(b: u8) -> bool {
    b == SPACE || b == TAB || b == LINE_FEED || b == FORM_FEED || b == CARRIAGE_RETURN
}

/// An ASCII letter: `A` to `Z`, or `a` to `z`.
pub open spec fn is_alpha(b: u8) -> bool {
    (0x41 <= b && b <= 0x5a) || (0x61 <= b && b <= 0x7a)
}

/// An ASCII decimal digit: `0` to `9`.
pub open spec fn is_digit(b: u8) -> bool {
    0x30 <= b && b <= 0x39
}

/// The byte `#`, which opens a comment that runs to the end of its line.
pub open spec fn is_comment_start(b: u8) -> bool {
    b == HASH
}

/// The byte that ends a line, and with it a comment.
pub open spec fn is_newline(b: u8) -> bool {
    b == LINE_FEED
}

/// The byte `.`.
pub open spec fn is_dot(b: u8) -> bool {
    b == DOT
}

/// The kinds of byte of which the multi-byte tokens are made.
#[derive(Clone, Copy)]
pub enum ByteClass {
    /// Letters and digits: the bytes of a word.
    Alnum,
    /// Digits alone.
    Digit,
    /// Digits and `.`: the bytes of a numeric literal.
    NumberPart,
}

impl ByteClass {
    /// Whether `b` belongs to the class.
    pub open spec fn holds(self, b: u8) -> bool {
        match self {
            ByteClass::Alnum => is_alpha(b) || is_digit(b),
            ByteClass::Digit => is_digit(b),
            ByteClass::NumberPart => is_digit(b) || is_dot(b),
        }
    }
}

/// The end of the longest run of bytes of `class` that starts at `pos`.
pub open spec fn run_end(src: Seq<u8>, pos: int, class: ByteClass) -> int
    decreases src.len() - pos,
{
    if 0 <= pos < src.len() && class.holds(src[pos]) {
        run_end(src, pos + 1, class)
    } else {
        pos
    }
}

/// The first position at or after `pos` that is neither white space nor part
/// of a comment; `in_comment` says whether `pos` lies inside a comment. A
/// comment ends with the line feed that closes its line, or with the source.
pub open spec fn skip_trivia(src: Seq<u8>, pos: int, in_comment: bool) -> int
    decreases src.len() - pos,
{
    if pos < 0 || pos >= src.len() {
        pos
    } else if in_comment {
        skip_trivia(src, pos + 1, !is_newline(src[pos]))
    } else if is_space(src[pos]) {
        skip_trivia(src, pos + 1, false)
    } else if is_comment_start(src[pos]) {
        skip_trivia(src, pos + 1, true)
    } else {
        pos
    }
}

/// The token that a single byte stands for, if it is one.
pub open spec fn punctuation(b: u8) -> Option<TokenView> {
    if b == LEFT_PAREN {
        Some(TokenView::LeftParen)
    } else if b == RIGHT_PAREN {
        Some(TokenView::RightParen)
    } else if b == COMMA {
        Some(TokenView::Comma)
    } else if b == SEMICOLON {
        Some(TokenView::Semi)
    } else if b == PLUS {
        Some(TokenView::Add)
    } else if b == MINUS {
        Some(TokenView::Sub)
    } else if b == STAR {
        Some(TokenView::Mul)
    } else if b == LESS_THAN {
        Some(TokenView::Less)
    } else {
        None
    }
}

/// ASCII bytes as the characters they encode.
pub open spec fn ascii_text(bytes: Seq<u8>) -> Seq<char> {
    Seq::new(bytes.len(), |i: int| bytes[i] as char)
}

/// The name of the keyword that opens a function definition.
pub open spec fn def_word() -> Seq<char> {
    seq!['d', 'e', 'f']
}

/// The name of the keyword that opens an external declaration.
pub open spec fn extern_word() -> Seq<char> {
    seq!['e', 'x', 't', 'e', 'r', 'n']
}

/// A word is one of the two keywords, or else an identifier.
pub open spec fn word_token(text: Seq<char>) -> TokenView {
    if text =~= def_word() {
        TokenView::Def
    } else if text =~= extern_word() {
        TokenView::Extern
    } else {
        TokenView::Identifier(text)
    }
}

/// Whether the run of digits and dots from `start` to `end` is a numeric
/// literal: digits, then at most one `.` with nothing but digits after it.
pub open spec fn number_ok(src: Seq<u8>, start: int, end: int) -> bool {
    let int_end = run_end(src, start, ByteClass::Digit);
    int_end == end || run_end(src, int_end + 1, ByteClass::Digit) == end
}

/// The token that starts at or after `pos`, and the position behind it.
///
/// White space and comments before the token are passed over. At the end of
/// the source the token is the end marker. A fault is reported with the
/// position of the byte at which it was found, so that it is found again.
pub open spec fn lex_at(src: Seq<u8>, pos: int) -> (Item, int) {
    let start = skip_trivia(src, pos, false);
    if start < 0 || start >= src.len() {
        (Ok(TokenView::Eof), start)
    } else if punctuation(src[start]) is Some {
        (Ok(punctuation(src[start])->Some_0), start + 1)
    } else if is_alpha(src[start]) {
        let end = run_end(src, start, ByteClass::Alnum);
        (Ok(word_token(ascii_text(src.subrange(start, end)))), end)
    } else if is_digit(src[start]) {
        let end = run_end(src, start, ByteClass::NumberPart);
        if number_ok(src, start, end) {
            (Ok(TokenView::Number(ascii_text(src.subrange(start, end)))), end)
        } else {
            (Err(LexicalError::MalformedNumber), start)
        }
    } else {
        (Err(LexicalError::UnknownByte(src[start])), start)
    }
}

/// All the tokens from `pos` on, up to and with the first terminal item.
pub open spec fn tokens_from(src: Seq<u8>, pos: int) -> Seq<Item>
    decreases src.len() - pos,
    via tokens_from_decreases
{
    let (item, next) = lex_at(src, pos);
    if is_terminal(item) {
        seq![item]
    } else {
        seq![item] + tokens_from(src, next)
    }
}

#[via_fn]
proof fn tokens_from_decreases(src: Seq<u8>, pos: int) {
    lemma_lex_at_bounds(src, pos);
}

/// A run ends within the source, holds only bytes of its class, and cannot
/// be made longer.
pub proof fn lemma_run_end(src: Seq<u8>, pos: int, class: ByteClass)
    requires
        0 <= pos <= src.len(),
    ensures
        pos <= run_end(src, pos, class) <= src.len(),
        forall|i: int| pos <= i < run_end(src, pos, class) ==> class.holds(#[trigger] src[i]),
        run_end(src, pos, class) < src.len() ==> !class.holds(src[run_end(src, pos, class)]),
    decreases src.len() - pos,
{
    if pos < src.len() && class.holds(src[pos]) {
        lemma_run_end(src, pos + 1, class);
    }
}

/// The end of a run is fixed by the three properties of `lemma_run_end`.
pub proof fn lemma_run_end_unique(src: Seq<u8>, pos: int, class: ByteClass, end: int)
    requires
        0 <= pos <= end <= src.len(),
        forall|i: int| pos <= i < end ==> class.holds(#[trigger] src[i]),
        end < src.len() ==> !class.holds(src[end]),
    ensures
        run_end(src, pos, class) == end,
    decreases end - pos,
{
    if pos < end {
        assert(class.holds(src[pos]));
        lemma_run_end_unique(src, pos + 1, class, end);
    }
}

/// Skipping stops within the source, and at a byte that starts a token or
/// a fault.
pub proof fn lemma_skip_trivia(src: Seq<u8>, pos: int, in_comment: bool)
    requires
        0 <= pos <= src.len(),
    ensures
        pos <= skip_trivia(src, pos, in_comment) <= src.len(),
        skip_trivia(src, pos, in_comment) < src.len() ==> !is_space(
            src[skip_trivia(src, pos, in_comment)],
        ) && !is_comment_start(src[skip_trivia(src, pos, in_comment)]),
        skip_trivia(src, skip_trivia(src, pos, in_comment), false) == skip_trivia(
            src,
            pos,
            in_comment,
        ),
    decreases src.len() - pos,
{
    if pos < src.len() {
        if in_comment {
            lemma_skip_trivia(src, pos + 1, !is_newline(src[pos]));
        } else if is_space(src[pos]) {
            lemma_skip_trivia(src, pos + 1, false);
        } else if is_comment_start(src[pos]) {
            lemma_skip_trivia(src, pos + 1, true);
        }
    }
}

/// A token lies within the source and is at least one byte long; a terminal
/// item is found again at the position that comes with it.
pub proof fn lemma_lex_at_bounds(src: Seq<u8>, pos: int)
    ensures
        0 <= pos <= src.len() ==> pos <= lex_at(src, pos).1 <= src.len(),
        !is_terminal(lex_at(src, pos).0) ==> pos < lex_at(src, pos).1 <= src.len(),
        is_terminal(lex_at(src, pos).0) && 0 <= pos <= src.len() ==> lex_at(
            src,
            lex_at(src, pos).1,
        ) == lex_at(src, pos),
{
    if 0 <= pos <= src.len() {
        lemma_skip_trivia(src, pos, false);
        let start = skip_trivia(src, pos, false);
        if start < src.len() {
            lemma_run_end(src, start, ByteClass::Alnum);
            lemma_run_end(src, start, ByteClass::NumberPart);
        }
    }
}

/// The tokens of a source form a well-terminated stream.
pub proof fn lemma_tokens_from_terminated(src: Seq<u8>, pos: int)
    ensures
        well_terminated(tokens_from(src, pos)),
        tokens_from(src, pos)[0] == lex_at(src, pos).0,
    decreases src.len() - pos,
{
    let (item, next) = lex_at(src, pos);
    lemma_lex_at_bounds(src, pos);
    if !is_terminal(item) {
        lemma_tokens_from_terminated(src, next);
        let rest = tokens_from(src, next);
        let all = seq![item] + rest;
        assert(all.last() == rest.last());
        assert forall|i: int| 0 <= i < all.len() - 1 implies !is_terminal(#[trigger] all[i]) by {
            if i > 0 {
                assert(all[i] == rest[i - 1]);
            }
        }
    }
}

} // verus!
