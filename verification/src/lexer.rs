//! The tokenizer: a cursor over the bytes of a source text that hands out
//! tokens on demand and keeps the next two of them in view.

use vstd::prelude::*;
use crate::scan::{
    ascii_text, def_word, extern_word, is_alpha, is_digit, lemma_lex_at_bounds, lemma_run_end,
    lemma_tokens_from_terminated, lex_at, punctuation, run_end, skip_trivia, tokens_from,
    word_token, ByteClass, CARRIAGE_RETURN, COMMA, DOT, FORM_FEED, HASH, LEFT_PAREN, LESS_THAN,
    LINE_FEED, MINUS, PLUS, RIGHT_PAREN, SEMICOLON, SPACE, STAR, TAB,
};
use crate::token::{advance, is_terminal, item_view, nth, well_terminated, Item};
pub use crate::token::{LexicalError, Token};

verus! {

/// Whether `b` is an ASCII letter.
fn byte_is_alpha(b: u8) -> (r: bool)
    ensures
        r == is_alpha(b),
{
    (b >= 0x41 && b <= 0x5a) || (b >= 0x61 && b <= 0x7a)
}

/// Whether `b` is an ASCII decimal digit.
fn byte_is_digit(b: u8) -> (r: bool)
    ensures
        r == is_digit(b),
{
    b >= 0x30 && b <= 0x39
}

/// Whether `b` belongs to `class`.
fn class_holds(class: ByteClass, b: u8) -> (r: bool)
    ensures
        r == class.holds(b),
{
    match class {
        ByteClass::Alnum => byte_is_alpha(b) || byte_is_digit(b),
        ByteClass::Digit => byte_is_digit(b),
        ByteClass::NumberPart => byte_is_digit(b) || b == DOT,
    }
}

/// The end of the longest run of bytes of `class` that starts at `pos`.
fn scan_run(src: &Vec<u8>, pos: usize, class: ByteClass) -> (end: usize)
    requires
        pos <= src.len(),
    ensures
        end == run_end(src@, pos as int, class),
        pos <= end <= src.len(),
{
    let mut i: usize = pos;
    while i < src.len() && class_holds(class, src[i])
        invariant
            pos <= i <= src.len(),
            run_end(src@, i as int, class) == run_end(src@, pos as int, class),
        decreases src.len() - i,
    {
        i += 1;
    }
    i
}

/// The first position at or after `pos` that is neither white space nor part
/// of a comment.
fn skip_blank(src: &Vec<u8>, pos: usize) -> (start: usize)
    requires
        pos <= src.len(),
    ensures
        start == skip_trivia(src@, pos as int, false),
        pos <= start <= src.len(),
{
    let mut i: usize = pos;
    let mut in_comment = false;
    while i < src.len() && (in_comment || src[i] == SPACE || src[i] == TAB || src[i] == LINE_FEED
        || src[i] == FORM_FEED || src[i] == CARRIAGE_RETURN || src[i] == HASH)
        invariant
            pos <= i <= src.len(),
            skip_trivia(src@, i as int, in_comment) == skip_trivia(src@, pos as int, false),
        decreases src.len() - i,
    {
        if in_comment {
            in_comment = src[i] != LINE_FEED;
        } else if src[i] == HASH {
            in_comment = true;
        }
        i += 1;
    }
    i
}

/// The token that a single byte stands for, if it is one.
fn punctuation_token(b: u8) -> (r: Option<Token>)
    ensures
        r is Some <==> punctuation(b) is Some,
        r is Some ==> r->Some_0@ == punctuation(b)->Some_0,
{
    if b == LEFT_PAREN {
        Some(Token::LeftParen)
    } else if b == RIGHT_PAREN {
        Some(Token::RightParen)
    } else if b == COMMA {
        Some(Token::Comma)
    } else if b == SEMICOLON {
        Some(Token::Semi)
    } else if b == PLUS {
        Some(Token::Add)
    } else if b == MINUS {
        Some(Token::Sub)
    } else if b == STAR {
        Some(Token::Mul)
    } else if b == LESS_THAN {
        Some(Token::Less)
    } else {
        None
    }
}

/// The bytes of `src` from `start` up to `end`.
fn copy_range(src: &Vec<u8>, start: usize, end: usize) -> (bytes: Vec<u8>)
    requires
        start <= end <= src.len(),
    ensures
        bytes@ == src@.subrange(start as int, end as int),
{
    let mut bytes: Vec<u8> = Vec::new();
    let mut i: usize = start;
    while i < end
        invariant
            start <= i <= end <= src.len(),
            bytes@ == src@.subrange(start as int, i as int),
        decreases end - i,
    {
        bytes.push(src[i]);
        i += 1;
    }
    bytes
}

/// Calls `String::from_utf8`, which accepts every sequence of ASCII bytes and
/// gives the string with one character for each byte, of the same code.
#[verifier::external_body]
fn string_from_ascii(bytes: Vec<u8>) -> (text: String)
    requires
        forall|i: int| 0 <= i < bytes@.len() ==> bytes@[i] < 0x80,
    ensures
        text@ == ascii_text(bytes@),
{
    String::from_utf8(bytes).unwrap()
}

/// The keyword or identifier spelled by the bytes of a word.
fn word(bytes: Vec<u8>) -> (token: Token)
    requires
        forall|i: int| 0 <= i < bytes@.len() ==> bytes@[i] < 0x80,
    ensures
        token@ == word_token(ascii_text(bytes@)),
{
    let n = bytes.len();
    // the bytes of `d`, `e`, `f`
    let is_def = n == 3 && bytes[0] == 0x64 && bytes[1] == 0x65 && bytes[2] == 0x66;
    // the bytes of `e`, `x`, `t`, `e`, `r`, `n`
    let is_extern = n == 6 && bytes[0] == 0x65 && bytes[1] == 0x78 && bytes[2] == 0x74 && bytes[3]
        == 0x65 && bytes[4] == 0x72 && bytes[5] == 0x6e;
    proof {
        let text = ascii_text(bytes@);
        assert(text.len() == n);
        if text =~= def_word() {
            assert(text[0] == 'd' && text[1] == 'e' && text[2] == 'f');
        }
        if text =~= extern_word() {
            assert(text[0] == 'e' && text[1] == 'x' && text[2] == 't');
            assert(text[3] == 'e' && text[4] == 'r' && text[5] == 'n');
        }
    }
    if is_def {
        Token::Def
    } else if is_extern {
        Token::Extern
    } else {
        Token::Identifier(string_from_ascii(bytes))
    }
}

/// A cursor over a source text with two tokens of lookahead.
///
/// Its view is the stream of the items that are still to come: the two in
/// the window, then those of the unread source, up to and with the first
/// terminal item.
pub struct Lexer {
    src: Vec<u8>,
    pos: usize,
    tok_1st: Result<Token, LexicalError>,
    tok_2nd: Result<Token, LexicalError>,
}

impl View for Lexer {
    type V = Seq<Item>;

    closed spec fn view(&self) -> Seq<Item> {
        let first = item_view(self.tok_1st);
        let second = item_view(self.tok_2nd);
        if is_terminal(first) {
            seq![first]
        } else if is_terminal(second) {
            seq![first, second]
        } else {
            seq![first, second] + tokens_from(self.src@, self.pos as int)
        }
    }
}

impl Lexer {
    /// The window agrees with the source: a terminal item in it is the one
    /// that the unread source gives again.
    pub closed spec fn wf(&self) -> bool {
        let first = item_view(self.tok_1st);
        let second = item_view(self.tok_2nd);
        &&& self.pos <= self.src.len()
        &&& is_terminal(first) ==> second == first
        &&& is_terminal(second) ==> lex_at(self.src@, self.pos as int) == (second, self.pos as int)
    }

    /// The bytes of the source text.
    pub closed spec fn source(&self) -> Seq<u8> {
        self.src@
    }

    /// The stream of a well-formed tokenizer is well terminated.
    pub proof fn lemma_view_terminated(&self)
        requires
            self.wf(),
        ensures
            well_terminated(self@),
    {
        let first = item_view(self.tok_1st);
        let second = item_view(self.tok_2nd);
        if !is_terminal(first) && !is_terminal(second) {
            let rest = tokens_from(self.src@, self.pos as int);
            lemma_tokens_from_terminated(self.src@, self.pos as int);
            let all = seq![first, second] + rest;
            assert(all.last() == rest.last());
            assert forall|i: int| 0 <= i < all.len() - 1 implies !is_terminal(
                #[trigger] all[i],
            ) by {
                if i > 1 {
                    assert(all[i] == rest[i - 2]);
                }
            }
        }
    }

    /// A tokenizer at the start of `source`, with the first two tokens in
    /// its window.
    pub fn new(source: Vec<u8>) -> (lexer: Lexer)
        ensures
            lexer.wf(),
            lexer.source() == source@,
            lexer@ == tokens_from(source@, 0),
    {
        let mut lexer = Lexer {
            src: source,
            pos: 0,
            tok_1st: Ok(Token::Eof),
            tok_2nd: Ok(Token::Eof),
        };
        let first = lexer.get_tok();
        let ghost mid = lexer.pos as int;
        let second = lexer.get_tok();
        lexer.tok_1st = first;
        lexer.tok_2nd = second;
        proof {
            let src = lexer.src@;
            lemma_lex_at_bounds(src, 0);
            lemma_lex_at_bounds(src, mid);
            let a = lex_at(src, 0).0;
            let b = lex_at(src, mid).0;
            assert(tokens_from(src, 0) == if is_terminal(a) {
                seq![a]
            } else {
                seq![a] + tokens_from(src, mid)
            });
            assert(tokens_from(src, mid) == if is_terminal(b) {
                seq![b]
            } else {
                seq![b] + tokens_from(src, lexer.pos as int)
            });
            assert(lexer@ =~= tokens_from(src, 0));
        }
        lexer
    }

    /// The next token, which stays pending.
    pub fn peek_first(&self) -> (item: &Result<Token, LexicalError>)
        ensures
            item_view(*item) == nth(self@, 0),
    {
        &self.tok_1st
    }

    /// The token after the next, which stays pending.
    pub fn peek_second(&self) -> (item: &Result<Token, LexicalError>)
        requires
            self.wf(),
        ensures
            item_view(*item) == nth(self@, 1),
    {
        &self.tok_2nd
    }

    /// Takes the next token: the window moves on by one, and its second slot
    /// is filled from the source. A terminal item is handed out without being
    /// used up, so that it is handed out again.
    pub fn next_token(&mut self) -> (item: Result<Token, LexicalError>)
        requires
            old(self).wf(),
        ensures
            final(self).wf(),
            final(self).source() == old(self).source(),
            item_view(item) == nth(old(self)@, 0),
            final(self)@ == advance(old(self)@),
    {
        let ghost before = self.pos as int;
        let mut slot = self.get_tok();
        proof {
            lemma_lex_at_bounds(self.src@, before);
        }
        std::mem::swap(&mut self.tok_2nd, &mut slot);
        std::mem::swap(&mut self.tok_1st, &mut slot);
        proof {
            assert(self@ =~= advance(old(self)@));
        }
        slot
    }

    /// Reads one token from the source, passing over white space and
    /// comments. At a fault the position stays at the offending byte.
    fn get_tok(&mut self) -> (item: Result<Token, LexicalError>)
        requires
            old(self).pos <= old(self).src.len(),
        ensures
            final(self).src == old(self).src,
            final(self).tok_1st == old(self).tok_1st,
            final(self).tok_2nd == old(self).tok_2nd,
            final(self).pos <= final(self).src.len(),
            (item_view(item), final(self).pos as int) == lex_at(
                old(self).src@,
                old(self).pos as int,
            ),
    {
        let start = skip_blank(&self.src, self.pos);
        self.pos = start;
        if start >= self.src.len() {
            return Ok(Token::Eof);
        }
        let b = self.src[start];
        if let Some(token) = punctuation_token(b) {
            self.pos = start + 1;
            return Ok(token);
        }
        if byte_is_alpha(b) {
            let end = scan_run(&self.src, start, ByteClass::Alnum);
            let bytes = copy_range(&self.src, start, end);
            proof {
                lemma_run_end(self.src@, start as int, ByteClass::Alnum);
            }
            self.pos = end;
            return Ok(word(bytes));
        }
        if byte_is_digit(b) {
            let end = scan_run(&self.src, start, ByteClass::NumberPart);
            let int_end = scan_run(&self.src, start, ByteClass::Digit);
            proof {
                lemma_run_end(self.src@, start as int, ByteClass::NumberPart);
                lemma_run_end(self.src@, start as int, ByteClass::Digit);
            }
            let whole = int_end == end;
            let ok = whole || (int_end < self.src.len() && scan_run(
                &self.src,
                int_end + 1,
                ByteClass::Digit,
            ) == end);
            if !ok {
                return Err(LexicalError::MalformedNumber);
            }
            let bytes = copy_range(&self.src, start, end);
            self.pos = end;
            return Ok(Token::Number(string_from_ascii(bytes)));
        }
        Err(LexicalError::UnknownByte(b))
    }
}

} // verus!
