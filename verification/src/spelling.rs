//! How tokens are spelled, and the proof that the tokenizer reads a text
//! that spells tokens, with a space behind each, as exactly these tokens.

use vstd::prelude::*;
use crate::scan::{
    ascii_text, def_word, extern_word, is_alpha, is_digit, is_space, lemma_lex_at_bounds,
    lemma_run_end, lemma_run_end_unique, lex_at, number_ok, punctuation, run_end, skip_trivia,
    tokens_from, ByteClass, SPACE,
};
use crate::token::{is_terminal, token_item, Item, TokenView};

verus! {

/// A word: a letter, then letters and digits.
pub open spec fn is_word(w: Seq<u8>) -> bool {
    &&& w.len() > 0
    &&& is_alpha(w[0])
    &&& forall|i: int| 0 <= i < w.len() ==> ByteClass::Alnum.holds(#[trigger] w[i])
}

/// A numeric literal: digits, then at most one `.` with nothing but digits
/// after it.
pub open spec fn is_number_literal(w: Seq<u8>) -> bool {
    &&& w.len() > 0
    &&& is_digit(w[0])
    &&& forall|i: int| 0 <= i < w.len() ==> ByteClass::NumberPart.holds(#[trigger] w[i])
    &&& number_ok(w, 0, w.len() as int)
}

/// Whether the bytes `w` spell the token `token`. Nothing spells the end
/// marker.
pub open spec fn spells(w: Seq<u8>, token: TokenView) -> bool {
    match token {
        TokenView::Eof => false,
        TokenView::Def => is_word(w) && ascii_text(w) =~= def_word(),
        TokenView::Extern => is_word(w) && ascii_text(w) =~= extern_word(),
        TokenView::Identifier(name) => is_word(w) && ascii_text(w) == name && !(name
            =~= def_word()) && !(name =~= extern_word()),
        TokenView::Number(text) => is_number_literal(w) && ascii_text(w) == text,
        _ => w.len() == 1 && punctuation(w[0]) == Some(token),
    }
}

/// The text made of the spellings from the one at `from` on, with a space
/// behind each.
pub open spec fn spaced(ws: Seq<Seq<u8>>, from: int) -> Seq<u8>
    decreases ws.len() - from,
{
    if from < 0 || from >= ws.len() {
        Seq::empty()
    } else {
        ws[from] + seq![SPACE] + spaced(ws, from + 1)
    }
}

/// The items that are the tokens from the one at `from` on, and the end
/// marker behind them.
pub open spec fn items_then_end(tokens: Seq<TokenView>, from: int) -> Seq<Item>
    decreases tokens.len() - from,
{
    if from < 0 || from >= tokens.len() {
        seq![token_item(TokenView::Eof)]
    } else {
        seq![token_item(tokens[from])] + items_then_end(tokens, from + 1)
    }
}

/// A run in the second of two texts put together ends where it ends in that
/// text alone.
pub proof fn lemma_run_end_shift(a: Seq<u8>, b: Seq<u8>, pos: int, class: ByteClass)
    requires
        0 <= pos <= b.len(),
    ensures
        run_end(a + b, a.len() + pos, class) == a.len() + run_end(b, pos, class),
    decreases b.len() - pos,
{
    if pos < b.len() {
        assert((a + b)[a.len() + pos] == b[pos]);
        if class.holds(b[pos]) {
            lemma_run_end_shift(a, b, pos + 1, class);
        }
    }
}

/// Skipping in the second of two texts put together stops where it stops in
/// that text alone.
pub proof fn lemma_skip_trivia_shift(a: Seq<u8>, b: Seq<u8>, pos: int, in_comment: bool)
    requires
        0 <= pos <= b.len(),
    ensures
        skip_trivia(a + b, a.len() + pos, in_comment) == a.len() + skip_trivia(b, pos, in_comment),
    decreases b.len() - pos,
{
    if pos < b.len() {
        assert((a + b)[a.len() + pos] == b[pos]);
        lemma_skip_trivia_shift(a, b, pos + 1, true);
        lemma_skip_trivia_shift(a, b, pos + 1, false);
    }
}

/// A token of the second of two texts put together is the token of that
/// text alone: what stands before a position has no part in what is read
/// from it.
pub proof fn lemma_lex_at_shift(a: Seq<u8>, b: Seq<u8>, pos: int)
    requires
        0 <= pos <= b.len(),
    ensures
        lex_at(a + b, a.len() + pos) == (lex_at(b, pos).0, a.len() + lex_at(b, pos).1),
{
    let s = a + b;
    let n = a.len() as int;
    lemma_skip_trivia_shift(a, b, pos, false);
    crate::scan::lemma_skip_trivia(b, pos, false);
    let start = skip_trivia(b, pos, false);
    if start < b.len() {
        assert(s[n + start] == b[start]);
        lemma_run_end_shift(a, b, start, ByteClass::Alnum);
        lemma_run_end_shift(a, b, start, ByteClass::NumberPart);
        lemma_run_end_shift(a, b, start, ByteClass::Digit);
        lemma_run_end(b, start, ByteClass::Alnum);
        lemma_run_end(b, start, ByteClass::NumberPart);
        lemma_run_end(b, start, ByteClass::Digit);
        let word_end = run_end(b, start, ByteClass::Alnum);
        let number_end = run_end(b, start, ByteClass::NumberPart);
        let int_end = run_end(b, start, ByteClass::Digit);
        assert(s.subrange(n + start, n + word_end) =~= b.subrange(start, word_end));
        assert(s.subrange(n + start, n + number_end) =~= b.subrange(start, number_end));
        if int_end < b.len() {
            lemma_run_end_shift(a, b, int_end + 1, ByteClass::Digit);
        } else {
            assert(run_end(b, int_end + 1, ByteClass::Digit) == int_end + 1);
            assert(run_end(s, n + int_end + 1, ByteClass::Digit) == n + int_end + 1);
        }
    }
}

/// The tokens of the second of two texts put together are the tokens of
/// that text alone.
pub proof fn lemma_tokens_from_shift(a: Seq<u8>, b: Seq<u8>, pos: int)
    requires
        0 <= pos <= b.len(),
    ensures
        tokens_from(a + b, a.len() + pos) == tokens_from(b, pos),
    decreases b.len() - pos,
{
    lemma_lex_at_shift(a, b, pos);
    lemma_lex_at_bounds(b, pos);
    let (item, next) = lex_at(b, pos);
    if !is_terminal(item) {
        lemma_tokens_from_shift(a, b, next);
    }
}

/// A text that starts with the spelling of a token and a space starts with
/// that token, which ends where its spelling ends.
pub proof fn lemma_lex_of_spelling(w: Seq<u8>, token: TokenView, after: Seq<u8>)
    requires
        spells(w, token),
        after.len() > 0,
        is_space(after[0]),
    ensures
        lex_at(w + after, 0) == (token_item(token), w.len() as int),
{
    let s = w + after;
    let n = w.len() as int;
    assert(s[0] == w[0]);
    assert(s[n] == after[0]);
    assert(s.subrange(0, n) =~= w);
    assert(skip_trivia(s, 0, false) == 0);
    match token {
        TokenView::Def | TokenView::Extern | TokenView::Identifier(_) => {
            assert forall|i: int| 0 <= i < n implies ByteClass::Alnum.holds(#[trigger] s[i]) by {
                assert(s[i] == w[i]);
            }
            lemma_run_end_unique(s, 0, ByteClass::Alnum, n);
        },
        TokenView::Number(_) => {
            assert forall|i: int| 0 <= i < n implies ByteClass::NumberPart.holds(
                #[trigger] s[i],
            ) by {
                assert(s[i] == w[i]);
            }
            lemma_run_end_unique(s, 0, ByteClass::NumberPart, n);
            lemma_run_end_shift(Seq::empty(), w, 0, ByteClass::Digit);
            lemma_run_end(w, 0, ByteClass::Digit);
            let int_end = run_end(w, 0, ByteClass::Digit);
            lemma_digits_of_prefix(w, after, 0);
            if int_end < n {
                lemma_digits_of_prefix(w, after, int_end + 1);
            }
        },
        _ => {},
    }
}

/// A run of digits that ends within the first of two texts put together,
/// or at its end before a space, ends there in both.
proof fn lemma_digits_of_prefix(w: Seq<u8>, after: Seq<u8>, pos: int)
    requires
        0 <= pos <= w.len(),
        after.len() > 0,
        is_space(after[0]),
    ensures
        run_end(w + after, pos, ByteClass::Digit) == run_end(w, pos, ByteClass::Digit),
    decreases w.len() - pos,
{
    let s = w + after;
    if pos < w.len() {
        assert(s[pos] == w[pos]);
        if ByteClass::Digit.holds(w[pos]) {
            lemma_digits_of_prefix(w, after, pos + 1);
        }
    } else {
        assert(s[pos] == after[0]);
    }
}

/// The tokenizer reads a text that spells tokens, with a space behind each,
/// as exactly these tokens and then the end marker.
pub proof fn lemma_tokens_of_spaced(ws: Seq<Seq<u8>>, tokens: Seq<TokenView>, from: int)
    requires
        ws.len() == tokens.len(),
        0 <= from <= ws.len(),
        forall|i: int| 0 <= i < ws.len() ==> spells(#[trigger] ws[i], tokens[i]),
    ensures
        tokens_from(spaced(ws, from), 0) == items_then_end(tokens, from),
    decreases ws.len() - from,
{
    if from < ws.len() {
        let w = ws[from];
        let more = spaced(ws, from + 1);
        let after = seq![SPACE] + more;
        let s = w + after;
        let n = w.len() as int;
        assert(spells(w, tokens[from]));
        assert(spaced(ws, from) =~= s);
        assert(after[0] == SPACE);
        lemma_lex_of_spelling(w, tokens[from], after);
        // behind the token, the space is passed over
        assert(s =~= (w + seq![SPACE]) + more);
        lemma_tokens_from_shift(w + seq![SPACE], more, 0);
        lemma_tokens_of_spaced(ws, tokens, from + 1);
        assert(s[n] == SPACE);
        assert(skip_trivia(s, n, false) == skip_trivia(s, n + 1, false));
        assert(lex_at(s, n) == lex_at(s, n + 1));
        assert(tokens_from(s, n) == tokens_from(s, n + 1));
    } else {
        assert(spaced(ws, from) =~= Seq::<u8>::empty());
    }
}

} // verus!
