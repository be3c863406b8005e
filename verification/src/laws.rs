//! Laws of the tokenizer, proved from the lexical grammar.

use vstd::prelude::*;
use crate::scan::{
    ascii_text, def_word, extern_word, is_alpha, is_digit, is_dot, lemma_lex_at_bounds,
    lemma_run_end_unique, lex_at, skip_trivia, tokens_from, ByteClass,
};
use crate::token::{advance, is_terminal, nth, token_item, well_terminated, Item, TokenView};

verus! {

/// A word that is none of the two keywords is an identifier that carries
/// exactly the text of the word.
///
/// The word is the run of letters and digits from `start` up to `end`; it
/// starts with a letter, and no letter or digit follows it. White space and
/// comments may stand between `pos` and the word.
pub proof fn lemma_identifier_token(src: Seq<u8>, pos: int, start: int, end: int)
    requires
        0 <= start < end <= src.len(),
        skip_trivia(src, pos, false) == start,
        is_alpha(src[start]),
        forall|i: int| start <= i < end ==> ByteClass::Alnum.holds(#[trigger] src[i]),
        end < src.len() ==> !ByteClass::Alnum.holds(src[end]),
        ascii_text(src.subrange(start, end)) != def_word(),
        ascii_text(src.subrange(start, end)) != extern_word(),
    ensures
        lex_at(src, pos) == (
            token_item(TokenView::Identifier(ascii_text(src.subrange(start, end)))),
            end,
        ),
        tokens_from(src, pos) == seq![
            token_item(TokenView::Identifier(ascii_text(src.subrange(start, end)))),
        ] + tokens_from(src, end),
{
    lemma_run_end_unique(src, start, ByteClass::Alnum, end);
}

/// A numeric literal of the form `digit+ ('.' digit+)?` is a number token
/// that carries exactly the text of the literal.
///
/// The digits before the dot run from `start` up to `int_end`, and the
/// literal ends at `end`; no digit and no dot follows it. White space and
/// comments may stand between `pos` and the literal.
pub proof fn lemma_number_token(src: Seq<u8>, pos: int, start: int, int_end: int, end: int)
    requires
        0 <= start < int_end <= end <= src.len(),
        skip_trivia(src, pos, false) == start,
        forall|i: int| start <= i < int_end ==> is_digit(#[trigger] src[i]),
        int_end < end ==> is_dot(src[int_end]) && int_end + 1 < end,
        forall|i: int| int_end < i < end ==> is_digit(#[trigger] src[i]),
        end < src.len() ==> !ByteClass::NumberPart.holds(src[end]),
    ensures
        lex_at(src, pos) == (
            token_item(TokenView::Number(ascii_text(src.subrange(start, end)))),
            end,
        ),
        tokens_from(src, pos) == seq![
            token_item(TokenView::Number(ascii_text(src.subrange(start, end)))),
        ] + tokens_from(src, end),
{
    assert(is_digit(src[start]));
    assert forall|i: int| start <= i < end implies ByteClass::NumberPart.holds(
        #[trigger] src[i],
    ) by {
        if i < int_end {
            assert(is_digit(src[i]));
        } else if i > int_end {
            assert(is_digit(src[i]));
        }
    }
    lemma_run_end_unique(src, start, ByteClass::NumberPart, end);
    lemma_run_end_unique(src, start, ByteClass::Digit, int_end);
    if int_end < end {
        lemma_run_end_unique(src, int_end + 1, ByteClass::Digit, end);
    }
}

/// The stream after `n` items were taken.
pub open spec fn advance_by(s: Seq<Item>, n: nat) -> Seq<Item>
    decreases n,
{
    if n == 0 {
        s
    } else {
        advance_by(advance(s), (n - 1) as nat)
    }
}

/// Once a stream has come to its terminal item, the end marker or a fault,
/// taking items changes nothing: the same item is handed out every time.
pub proof fn lemma_terminal_persists(s: Seq<Item>, n: nat)
    requires
        well_terminated(s),
        is_terminal(nth(s, 0)),
    ensures
        advance_by(s, n) == s,
        nth(advance_by(s, n), 0) == nth(s, 0),
    decreases n,
{
    if n > 0 {
        assert(s.len() == 1) by {
            if s.len() > 1 {
                assert(!is_terminal(s[0]));
            }
        }
        lemma_terminal_persists(s, (n - 1) as nat);
    }
}

/// Taking an item keeps a stream well terminated, and hands out the items in
/// their order: what was second becomes first.
pub proof fn lemma_advance(s: Seq<Item>)
    requires
        well_terminated(s),
    ensures
        well_terminated(advance(s)),
        nth(advance(s), 0) == nth(s, 1),
        !is_terminal(nth(s, 0)) ==> advance(s).len() + 1 == s.len(),
{
    if s.len() > 1 {
        let t = s.drop_first();
        assert(t.last() == s.last());
        assert forall|i: int| 0 <= i < t.len() - 1 implies !is_terminal(#[trigger] t[i]) by {
            assert(t[i] == s[i + 1]);
        }
    }
}

/// At the end of the source the tokenizer's stream is the end marker alone,
/// from every position at which only white space and comments are left.
pub proof fn lemma_end_of_source(src: Seq<u8>, pos: int)
    requires
        0 <= pos <= src.len(),
        skip_trivia(src, pos, false) == src.len(),
    ensures
        tokens_from(src, pos) == seq![token_item(TokenView::Eof)],
{
    lemma_lex_at_bounds(src, pos);
}

} // verus!
