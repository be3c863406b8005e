//! What parsing leaves of a stream: a tail of it. Items are taken from the
//! front alone, in their order, and the terminal item is never taken.

use vstd::prelude::*;
use crate::grammar::{
    lemma_expr_shrinks, lemma_unit_shrinks, operator, parse_args, parse_bin_rhs, parse_call,
    parse_expr, parse_function, parse_operand, parse_params, parse_paren, parse_primary,
    parse_program, parse_proto, parse_unit, precedence,
};
use crate::syntax::{AstView, ExprView};
use crate::token::{is_terminal, nth, token_item, well_terminated, Item, TokenView};

verus! {

/// Whether `rest` is what is left of `s` after items were taken from its
/// front, the last of them not among these.
pub open spec fn is_tail(rest: Seq<Item>, s: Seq<Item>) -> bool {
    0 < rest.len() <= s.len() && rest =~= s.skip(s.len() - rest.len())
}

/// A tail of a well-terminated stream is well terminated, and a tail of it
/// is a tail of the stream.
pub proof fn lemma_tail_of_tail(a: Seq<Item>, b: Seq<Item>, s: Seq<Item>)
    requires
        well_terminated(s),
        is_tail(b, s),
        is_tail(a, b),
    ensures
        well_terminated(b),
        is_tail(a, s),
{
    let k = s.len() - b.len();
    assert(b.last() == s.last());
    assert forall|i: int| 0 <= i < b.len() - 1 implies !is_terminal(#[trigger] b[i]) by {
        assert(b[i] == s[i + k]);
    }
    assert(a =~= s.skip(s.len() - a.len()));
}

/// Taking the first item of a tail gives a tail, where that item is not
/// terminal.
pub proof fn lemma_tail_step(rest: Seq<Item>, s: Seq<Item>)
    requires
        well_terminated(s),
        is_tail(rest, s),
        !is_terminal(nth(rest, 0)),
    ensures
        is_tail(rest.drop_first(), s),
        well_terminated(rest.drop_first()),
{
    lemma_tail_of_tail(rest, rest, s);
    assert(rest.len() > 1) by {
        if rest.len() == 1 {
            assert(rest.last() == rest[0]);
        }
    }
    let t = rest.drop_first();
    assert(t =~= s.skip(s.len() - t.len()));
    assert(is_tail(t, rest)) by {
        assert(t =~= rest.skip(rest.len() - t.len()));
    }
    lemma_tail_of_tail(t, rest, s);
    lemma_tail_of_tail(t, t, rest);
}

/// What an expression leaves of a well-terminated stream is a tail of it:
/// items are taken from the front alone, one after the other, and the
/// terminal item, the end marker or a fault, is never among them.
pub proof fn lemma_expr_leaves_tail(s: Seq<Item>)
    requires
        well_terminated(s),
    ensures
        is_tail(parse_expr(s).1, s),
    decreases s.len(), 3nat,
{
    lemma_primary_leaves_tail(s);
    let (first, rest) = parse_primary(s);
    if first is Ok && rest.len() <= s.len() {
        lemma_tail_of_tail(rest, rest, s);
        lemma_bin_rhs_leaves_tail(rest, first->Ok_0, 0);
        lemma_tail_of_tail(parse_bin_rhs(rest, first->Ok_0, 0).1, rest, s);
    }
}

/// What follows a left operand leaves a tail of a well-terminated stream.
pub proof fn lemma_bin_rhs_leaves_tail(s: Seq<Item>, lhs: ExprView, min_prec: int)
    requires
        well_terminated(s),
    ensures
        is_tail(parse_bin_rhs(s, lhs, min_prec).1, s),
    decreases s.len(), 1nat,
{
    let prec = precedence(nth(s, 0));
    if prec >= min_prec && operator(nth(s, 0)) is Some {
        let op = operator(nth(s, 0))->Some_0;
        let t = s.drop_first();
        lemma_tail_step(s, s);
        lemma_operand_leaves_tail(t, prec);
        let (operand, rest) = parse_operand(t, prec);
        lemma_tail_of_tail(rest, t, s);
        if operand is Ok && rest.len() < s.len() {
            let next = ExprView::Bin(Box::new(lhs), op, Box::new(operand->Ok_0));
            lemma_tail_of_tail(rest, rest, s);
            lemma_bin_rhs_leaves_tail(rest, next, min_prec);
            lemma_tail_of_tail(parse_bin_rhs(rest, next, min_prec).1, rest, s);
        }
    }
}

/// A right operand leaves a tail of a well-terminated stream.
pub proof fn lemma_operand_leaves_tail(s: Seq<Item>, prec: int)
    requires
        well_terminated(s),
    ensures
        is_tail(parse_operand(s, prec).1, s),
    decreases s.len(), 3nat,
{
    lemma_primary_leaves_tail(s);
    let (first, rest) = parse_primary(s);
    if first is Ok && rest.len() <= s.len() && prec < precedence(nth(rest, 0)) {
        lemma_tail_of_tail(rest, rest, s);
        lemma_bin_rhs_leaves_tail(rest, first->Ok_0, prec + 1);
        lemma_tail_of_tail(parse_bin_rhs(rest, first->Ok_0, prec + 1).1, rest, s);
    }
}

/// A primary leaves a tail of a well-terminated stream.
pub proof fn lemma_primary_leaves_tail(s: Seq<Item>)
    requires
        well_terminated(s),
    ensures
        is_tail(parse_primary(s).1, s),
    decreases s.len(), 2nat,
{
    match nth(s, 0) {
        Ok(TokenView::Number(_)) => {
            lemma_tail_step(s, s);
        },
        Ok(TokenView::LeftParen) => {
            lemma_paren_leaves_tail(s);
        },
        Ok(TokenView::Identifier(_)) => {
            match nth(s, 1) {
                Ok(TokenView::LeftParen) => {
                    lemma_call_leaves_tail(s);
                },
                _ => {
                    lemma_tail_step(s, s);
                },
            }
        },
        _ => {},
    }
}

/// A parenthesized expression leaves a tail of a well-terminated stream.
pub proof fn lemma_paren_leaves_tail(s: Seq<Item>)
    requires
        well_terminated(s),
    ensures
        is_tail(parse_paren(s).1, s),
    decreases s.len(), 1nat,
{
    match nth(s, 0) {
        Ok(TokenView::LeftParen) => {
            let t = s.drop_first();
            lemma_tail_step(s, s);
            lemma_expr_leaves_tail(t);
            let (inner, rest) = parse_expr(t);
            lemma_tail_of_tail(rest, t, s);
            if inner is Ok {
                match nth(rest, 0) {
                    Ok(TokenView::RightParen) => {
                        lemma_tail_step(rest, s);
                    },
                    _ => {},
                }
            }
        },
        _ => {},
    }
}

/// A call leaves a tail of a well-terminated stream.
pub proof fn lemma_call_leaves_tail(s: Seq<Item>)
    requires
        well_terminated(s),
    ensures
        is_tail(parse_call(s).1, s),
    decreases s.len(), 1nat,
{
    match nth(s, 0) {
        Ok(TokenView::Identifier(_)) => {
            let t = s.drop_first();
            lemma_tail_step(s, s);
            assert(nth(s, 1) == nth(t, 0));
            match nth(s, 1) {
                Ok(TokenView::LeftParen) => {
                    let inner = t.drop_first();
                    lemma_tail_step(t, s);
                    match nth(inner, 0) {
                        Ok(TokenView::RightParen) => {
                            lemma_tail_step(inner, s);
                        },
                        _ => {
                            lemma_args_leave_tail(inner, Seq::empty());
                            lemma_tail_of_tail(parse_args(inner, Seq::empty()).1, inner, s);
                        },
                    }
                },
                _ => {},
            }
        },
        _ => {},
    }
}

/// A list of arguments leaves a tail of a well-terminated stream.
pub proof fn lemma_args_leave_tail(s: Seq<Item>, acc: Seq<ExprView>)
    requires
        well_terminated(s),
    ensures
        is_tail(parse_args(s, acc).1, s),
    decreases s.len(), 4nat,
{
    lemma_expr_leaves_tail(s);
    lemma_expr_shrinks(s);
    let (arg, rest) = parse_expr(s);
    if arg is Ok {
        match nth(rest, 0) {
            Ok(TokenView::RightParen) => {
                lemma_tail_step(rest, s);
            },
            Ok(TokenView::Comma) => {
                let t = rest.drop_first();
                lemma_tail_step(rest, s);
                lemma_args_leave_tail(t, acc.push(arg->Ok_0));
                lemma_tail_of_tail(parse_args(t, acc.push(arg->Ok_0)).1, t, s);
            },
            _ => {},
        }
    }
}

/// A list of parameters leaves a tail of a well-terminated stream.
pub proof fn lemma_params_leave_tail(s: Seq<Item>, acc: Seq<Seq<char>>)
    requires
        well_terminated(s),
    ensures
        is_tail(parse_params(s, acc).1, s),
    decreases s.len(),
{
    match nth(s, 0) {
        Ok(TokenView::Identifier(name)) => {
            let t = s.drop_first();
            lemma_tail_step(s, s);
            lemma_params_leave_tail(t, acc.push(name));
            lemma_tail_of_tail(parse_params(t, acc.push(name)).1, t, s);
        },
        Ok(TokenView::RightParen) => {
            lemma_tail_step(s, s);
        },
        _ => {},
    }
}

/// A prototype leaves a tail of a well-terminated stream.
pub proof fn lemma_proto_leaves_tail(s: Seq<Item>)
    requires
        well_terminated(s),
    ensures
        is_tail(parse_proto(s).1, s),
{
    match nth(s, 0) {
        Ok(TokenView::Identifier(_)) => {
            let t = s.drop_first();
            lemma_tail_step(s, s);
            assert(nth(s, 1) == nth(t, 0));
            match nth(s, 1) {
                Ok(TokenView::LeftParen) => {
                    let inner = t.drop_first();
                    lemma_tail_step(t, s);
                    lemma_params_leave_tail(inner, Seq::empty());
                    lemma_tail_of_tail(parse_params(inner, Seq::empty()).1, inner, s);
                },
                _ => {},
            }
        },
        _ => {},
    }
}

/// A function definition leaves a tail of a well-terminated stream.
pub proof fn lemma_function_leaves_tail(s: Seq<Item>)
    requires
        well_terminated(s),
    ensures
        is_tail(parse_function(s).1, s),
{
    match nth(s, 0) {
        Ok(TokenView::Def) => {
            let t = s.drop_first();
            lemma_tail_step(s, s);
            lemma_proto_leaves_tail(t);
            let (proto, rest) = parse_proto(t);
            lemma_tail_of_tail(rest, t, s);
            if proto is Ok {
                lemma_tail_of_tail(rest, rest, s);
                lemma_expr_leaves_tail(rest);
                lemma_tail_of_tail(parse_expr(rest).1, rest, s);
            }
        },
        _ => {},
    }
}

/// A unit leaves a tail of a well-terminated stream.
pub proof fn lemma_unit_leaves_tail(s: Seq<Item>)
    requires
        well_terminated(s),
    ensures
        is_tail(parse_unit(s).1, s),
{
    match nth(s, 0) {
        Ok(TokenView::Extern) => {
            let t = s.drop_first();
            lemma_tail_step(s, s);
            lemma_proto_leaves_tail(t);
            lemma_tail_of_tail(parse_proto(t).1, t, s);
        },
        Ok(TokenView::Def) => {
            lemma_function_leaves_tail(s);
        },
        _ => {
            lemma_expr_leaves_tail(s);
        },
    }
}

/// The top-level loop leaves a tail of a well-terminated stream. Where it
/// ends without an error, that tail is the end marker alone.
pub proof fn lemma_program_leaves_tail(s: Seq<Item>, acc: Seq<AstView>)
    requires
        well_terminated(s),
    ensures
        is_tail(parse_program(s, acc).rest, s),
        parse_program(s, acc).error is None ==> parse_program(s, acc).rest == seq![
            token_item(TokenView::Eof)
        ],
    decreases s.len(),
{
    match nth(s, 0) {
        Ok(TokenView::Eof) => {
            assert(s.len() == 1) by {
                if s.len() > 1 {
                    assert(!is_terminal(s[0]));
                }
            }
            assert(s =~= seq![token_item(TokenView::Eof)]);
        },
        Ok(TokenView::Semi) => {
            let t = s.drop_first();
            lemma_tail_step(s, s);
            lemma_program_leaves_tail(t, acc);
            lemma_tail_of_tail(parse_program(t, acc).rest, t, s);
        },
        _ => {
            lemma_unit_leaves_tail(s);
            lemma_unit_shrinks(s);
            let (unit, rest) = parse_unit(s);
            if unit is Ok {
                lemma_tail_of_tail(rest, rest, s);
                lemma_program_leaves_tail(rest, acc.push(unit->Ok_0));
                lemma_tail_of_tail(parse_program(rest, acc.push(unit->Ok_0)).rest, rest, s);
            }
        },
    }
}

/// The items that were taken from a well-terminated stream to leave a tail
/// of it are tokens, none of them the end marker: a parse that passes a
/// place has found no fault there.
pub proof fn lemma_taken_items_are_tokens(rest: Seq<Item>, s: Seq<Item>)
    requires
        well_terminated(s),
        is_tail(rest, s),
    ensures
        forall|i: int| 0 <= i < s.len() - rest.len() ==> !is_terminal(#[trigger] s[i]),
{
}

} // verus!
