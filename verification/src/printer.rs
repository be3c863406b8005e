//! A rendering of expression trees as tokens, with every operation in
//! parentheses, and the proof that parsing undoes it.

use vstd::prelude::*;
use crate::grammar::{
    lemma_expr_shrinks, lemma_primary_shrinks, operator, parse_args, parse_bin_rhs, parse_call,
    parse_expr, parse_operand, parse_paren, parse_primary, parsed, precedence,
};
use crate::scan::tokens_from;
use crate::spelling::{items_then_end, lemma_tokens_of_spaced, spaced, spells};
use crate::syntax::ExprView;
use crate::token::{nth, token_item, Item, TokenView};

verus! {

/// The four characters that name a binary operator.
pub open spec fn is_operator(op: char) -> bool {
    op == '<' || op == '+' || op == '-' || op == '*'
}

/// The token of the operator that `op` names.
pub open spec fn operator_token(op: char) -> TokenView {
    if op == '<' {
        TokenView::Less
    } else if op == '+' {
        TokenView::Add
    } else if op == '-' {
        TokenView::Sub
    } else {
        TokenView::Mul
    }
}

/// A tree whose every operation has one of the four operators.
pub open spec fn well_formed(e: ExprView) -> bool
    decreases e,
{
    match e {
        ExprView::Num(_) => true,
        ExprView::Var(_) => true,
        ExprView::Bin(lhs, op, rhs) => is_operator(op) && well_formed(*lhs) && well_formed(*rhs),
        ExprView::Call(_, args) => forall|i: int|
            0 <= i < args.len() ==> well_formed(#[trigger] args[i]),
    }
}

/// The tokens of an expression: a number or a name as it is, an operation
/// between parentheses, a call with commas between its arguments.
pub open spec fn render(e: ExprView) -> Seq<Item>
    decreases e, 0nat,
{
    match e {
        ExprView::Num(text) => seq![token_item(TokenView::Number(text))],
        ExprView::Var(name) => seq![token_item(TokenView::Identifier(name))],
        ExprView::Bin(lhs, op, rhs) => seq![token_item(TokenView::LeftParen)] + render(*lhs)
            + seq![token_item(operator_token(op))] + render(*rhs) + seq![
            token_item(TokenView::RightParen),
        ],
        ExprView::Call(callee, args) => seq![
            token_item(TokenView::Identifier(callee)),
            token_item(TokenView::LeftParen),
        ] + render_args(args, 0) + seq![token_item(TokenView::RightParen)],
    }
}

/// The tokens of the arguments from the one at `from` on, with a comma
/// before each but the first of them.
pub open spec fn render_args(args: Seq<ExprView>, from: int) -> Seq<Item>
    decreases args, args.len() - from,
{
    if from < 0 || from >= args.len() {
        Seq::empty()
    } else if from + 1 == args.len() {
        render(args[from])
    } else {
        render(args[from]) + seq![token_item(TokenView::Comma)] + render_args(args, from + 1)
    }
}

/// A rendering starts with a number, a name or `(`.
pub proof fn lemma_render_head(e: ExprView)
    ensures
        render(e).len() > 0,
        render(e)[0] matches Ok(token) && (token is Number || token is Identifier
            || token is LeftParen),
    decreases e,
{
}

/// Parsing the rendering of a tree as a primary gives back the tree and
/// leaves what stood behind the rendering, unless that starts with `(`,
/// which would make a call of a name.
pub proof fn lemma_primary_of_render(e: ExprView, rest: Seq<Item>)
    requires
        well_formed(e),
        nth(rest, 0) != token_item(TokenView::LeftParen),
    ensures
        parse_primary(render(e) + rest) == parsed(e, rest),
    decreases e, 0nat, 0nat,
{
    let s = render(e) + rest;
    match e {
        ExprView::Num(text) => {
            assert(s.drop_first() =~= rest);
        },
        ExprView::Var(name) => {
            assert(s.drop_first() =~= rest);
            if rest.len() > 0 {
                assert(nth(s, 1) == rest[0]);
            }
        },
        ExprView::Bin(lhs, op, rhs) => {
            let close = seq![token_item(TokenView::RightParen)] + rest;
            let right = render(*rhs) + close;
            let after = seq![token_item(operator_token(op))] + right;
            let inner = render(*lhs) + after;
            assert(s.drop_first() =~= inner);
            assert(after.drop_first() =~= right);
            assert(close.drop_first() =~= rest);
            lemma_primary_of_render(*lhs, after);
            lemma_primary_of_render(*rhs, close);
            lemma_primary_shrinks(inner);
            lemma_primary_shrinks(right);
            let prec = precedence(nth(after, 0));
            assert(operator(nth(after, 0)) == Some(op));
            assert(parse_operand(right, prec) == parsed(*rhs, close));
            assert(parse_bin_rhs(close, e, 0) == parsed(e, close));
            assert(parse_bin_rhs(after, *lhs, 0) == parsed(e, close));
            assert(parse_expr(inner) == parsed(e, close));
            assert(parse_paren(s) == parsed(e, rest));
        },
        ExprView::Call(callee, args) => {
            let close = seq![token_item(TokenView::RightParen)] + rest;
            let inner = render_args(args, 0) + close;
            assert(s.drop_first().drop_first() =~= inner);
            assert(close.drop_first() =~= rest);
            assert(nth(s, 1) == token_item(TokenView::LeftParen));
            if args.len() == 0 {
                assert(inner =~= close);
                assert(args =~= Seq::<ExprView>::empty());
            } else {
                lemma_render_head(args[0]);
                assert(render_args(args, 0)[0] == render(args[0])[0]);
                assert(inner[0] == render(args[0])[0]);
                assert(inner =~= render_args(args, 0) + seq![token_item(TokenView::RightParen)]
                    + rest);
                lemma_args_of_render(args, 0, Seq::empty(), rest);
                assert(Seq::<ExprView>::empty() + args.skip(0) =~= args);
            }
            assert(parse_call(s) == parsed(e, rest));
        },
    }
}

/// Parsing the rendering of a tree as an expression gives back the tree and
/// leaves what stood behind the rendering, unless that starts with `(` or
/// with an operator, which would make the expression go on.
pub proof fn lemma_expr_of_render(e: ExprView, rest: Seq<Item>)
    requires
        well_formed(e),
        nth(rest, 0) != token_item(TokenView::LeftParen),
        precedence(nth(rest, 0)) < 0,
    ensures
        parse_expr(render(e) + rest) == parsed(e, rest),
    decreases e, 0nat, 1nat,
{
    lemma_primary_of_render(e, rest);
    lemma_primary_shrinks(render(e) + rest);
}

/// Parsing the rendering of the arguments from `from` on, with the `)` that
/// closes the list, adds these arguments to those in `acc`.
pub proof fn lemma_args_of_render(
    args: Seq<ExprView>,
    from: int,
    acc: Seq<ExprView>,
    rest: Seq<Item>,
)
    requires
        0 <= from < args.len(),
        forall|i: int| 0 <= i < args.len() ==> well_formed(#[trigger] args[i]),
    ensures
        parse_args(render_args(args, from) + seq![token_item(TokenView::RightParen)] + rest, acc)
            == parsed(acc + args.skip(from), rest),
    decreases args, args.len() - from, 0nat,
{
    let close = seq![token_item(TokenView::RightParen)] + rest;
    let s = render_args(args, from) + seq![token_item(TokenView::RightParen)] + rest;
    let arg = args[from];
    assert(close.drop_first() =~= rest);
    if from + 1 == args.len() {
        assert(s =~= render(arg) + close);
        lemma_expr_of_render(arg, close);
        assert(acc.push(arg) =~= acc + args.skip(from));
    } else {
        let more = render_args(args, from + 1) + seq![token_item(TokenView::RightParen)] + rest;
        let after = seq![token_item(TokenView::Comma)] + more;
        assert(s =~= render(arg) + after);
        assert(after.drop_first() =~= more);
        lemma_expr_of_render(arg, after);
        lemma_expr_shrinks(render(arg) + after);
        lemma_args_of_render(args, from + 1, acc.push(arg), rest);
        assert(acc.push(arg) + args.skip(from + 1) =~= acc + args.skip(from));
    }
}

/// Whether every tree of a list is well formed.
pub open spec fn all_well_formed(trees: Seq<ExprView>) -> bool {
    forall|i: int| 0 <= i < trees.len() ==> well_formed(#[trigger] trees[i])
}

/// An expression that is parsed is well formed.
pub proof fn lemma_expr_well_formed(s: Seq<Item>)
    ensures
        parse_expr(s).0 matches Ok(e) ==> well_formed(e),
    decreases s.len(), 3nat,
{
    lemma_primary_well_formed(s);
    let (first, rest) = parse_primary(s);
    if first is Ok && rest.len() <= s.len() {
        lemma_bin_rhs_well_formed(rest, first->Ok_0, 0);
    }
}

/// What is parsed behind a well-formed left operand is well formed.
pub proof fn lemma_bin_rhs_well_formed(s: Seq<Item>, lhs: ExprView, min_prec: int)
    requires
        well_formed(lhs),
    ensures
        parse_bin_rhs(s, lhs, min_prec).0 matches Ok(e) ==> well_formed(e),
    decreases s.len(), 1nat,
{
    let prec = precedence(nth(s, 0));
    if prec >= min_prec && operator(nth(s, 0)) is Some {
        let op = operator(nth(s, 0))->Some_0;
        lemma_operand_well_formed(s.drop_first(), prec);
        let (operand, rest) = parse_operand(s.drop_first(), prec);
        if operand is Ok && rest.len() < s.len() {
            lemma_bin_rhs_well_formed(
                rest,
                ExprView::Bin(Box::new(lhs), op, Box::new(operand->Ok_0)),
                min_prec,
            );
        }
    }
}

/// A right operand that is parsed is well formed.
pub proof fn lemma_operand_well_formed(s: Seq<Item>, prec: int)
    ensures
        parse_operand(s, prec).0 matches Ok(e) ==> well_formed(e),
    decreases s.len(), 3nat,
{
    lemma_primary_well_formed(s);
    let (first, rest) = parse_primary(s);
    if first is Ok && rest.len() <= s.len() && prec < precedence(nth(rest, 0)) {
        lemma_bin_rhs_well_formed(rest, first->Ok_0, prec + 1);
    }
}

/// A primary that is parsed is well formed.
pub proof fn lemma_primary_well_formed(s: Seq<Item>)
    ensures
        parse_primary(s).0 matches Ok(e) ==> well_formed(e),
    decreases s.len(), 2nat,
{
    match nth(s, 0) {
        Ok(TokenView::LeftParen) => {
            lemma_expr_well_formed(s.drop_first());
        },
        Ok(TokenView::Identifier(_)) => {
            match nth(s, 1) {
                Ok(TokenView::LeftParen) => {
                    let inner = s.drop_first().drop_first();
                    lemma_args_well_formed(inner, Seq::empty());
                },
                _ => {},
            }
        },
        _ => {},
    }
}

/// The arguments that are parsed are well formed, where those gathered
/// before them are.
pub proof fn lemma_args_well_formed(s: Seq<Item>, acc: Seq<ExprView>)
    requires
        all_well_formed(acc),
    ensures
        parse_args(s, acc).0 matches Ok(args) ==> all_well_formed(args),
    decreases s.len(), 4nat,
{
    lemma_expr_well_formed(s);
    let (arg, rest) = parse_expr(s);
    if arg is Ok {
        match nth(rest, 0) {
            Ok(TokenView::Comma) => {
                if rest.len() <= s.len() {
                    lemma_args_well_formed(rest.drop_first(), acc.push(arg->Ok_0));
                }
            },
            _ => {},
        }
    }
}

/// Parsing the rendering of a tree that was parsed gives that tree again.
///
/// The rendering may be followed by anything that does not make the
/// expression go on: `rest` starts neither with `(` nor with an operator.
pub proof fn lemma_round_trip(s: Seq<Item>, rest: Seq<Item>)
    requires
        parse_expr(s).0 is Ok,
        nth(rest, 0) != token_item(TokenView::LeftParen),
        precedence(nth(rest, 0)) < 0,
    ensures
        parse_expr(render(parse_expr(s).0->Ok_0) + rest) == parsed(parse_expr(s).0->Ok_0, rest),
{
    lemma_expr_well_formed(s);
    lemma_expr_of_render(parse_expr(s).0->Ok_0, rest);
}

/// The items of a list of tokens, with the end marker behind them, are the
/// tokens as items and then the end marker.
proof fn lemma_items_then_end(tokens: Seq<TokenView>, items: Seq<Item>, from: int)
    requires
        tokens.len() == items.len(),
        0 <= from <= tokens.len(),
        forall|i: int| 0 <= i < tokens.len() ==> #[trigger] items[i] == token_item(tokens[i]),
    ensures
        items_then_end(tokens, from) == items.skip(from) + seq![token_item(TokenView::Eof)],
    decreases tokens.len() - from,
{
    if from < tokens.len() {
        lemma_items_then_end(tokens, items, from + 1);
        assert(items.skip(from) =~= seq![items[from]] + items.skip(from + 1));
        assert(seq![items[from]] + (items.skip(from + 1) + seq![token_item(TokenView::Eof)])
            =~= items.skip(from) + seq![token_item(TokenView::Eof)]);
    } else {
        assert(items.skip(from) + seq![token_item(TokenView::Eof)] =~= seq![
            token_item(TokenView::Eof),
        ]);
    }
}

/// A text that spells the rendering of a tree, token by token and with a
/// space behind each, is read and parsed as that tree, with nothing left
/// but the end marker.
///
/// `tokens` are the tokens of the rendering, and `ws` their spellings.
pub proof fn lemma_text_round_trip(e: ExprView, tokens: Seq<TokenView>, ws: Seq<Seq<u8>>)
    requires
        well_formed(e),
        tokens.len() == render(e).len(),
        forall|i: int| 0 <= i < tokens.len() ==> #[trigger] render(e)[i] == token_item(tokens[i]),
        ws.len() == tokens.len(),
        forall|i: int| 0 <= i < ws.len() ==> spells(#[trigger] ws[i], tokens[i]),
    ensures
        parse_expr(tokens_from(spaced(ws, 0), 0)) == parsed(
            e,
            seq![token_item(TokenView::Eof)],
        ),
{
    let end = seq![token_item(TokenView::Eof)];
    lemma_tokens_of_spaced(ws, tokens, 0);
    lemma_items_then_end(tokens, render(e), 0);
    assert(render(e).skip(0) =~= render(e));
    lemma_expr_of_render(e, end);
}

} // verus!
