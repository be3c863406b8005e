//! The grammar, stated as functions from a stream of items to what is parsed
//! from its front and the stream that is left.
//!
//! ```text
//! unit      := 'extern' prototype | 'def' prototype expr | expr
//! prototype := IDENT '(' IDENT* ')'
//! expr      := primary (binop primary)*
//! primary   := NUMBER | '(' expr ')' | call | IDENT
//! call      := IDENT '(' (expr (',' expr)*)? ')'
//! binop     := '+' | '-' | '*' | '<'
//! ```
//!
//! Every function gives up at the first item that the grammar does not allow.
//! The error then says what that item was, and the stream that is left
//! starts with it.

use vstd::prelude::*;
use crate::syntax::{
    anonymous_proto, AstView, ExprView, FuncView, ParseError, ProtoView, SyntaxError,
};
use crate::token::{nth, Item, TokenView};

verus! {

/// What was parsed from the front of a stream, or why nothing was, and the
/// stream that is left.
pub type Parse<T> = (Result<T, ParseError>, Seq<Item>);

/// The outcome of a parse that gave `value` and left `rest`.
pub open spec fn parsed<T>(value: T, rest: Seq<Item>) -> Parse<T> {
    (Ok(value), rest)
}

/// The error for an item that may not stand where it was found.
pub open spec fn reject(item: Item) -> ParseError {
    match item {
        Err(fault) => ParseError::Lexical(fault),
        Ok(TokenView::Eof) => ParseError::Syntax(SyntaxError::UnexpectedEof),
        Ok(_) => ParseError::Syntax(SyntaxError::MissingToken),
    }
}

/// How tightly an item binds as a binary operator; -1 for every item that is
/// none.
pub open spec fn precedence(item: Item) -> int {
    match item {
        Ok(TokenView::Less) => 10,
        Ok(TokenView::Add) => 20,
        Ok(TokenView::Sub) => 20,
        Ok(TokenView::Mul) => 40,
        _ => -1,
    }
}

/// The character by which a tree names the operator that an item stands for.
pub open spec fn operator(item: Item) -> Option<char> {
    match item {
        Ok(TokenView::Less) => Some('<'),
        Ok(TokenView::Add) => Some('+'),
        Ok(TokenView::Sub) => Some('-'),
        Ok(TokenView::Mul) => Some('*'),
        _ => None,
    }
}

/// `expr := primary (binop primary)*`, grouped by precedence.
///
/// The comparison of lengths here and below only shows that the recursion
/// ends: `lemma_expr_shrinks` and its companions prove that it always holds.
pub open spec fn parse_expr(s: Seq<Item>) -> Parse<ExprView>
    decreases s.len(), 3nat,
{
    let (first, rest) = parse_primary(s);
    match first {
        Ok(lhs) if rest.len() <= s.len() => parse_bin_rhs(rest, lhs, 0),
        _ => (first, rest),
    }
}

/// The operators and operands that follow the left operand `lhs`, as far as
/// the operators bind at least as tightly as `min_prec`.
///
/// An operator takes the primary behind it as its right operand, unless the
/// operator after that primary binds more tightly: then the right operand is
/// first extended by all that binds more tightly than the operator itself.
/// The operation so formed is the left operand of what follows. Operators of
/// one precedence therefore group to the left.
pub open spec fn parse_bin_rhs(s: Seq<Item>, lhs: ExprView, min_prec: int) -> Parse<ExprView>
    decreases s.len(), 1nat,
{
    let prec = precedence(nth(s, 0));
    if prec < min_prec {
        (Ok(lhs), s)
    } else {
        match operator(nth(s, 0)) {
            None => (Err(reject(nth(s, 0))), s),
            Some(op) => {
                let (operand, rest) = parse_operand(s.drop_first(), prec);
                match operand {
                    Ok(rhs) if rest.len() < s.len() => parse_bin_rhs(
                        rest,
                        ExprView::Bin(Box::new(lhs), op, Box::new(rhs)),
                        min_prec,
                    ),
                    Ok(rhs) => (Ok(ExprView::Bin(Box::new(lhs), op, Box::new(rhs))), rest),
                    Err(e) => (Err(e), rest),
                }
            },
        }
    }
}

/// The right operand of an operator of precedence `prec`: a primary, with
/// all that follows it and binds more tightly than `prec`.
pub open spec fn parse_operand(s: Seq<Item>, prec: int) -> Parse<ExprView>
    decreases s.len(), 3nat,
{
    let (first, rest) = parse_primary(s);
    match first {
        Ok(rhs) if rest.len() <= s.len() && prec < precedence(nth(rest, 0)) => parse_bin_rhs(
            rest,
            rhs,
            prec + 1,
        ),
        _ => (first, rest),
    }
}

/// `primary := NUMBER | '(' expr ')' | call | IDENT`; an identifier opens a
/// call where `(` follows it.
pub open spec fn parse_primary(s: Seq<Item>) -> Parse<ExprView>
    decreases s.len(), 2nat,
{
    match nth(s, 0) {
        Ok(TokenView::Number(text)) => (Ok(ExprView::Num(text)), s.drop_first()),
        Ok(TokenView::LeftParen) => parse_paren(s),
        Ok(TokenView::Identifier(name)) => match nth(s, 1) {
            Ok(TokenView::LeftParen) => parse_call(s),
            _ => (Ok(ExprView::Var(name)), s.drop_first()),
        },
        other => (Err(reject(other)), s),
    }
}

/// `'(' expr ')'`, which stands for the expression between the parentheses.
pub open spec fn parse_paren(s: Seq<Item>) -> Parse<ExprView>
    decreases s.len(), 1nat,
{
    match nth(s, 0) {
        Ok(TokenView::LeftParen) => {
            let (inner, rest) = parse_expr(s.drop_first());
            match inner {
                Ok(e) => match nth(rest, 0) {
                    Ok(TokenView::RightParen) => (Ok(e), rest.drop_first()),
                    other => (Err(reject(other)), rest),
                },
                Err(e) => (Err(e), rest),
            }
        },
        other => (Err(reject(other)), s),
    }
}

/// `call := IDENT '(' (expr (',' expr)*)? ')'`.
pub open spec fn parse_call(s: Seq<Item>) -> Parse<ExprView>
    decreases s.len(), 1nat,
{
    match nth(s, 0) {
        Ok(TokenView::Identifier(callee)) => match nth(s, 1) {
            Ok(TokenView::LeftParen) => {
                let inner = s.drop_first().drop_first();
                match nth(inner, 0) {
                    Ok(TokenView::RightParen) => (
                        Ok(ExprView::Call(callee, Seq::empty())),
                        inner.drop_first(),
                    ),
                    _ => {
                        let (args, rest) = parse_args(inner, Seq::empty());
                        match args {
                            Ok(args) => (Ok(ExprView::Call(callee, args)), rest),
                            Err(e) => (Err(e), rest),
                        }
                    },
                }
            },
            other => (Err(reject(other)), s.drop_first()),
        },
        other => (Err(reject(other)), s),
    }
}

/// `expr (',' expr)* ')'`: the arguments of a call that has at least one,
/// added to those in `acc`, and the `)` that closes the list.
pub open spec fn parse_args(s: Seq<Item>, acc: Seq<ExprView>) -> Parse<Seq<ExprView>>
    decreases s.len(), 4nat,
{
    let (arg, rest) = parse_expr(s);
    match arg {
        Ok(e) => match nth(rest, 0) {
            Ok(TokenView::RightParen) => (Ok(acc.push(e)), rest.drop_first()),
            Ok(TokenView::Comma) if rest.len() <= s.len() => parse_args(
                rest.drop_first(),
                acc.push(e),
            ),
            other => (Err(reject(other)), rest),
        },
        Err(e) => (Err(e), rest),
    }
}

/// `IDENT* ')'`: the parameters of a prototype, added to those in `acc`, and
/// the `)` that closes the list. No commas stand between parameters.
pub open spec fn parse_params(s: Seq<Item>, acc: Seq<Seq<char>>) -> Parse<Seq<Seq<char>>>
    decreases s.len(),
{
    match nth(s, 0) {
        Ok(TokenView::Identifier(name)) => parse_params(s.drop_first(), acc.push(name)),
        Ok(TokenView::RightParen) => (Ok(acc), s.drop_first()),
        other => (Err(reject(other)), s),
    }
}

/// `prototype := IDENT '(' IDENT* ')'`.
pub open spec fn parse_proto(s: Seq<Item>) -> Parse<ProtoView> {
    match nth(s, 0) {
        Ok(TokenView::Identifier(name)) => match nth(s, 1) {
            Ok(TokenView::LeftParen) => {
                let (params, rest) = parse_params(s.drop_first().drop_first(), Seq::empty());
                match params {
                    Ok(params) => (Ok(ProtoView { name, params }), rest),
                    Err(e) => (Err(e), rest),
                }
            },
            other => (Err(reject(other)), s.drop_first()),
        },
        other => (Err(reject(other)), s),
    }
}

/// `'def' prototype expr`.
pub open spec fn parse_function(s: Seq<Item>) -> Parse<FuncView> {
    match nth(s, 0) {
        Ok(TokenView::Def) => {
            let (proto, rest) = parse_proto(s.drop_first());
            match proto {
                Ok(proto) => {
                    let (body, rest) = parse_expr(rest);
                    match body {
                        Ok(body) => (Ok(FuncView { proto, body }), rest),
                        Err(e) => (Err(e), rest),
                    }
                },
                Err(e) => (Err(e), rest),
            }
        },
        other => (Err(reject(other)), s),
    }
}

/// One top-level unit: an external declaration, a function definition, or a
/// bare expression, which becomes the body of a function without a name and
/// without parameters.
pub open spec fn parse_unit(s: Seq<Item>) -> Parse<AstView> {
    match nth(s, 0) {
        Ok(TokenView::Extern) => {
            let (proto, rest) = parse_proto(s.drop_first());
            match proto {
                Ok(proto) => (Ok(AstView::Proto(proto)), rest),
                Err(e) => (Err(e), rest),
            }
        },
        Ok(TokenView::Def) => {
            let (func, rest) = parse_function(s);
            match func {
                Ok(func) => (Ok(AstView::Func(func)), rest),
                Err(e) => (Err(e), rest),
            }
        },
        _ => {
            let (body, rest) = parse_expr(s);
            match body {
                Ok(body) => (Ok(AstView::Func(FuncView { proto: anonymous_proto(), body })), rest),
                Err(e) => (Err(e), rest),
            }
        },
    }
}

/// What a run of the top-level loop leaves: the units parsed, the error that
/// stopped it if one did, and the stream that is left.
pub struct Program {
    pub units: Seq<AstView>,
    pub error: Option<ParseError>,
    pub rest: Seq<Item>,
}

/// The units of a source, added to those in `acc`: semicolons between units
/// are passed over, and the end marker stops the loop. The first unit that
/// fails stops it too, with the units before it kept.
pub open spec fn parse_program(s: Seq<Item>, acc: Seq<AstView>) -> Program
    decreases s.len(),
    via parse_program_decreases
{
    match nth(s, 0) {
        Ok(TokenView::Eof) => Program { units: acc, error: None, rest: s },
        Ok(TokenView::Semi) => parse_program(s.drop_first(), acc),
        _ => {
            let (unit, rest) = parse_unit(s);
            match unit {
                Ok(unit) => parse_program(rest, acc.push(unit)),
                Err(e) => Program { units: acc, error: Some(e), rest },
            }
        },
    }
}

#[via_fn]
proof fn parse_program_decreases(s: Seq<Item>, acc: Seq<AstView>) {
    lemma_unit_shrinks(s);
}

/// An expression never leaves more than it was given, and one that is parsed
/// has used up at least one item.
pub proof fn lemma_expr_shrinks(s: Seq<Item>)
    ensures
        parse_expr(s).1.len() <= s.len(),
        parse_expr(s).0 is Ok ==> parse_expr(s).1.len() < s.len(),
    decreases s.len(), 3nat,
{
    lemma_primary_shrinks(s);
    let (first, rest) = parse_primary(s);
    if first is Ok {
        lemma_bin_rhs_shrinks(rest, first->Ok_0, 0);
    }
}

/// What follows a left operand never leaves more than it was given.
pub proof fn lemma_bin_rhs_shrinks(s: Seq<Item>, lhs: ExprView, min_prec: int)
    ensures
        parse_bin_rhs(s, lhs, min_prec).1.len() <= s.len(),
    decreases s.len(), 1nat,
{
    let prec = precedence(nth(s, 0));
    if prec >= min_prec && operator(nth(s, 0)) is Some {
        let op = operator(nth(s, 0))->Some_0;
        lemma_operand_shrinks(s.drop_first(), prec);
        let (operand, rest) = parse_operand(s.drop_first(), prec);
        if operand is Ok {
            lemma_bin_rhs_shrinks(
                rest,
                ExprView::Bin(Box::new(lhs), op, Box::new(operand->Ok_0)),
                min_prec,
            );
        }
    }
}

/// A right operand never leaves more than it was given, and one that is
/// parsed has used up at least one item.
pub proof fn lemma_operand_shrinks(s: Seq<Item>, prec: int)
    ensures
        parse_operand(s, prec).1.len() <= s.len(),
        parse_operand(s, prec).0 is Ok ==> parse_operand(s, prec).1.len() < s.len(),
    decreases s.len(), 3nat,
{
    lemma_primary_shrinks(s);
    let (first, rest) = parse_primary(s);
    if first is Ok && prec < precedence(nth(rest, 0)) {
        lemma_bin_rhs_shrinks(rest, first->Ok_0, prec + 1);
    }
}

/// A primary never leaves more than it was given, and one that is parsed has
/// used up at least one item.
pub proof fn lemma_primary_shrinks(s: Seq<Item>)
    ensures
        parse_primary(s).1.len() <= s.len(),
        parse_primary(s).0 is Ok ==> parse_primary(s).1.len() < s.len(),
    decreases s.len(), 2nat,
{
    match nth(s, 0) {
        Ok(TokenView::LeftParen) => {
            lemma_paren_shrinks(s);
        },
        Ok(TokenView::Identifier(_)) => {
            lemma_call_shrinks(s);
        },
        _ => {},
    }
}

/// A parenthesized expression never leaves more than it was given, and one
/// that is parsed has used up at least one item.
pub proof fn lemma_paren_shrinks(s: Seq<Item>)
    ensures
        parse_paren(s).1.len() <= s.len(),
        parse_paren(s).0 is Ok ==> parse_paren(s).1.len() < s.len(),
    decreases s.len(), 1nat,
{
    match nth(s, 0) {
        Ok(TokenView::LeftParen) => {
            lemma_expr_shrinks(s.drop_first());
        },
        _ => {},
    }
}

/// A call never leaves more than it was given, and one that is parsed has
/// used up at least one item.
pub proof fn lemma_call_shrinks(s: Seq<Item>)
    ensures
        parse_call(s).1.len() <= s.len(),
        parse_call(s).0 is Ok ==> parse_call(s).1.len() < s.len(),
    decreases s.len(), 1nat,
{
    match (nth(s, 0), nth(s, 1)) {
        (Ok(TokenView::Identifier(_)), Ok(TokenView::LeftParen)) => {
            let inner = s.drop_first().drop_first();
            lemma_args_shrinks(inner, Seq::empty());
        },
        _ => {},
    }
}

/// A list of arguments never leaves more than it was given, and one that is
/// parsed has used up at least one item.
pub proof fn lemma_args_shrinks(s: Seq<Item>, acc: Seq<ExprView>)
    ensures
        parse_args(s, acc).1.len() <= s.len(),
        parse_args(s, acc).0 is Ok ==> parse_args(s, acc).1.len() < s.len(),
    decreases s.len(), 4nat,
{
    lemma_expr_shrinks(s);
    let (arg, rest) = parse_expr(s);
    if arg is Ok {
        match nth(rest, 0) {
            Ok(TokenView::Comma) => {
                lemma_args_shrinks(rest.drop_first(), acc.push(arg->Ok_0));
            },
            _ => {},
        }
    }
}

/// A list of parameters never leaves more than it was given, and one that is
/// parsed has used up at least one item.
pub proof fn lemma_params_shrinks(s: Seq<Item>, acc: Seq<Seq<char>>)
    ensures
        parse_params(s, acc).1.len() <= s.len(),
        parse_params(s, acc).0 is Ok ==> parse_params(s, acc).1.len() < s.len(),
    decreases s.len(),
{
    match nth(s, 0) {
        Ok(TokenView::Identifier(name)) => {
            lemma_params_shrinks(s.drop_first(), acc.push(name));
        },
        _ => {},
    }
}

/// A prototype never leaves more than it was given, and one that is parsed
/// has used up at least one item.
pub proof fn lemma_proto_shrinks(s: Seq<Item>)
    ensures
        parse_proto(s).1.len() <= s.len(),
        parse_proto(s).0 is Ok ==> parse_proto(s).1.len() < s.len(),
{
    match (nth(s, 0), nth(s, 1)) {
        (Ok(TokenView::Identifier(_)), Ok(TokenView::LeftParen)) => {
            lemma_params_shrinks(s.drop_first().drop_first(), Seq::empty());
        },
        _ => {},
    }
}

/// A function definition never leaves more than it was given, and one that
/// is parsed has used up at least one item.
pub proof fn lemma_function_shrinks(s: Seq<Item>)
    ensures
        parse_function(s).1.len() <= s.len(),
        parse_function(s).0 is Ok ==> parse_function(s).1.len() < s.len(),
{
    match nth(s, 0) {
        Ok(TokenView::Def) => {
            lemma_proto_shrinks(s.drop_first());
            let (proto, rest) = parse_proto(s.drop_first());
            if proto is Ok {
                lemma_expr_shrinks(rest);
            }
        },
        _ => {},
    }
}

/// A unit never leaves more than it was given, and one that is parsed has
/// used up at least one item.
pub proof fn lemma_unit_shrinks(s: Seq<Item>)
    ensures
        parse_unit(s).1.len() <= s.len(),
        parse_unit(s).0 is Ok ==> parse_unit(s).1.len() < s.len(),
{
    match nth(s, 0) {
        Ok(TokenView::Extern) => {
            lemma_proto_shrinks(s.drop_first());
        },
        Ok(TokenView::Def) => {
            lemma_function_shrinks(s);
        },
        _ => {
            lemma_expr_shrinks(s);
        },
    }
}

} // verus!
