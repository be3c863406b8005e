//! The parser: recursive descent over the tokens of a [`Lexer`], with
//! precedence climbing for binary operations.

use vstd::prelude::*;
use vstd::pervasive::unreached;
use crate::grammar::{
    lemma_expr_shrinks, lemma_operand_shrinks, lemma_primary_shrinks, lemma_unit_shrinks, operator,
    parse_args, parse_bin_rhs, parse_call, parse_expr, parse_function, parse_operand, parse_params,
    parse_paren, parse_primary, parse_program, parse_proto, parse_unit, precedence, reject,
};
use crate::lexer::Lexer;
use crate::syntax::{exprs_view, names_view, units_view, AstView};
pub use crate::syntax::{Ast, ExprAst, FuncAst, ParseError, ProtoAst, SyntaxError};
use crate::token::{item_view, nth, token_item, LexicalError, Token, TokenView};

verus! {

/// The view of what a parsing function returns.
pub open spec fn outcome<T: View>(r: Result<T, ParseError>) -> Result<T::V, ParseError> {
    match r {
        Ok(value) => Ok(value@),
        Err(e) => Err(e),
    }
}

/// The error for an item that may not stand where it was found.
fn reject_item(item: &Result<Token, LexicalError>) -> (e: ParseError)
    ensures
        e == reject(item_view(*item)),
{
    match item {
        Err(fault) => ParseError::Lexical(*fault),
        Ok(Token::Eof) => ParseError::Syntax(SyntaxError::UnexpectedEof),
        Ok(_) => ParseError::Syntax(SyntaxError::MissingToken),
    }
}

/// How tightly a pending item binds as a binary operator.
fn item_precedence(item: &Result<Token, LexicalError>) -> (prec: i8)
    ensures
        prec == precedence(item_view(*item)),
{
    match item {
        Ok(token) => ExprAst::get_precedence(token),
        Err(_) => -1,
    }
}

/// The character that names the operator for which a pending item stands.
fn item_operator(item: &Result<Token, LexicalError>) -> (op: Option<char>)
    ensures
        op == operator(item_view(*item)),
{
    match item {
        Ok(Token::Less) => Some('<'),
        Ok(Token::Add) => Some('+'),
        Ok(Token::Sub) => Some('-'),
        Ok(Token::Mul) => Some('*'),
        _ => None,
    }
}

impl ExprAst {
    /// How tightly a token binds as a binary operator: `<` 10, `+` and `-`
    /// 20, `*` 40, and -1 for every token that is no operator.
    pub fn get_precedence(token: &Token) -> (prec: i8)
        ensures
            prec == precedence(Ok(token@)),
    {
        match token {
            Token::Less => 10,
            Token::Add => 20,
            Token::Sub => 20,
            Token::Mul => 40,
            _ => -1,
        }
    }

    /// Parses an expression.
    pub fn parse(lexer: &mut Lexer) -> (r: Result<ExprAst, ParseError>)
        requires
            old(lexer).wf(),
        ensures
            final(lexer).wf(),
            (outcome(r), final(lexer)@) == parse_expr(old(lexer)@),
        decreases old(lexer)@.len(), 3nat,
    {
        proof {
            lemma_primary_shrinks(lexer@);
        }
        match Self::parse_primary(lexer) {
            Ok(lhs) => Self::parse_bin_rhs(lexer, lhs, 0),
            Err(e) => Err(e),
        }
    }

    /// Parses the operators and operands that follow the left operand `lhs`,
    /// as far as the operators bind at least as tightly as `min_prec`.
    pub fn parse_bin_rhs(lexer: &mut Lexer, lhs: ExprAst, min_prec: i8) -> (r: Result<
        ExprAst,
        ParseError,
    >)
        requires
            old(lexer).wf(),
        ensures
            final(lexer).wf(),
            (outcome(r), final(lexer)@) == parse_bin_rhs(old(lexer)@, lhs@, min_prec as int),
        decreases old(lexer)@.len(), 1nat,
    {
        proof {
            lexer.lemma_view_terminated();
        }
        let prec = item_precedence(lexer.peek_first());
        if prec < min_prec {
            return Ok(lhs);
        }
        let op = match item_operator(lexer.peek_first()) {
            Some(op) => op,
            None => {
                return Err(reject_item(lexer.peek_first()));
            },
        };
        let _ = lexer.next_token();
        proof {
            lemma_operand_shrinks(lexer@, prec as int);
        }
        match Self::parse_operand(lexer, prec) {
            Ok(rhs) => Self::parse_bin_rhs(
                lexer,
                ExprAst::BinAst(Box::new(lhs), op, Box::new(rhs)),
                min_prec,
            ),
            Err(e) => Err(e),
        }
    }

    /// Parses the right operand of an operator of precedence `prec`: a
    /// primary, with all that follows it and binds more tightly.
    pub fn parse_operand(lexer: &mut Lexer, prec: i8) -> (r: Result<ExprAst, ParseError>)
        requires
            old(lexer).wf(),
            prec < i8::MAX,
        ensures
            final(lexer).wf(),
            (outcome(r), final(lexer)@) == parse_operand(old(lexer)@, prec as int),
        decreases old(lexer)@.len(), 3nat,
    {
        proof {
            lemma_primary_shrinks(lexer@);
        }
        match Self::parse_primary(lexer) {
            Ok(rhs) => {
                if prec < item_precedence(lexer.peek_first()) {
                    Self::parse_bin_rhs(lexer, rhs, prec + 1)
                } else {
                    Ok(rhs)
                }
            },
            Err(e) => Err(e),
        }
    }

    /// Parses a primary expression: a number, a parenthesized expression, a
    /// call, or a variable.
    pub fn parse_primary(lexer: &mut Lexer) -> (r: Result<ExprAst, ParseError>)
        requires
            old(lexer).wf(),
        ensures
            final(lexer).wf(),
            (outcome(r), final(lexer)@) == parse_primary(old(lexer)@),
        decreases old(lexer)@.len(), 2nat,
    {
        proof {
            lexer.lemma_view_terminated();
        }
        match lexer.peek_first() {
            Ok(Token::Number(_)) => match lexer.next_token() {
                Ok(Token::Number(text)) => Ok(ExprAst::NumAst(text)),
                _ => unreached(),
            },
            Ok(Token::LeftParen) => Self::parse_paren(lexer),
            Ok(Token::Identifier(_)) => match lexer.peek_second() {
                Ok(Token::LeftParen) => Self::parse_call(lexer),
                _ => match lexer.next_token() {
                    Ok(Token::Identifier(name)) => Ok(ExprAst::VarAst(name)),
                    _ => unreached(),
                },
            },
            other => Err(reject_item(other)),
        }
    }

    /// Parses a parenthesized expression.
    pub fn parse_paren(lexer: &mut Lexer) -> (r: Result<ExprAst, ParseError>)
        requires
            old(lexer).wf(),
        ensures
            final(lexer).wf(),
            (outcome(r), final(lexer)@) == parse_paren(old(lexer)@),
        decreases old(lexer)@.len(), 1nat,
    {
        proof {
            lexer.lemma_view_terminated();
        }
        match lexer.peek_first() {
            Ok(Token::LeftParen) => {},
            other => {
                return Err(reject_item(other));
            },
        }
        let _ = lexer.next_token();
        let inner = match Self::parse(lexer) {
            Ok(e) => e,
            Err(e) => {
                return Err(e);
            },
        };
        proof {
            lexer.lemma_view_terminated();
        }
        match lexer.peek_first() {
            Ok(Token::RightParen) => {},
            other => {
                return Err(reject_item(other));
            },
        }
        let _ = lexer.next_token();
        Ok(inner)
    }

    /// Parses a call: the callee's name and, between parentheses, its
    /// arguments with commas between them.
    #[verifier::loop_isolation(false)]
    pub fn parse_call(lexer: &mut Lexer) -> (r: Result<ExprAst, ParseError>)
        requires
            old(lexer).wf(),
        ensures
            final(lexer).wf(),
            (outcome(r), final(lexer)@) == parse_call(old(lexer)@),
        decreases old(lexer)@.len(), 1nat,
    {
        proof {
            lexer.lemma_view_terminated();
        }
        match lexer.peek_first() {
            Ok(Token::Identifier(_)) => {},
            other => {
                return Err(reject_item(other));
            },
        }
        let callee = match lexer.next_token() {
            Ok(Token::Identifier(name)) => name,
            _ => unreached(),
        };
        proof {
            lexer.lemma_view_terminated();
        }
        match lexer.peek_first() {
            Ok(Token::LeftParen) => {},
            other => {
                return Err(reject_item(other));
            },
        }
        let _ = lexer.next_token();
        proof {
            lexer.lemma_view_terminated();
        }
        let mut args: Vec<ExprAst> = Vec::new();
        match lexer.peek_first() {
            Ok(Token::RightParen) => {
                let _ = lexer.next_token();
                assert(exprs_view(args) =~= Seq::empty());
                return Ok(ExprAst::CallAst(callee, args));
            },
            _ => {},
        }
        let ghost inner = lexer@;
        assert(exprs_view(args) =~= Seq::empty());
        loop
            invariant
                lexer.wf(),
                lexer@.len() < old(lexer)@.len(),
                parse_args(lexer@, exprs_view(args)) == parse_args(inner, Seq::empty()),
            decreases lexer@.len(),
        {
            let ghost before = lexer@;
            let ghost acc = exprs_view(args);
            proof {
                lemma_expr_shrinks(before);
            }
            let arg = match Self::parse(lexer) {
                Ok(e) => e,
                Err(e) => {
                    return Err(e);
                },
            };
            args.push(arg);
            assert(exprs_view(args) =~= acc.push(arg@));
            proof {
                lexer.lemma_view_terminated();
            }
            match lexer.peek_first() {
                Ok(Token::RightParen) => {
                    let _ = lexer.next_token();
                    return Ok(ExprAst::CallAst(callee, args));
                },
                Ok(Token::Comma) => {
                    let _ = lexer.next_token();
                },
                other => {
                    return Err(reject_item(other));
                },
            }
        }
    }
}

impl ProtoAst {
    /// Parses a prototype: a name and, between parentheses, the names of the
    /// parameters, one after the other.
    #[verifier::loop_isolation(false)]
    pub fn parse(lexer: &mut Lexer) -> (r: Result<ProtoAst, ParseError>)
        requires
            old(lexer).wf(),
        ensures
            final(lexer).wf(),
            (outcome(r), final(lexer)@) == parse_proto(old(lexer)@),
    {
        proof {
            lexer.lemma_view_terminated();
        }
        match lexer.peek_first() {
            Ok(Token::Identifier(_)) => {},
            other => {
                return Err(reject_item(other));
            },
        }
        let name = match lexer.next_token() {
            Ok(Token::Identifier(name)) => name,
            _ => unreached(),
        };
        proof {
            lexer.lemma_view_terminated();
        }
        match lexer.peek_first() {
            Ok(Token::LeftParen) => {},
            other => {
                return Err(reject_item(other));
            },
        }
        let _ = lexer.next_token();
        let ghost inner = lexer@;
        let mut args: Vec<String> = Vec::new();
        assert(names_view(args) =~= Seq::empty());
        loop
            invariant
                lexer.wf(),
                parse_params(lexer@, names_view(args)) == parse_params(inner, Seq::empty()),
            decreases lexer@.len(),
        {
            let ghost acc = names_view(args);
            proof {
                lexer.lemma_view_terminated();
            }
            match lexer.peek_first() {
                Ok(Token::Identifier(_)) => {
                    match lexer.next_token() {
                        Ok(Token::Identifier(param)) => {
                            args.push(param);
                            assert(names_view(args) =~= acc.push(param@));
                        },
                        _ => unreached(),
                    }
                },
                Ok(Token::RightParen) => {
                    let _ = lexer.next_token();
                    return Ok(ProtoAst { name, args });
                },
                other => {
                    return Err(reject_item(other));
                },
            }
        }
    }
}

impl FuncAst {
    /// Parses a function definition: the keyword, a prototype, and the
    /// expression that is the body.
    pub fn parse(lexer: &mut Lexer) -> (r: Result<FuncAst, ParseError>)
        requires
            old(lexer).wf(),
        ensures
            final(lexer).wf(),
            (outcome(r), final(lexer)@) == parse_function(old(lexer)@),
    {
        proof {
            lexer.lemma_view_terminated();
        }
        match lexer.peek_first() {
            Ok(Token::Def) => {},
            other => {
                return Err(reject_item(other));
            },
        }
        let _ = lexer.next_token();
        let proto = match ProtoAst::parse(lexer) {
            Ok(proto) => proto,
            Err(e) => {
                return Err(e);
            },
        };
        match ExprAst::parse(lexer) {
            Ok(body) => Ok(FuncAst { proto, body }),
            Err(e) => Err(e),
        }
    }
}

impl Ast {
    /// Parses one top-level unit: an external declaration, a function
    /// definition, or a bare expression, which is wrapped in a function
    /// without a name and without parameters.
    pub fn parse(lexer: &mut Lexer) -> (r: Result<Ast, ParseError>)
        requires
            old(lexer).wf(),
        ensures
            final(lexer).wf(),
            (outcome(r), final(lexer)@) == parse_unit(old(lexer)@),
    {
        proof {
            lexer.lemma_view_terminated();
        }
        match lexer.peek_first() {
            Ok(Token::Extern) => Self::parse_extern(lexer),
            Ok(Token::Def) => match FuncAst::parse(lexer) {
                Ok(func) => Ok(Ast::Func(func)),
                Err(e) => Err(e),
            },
            _ => Self::parse_top_level_expr(lexer),
        }
    }

    /// Parses an external declaration, of which the keyword is pending.
    fn parse_extern(lexer: &mut Lexer) -> (r: Result<Ast, ParseError>)
        requires
            old(lexer).wf(),
            nth(old(lexer)@, 0) == token_item(TokenView::Extern),
        ensures
            final(lexer).wf(),
            (outcome(r), final(lexer)@) == parse_unit(old(lexer)@),
    {
        proof {
            lexer.lemma_view_terminated();
        }
        let _ = lexer.next_token();
        match ProtoAst::parse(lexer) {
            Ok(proto) => Ok(Ast::Proto(proto)),
            Err(e) => Err(e),
        }
    }

    /// Parses a bare expression and wraps it in an anonymous function.
    fn parse_top_level_expr(lexer: &mut Lexer) -> (r: Result<Ast, ParseError>)
        requires
            old(lexer).wf(),
            nth(old(lexer)@, 0) != token_item(TokenView::Extern),
            nth(old(lexer)@, 0) != token_item(TokenView::Def),
        ensures
            final(lexer).wf(),
            (outcome(r), final(lexer)@) == parse_unit(old(lexer)@),
    {
        match ExprAst::parse(lexer) {
            Ok(body) => {
                let args: Vec<String> = Vec::new();
                assert(names_view(args) =~= Seq::empty());
                let proto = ProtoAst { name: String::new(), args };
                Ok(Ast::Func(FuncAst { proto, body }))
            },
            Err(e) => Err(e),
        }
    }
}

/// The top-level loop, which gathers the units of a source.
pub struct Parser {
    buf: Vec<Ast>,
}

impl View for Parser {
    type V = Seq<AstView>;

    closed spec fn view(&self) -> Seq<AstView> {
        units_view(self.buf)
    }
}

impl Parser {
    /// A parser that has gathered nothing yet.
    pub fn new() -> (parser: Parser)
        ensures
            parser@ == Seq::<AstView>::empty(),
    {
        let parser = Parser { buf: Vec::new() };
        assert(parser@ =~= Seq::empty());
        parser
    }

    /// The units gathered so far, in their order.
    pub fn units(&self) -> (units: &Vec<Ast>)
        ensures
            units_view(*units) == self@,
    {
        &self.buf
    }

    /// Hands over the units gathered, in their order.
    pub fn into_units(self) -> (units: Vec<Ast>)
        ensures
            units_view(units) == self@,
    {
        self.buf
    }

    /// Parses unit after unit up to the end of the source, and adds each to
    /// the units gathered. Semicolons between units are passed over. At the
    /// first unit that fails the loop stops with that unit's error; the units
    /// before it stay gathered.
    #[verifier::loop_isolation(false)]
    pub fn parse_ast(&mut self, lexer: &mut Lexer) -> (r: Result<(), ParseError>)
        requires
            old(lexer).wf(),
        ensures
            final(lexer).wf(),
            final(self)@ == parse_program(old(lexer)@, old(self)@).units,
            final(lexer)@ == parse_program(old(lexer)@, old(self)@).rest,
            r is Ok <==> parse_program(old(lexer)@, old(self)@).error is None,
            r matches Err(e) ==> parse_program(old(lexer)@, old(self)@).error == Some(e),
    {
        loop
            invariant
                lexer.wf(),
                parse_program(lexer@, self@) == parse_program(old(lexer)@, old(self)@),
            decreases lexer@.len(),
        {
            let ghost acc = self@;
            proof {
                lexer.lemma_view_terminated();
                lemma_unit_shrinks(lexer@);
            }
            match lexer.peek_first() {
                Ok(Token::Eof) => {
                    return Ok(());
                },
                Ok(Token::Semi) => {
                    let _ = lexer.next_token();
                },
                _ => {
                    match Ast::parse(lexer) {
                        Ok(unit) => {
                            self.buf.push(unit);
                            assert(self@ =~= acc.push(unit@));
                        },
                        Err(e) => {
                            return Err(e);
                        },
                    }
                },
            }
        }
    }
}

} // verus!
