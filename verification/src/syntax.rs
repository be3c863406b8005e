//! The syntax trees that the parser builds, their mathematical views, and
//! the errors with which it gives up.

use vstd::prelude::*;
use crate::token::LexicalError;

verus! {

/// Why a run of tokens is not what the grammar asks for.
#[derive(Debug, PartialEq, Eq, Clone, Copy)]
pub enum SyntaxError {
    /// The pending token is not one that may stand here.
    MissingToken,
    /// A token was needed, and the source has ended.
    UnexpectedEof,
}

/// Why parsing gave up.
#[derive(Debug, PartialEq, Eq, Clone, Copy)]
pub enum ParseError {
    Lexical(LexicalError),
    Syntax(SyntaxError),
}

/// An expression.
#[derive(Debug, PartialEq)]
pub enum ExprAst {
    /// A number, as the text of its literal.
    NumAst(String),
    /// A reference to a variable.
    VarAst(String),
    /// A binary operation: left operand, operator, right operand.
    BinAst(Box<ExprAst>, char, Box<ExprAst>),
    /// A call: the callee's name and the arguments in their order.
    CallAst(String, Vec<ExprAst>),
}

/// The name of a function and the names of its parameters.
#[derive(Debug, PartialEq)]
pub struct ProtoAst {
    pub name: String,
    pub args: Vec<String>,
}

/// A function: its prototype and the one expression that is its body.
#[derive(Debug, PartialEq)]
pub struct FuncAst {
    pub proto: ProtoAst,
    pub body: ExprAst,
}

/// A top-level unit.
#[derive(Debug, PartialEq)]
pub enum Ast {
    Expr(ExprAst),
    Proto(ProtoAst),
    Func(FuncAst),
}

/// The mathematical value of an [`ExprAst`].
pub enum ExprView {
    Num(Seq<char>),
    Var(Seq<char>),
    Bin(Box<ExprView>, char, Box<ExprView>),
    Call(Seq<char>, Seq<ExprView>),
}

/// The mathematical value of a [`ProtoAst`].
pub struct ProtoView {
    pub name: Seq<char>,
    pub params: Seq<Seq<char>>,
}

/// The mathematical value of a [`FuncAst`].
pub struct FuncView {
    pub proto: ProtoView,
    pub body: ExprView,
}

/// The mathematical value of an [`Ast`].
pub enum AstView {
    Expr(ExprView),
    Proto(ProtoView),
    Func(FuncView),
}

/// The value of an expression tree, node by node.
pub open spec fn expr_view(e: ExprAst) -> ExprView
    decreases e,
{
    match e {
        ExprAst::NumAst(text) => ExprView::Num(text@),
        ExprAst::VarAst(name) => ExprView::Var(name@),
        ExprAst::BinAst(lhs, op, rhs) => ExprView::Bin(
            Box::new(expr_view(*lhs)),
            op,
            Box::new(expr_view(*rhs)),
        ),
        ExprAst::CallAst(callee, args) => ExprView::Call(callee@, exprs_view(args)),
    }
}

/// The values of a list of expression trees.
pub open spec fn exprs_view(args: Vec<ExprAst>) -> Seq<ExprView>
    decreases args,
{
    Seq::new(
        args.len() as nat,
        |i: int|
            if 0 <= i < args.len() {
                expr_view(args[i])
            } else {
                arbitrary()
            },
    )
}

/// The values of a list of names.
pub open spec fn names_view(names: Vec<String>) -> Seq<Seq<char>> {
    Seq::new(names.len() as nat, |i: int| names[i]@)
}

impl View for ExprAst {
    type V = ExprView;

    open spec fn view(&self) -> ExprView {
        expr_view(*self)
    }
}

impl View for ProtoAst {
    type V = ProtoView;

    open spec fn view(&self) -> ProtoView {
        ProtoView { name: self.name@, params: names_view(self.args) }
    }
}

impl View for FuncAst {
    type V = FuncView;

    open spec fn view(&self) -> FuncView {
        FuncView { proto: self.proto@, body: self.body@ }
    }
}

impl View for Ast {
    type V = AstView;

    open spec fn view(&self) -> AstView {
        match self {
            Ast::Expr(e) => AstView::Expr(e@),
            Ast::Proto(p) => AstView::Proto(p@),
            Ast::Func(f) => AstView::Func(f@),
        }
    }
}

/// The values of a list of units.
pub open spec fn units_view(units: Vec<Ast>) -> Seq<AstView> {
    Seq::new(units.len() as nat, |i: int| units[i]@)
}

/// The prototype of the function that wraps a bare top-level expression: no
/// name, no parameters.
pub open spec fn anonymous_proto() -> ProtoView {
    ProtoView { name: Seq::empty(), params: Seq::empty() }
}

} // verus!
