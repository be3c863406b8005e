use kaleidoscope::lexer::{Lexer, LexicalError, Token};
use kaleidoscope::parser::{
    Ast, ExprAst, FuncAst, ParseError, Parser, ProtoAst, SyntaxError,
};

/// An expression with each number as the float that its literal stands for.
#[derive(Debug, PartialEq)]
enum Valued {
    NumAst(f64),
    VarAst(String),
    BinAst(Box<Valued>, char, Box<Valued>),
    CallAst(String, Vec<Valued>),
}

fn valued(e: &ExprAst) -> Valued {
    match e {
        ExprAst::NumAst(text) => Valued::NumAst(text.parse::<f64>().unwrap()),
        ExprAst::VarAst(name) => Valued::VarAst(name.clone()),
        ExprAst::BinAst(lhs, op, rhs) => {
            Valued::BinAst(Box::new(valued(lhs)), *op, Box::new(valued(rhs)))
        }
        ExprAst::CallAst(callee, args) => {
            Valued::CallAst(callee.clone(), args.iter().map(valued).collect())
        }
    }
}

fn source(text: &str) -> Lexer {
    Lexer::new(text.as_bytes().to_vec())
}

fn parse_valued(text: &str) -> Valued {
    let mut lexer = source(text);
    valued(&ExprAst::parse(&mut lexer).unwrap())
}

fn parse_failure(text: &str) -> ParseError {
    let mut lexer = source(text);
    ExprAst::parse(&mut lexer).unwrap_err()
}

fn num(text: &str) -> ExprAst {
    ExprAst::NumAst(text.to_string())
}

fn var(name: &str) -> ExprAst {
    ExprAst::VarAst(name.to_string())
}

fn bin(lhs: ExprAst, op: char, rhs: ExprAst) -> ExprAst {
    ExprAst::BinAst(Box::new(lhs), op, Box::new(rhs))
}

fn names(list: &[&str]) -> Vec<String> {
    list.iter().map(|s| s.to_string()).collect()
}

const MISSING: ParseError = ParseError::Syntax(SyntaxError::MissingToken);
const ENDED: ParseError = ParseError::Syntax(SyntaxError::UnexpectedEof);

#[test]
fn expr_number() {
    let src = " 42 ";
    let mut lexer = source(src);
    let ast = ExprAst::parse(&mut lexer).unwrap();
    assert_eq!(valued(&ast), Valued::NumAst(42.0));
    assert_eq!(ast, num("42"));
}

#[test]
fn expr_variable() {
    let src = "foo";
    let mut lexer = source(src);
    let ast = ExprAst::parse(&mut lexer).unwrap();
    assert_eq!(ast, ExprAst::VarAst("foo".to_string()));
}

#[test]
fn expr_paren() {
    let src = "(foo )";
    let mut lexer = source(src);
    let ast = ExprAst::parse(&mut lexer).unwrap();
    assert_eq!(ast, ExprAst::VarAst("foo".to_string()));
}

#[test]
fn expr_bin_expr_1() {
    let src = "1 + foo";
    let mut lexer = source(src);
    let ast = ExprAst::parse(&mut lexer).unwrap();
    assert_eq!(
        valued(&ast),
        Valued::BinAst(
            Box::new(Valued::NumAst(1.0)),
            '+',
            Box::new(Valued::VarAst("foo".to_string()))
        )
    );
}

#[test]
fn expr_bin_expr_2() {
    let src = "1 + foo * 42";
    let mut lexer = source(src);
    let ast = ExprAst::parse(&mut lexer).unwrap();
    assert_eq!(
        valued(&ast),
        Valued::BinAst(
            Box::new(Valued::NumAst(1.0)),
            '+',
            Box::new(Valued::BinAst(
                Box::new(Valued::VarAst("foo".to_string())),
                '*',
                Box::new(Valued::NumAst(42.0)),
            ))
        )
    )
}

#[test]
fn expr_bin_expr_3() {
    let src = "1 + foo - 42";
    let mut lexer = source(src);
    let ast = ExprAst::parse(&mut lexer).unwrap();
    assert_eq!(
        valued(&ast),
        Valued::BinAst(
            Box::new(Valued::BinAst(
                Box::new(Valued::NumAst(1.0)),
                '+',
                Box::new(Valued::VarAst("foo".to_string())),
            )),
            '-',
            Box::new(Valued::NumAst(42.0)),
        )
    )
}

#[test]
fn expr_bin_expr_4() {
    let src = "1 < foo + bar * 42 - baz";
    let mut lexer = source(src);
    let ast = ExprAst::parse(&mut lexer).unwrap();
    assert_eq!(
        valued(&ast),
        Valued::BinAst(
            Box::new(Valued::NumAst(1.0)),
            '<',
            Box::new(Valued::BinAst(
                Box::new(Valued::BinAst(
                    Box::new(Valued::VarAst("foo".to_string())),
                    '+',
                    Box::new(Valued::BinAst(
                        Box::new(Valued::VarAst("bar".to_string())),
                        '*',
                        Box::new(Valued::NumAst(42.0))
                    )),
                )),
                '-',
                Box::new(Valued::VarAst("baz".to_string())),
            )),
        )
    );
}

#[test]
fn expr_func_call() {
    let src = "foo(1 + 2, bar, 42)";
    let mut lexer = source(src);
    let ast = ExprAst::parse(&mut lexer).unwrap();
    assert_eq!(
        valued(&ast),
        Valued::CallAst(
            "foo".to_string(),
            vec![
                Valued::BinAst(Box::new(Valued::NumAst(1.0)), '+', Box::new(Valued::NumAst(2.0))),
                Valued::VarAst("bar".to_string()),
                Valued::NumAst(42.0),
            ]
        )
    )
}

// Parameters stand one after the other: a comma between them is an error.
#[test]
fn proto() {
    let src = "foo(a, b, c);";
    let mut lexer = source(src);
    assert_eq!(ProtoAst::parse(&mut lexer), Err(MISSING));
    assert_eq!(lexer.peek_first(), &Ok(Token::Comma));

    let src = "foo(a b c);";
    let mut lexer = source(src);
    let ast = ProtoAst::parse(&mut lexer).unwrap();
    assert_eq!(
        ast,
        ProtoAst {
            name: "foo".to_string(),
            args: vec!["a".to_string(), "b".to_string(), "c".to_string()],
        }
    );
    assert_eq!(lexer.peek_first(), &Ok(Token::Semi));
}

#[test]
fn parse_function() {
    let src = "def foo(a, b, c) a+b*c";
    let mut lexer = source(src);
    assert_eq!(FuncAst::parse(&mut lexer), Err(MISSING));

    let src = "def foo(a b c) a+b*c";
    let mut lexer = source(src);
    let ast = FuncAst::parse(&mut lexer).unwrap();
    assert_eq!(
        ast,
        FuncAst {
            proto: ProtoAst {
                name: "foo".to_string(),
                args: vec!["a".to_string(), "b".to_string(), "c".to_string()]
            },
            body: ExprAst::BinAst(
                Box::new(ExprAst::VarAst("a".to_string())),
                '+',
                Box::new(ExprAst::BinAst(
                    Box::new(ExprAst::VarAst("b".to_string())),
                    '*',
                    Box::new(ExprAst::VarAst("c".to_string()))
                ))
            )
        }
    )
}

#[test]
fn multiplication_binds_tighter_than_addition() {
    assert_eq!(
        parse_valued("1 + 2 * 3"),
        Valued::BinAst(
            Box::new(Valued::NumAst(1.0)),
            '+',
            Box::new(Valued::BinAst(Box::new(Valued::NumAst(2.0)), '*', Box::new(Valued::NumAst(3.0))))
        )
    );
    assert_eq!(
        parse_valued("1 * 2 + 3"),
        Valued::BinAst(
            Box::new(Valued::BinAst(Box::new(Valued::NumAst(1.0)), '*', Box::new(Valued::NumAst(2.0)))),
            '+',
            Box::new(Valued::NumAst(3.0))
        )
    );
}

#[test]
fn equal_precedence_groups_to_the_left() {
    assert_eq!(
        parse_valued("1 - 2 - 3"),
        Valued::BinAst(
            Box::new(Valued::BinAst(Box::new(Valued::NumAst(1.0)), '-', Box::new(Valued::NumAst(2.0)))),
            '-',
            Box::new(Valued::NumAst(3.0))
        )
    );
    let mut lexer = source("a * b * c");
    assert_eq!(
        ExprAst::parse(&mut lexer),
        Ok(bin(bin(var("a"), '*', var("b")), '*', var("c")))
    );
    let mut lexer = source("a < b < c");
    assert_eq!(
        ExprAst::parse(&mut lexer),
        Ok(bin(bin(var("a"), '<', var("b")), '<', var("c")))
    );
}

#[test]
fn comparison_binds_loosest() {
    let mut lexer = source("a + b < c * d - e");
    assert_eq!(
        ExprAst::parse(&mut lexer),
        Ok(bin(
            bin(var("a"), '+', var("b")),
            '<',
            bin(bin(var("c"), '*', var("d")), '-', var("e"))
        ))
    );
    let mut lexer = source("a < b * c + d < e");
    assert_eq!(
        ExprAst::parse(&mut lexer),
        Ok(bin(
            bin(var("a"), '<', bin(bin(var("b"), '*', var("c")), '+', var("d"))),
            '<',
            var("e")
        ))
    );
}

#[test]
fn parentheses_override_precedence() {
    assert_eq!(
        parse_valued("(1 + 2) * 3"),
        Valued::BinAst(
            Box::new(Valued::BinAst(Box::new(Valued::NumAst(1.0)), '+', Box::new(Valued::NumAst(2.0)))),
            '*',
            Box::new(Valued::NumAst(3.0))
        )
    );
    let mut lexer = source("a - (b - c)");
    assert_eq!(
        ExprAst::parse(&mut lexer),
        Ok(bin(var("a"), '-', bin(var("b"), '-', var("c"))))
    );
    let mut lexer = source("((x))");
    assert_eq!(ExprAst::parse(&mut lexer), Ok(var("x")));
}

#[test]
fn call_or_variable() {
    assert_eq!(parse_valued("foo"), Valued::VarAst("foo".to_string()));
    assert_eq!(parse_valued("foo()"), Valued::CallAst("foo".to_string(), vec![]));
    assert_eq!(
        parse_valued("foo(1,2)"),
        Valued::CallAst("foo".to_string(), vec![Valued::NumAst(1.0), Valued::NumAst(2.0)])
    );
}

#[test]
fn calls_nest_and_take_part_in_operations() {
    let mut lexer = source("f(g(x), 1) * h()");
    assert_eq!(
        ExprAst::parse(&mut lexer),
        Ok(bin(
            ExprAst::CallAst(
                "f".to_string(),
                vec![ExprAst::CallAst("g".to_string(), vec![var("x")]), num("1")]
            ),
            '*',
            ExprAst::CallAst("h".to_string(), vec![])
        ))
    );
}

#[test]
fn number_keeps_its_literal() {
    let mut lexer = source("1.50 + 2.");
    assert_eq!(ExprAst::parse(&mut lexer), Ok(bin(num("1.50"), '+', num("2."))));
}

#[test]
fn expression_stops_before_what_cannot_extend_it() {
    let mut lexer = source("a + b ) c");
    assert_eq!(ExprAst::parse(&mut lexer), Ok(bin(var("a"), '+', var("b"))));
    assert_eq!(lexer.peek_first(), &Ok(Token::RightParen));
    let mut lexer = source("a b");
    assert_eq!(ExprAst::parse(&mut lexer), Ok(var("a")));
    assert_eq!(lexer.peek_first(), &Ok(Token::Identifier("b".to_string())));
    let mut lexer = source("1 ; $");
    assert_eq!(ExprAst::parse(&mut lexer), Ok(num("1")));
    assert_eq!(lexer.peek_first(), &Ok(Token::Semi));
}

#[test]
fn unclosed_parenthesis_fails() {
    assert_eq!(parse_failure("(1 +"), ENDED);
    assert_eq!(parse_failure("(1"), ENDED);
    assert_eq!(parse_failure("(1 2)"), MISSING);
    assert_eq!(parse_failure("("), ENDED);
}

#[test]
fn trailing_comma_in_call_fails() {
    assert_eq!(parse_failure("foo(1,)"), MISSING);
    assert_eq!(parse_failure("foo(,)"), MISSING);
    assert_eq!(parse_failure("foo(1 2)"), MISSING);
    assert_eq!(parse_failure("foo(1,"), ENDED);
    assert_eq!(parse_failure("foo("), ENDED);
    assert_eq!(parse_failure("foo(1"), ENDED);
}

#[test]
fn stray_symbol_fails() {
    assert_eq!(parse_failure("$"), ParseError::Lexical(LexicalError::UnknownByte(b'$')));
    assert_eq!(parse_failure("1 + @"), ParseError::Lexical(LexicalError::UnknownByte(b'@')));
    assert_eq!(parse_failure("(a ! b)"), ParseError::Lexical(LexicalError::UnknownByte(b'!')));
    assert_eq!(parse_failure("f(1.2.3)"), ParseError::Lexical(LexicalError::MalformedNumber));
}

#[test]
fn operator_without_operand_fails() {
    assert_eq!(parse_failure("1 +"), ENDED);
    assert_eq!(parse_failure("1 + * 2"), MISSING);
    assert_eq!(parse_failure("* 2"), MISSING);
    assert_eq!(parse_failure(""), ENDED);
    assert_eq!(parse_failure(")"), MISSING);
    assert_eq!(parse_failure("def"), MISSING);
}

#[test]
fn failure_leaves_the_offending_token_pending() {
    let mut lexer = source("(1 + 2 ; 3");
    assert_eq!(ExprAst::parse(&mut lexer), Err(MISSING));
    assert_eq!(lexer.peek_first(), &Ok(Token::Semi));
    let mut lexer = source("f(1, $)");
    assert_eq!(
        ExprAst::parse(&mut lexer),
        Err(ParseError::Lexical(LexicalError::UnknownByte(b'$')))
    );
    assert_eq!(lexer.peek_first(), &Err(LexicalError::UnknownByte(b'$')));
}

#[test]
fn precedence_table() {
    assert_eq!(ExprAst::get_precedence(&Token::Less), 10);
    assert_eq!(ExprAst::get_precedence(&Token::Add), 20);
    assert_eq!(ExprAst::get_precedence(&Token::Sub), 20);
    assert_eq!(ExprAst::get_precedence(&Token::Mul), 40);
    assert_eq!(ExprAst::get_precedence(&Token::Eof), -1);
    assert_eq!(ExprAst::get_precedence(&Token::LeftParen), -1);
    assert_eq!(ExprAst::get_precedence(&Token::Identifier("x".to_string())), -1);
    assert_eq!(ExprAst::get_precedence(&Token::Number("1".to_string())), -1);
}

#[test]
fn threshold_stops_looser_operators() {
    let mut lexer = source("+ 2 * 3 < 4");
    assert_eq!(
        ExprAst::parse_bin_rhs(&mut lexer, var("a"), 20),
        Ok(bin(var("a"), '+', bin(num("2"), '*', num("3"))))
    );
    assert_eq!(lexer.peek_first(), &Ok(Token::Less));
    let mut lexer = source("+ 2");
    assert_eq!(ExprAst::parse_bin_rhs(&mut lexer, var("a"), 21), Ok(var("a")));
    assert_eq!(lexer.peek_first(), &Ok(Token::Add));
}

#[test]
fn threshold_below_zero_asks_for_an_operator() {
    let mut lexer = source("b");
    assert_eq!(ExprAst::parse_bin_rhs(&mut lexer, var("a"), -1), Err(MISSING));
    let mut lexer = source("");
    assert_eq!(ExprAst::parse_bin_rhs(&mut lexer, var("a"), -1), Err(ENDED));
}

#[test]
fn operand_takes_what_binds_tighter() {
    let mut lexer = source("b * c + d");
    assert_eq!(ExprAst::parse_operand(&mut lexer, 20), Ok(bin(var("b"), '*', var("c"))));
    assert_eq!(lexer.peek_first(), &Ok(Token::Add));
    let mut lexer = source("b * c + d");
    assert_eq!(ExprAst::parse_operand(&mut lexer, 40), Ok(var("b")));
    assert_eq!(lexer.peek_first(), &Ok(Token::Mul));
}

#[test]
fn primary_forms() {
    let mut lexer = source("7 + 1");
    assert_eq!(ExprAst::parse_primary(&mut lexer), Ok(num("7")));
    assert_eq!(lexer.peek_first(), &Ok(Token::Add));
    let mut lexer = source("(7 + 1) * 2");
    assert_eq!(ExprAst::parse_primary(&mut lexer), Ok(bin(num("7"), '+', num("1"))));
    assert_eq!(lexer.peek_first(), &Ok(Token::Mul));
    let mut lexer = source("x y");
    assert_eq!(ExprAst::parse_paren(&mut lexer), Err(MISSING));
    assert_eq!(ExprAst::parse_call(&mut lexer), Err(MISSING));
    assert_eq!(lexer.peek_first(), &Ok(Token::Identifier("y".to_string())));
}

#[test]
fn function_definition_without_commas() {
    let mut lexer = source("def foo(a b) a+b*2");
    let ast = Ast::parse(&mut lexer).unwrap();
    assert_eq!(
        ast,
        Ast::Func(FuncAst {
            proto: ProtoAst { name: "foo".to_string(), args: names(&["a", "b"]) },
            body: bin(var("a"), '+', bin(var("b"), '*', num("2"))),
        })
    );
    match ast {
        Ast::Func(func) => assert_eq!(
            valued(&func.body),
            Valued::BinAst(
                Box::new(Valued::VarAst("a".to_string())),
                '+',
                Box::new(Valued::BinAst(
                    Box::new(Valued::VarAst("b".to_string())),
                    '*',
                    Box::new(Valued::NumAst(2.0))
                ))
            )
        ),
        other => panic!("not a function: {:?}", other),
    }
}

#[test]
fn prototype_forms() {
    let mut lexer = source("zero()");
    assert_eq!(
        ProtoAst::parse(&mut lexer),
        Ok(ProtoAst { name: "zero".to_string(), args: vec![] })
    );
    let mut lexer = source("f(a a)");
    assert_eq!(
        ProtoAst::parse(&mut lexer),
        Ok(ProtoAst { name: "f".to_string(), args: names(&["a", "a"]) })
    );
}

#[test]
fn prototype_failures() {
    let mut lexer = source("(a)");
    assert_eq!(ProtoAst::parse(&mut lexer), Err(MISSING));
    let mut lexer = source("f a)");
    assert_eq!(ProtoAst::parse(&mut lexer), Err(MISSING));
    assert_eq!(lexer.peek_first(), &Ok(Token::Identifier("a".to_string())));
    let mut lexer = source("f(a 1)");
    assert_eq!(ProtoAst::parse(&mut lexer), Err(MISSING));
    let mut lexer = source("f(a");
    assert_eq!(ProtoAst::parse(&mut lexer), Err(ENDED));
    let mut lexer = source("f");
    assert_eq!(ProtoAst::parse(&mut lexer), Err(ENDED));
    let mut lexer = source("");
    assert_eq!(ProtoAst::parse(&mut lexer), Err(ENDED));
    let mut lexer = source("f(a #)");
    assert_eq!(ProtoAst::parse(&mut lexer), Err(ENDED));
    let mut lexer = source("f(a %)");
    assert_eq!(
        ProtoAst::parse(&mut lexer),
        Err(ParseError::Lexical(LexicalError::UnknownByte(b'%')))
    );
}

#[test]
fn function_needs_its_keyword_and_body() {
    let mut lexer = source("foo(a) a");
    assert_eq!(FuncAst::parse(&mut lexer), Err(MISSING));
    let mut lexer = source("def foo(a)");
    assert_eq!(FuncAst::parse(&mut lexer), Err(ENDED));
    let mut lexer = source("def (a) a");
    assert_eq!(FuncAst::parse(&mut lexer), Err(MISSING));
}

#[test]
fn unit_is_declaration_definition_or_expression() {
    let mut lexer = source("extern sin(x)");
    assert_eq!(
        Ast::parse(&mut lexer),
        Ok(Ast::Proto(ProtoAst { name: "sin".to_string(), args: names(&["x"]) }))
    );
    let mut lexer = source("def id(x) x");
    assert_eq!(
        Ast::parse(&mut lexer),
        Ok(Ast::Func(FuncAst {
            proto: ProtoAst { name: "id".to_string(), args: names(&["x"]) },
            body: var("x"),
        }))
    );
    let mut lexer = source("1 + x");
    assert_eq!(
        Ast::parse(&mut lexer),
        Ok(Ast::Func(FuncAst {
            proto: ProtoAst { name: String::new(), args: vec![] },
            body: bin(num("1"), '+', var("x")),
        }))
    );
}

#[test]
fn unit_failures() {
    let mut lexer = source("extern 1");
    assert_eq!(Ast::parse(&mut lexer), Err(MISSING));
    let mut lexer = source("extern");
    assert_eq!(Ast::parse(&mut lexer), Err(ENDED));
    let mut lexer = source(";");
    assert_eq!(Ast::parse(&mut lexer), Err(MISSING));
    let mut lexer = source("");
    assert_eq!(Ast::parse(&mut lexer), Err(ENDED));
}

#[test]
fn parser_gathers_the_units_of_a_source() {
    let mut lexer = source("extern sin(x); def twice(a) a*2;; twice(3) ; 4 5");
    let mut parser = Parser::new();
    assert_eq!(parser.units().len(), 0);
    assert_eq!(parser.parse_ast(&mut lexer), Ok(()));
    let anonymous = |body: ExprAst| {
        Ast::Func(FuncAst { proto: ProtoAst { name: String::new(), args: vec![] }, body })
    };
    assert_eq!(
        parser.units(),
        &vec![
            Ast::Proto(ProtoAst { name: "sin".to_string(), args: names(&["x"]) }),
            Ast::Func(FuncAst {
                proto: ProtoAst { name: "twice".to_string(), args: names(&["a"]) },
                body: bin(var("a"), '*', num("2")),
            }),
            anonymous(ExprAst::CallAst("twice".to_string(), vec![num("3")])),
            anonymous(num("4")),
            anonymous(num("5")),
        ]
    );
    assert_eq!(lexer.peek_first(), &Ok(Token::Eof));
}

#[test]
fn parser_on_nothing_gathers_nothing() {
    let mut parser = Parser::new();
    let mut lexer = source("");
    assert_eq!(parser.parse_ast(&mut lexer), Ok(()));
    assert_eq!(parser.units().len(), 0);
    let mut lexer = source(" ;; # only a comment\n ; ");
    assert_eq!(parser.parse_ast(&mut lexer), Ok(()));
    assert_eq!(parser.units().len(), 0);
}

#[test]
fn parser_stops_at_the_first_failure() {
    let mut lexer = source("1; def f(a, b) a; 2");
    let mut parser = Parser::new();
    assert_eq!(parser.parse_ast(&mut lexer), Err(MISSING));
    assert_eq!(parser.units().len(), 1);
    assert_eq!(lexer.peek_first(), &Ok(Token::Comma));
    let mut lexer = source("x; y $");
    let mut parser = Parser::new();
    assert_eq!(
        parser.parse_ast(&mut lexer),
        Err(ParseError::Lexical(LexicalError::UnknownByte(b'$')))
    );
    assert_eq!(parser.units().len(), 2);
}

#[test]
fn parser_goes_on_over_several_sources() {
    let mut parser = Parser::new();
    let mut lexer = source("a");
    assert_eq!(parser.parse_ast(&mut lexer), Ok(()));
    let mut lexer = source("extern b()");
    assert_eq!(parser.parse_ast(&mut lexer), Ok(()));
    assert_eq!(parser.units().len(), 2);
    assert_eq!(
        parser.units()[1],
        Ast::Proto(ProtoAst { name: "b".to_string(), args: vec![] })
    );
}

fn spelled(e: &ExprAst) -> String {
    match e {
        ExprAst::NumAst(text) => format!("{} ", text),
        ExprAst::VarAst(name) => format!("{} ", name),
        ExprAst::BinAst(lhs, op, rhs) => format!("( {}{} {}) ", spelled(lhs), op, spelled(rhs)),
        ExprAst::CallAst(callee, args) => {
            let mut text = format!("{} ( ", callee);
            for (i, arg) in args.iter().enumerate() {
                if i > 0 {
                    text.push_str(", ");
                }
                text.push_str(&spelled(arg));
            }
            text.push_str(") ");
            text
        }
    }
}

fn parses_back(text: &str) {
    let mut lexer = source(text);
    let first = ExprAst::parse(&mut lexer).unwrap();
    let rendering = spelled(&first);
    let mut lexer = source(&rendering);
    let second = ExprAst::parse(&mut lexer);
    assert_eq!(second, Ok(first), "rendering: {}", rendering);
    assert_eq!(lexer.peek_first(), &Ok(Token::Eof));
}

#[test]
fn rendering_parses_back() {
    parses_back("1");
    parses_back("x");
    parses_back("1 + 2 * 3");
    parses_back("1 - 2 - 3");
    parses_back("(1 + 2) * 3");
    parses_back("a < b + c * d - e < f");
    parses_back("f()");
    parses_back("f(1, g(x, y * 2), (3)) - h(4.5)");
    parses_back("a * (b + c) * f(d - (e - 1.))");
}

#[test]
fn rendering_has_every_operation_in_parentheses() {
    let mut lexer = source("1 + 2 * x");
    let ast = ExprAst::parse(&mut lexer).unwrap();
    assert_eq!(spelled(&ast), "( 1 + ( 2 * x ) ) ");
    let mut lexer = source("f(a, 1)");
    let ast = ExprAst::parse(&mut lexer).unwrap();
    assert_eq!(spelled(&ast), "f ( a , 1 ) ");
}

#[test]
fn root_is_the_last_of_the_loosest_operators() {
    let mut lexer = source("a * b + c * d + e * f");
    assert_eq!(
        ExprAst::parse(&mut lexer),
        Ok(bin(
            bin(bin(var("a"), '*', var("b")), '+', bin(var("c"), '*', var("d"))),
            '+',
            bin(var("e"), '*', var("f"))
        ))
    );
    let mut lexer = source("a + b < c < d * e - f");
    assert_eq!(
        ExprAst::parse(&mut lexer),
        Ok(bin(
            bin(bin(var("a"), '+', var("b")), '<', var("c")),
            '<',
            bin(bin(var("d"), '*', var("e")), '-', var("f"))
        ))
    );
}

#[test]
fn parser_hands_over_its_units() {
    let mut lexer = source("x; extern f(a)");
    let mut parser = Parser::new();
    assert_eq!(parser.parse_ast(&mut lexer), Ok(()));
    assert_eq!(
        parser.into_units(),
        vec![
            Ast::Func(FuncAst {
                proto: ProtoAst { name: String::new(), args: vec![] },
                body: var("x"),
            }),
            Ast::Proto(ProtoAst { name: "f".to_string(), args: names(&["a"]) }),
        ]
    );
}
