use minilang::ast::{Expr, FunctionCall, Identifier, ParseError, Parser, Program, Statement};
use minilang::tokenizer::{Position, Span, Token, TokenValue, Tokenizer};

fn tokens_of(source: &str) -> Vec<Token> {
    Tokenizer::new(source.to_string()).tokenize().unwrap()
}

fn parse(source: &str) -> Result<Program, ParseError> {
    Parser::new(tokens_of(source)).parse_program()
}

fn name(text: &str) -> Identifier {
    Identifier { name: text.to_string() }
}

fn call(function: &str, args: Vec<Expr>) -> FunctionCall {
    FunctionCall { name: name(function), args }
}

fn id_token(text: &str) -> TokenValue {
    TokenValue::Identifier(text.to_string())
}

fn bare(values: Vec<TokenValue>) -> Vec<Token> {
    let here = Position { position: 1, line: 1, column: 1 };
    values.into_iter().map(|value| Token { value, span: Span { start: here, end: here } }).collect()
}

#[test]
fn no_tokens_are_the_empty_program() {
    assert_eq!(parse(""), Ok(Program { statements: vec![] }));
    assert_eq!(parse(" \n \n"), Ok(Program { statements: vec![] }));
}

#[test]
fn call_without_arguments() {
    assert_eq!(
        parse("foo();"),
        Ok(Program { statements: vec![Statement::Call(call("foo", vec![]))] })
    );
}

#[test]
fn call_with_arguments_without_separators() {
    assert_eq!(
        parse("print(\"hi\" 5 x);"),
        Ok(Program {
            statements: vec![Statement::Call(call(
                "print",
                vec![
                    Expr::StringLiteral("hi".to_string()),
                    Expr::IntegerLiteral(5),
                    Expr::Identifier(name("x")),
                ]
            ))]
        })
    );
}

#[test]
fn nested_calls() {
    assert_eq!(
        parse("a(b(1));"),
        Ok(Program {
            statements: vec![Statement::Call(call(
                "a",
                vec![Expr::Call(call("b", vec![Expr::IntegerLiteral(1)]))]
            ))]
        })
    );
}

#[test]
fn nested_call_between_other_arguments() {
    assert_eq!(
        parse("a(x b(c() \"s\") -3);"),
        Ok(Program {
            statements: vec![Statement::Call(call(
                "a",
                vec![
                    Expr::Identifier(name("x")),
                    Expr::Call(call(
                        "b",
                        vec![Expr::Call(call("c", vec![])), Expr::StringLiteral("s".to_string())]
                    )),
                    Expr::IntegerLiteral(-3),
                ]
            ))]
        })
    );
}

#[test]
fn statements_keep_source_order() {
    assert_eq!(
        parse("a();\nb(1);\n\nc(a);"),
        Ok(Program {
            statements: vec![
                Statement::Call(call("a", vec![])),
                Statement::Call(call("b", vec![Expr::IntegerLiteral(1)])),
                Statement::Call(call("c", vec![Expr::Identifier(name("a"))])),
            ]
        })
    );
}

#[test]
fn cosmetic_tokens_do_not_matter() {
    assert_eq!(parse("f ( 1\n2 )\n;"), parse("f(1 2);"));
    assert_eq!(
        parse("f ( 1\n2 )\n;"),
        Ok(Program {
            statements: vec![Statement::Call(call(
                "f",
                vec![Expr::IntegerLiteral(1), Expr::IntegerLiteral(2)]
            ))]
        })
    );
}

#[test]
fn identifier_apart_from_its_parenthesis_is_still_a_call() {
    assert_eq!(
        parse("f(g ());"),
        Ok(Program {
            statements: vec![Statement::Call(call("f", vec![Expr::Call(call("g", vec![]))]))]
        })
    );
}

#[test]
fn missing_semicolon_at_the_end() {
    assert_eq!(parse("foo()"), Err(ParseError::MissingSemicolon));
}

#[test]
fn missing_semicolon_between_statements() {
    assert_eq!(parse("foo() bar();"), Err(ParseError::MissingSemicolon));
    assert_eq!(parse("foo())"), Err(ParseError::MissingSemicolon));
}

#[test]
fn statement_that_is_no_call() {
    assert_eq!(
        parse(";"),
        Err(ParseError::UnexpectedTokenSequence(vec![TokenValue::Semicolon]))
    );
    assert_eq!(
        parse("1 2"),
        Err(ParseError::UnexpectedTokenSequence(vec![
            TokenValue::Integer(1),
            TokenValue::Integer(2)
        ]))
    );
    assert_eq!(
        parse("foo;"),
        Err(ParseError::UnexpectedTokenSequence(vec![id_token("foo"), TokenValue::Semicolon]))
    );
    assert_eq!(parse("foo"), Err(ParseError::UnexpectedTokenSequence(vec![id_token("foo")])));
}

#[test]
fn error_after_good_statements_gives_no_program() {
    assert_eq!(
        parse("a(); b(); )"),
        Err(ParseError::UnexpectedTokenSequence(vec![TokenValue::RoundClose]))
    );
}

#[test]
fn argument_that_is_no_expression() {
    assert_eq!(
        parse("f(;);"),
        Err(ParseError::UnexpectedTokenSequence(vec![
            TokenValue::Semicolon,
            TokenValue::RoundClose
        ]))
    );
    assert_eq!(
        parse("f(();"),
        Err(ParseError::UnexpectedTokenSequence(vec![
            TokenValue::RoundOpen,
            TokenValue::RoundClose
        ]))
    );
    assert_eq!(
        parse("f(1 ;"),
        Err(ParseError::UnexpectedTokenSequence(vec![TokenValue::Semicolon]))
    );
}

#[test]
fn tokens_end_within_a_call() {
    assert_eq!(parse("foo("), Err(ParseError::UnexpectedEndOfInput));
    assert_eq!(parse("f(1"), Err(ParseError::UnexpectedEndOfInput));
    assert_eq!(parse("f(x"), Err(ParseError::UnexpectedEndOfInput));
    assert_eq!(parse("f(\"s\""), Err(ParseError::UnexpectedEndOfInput));
    assert_eq!(parse("f(g(1)"), Err(ParseError::UnexpectedEndOfInput));
}

#[test]
fn parse_call_needs_an_identifier() {
    let mut parser = Parser::new(bare(vec![TokenValue::RoundOpen, TokenValue::RoundClose]));
    assert_eq!(parser.parse_call(), Err(ParseError::MissingIdentifier));
    let mut empty = Parser::new(vec![]);
    assert_eq!(empty.parse_call(), Err(ParseError::MissingIdentifier));
}

#[test]
fn parse_call_needs_an_opening_parenthesis() {
    let mut parser = Parser::new(bare(vec![id_token("f"), TokenValue::Semicolon]));
    assert_eq!(parser.parse_call(), Err(ParseError::MissingOpenParen));
    let mut short = Parser::new(bare(vec![id_token("f")]));
    assert_eq!(short.parse_call(), Err(ParseError::MissingOpenParen));
}

#[test]
fn parse_call_stops_behind_the_closing_parenthesis() {
    let mut parser = Parser::new(tokens_of("f(1) g(2)"));
    assert_eq!(parser.parse_call(), Ok(call("f", vec![Expr::IntegerLiteral(1)])));
    assert_eq!(parser.parse_call(), Ok(call("g", vec![Expr::IntegerLiteral(2)])));
    assert_eq!(parser.parse_call(), Err(ParseError::MissingIdentifier));
}

#[test]
fn parse_expr_takes_one_expression() {
    let mut parser = Parser::new(tokens_of("1 \"two\" three four(5) )"));
    assert_eq!(parser.parse_expr(), Ok(Expr::IntegerLiteral(1)));
    assert_eq!(parser.parse_expr(), Ok(Expr::StringLiteral("two".to_string())));
    assert_eq!(parser.parse_expr(), Ok(Expr::Identifier(name("three"))));
    assert_eq!(parser.parse_expr(), Ok(Expr::Call(call("four", vec![Expr::IntegerLiteral(5)]))));
    assert_eq!(
        parser.parse_expr(),
        Err(ParseError::UnexpectedTokenSequence(vec![TokenValue::RoundClose]))
    );
}

#[test]
fn parse_expr_at_the_end_sees_nothing() {
    let mut parser = Parser::new(vec![]);
    assert_eq!(parser.parse_expr(), Err(ParseError::UnexpectedTokenSequence(vec![])));
}

#[test]
fn parse_statement_takes_one_statement() {
    let mut parser = Parser::new(tokens_of("a(); b();"));
    assert_eq!(parser.parse_statement(), Ok(Statement::Call(call("a", vec![]))));
    assert_eq!(parser.parse_statement(), Ok(Statement::Call(call("b", vec![]))));
    assert_eq!(parser.parse_statement(), Err(ParseError::UnexpectedTokenSequence(vec![])));
}

#[test]
fn parse_program_goes_on_from_the_cursor() {
    let mut parser = Parser::new(tokens_of("a(); b(); c();"));
    parser.parse_statement().unwrap();
    assert_eq!(
        parser.parse_program(),
        Ok(Program {
            statements: vec![Statement::Call(call("b", vec![])), Statement::Call(call("c", vec![]))]
        })
    );
    assert_eq!(parser.parse_program(), Ok(Program { statements: vec![] }));
}

#[test]
fn parser_drops_cosmetic_tokens_given_by_hand() {
    let tokens = bare(vec![
        TokenValue::Newline,
        id_token("f"),
        TokenValue::Space,
        TokenValue::RoundOpen,
        TokenValue::Newline,
        TokenValue::RoundClose,
        TokenValue::Space,
        TokenValue::Semicolon,
        TokenValue::Newline,
    ]);
    assert_eq!(
        Parser::new(tokens).parse_program(),
        Ok(Program { statements: vec![Statement::Call(call("f", vec![]))] })
    );
}

fn write_expr(expr: &Expr, out: &mut Vec<TokenValue>) {
    match expr {
        Expr::IntegerLiteral(i) => out.push(TokenValue::Integer(*i)),
        Expr::StringLiteral(s) => out.push(TokenValue::StringLiteral(s.clone())),
        Expr::Identifier(id) => out.push(TokenValue::Identifier(id.name.clone())),
        Expr::Call(call) => write_call(call, out),
    }
}

fn write_call(call: &FunctionCall, out: &mut Vec<TokenValue>) {
    out.push(TokenValue::Identifier(call.name.name.clone()));
    out.push(TokenValue::RoundOpen);
    for arg in call.args.iter() {
        write_expr(arg, out);
    }
    out.push(TokenValue::RoundClose);
}

fn write_program(program: &Program) -> Vec<TokenValue> {
    let mut out = Vec::new();
    for statement in program.statements.iter() {
        match statement {
            Statement::Call(call) => write_call(call, &mut out),
        }
        out.push(TokenValue::Semicolon);
    }
    out
}

#[test]
fn parsed_program_is_written_by_its_tokens() {
    for source in ["", "foo();", "print(\"hi\" 5 x);", "a(b(1));\nc(d e(f(g())) -7 \"s\");\n"] {
        let kept: Vec<TokenValue> = tokens_of(source)
            .into_iter()
            .map(|t| t.value)
            .filter(|v| !v.is_cosmetic())
            .collect();
        let program = parse(source).unwrap();
        assert_eq!(write_program(&program), kept);
    }
}

#[test]
fn written_program_parses_to_itself() {
    let program = Program {
        statements: vec![
            Statement::Call(call("a", vec![])),
            Statement::Call(call(
                "b",
                vec![
                    Expr::Identifier(name("x")),
                    Expr::Call(call("c", vec![Expr::IntegerLiteral(i32::MIN)])),
                    Expr::Identifier(name("y")),
                    Expr::StringLiteral("(".to_string()),
                ],
            )),
        ],
    };
    assert_eq!(Parser::new(bare(write_program(&program))).parse_program(), Ok(program));
}

#[test]
fn close_paren_is_never_reported_missing() {
    for source in ["f(", "f(g(", "f(1 2", "f(g(1)", "f(;", "f() g(", "f(g(h(x)"] {
        assert_ne!(parse(source), Err(ParseError::MissingCloseParen));
    }
}
