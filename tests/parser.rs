use toylang::error::ParseErr;
use toylang::parser::{Expr, FnCall, Parser};
use toylang::tokenizer::tokenize;

fn parse(src: &str) -> Result<Expr, ParseErr> {
    Parser::new(tokenize(src).unwrap()).parse_next_expr()
}

fn call(name: &str, args: Vec<Expr>) -> Expr {
    Expr::FnCall(FnCall { name: name.to_string(), args })
}

fn unexpected(expected: &str, found: &str, at: u64) -> ParseErr {
    ParseErr::UnexpectedToken(expected.to_string(), found.to_string(), at)
}

#[test]
fn nested_fn_call() {
    let tokens = tokenize("fn1(fn2(fn3(12)),12,34)").unwrap();
    println!("tokens:{:?}", tokens);
    let mut parser = Parser::new(tokens);

    assert_eq!(
        parser.parse_next_expr().unwrap(),
        Expr::FnCall(FnCall {
            name: "fn1".to_string(),
            args: vec![
                Expr::FnCall(FnCall {
                    name: "fn2".to_string(),
                    args: vec![Expr::FnCall(FnCall {
                        name: "fn3".to_string(),
                        args: vec![Expr::Int(12)]
                    })]
                }),
                Expr::Int(12),
                Expr::Int(34)
            ]
        })
    )
}

#[test]
fn nested_calls_of_any_depth() {
    for depth in 0..40usize {
        let mut src = String::new();
        for k in 0..depth {
            src.push_str(&format!("fn_{}(", k));
        }
        src.push_str("12");
        for _ in 0..depth {
            src.push(')');
        }
        let mut expected = Expr::Int(12);
        for k in (0..depth).rev() {
            expected = call(&format!("fn_{}", k), vec![expected]);
        }
        let mut parser = Parser::new(tokenize(&src).unwrap());
        assert_eq!(parser.parse_next_expr().unwrap(), expected);
        assert_eq!(parser.pos, parser.tokens.len());
    }
}

#[test]
fn parse_call_without_arguments() {
    assert_eq!(parse("f()").unwrap(), call("f", vec![]));
}

#[test]
fn parse_name_and_string() {
    assert_eq!(parse("abc").unwrap(), Expr::Ident("abc".to_string()));
    assert_eq!(parse("\"hi there\"").unwrap(), Expr::Str("hi there".to_string()));
    assert_eq!(parse("\"\"").unwrap(), Expr::Str(String::new()));
    assert_eq!(
        parse("f(x, \"s\", 7)").unwrap(),
        call(
            "f",
            vec![Expr::Ident("x".to_string()), Expr::Str("s".to_string()), Expr::Int(7)]
        )
    );
}

#[test]
fn parse_largest_integer_and_one_more() {
    assert_eq!(parse("9223372036854775807").unwrap(), Expr::Int(i64::MAX));
    assert_eq!(
        parse("9223372036854775808"),
        Err(unexpected("an integer", "9223372036854775808", 0))
    );
}

#[test]
fn parse_missing_close_paren_fails() {
    assert_eq!(parse("f(1"), Err(unexpected("',' or ')'", "end of input", 3)));
    assert_eq!(parse("f(1;"), Err(unexpected("',' or ')'", ";", 3)));
}

#[test]
fn parse_trailing_comma_fails() {
    assert_eq!(parse("f(1,)"), Err(unexpected("an expression", ")", 4)));
}

#[test]
fn parse_empty_input_fails_and_cursor_stays() {
    let mut parser = Parser::new(vec![]);
    assert_eq!(
        parser.parse_next_expr(),
        Err(unexpected("an expression", "end of input", 0))
    );
    assert_eq!(parser.pos, 0);
}

#[test]
fn parse_consecutive_expressions() {
    let mut parser = Parser::new(tokenize("a 1 f(2)").unwrap());
    assert_eq!(parser.parse_next_expr().unwrap(), Expr::Ident("a".to_string()));
    assert_eq!(parser.parse_next_expr().unwrap(), Expr::Int(1));
    assert_eq!(parser.parse_next_expr().unwrap(), call("f", vec![Expr::Int(2)]));
    assert_eq!(parser.pos, 6);
}

#[test]
fn parse_declaration() {
    let mut parser = Parser::new(tokenize("x = 123;").unwrap());
    let d = parser.parse_decl().unwrap();
    assert_eq!(d.name, "x");
    assert_eq!(d.value, Expr::Int(123));
    assert_eq!(parser.pos, 4);
}

#[test]
fn parse_declaration_errors() {
    let mut parser = Parser::new(tokenize("x 123;").unwrap());
    assert_eq!(parser.parse_decl(), Err(unexpected("=", "123", 1)));
    assert_eq!(parser.pos, 0);
    let mut parser = Parser::new(tokenize("x = 1").unwrap());
    assert_eq!(parser.parse_decl(), Err(unexpected(";", "end of input", 3)));
    let mut parser = Parser::new(tokenize("= 1;").unwrap());
    assert_eq!(parser.parse_decl(), Err(unexpected("an identifier", "=", 0)));
}
