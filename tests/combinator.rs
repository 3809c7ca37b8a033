use toylang::combinator::{
    any_of, bool, decl, digit, expr, float, ident, keyword, one_or_more, parse_char, parse_chars,
    signed_int, unsigned_int, whitespace, zero_or_more, zero_or_one, ParseObj,
};
use toylang::error::ParseErr;

fn ok(rest: &str, obj: ParseObj) -> Result<(String, ParseObj), ParseErr> {
    Ok((rest.to_string(), obj))
}

fn unexpected(expected: &str, found: &str, at: u64) -> ParseErr {
    ParseErr::Unexpected(expected.to_string(), found.to_string(), at)
}

fn no_alternative(found: &str, at: u64) -> ParseErr {
    unexpected("one of the alternatives", found, at)
}

fn too_large() -> ParseErr {
    ParseErr::Unknown("number too large".to_string())
}

#[test]
fn digit_takes_one_digit() {
    assert_eq!(digit("1AB"), ok("AB", ParseObj::Char('1')));
    assert_eq!(digit("AB"), Err(no_alternative("A", 0)));
    assert_eq!(digit(""), Err(no_alternative("nothing", 0)));
}

#[test]
fn unsigned_int_takes_all_digits() {
    assert_eq!(unsigned_int("1234AB"), ok("AB", ParseObj::Uint(1234)));
    assert_eq!(unsigned_int("x1"), Err(no_alternative("x", 0)));
    assert_eq!(
        unsigned_int("18446744073709551615"),
        ok("", ParseObj::Uint(usize::MAX))
    );
    assert_eq!(unsigned_int("18446744073709551616"), Err(too_large()));
}

#[test]
fn signed_int_reads_the_sign() {
    assert_eq!(signed_int("-1234AB"), ok("AB", ParseObj::Int(-1234)));
    assert_eq!(signed_int("1234AB"), ok("AB", ParseObj::Int(1234)));
    assert_eq!(signed_int("-x"), Err(no_alternative("x", 1)));
    assert_eq!(
        signed_int("-9223372036854775808"),
        ok("", ParseObj::Int(isize::MIN))
    );
    assert_eq!(signed_int("9223372036854775808"), Err(too_large()));
}

#[test]
fn float_reads_a_decimal() {
    assert_eq!(float("4.2"), ok("", ParseObj::Float(42, 1)));
    assert_eq!(float("-0.50x"), ok("x", ParseObj::Float(-50, 2)));
    assert_eq!(float("4"), Err(unexpected(".", "nothing", 1)));
    assert_eq!(float("4.x"), Err(no_alternative("x", 2)));
    let value = match float("4.2") {
        Ok((_, ParseObj::Float(m, s))) => m as f64 / 10f64.powi(s as i32),
        _ => panic!("not a decimal"),
    };
    assert!((value - 4.2).abs() < 1e-12);
}

#[test]
fn bool_takes_the_first_word_that_matches() {
    assert_eq!(
        bool("truesomeshitaftertrue"),
        ok("someshitaftertrue", ParseObj::Bool(true))
    );
    assert_eq!(bool("false!"), ok("!", ParseObj::Bool(false)));
    assert_eq!(bool("tru"), Err(no_alternative("t", 0)));
}

#[test]
fn any_of_keywords_returns_the_keyword() {
    let rule = any_of(vec![keyword("true"), keyword("false")]);
    assert_eq!(
        rule.parse("truesomeshitaftertrue"),
        ok("someshitaftertrue", ParseObj::Keyword("true".to_string()))
    );
}

#[test]
fn any_of_is_first_match_not_longest() {
    let rule = any_of(vec![keyword("tr"), keyword("true")]);
    assert_eq!(rule.parse("true"), ok("ue", ParseObj::Keyword("tr".to_string())));
    let none = any_of(vec![]);
    assert_eq!(none.parse("a"), Err(no_alternative("a", 0)));
}

#[test]
fn parse_char_reports_what_it_found() {
    assert_eq!(parse_char('a').parse("abc"), ok("bc", ParseObj::Char('a')));
    assert_eq!(parse_char('a').parse("xbc"), Err(unexpected("a", "x", 0)));
    assert_eq!(parse_char('a').parse(""), Err(unexpected("a", "nothing", 0)));
}

#[test]
fn keyword_fails_at_the_first_mismatch() {
    assert_eq!(keyword("while").parse("whale"), Err(unexpected("i", "a", 2)));
    assert_eq!(keyword("while").parse("wh"), Err(unexpected("i", "nothing", 2)));
    assert_eq!(keyword("").parse("x"), ok("x", ParseObj::Keyword(String::new())));
}

#[test]
fn repetitions() {
    let many_a = zero_or_more(parse_char('a'));
    assert_eq!(
        many_a.parse("aab"),
        ok("b", ParseObj::List(vec![ParseObj::Char('a'), ParseObj::Char('a')]))
    );
    assert_eq!(many_a.parse("b"), ok("b", ParseObj::List(vec![])));
    let some_a = one_or_more(parse_char('a'));
    assert_eq!(some_a.parse("ab"), ok("b", ParseObj::List(vec![ParseObj::Char('a')])));
    assert_eq!(some_a.parse("b"), Err(unexpected("a", "b", 0)));
    let maybe_a = zero_or_one(parse_char('a'));
    assert_eq!(maybe_a.parse("aa"), ok("a", ParseObj::Char('a')));
    assert_eq!(maybe_a.parse("b"), ok("b", ParseObj::Empty));
}

#[test]
fn repetition_of_an_empty_match_stops() {
    let rule = zero_or_more(keyword(""));
    assert_eq!(rule.parse("abc"), ok("abc", ParseObj::List(vec![])));
}

#[test]
fn whitespace_and_char_sets() {
    assert_eq!(
        whitespace().parse(" \t\nx"),
        ok(
            "x",
            ParseObj::List(vec![
                ParseObj::Char(' '),
                ParseObj::Char('\t'),
                ParseObj::Char('\n')
            ])
        )
    );
    assert_eq!(parse_chars("xyz").parse("zz"), ok("z", ParseObj::Char('z')));
}

#[test]
fn ident_takes_letters_and_underscores() {
    assert_eq!(ident("abc_D1"), ok("1", ParseObj::Ident("abc_D".to_string())));
    assert_eq!(ident("1a"), Err(no_alternative("1", 0)));
}

#[test]
fn expr_tries_bool_then_number_then_name() {
    assert_eq!(expr("falsey"), ok("y", ParseObj::Bool(false)));
    assert_eq!(expr("-2;"), ok(";", ParseObj::Int(-2)));
    assert_eq!(expr("abc"), ok("", ParseObj::Ident("abc".to_string())));
    assert_eq!(expr("+"), Err(no_alternative("+", 0)));
}

fn check_decl_bool(src: &str) {
    let decl_res = decl(src);
    assert!(decl_res.is_ok());
    if let (_, ParseObj::Decl(name, ty, be)) = decl_res.unwrap() {
        assert_eq!(name, "a");
        assert_eq!(ty, Box::new(None));
        assert_eq!(be, Box::new(ParseObj::Bool(false)));
    } else {
        assert!(false);
    }
}

#[test]
fn mod_test_parse_decl_bool() {
    check_decl_bool("a = false");
}

#[test]
fn parser_prt_test_parse_decl_bool() {
    check_decl_bool("\n a = false");
}

#[test]
fn parse_prt3_test_parse_decl_bool() {
    check_decl_bool(" a = false");
}

#[test]
fn test_decl_bool() {
    check_decl_bool(" \n\t a = false");
}

#[test]
fn test_parse_decl_int() {
    let decl_res = decl("a = -2");
    assert!(decl_res.is_ok());
    if let (_, ParseObj::Decl(name, _, be)) = decl_res.unwrap() {
        assert_eq!(name, "a");
        assert_eq!(be, Box::new(ParseObj::Int(-2)));
    } else {
        assert!(false);
    }
}

#[test]
fn decl_with_type() {
    assert_eq!(
        decl("count : number = 3;"),
        ok(
            ";",
            ParseObj::Decl(
                "count".to_string(),
                Box::new(Some(ParseObj::Ident("number".to_string()))),
                Box::new(ParseObj::Int(3))
            )
        )
    );
}

#[test]
fn decl_errors() {
    assert_eq!(decl("a false"), Err(unexpected("=", "f", 2)));
    assert_eq!(decl("= 1"), Err(no_alternative("=", 0)));
    assert_eq!(decl("a = +"), Err(no_alternative("+", 4)));
}
