use std::collections::HashMap;
use toylang::tokenizer::{tokenize, Keyword, LexError, Token, TokenKind};

fn valued(kind: TokenKind, text: &str) -> Token {
    Token { kind, value: Some(text.to_string()) }
}

fn plain(kind: TokenKind) -> Token {
    Token { kind, value: None }
}

#[test]
fn tokenize_digits_only_is_one_number() {
    assert_eq!(tokenize("123").unwrap(), vec![valued(TokenKind::Number, "123")]);
    assert_eq!(tokenize("0").unwrap(), vec![valued(TokenKind::Number, "0")]);
    assert_eq!(tokenize("007").unwrap(), vec![valued(TokenKind::Number, "007")]);
}

#[test]
fn tokenize_assignment_of_number() {
    assert_eq!(
        tokenize("x = 123;").unwrap(),
        vec![
            valued(TokenKind::Ident, "x"),
            plain(TokenKind::AssignOp),
            valued(TokenKind::Number, "123"),
            plain(TokenKind::SemiColon),
        ]
    );
}

#[test]
fn tokenize_assignment_of_string() {
    assert_eq!(
        tokenize("x = \"af\";").unwrap(),
        vec![
            valued(TokenKind::Ident, "x"),
            plain(TokenKind::AssignOp),
            plain(TokenKind::DoubleQuoteStart),
            valued(TokenKind::StringLiteral, "af"),
            plain(TokenKind::DoubleQuoteEnd),
            plain(TokenKind::SemiColon),
        ]
    );
}

#[test]
fn tokenize_assignment_of_struct() {
    assert_eq!(
        tokenize("x = struct{};").unwrap(),
        vec![
            valued(TokenKind::Ident, "x"),
            plain(TokenKind::AssignOp),
            plain(TokenKind::Keyword(Keyword::Struct)),
            plain(TokenKind::CuBracketOpen),
            plain(TokenKind::CuBracketClose),
            plain(TokenKind::SemiColon),
        ]
    );
}

#[test]
fn tokenize_quote_inside_number_fails() {
    assert_eq!(
        tokenize("x = 1\"2;"),
        Err(LexError::CannotStartStringInOtherToken(5))
    );
}

#[test]
fn tokenize_quote_inside_identifier_fails() {
    assert_eq!(
        tokenize("ab\"c\""),
        Err(LexError::CannotStartStringInOtherToken(2))
    );
}

#[test]
fn tokenize_keyword_needs_a_boundary() {
    assert_eq!(
        tokenize("structure").unwrap(),
        vec![valued(TokenKind::Ident, "structure")]
    );
    assert_eq!(
        tokenize("if for interface").unwrap(),
        vec![
            plain(TokenKind::Keyword(Keyword::If)),
            plain(TokenKind::Keyword(Keyword::For)),
            plain(TokenKind::Keyword(Keyword::Interface)),
        ]
    );
}

#[test]
fn tokenize_string_keeps_spaces_digits_and_punctuation() {
    assert_eq!(
        tokenize("\"a 1;(\"").unwrap(),
        vec![
            plain(TokenKind::DoubleQuoteStart),
            valued(TokenKind::StringLiteral, "a 1;("),
            plain(TokenKind::DoubleQuoteEnd),
        ]
    );
}

#[test]
fn tokenize_empty_string_has_no_literal() {
    assert_eq!(
        tokenize("\"\"").unwrap(),
        vec![plain(TokenKind::DoubleQuoteStart), plain(TokenKind::DoubleQuoteEnd)]
    );
}

#[test]
fn tokenize_unterminated_string_fails() {
    assert_eq!(tokenize("x = \"ab"), Err(LexError::UnterminatedString(7)));
}

#[test]
fn tokenize_unknown_character_fails() {
    assert_eq!(tokenize("a + b"), Err(LexError::UnexpectedChar('+', 2)));
}

#[test]
fn tokenize_empty_input() {
    assert_eq!(tokenize("").unwrap(), vec![]);
    assert_eq!(tokenize("  \n\t ").unwrap(), vec![]);
}

#[test]
fn tokenize_all_punctuation() {
    assert_eq!(
        tokenize(";=(),[]{}").unwrap(),
        vec![
            plain(TokenKind::SemiColon),
            plain(TokenKind::AssignOp),
            plain(TokenKind::LParen),
            plain(TokenKind::RParen),
            plain(TokenKind::Comma),
            plain(TokenKind::SqBracketOpen),
            plain(TokenKind::SqBracketClose),
            plain(TokenKind::CuBracketOpen),
            plain(TokenKind::CuBracketClose),
        ]
    );
}

#[test]
fn tokenize_digits_continue_an_identifier_and_letters_end_a_number() {
    assert_eq!(
        tokenize("fn1 12ab").unwrap(),
        vec![
            valued(TokenKind::Ident, "fn1"),
            valued(TokenKind::Number, "12"),
            valued(TokenKind::Ident, "ab"),
        ]
    );
}

#[test]
fn test_hash_map() {
    let text = "the quick fox jumps over the lazy dog the end";
    let mut word_count: HashMap<String, u32> = HashMap::new();
    for token in tokenize(text).unwrap() {
        if token.kind == TokenKind::Ident {
            let entry = word_count.entry(token.value.unwrap()).or_insert(0);
            *entry += 1;
        }
    }
    for (word, count) in &word_count {
        println!("Word: {}, Count: {}", word, count);
    }
    assert_eq!(word_count["the"], 3);
    assert_eq!(word_count["fox"], 1);
    assert_eq!(word_count.len(), 8);
}
