use paren_lexer::{LexError, Token, TokenIterator};

fn ident(s: &str) -> Option<Result<Token, LexError>> {
    Some(Ok(Token::Ident(s.to_string())))
}

fn malformed(s: &str) -> Option<Result<Token, LexError>> {
    Some(Err(LexError::Malformed(s.to_string())))
}

/// The floating-point value of a decimal literal result.
fn float_value(r: Option<Result<Token, LexError>>) -> Option<f64> {
    match r {
        Some(Ok(Token::Float(text))) => Some(text.parse::<f64>().unwrap()),
        _ => None,
    }
}

fn all(s: &str) -> Vec<Result<Token, LexError>> {
    let mut it = TokenIterator::from_str(s);
    let mut out = Vec::new();
    while let Some(r) = it.next() {
        out.push(r);
    }
    out
}

#[test]
fn token_iterator_test() {
    let mut it = TokenIterator::from_str("(abc 123 1.3 =)");
    assert_eq!(it.next(), Some(Ok(Token::LParen)));
    assert_eq!(it.next(), Some(Ok(Token::Ident("abc".to_string()))));
    assert_eq!(it.next(), Some(Ok(Token::Int(123))));
    assert_eq!(float_value(it.next()), Some(1.3));
    assert_eq!(it.next(), Some(Err(LexError::Unrecognized("=".to_string()))));
    assert_eq!(it.next(), Some(Ok(Token::RParen)));
    assert_eq!(it.next(), None);
    it = TokenIterator::from_str("(xyz()");
    assert_eq!(it.next(), Some(Ok(Token::LParen)));
    assert_eq!(it.next(), Some(Ok(Token::Ident("xyz".to_string()))));
    assert_eq!(it.next(), Some(Ok(Token::LParen)));
    assert_eq!(it.next(), Some(Ok(Token::RParen)));
    assert_eq!(it.next(), None);
}

#[test]
fn parens_test() {
    let mut it = TokenIterator::from_str("()(()))()(");
    assert_eq!(it.next(), Some(Ok(Token::LParen)));
    assert_eq!(it.next(), Some(Ok(Token::RParen)));
    assert_eq!(it.next(), Some(Ok(Token::LParen)));
    assert_eq!(it.next(), Some(Ok(Token::LParen)));
    assert_eq!(it.next(), Some(Ok(Token::RParen)));
    assert_eq!(it.next(), Some(Ok(Token::RParen)));
    assert_eq!(it.next(), Some(Ok(Token::RParen)));
    assert_eq!(it.next(), Some(Ok(Token::LParen)));
    assert_eq!(it.next(), Some(Ok(Token::RParen)));
    assert_eq!(it.next(), Some(Ok(Token::LParen)));
}

#[test]
fn int_test() {
    let mut it = TokenIterator::from_str("123 1 2 3 456");
    assert_eq!(it.next(), Some(Ok(Token::Int(123))));
    assert_eq!(it.next(), Some(Ok(Token::Int(1))));
    assert_eq!(it.next(), Some(Ok(Token::Int(2))));
    assert_eq!(it.next(), Some(Ok(Token::Int(3))));
    assert_eq!(it.next(), Some(Ok(Token::Int(456))));
}

#[test]
fn float_test() {
    let mut it = TokenIterator::from_str("1.23 1.55 1.0 9999.3");
    assert_eq!(float_value(it.next()), Some(1.23));
    assert_eq!(float_value(it.next()), Some(1.55));
    assert_eq!(float_value(it.next()), Some(1.0));
    assert_eq!(float_value(it.next()), Some(9999.3));
}

#[test]
fn ident_test() {
    let mut it = TokenIterator::from_str("name a1 snake_case PascalCase _1");
    assert_eq!(it.next(), Some(Ok(Token::Ident("name".to_string()))));
    assert_eq!(it.next(), Some(Ok(Token::Ident("a1".to_string()))));
    assert_eq!(it.next(), Some(Ok(Token::Ident("snake_case".to_string()))));
    assert_eq!(it.next(), Some(Ok(Token::Ident("PascalCase".to_string()))));
    assert_eq!(it.next(), Some(Ok(Token::Ident("_1".to_string()))));
}

#[test]
fn error_test() {
    let mut it = TokenIterator::from_str("1a 123abc 1.2.3 1.3abc");
    assert_eq!(it.next(), Some(Err(LexError::Malformed("1a".to_string()))));
    assert_eq!(it.next(), Some(Err(LexError::Malformed("123abc".to_string()))));
    assert_eq!(it.next(), Some(Err(LexError::Malformed("1.2.3".to_string()))));
    assert_eq!(it.next(), Some(Err(LexError::Malformed("1.3abc".to_string()))));
}

#[test]
fn letters_after_numbers_test() {
    let mut it = TokenIterator::from_str("(123 123abc abc)");
    assert_eq!(it.next(), Some(Ok(Token::LParen)));
    assert_eq!(it.next(), Some(Ok(Token::Int(123))));
    assert_eq!(it.next(), Some(Err(LexError::Malformed("123abc".to_string()))));
    assert_eq!(it.next(), Some(Ok(Token::Ident("abc".to_string()))));
    assert_eq!(it.next(), Some(Ok(Token::RParen)));
}

#[test]
fn mixed_scenario_ends() {
    let mut it = TokenIterator::from_str("123 123abc abc");
    assert_eq!(it.next(), Some(Ok(Token::Int(123))));
    assert_eq!(it.next(), malformed("123abc"));
    assert_eq!(it.next(), ident("abc"));
    assert_eq!(it.next(), None);
}

#[test]
fn two_points_alone() {
    let mut it = TokenIterator::from_str("1.2.3");
    assert_eq!(it.next(), malformed("1.2.3"));
    assert_eq!(it.next(), None);
}

#[test]
fn empty_input_ends_at_once() {
    let mut it = TokenIterator::from_str("");
    assert_eq!(it.next(), None);
}

#[test]
fn identifiers_scenario() {
    let mut it = TokenIterator::from_str("_1 a1 snake_case");
    assert_eq!(it.next(), ident("_1"));
    assert_eq!(it.next(), ident("a1"));
    assert_eq!(it.next(), ident("snake_case"));
    assert_eq!(it.next(), None);
}

#[test]
fn end_is_sticky() {
    let mut it = TokenIterator::from_str(" x \n\t ");
    assert_eq!(it.next(), ident("x"));
    for _ in 0..5 {
        assert_eq!(it.next(), None);
    }
}

#[test]
fn only_whitespace_ends() {
    assert_eq!(all(" \t\r\n  "), Vec::new());
}

#[test]
fn parens_and_whitespace_only() {
    assert_eq!(
        all(" (\t)\n( ) )\r"),
        vec![
            Ok(Token::LParen),
            Ok(Token::RParen),
            Ok(Token::LParen),
            Ok(Token::RParen),
            Ok(Token::RParen),
        ]
    );
}

#[test]
fn identifier_text_is_kept() {
    assert_eq!(all("(Abc_9 z)"), vec![
        Ok(Token::LParen),
        Ok(Token::Ident("Abc_9".to_string())),
        Ok(Token::Ident("z".to_string())),
        Ok(Token::RParen),
    ]);
}

#[test]
fn integer_bounds() {
    assert_eq!(all("0 007 9223372036854775807"), vec![
        Ok(Token::Int(0)),
        Ok(Token::Int(7)),
        Ok(Token::Int(9223372036854775807)),
    ]);
}

#[test]
fn integer_overflow_is_reported() {
    assert_eq!(all("9223372036854775808 99999999999999999999"), vec![
        Err(LexError::Overflow("9223372036854775808".to_string())),
        Err(LexError::Overflow("99999999999999999999".to_string())),
    ]);
}

#[test]
fn overflow_then_letter_is_malformed() {
    assert_eq!(all("99999999999999999999x"), vec![
        Err(LexError::Malformed("99999999999999999999x".to_string())),
    ]);
}

#[test]
fn decimal_edge_forms() {
    let mut it = TokenIterator::from_str("1. .5 (2.25)");
    assert_eq!(it.next(), Some(Ok(Token::Float("1.".to_string()))));
    assert_eq!(float_value(it.next()), Some(0.5));
    assert_eq!(it.next(), Some(Ok(Token::LParen)));
    assert_eq!(float_value(it.next()), Some(2.25));
    assert_eq!(it.next(), Some(Ok(Token::RParen)));
    assert_eq!(float_value(Some(Ok(Token::Float("1.".to_string())))), Some(1.0));
}

#[test]
fn lone_points_are_malformed() {
    assert_eq!(all(". .. .a"), vec![
        Err(LexError::Malformed(".".to_string())),
        Err(LexError::Malformed("..".to_string())),
        Err(LexError::Malformed(".a".to_string())),
    ]);
}

#[test]
fn underscore_ends_a_number() {
    assert_eq!(all("1_ 2.5_"), vec![
        Ok(Token::Int(1)),
        Ok(Token::Ident("_".to_string())),
        Ok(Token::Float("2.5".to_string())),
        Ok(Token::Ident("_".to_string())),
    ]);
}

#[test]
fn malformed_run_absorbs_word_bytes() {
    assert_eq!(all("12ab_3c(x"), vec![
        Err(LexError::Malformed("12ab_3c".to_string())),
        Ok(Token::LParen),
        Ok(Token::Ident("x".to_string())),
    ]);
}

#[test]
fn unrecognized_bytes_one_each() {
    assert_eq!(all("a=@b"), vec![
        Ok(Token::Ident("a".to_string())),
        Err(LexError::Unrecognized("=".to_string())),
        Err(LexError::Unrecognized("@".to_string())),
        Ok(Token::Ident("b".to_string())),
    ]);
}

#[test]
fn high_bytes_are_unrecognized() {
    let mut it = TokenIterator::from_bytes(vec![b'a', 0xc3, b'1']);
    assert_eq!(it.next(), ident("a"));
    assert_eq!(it.next(), Some(Err(LexError::Unrecognized("\u{c3}".to_string()))));
    assert_eq!(it.next(), Some(Ok(Token::Int(1))));
    assert_eq!(it.next(), None);
}

#[test]
fn lexemes_rebuild_the_input() {
    let input = "(ab 12 3.5 =)\t x1..y\n";
    let mut rebuilt = String::new();
    for r in all(input) {
        let text = match r {
            Ok(Token::LParen) => "(".to_string(),
            Ok(Token::RParen) => ")".to_string(),
            Ok(Token::Int(v)) => v.to_string(),
            Ok(Token::Ident(t)) | Ok(Token::Float(t)) => t,
            Err(LexError::Unrecognized(t))
            | Err(LexError::Malformed(t))
            | Err(LexError::Overflow(t)) => t,
        };
        rebuilt.push_str(&text);
    }
    let expected: String = input.chars().filter(|c| !c.is_whitespace()).collect();
    assert_eq!(rebuilt, expected);
}

#[test]
fn lines_lex_on_their_own() {
    let whole = all("ab 12\n(x 1.5)");
    let mut parts = all("ab 12");
    parts.extend(all("(x 1.5)"));
    assert_eq!(whole, parts);
}
