use rust_calculator::errors::LexErrorKind;
use rust_calculator::errors::ParserError;
use rust_calculator::token::Token;
use rust_calculator::token::tokenize;

/// A number token over the given literal characters.
fn num(s: &str) -> Token {
    Token::Number(s.chars().collect())
}

/// The numeric value a number token stands for.
fn num_value(t: &Token) -> f32 {
    match t {
        Token::Number(d) => d.iter().collect::<String>().parse::<f32>().unwrap(),
        _ => panic!("not a number token"),
    }
}

#[test]
fn tokenize_numbers() {
    let tokens = tokenize("012.345".into()).unwrap();
    assert_eq!(tokens.len(), 1);
    assert_eq!(num_value(&tokens[0]), 12.345);

    let tokens = tokenize("pie".into()).unwrap();
    // Note: implicit mul kicks in
    assert_eq!(tokens, vec![Token::Pi, Token::Times, Token::E]);

    let tokens = tokenize("12".into()).unwrap();
    assert_eq!(tokens.len(), 1);
    assert_eq!(num_value(&tokens[0]), 12.0);

    let tokens = tokenize("12.".into()).unwrap();
    assert_eq!(tokens.len(), 1);
    assert_eq!(num_value(&tokens[0]), 12.0);

    let tokens = tokenize(".4".into()).unwrap();
    assert_eq!(tokens.len(), 1);
    assert_eq!(num_value(&tokens[0]), 0.4);

    assert!(tokenize(".".into()).is_err());
}

#[test]
fn tokenize_operators() {
    let tokens = tokenize("+2+-1-*/***".into()).unwrap();
    assert_eq!(
        tokens,
        vec![
            Token::UnaryPlus,
            num("2"),
            Token::Plus,
            Token::UnaryMinus,
            num("1"),
            Token::Minus,
            Token::Times,
            Token::Slash,
            Token::TimesTimes,
            Token::Times,
        ]
    )
}

#[test]
fn tokenize_other() {
    let tokens = tokenize(" \n\t".into()).unwrap();
    assert_eq!(tokens, vec![]);
}

#[test]
fn tokenize_fail() {
    assert!(tokenize("abc".into()).is_err());
    assert!(tokenize("%".into()).is_err());
}

#[test]
fn implicit_mul() {
    let tokens = tokenize("1(2)".into()).unwrap();
    assert_eq!(
        tokens,
        vec![num("1"), Token::Times, Token::ParenStart, num("2"), Token::ParenEnd]
    );

    let tokens = tokenize("(1)(2)".into()).unwrap();
    assert_eq!(
        tokens,
        vec![
            Token::ParenStart,
            num("1"),
            Token::ParenEnd,
            Token::Times,
            Token::ParenStart,
            num("2"),
            Token::ParenEnd,
        ]
    );

    let tokens = tokenize("1pi".into()).unwrap();
    assert_eq!(tokens, vec![num("1"), Token::Times, Token::Pi]);

    let tokens = tokenize("(1)2".into()).unwrap();
    assert_eq!(
        tokens,
        vec![Token::ParenStart, num("1"), Token::ParenEnd, Token::Times, num("2")]
    );
}

#[test]
fn implicit_mul_in_the_wild() {
    let tokens = tokenize("(1+2)(1-2)(2pi/4)".into()).unwrap();
    assert_eq!(
        tokens,
        vec![
            Token::ParenStart,
            num("1"),
            Token::Plus,
            num("2"),
            Token::ParenEnd,
            Token::Times,
            Token::ParenStart,
            num("1"),
            Token::Minus,
            num("2"),
            Token::ParenEnd,
            Token::Times,
            Token::ParenStart,
            num("2"),
            Token::Times,
            Token::Pi,
            Token::Slash,
            num("4"),
            Token::ParenEnd,
        ]
    )
}

#[test]
fn digit_string_single_token() {
    // A bare digit string is one number token with its decimal value.
    let tokens = tokenize("00731".into()).unwrap();
    assert_eq!(tokens.len(), 1);
    assert_eq!(num_value(&tokens[0]), 731.0);

    let tokens = tokenize("5.25".into()).unwrap();
    assert_eq!(tokens.len(), 1);
    assert_eq!(num_value(&tokens[0]), 5.25);
}

#[test]
fn implicit_mul_same_shape() {
    // `2pi` gets the same token shape as the explicit `2*pi`.
    let implicit = tokenize("2pi".into()).unwrap();
    let explicit = tokenize("2*pi".into()).unwrap();
    assert_eq!(implicit, vec![num("2"), Token::Times, Token::Pi]);
    assert_eq!(implicit, explicit);

    // `(1)(2)` gets exactly one multiplication between the groups.
    let tokens = tokenize("(1)(2)".into()).unwrap();
    let times = tokens.iter().filter(|t| matches!(t, Token::Times)).count();
    assert_eq!(times, 1);
}

#[test]
fn unary_disambiguation() {
    // First position: always unary.
    let tokens = tokenize("-1".into()).unwrap();
    assert_eq!(tokens, vec![Token::UnaryMinus, num("1")]);
    let tokens = tokenize("+1".into()).unwrap();
    assert_eq!(tokens, vec![Token::UnaryPlus, num("1")]);

    // After an operator: unary; after an atom: binary.
    let tokens = tokenize("1--1".into()).unwrap();
    assert_eq!(tokens, vec![num("1"), Token::Minus, Token::UnaryMinus, num("1")]);

    // After an opening parenthesis: unary.
    let tokens = tokenize("(-1)".into()).unwrap();
    assert_eq!(
        tokens,
        vec![Token::ParenStart, Token::UnaryMinus, num("1"), Token::ParenEnd]
    );
}

#[test]
fn lex_error_kinds() {
    assert_eq!(
        tokenize("%".into()).unwrap_err(),
        ParserError::Tokenize(LexErrorKind::UnexpectedChar('%'))
    );
    assert_eq!(
        tokenize("p".into()).unwrap_err(),
        ParserError::Tokenize(LexErrorKind::IncompletePi)
    );
    assert_eq!(
        tokenize("3+p4".into()).unwrap_err(),
        ParserError::Tokenize(LexErrorKind::IncompletePi)
    );
    assert_eq!(
        tokenize(".".into()).unwrap_err(),
        ParserError::Tokenize(LexErrorKind::LoneDot)
    );
    assert_eq!(
        tokenize("1+.".into()).unwrap_err(),
        ParserError::Tokenize(LexErrorKind::LoneDot)
    );
}

#[test]
fn whitespace_is_discarded() {
    // The scan must consult the real whitespace property: with it, these two
    // inputs give identical tokens; without it, the first would fail.
    let spaced = tokenize(" 1 +\t2\n".into()).unwrap();
    let dense = tokenize("1+2".into()).unwrap();
    assert_eq!(spaced, dense);
    assert_eq!(spaced, vec![num("1"), Token::Plus, num("2")]);
}

#[test]
fn empty_input_no_tokens() {
    let tokens = tokenize("".into()).unwrap();
    assert_eq!(tokens, vec![]);
}
