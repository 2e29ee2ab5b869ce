use rust_calculator::ast::BinOpType;
use rust_calculator::ast::Expr;
use rust_calculator::ast::UnaryOpType;
use rust_calculator::errors::ParserError;
use rust_calculator::parser::Parser;
use rust_calculator::token::Token;
use rust_calculator::token::tokenize;

/// A number leaf over the given literal characters.
fn leaf(s: &str) -> Expr {
    Expr::Number(s.chars().collect())
}

/// A number token over the given literal characters.
fn ntok(s: &str) -> Token {
    Token::Number(s.chars().collect())
}

#[test]
fn parse_unary_expr() -> Result<(), ParserError> {
    let parser = Parser::new(tokenize("+1".into())?);
    assert_eq!(parser.parse()?, Expr::UnaryOp(UnaryOpType::Noop, Box::new(leaf("1"))));

    let parser = Parser::new(tokenize("-1".into())?);
    assert_eq!(parser.parse()?, Expr::UnaryOp(UnaryOpType::Negate, Box::new(leaf("1"))));

    Ok(())
}

#[test]
fn parse_bin_expr() {
    let parser = Parser::new(tokenize("1+2".into()).unwrap());
    assert_eq!(
        parser.parse().unwrap(),
        Expr::BinOp(Box::new(leaf("1")), BinOpType::Add, Box::new(leaf("2")))
    );

    let parser = Parser::new(tokenize("1-2".into()).unwrap());
    assert_eq!(
        parser.parse().unwrap(),
        Expr::BinOp(Box::new(leaf("1")), BinOpType::Sub, Box::new(leaf("2")))
    );

    let parser = Parser::new(tokenize("1*2".into()).unwrap());
    assert_eq!(
        parser.parse().unwrap(),
        Expr::BinOp(Box::new(leaf("1")), BinOpType::Mul, Box::new(leaf("2")))
    );

    let parser = Parser::new(tokenize("1/2".into()).unwrap());
    assert_eq!(
        parser.parse().unwrap(),
        Expr::BinOp(Box::new(leaf("1")), BinOpType::Div, Box::new(leaf("2")))
    );

    let parser = Parser::new(tokenize("1**2".into()).unwrap());
    assert_eq!(
        parser.parse().unwrap(),
        Expr::BinOp(Box::new(leaf("1")), BinOpType::Pow, Box::new(leaf("2")))
    );
}

#[test]
fn bin_op_precedence() {
    let parser = Parser::new(tokenize("1**2**3/4*5+6".into()).unwrap());
    assert_eq!(
        parser.parse().unwrap(),
        Expr::BinOp(
            Expr::BinOp(
                Expr::BinOp(
                    Expr::BinOp(
                        leaf("1").boxed(),
                        BinOpType::Pow,
                        Expr::BinOp(leaf("2").boxed(), BinOpType::Pow, leaf("3").boxed()).boxed()
                    )
                    .boxed(),
                    BinOpType::Div,
                    leaf("4").boxed()
                )
                .boxed(),
                BinOpType::Mul,
                leaf("5").boxed()
            )
            .boxed(),
            BinOpType::Add,
            leaf("6").boxed()
        )
    );
}

#[test]
fn parens_hell() {
    // The input opens one parenthesis more than it closes, so the parse
    // fails; the balanced version of the same expression parses.
    let parser = Parser::new(tokenize("((1+2)*((3/4)/(5**6))".into()).unwrap());
    assert_eq!(parser.parse().unwrap_err(), ParserError::MismatchedParenthesis);

    let parser = Parser::new(tokenize("(1+2)*((3/4)/(5**6))".into()).unwrap());
    assert_eq!(
        parser.parse().unwrap(),
        Expr::BinOp(
            Expr::BinOp(leaf("1").boxed(), BinOpType::Add, leaf("2").boxed()).boxed(),
            BinOpType::Mul,
            Expr::BinOp(
                Expr::BinOp(leaf("3").boxed(), BinOpType::Div, leaf("4").boxed()).boxed(),
                BinOpType::Div,
                Expr::BinOp(leaf("5").boxed(), BinOpType::Pow, leaf("6").boxed()).boxed()
            )
            .boxed()
        )
    );
}

#[test]
fn unmatched_close_paren() {
    let parser = Parser::new(tokenize("1+2)".into()).unwrap());
    assert_eq!(parser.parse().unwrap_err(), ParserError::MismatchedParenthesis);

    let parser = Parser::new(tokenize(")".into()).unwrap());
    assert_eq!(parser.parse().unwrap_err(), ParserError::MismatchedParenthesis);
}

#[test]
fn unmatched_open_paren() {
    let parser = Parser::new(tokenize("(1+2".into()).unwrap());
    assert_eq!(parser.parse().unwrap_err(), ParserError::MismatchedParenthesis);

    let parser = Parser::new(tokenize("(".into()).unwrap());
    assert_eq!(parser.parse().unwrap_err(), ParserError::MismatchedParenthesis);

    let parser = Parser::new(tokenize("((1)".into()).unwrap());
    assert_eq!(parser.parse().unwrap_err(), ParserError::MismatchedParenthesis);
}

#[test]
fn division_chain_groups_left() {
    let parser = Parser::new(tokenize("8/4/2".into()).unwrap());
    assert_eq!(
        parser.parse().unwrap(),
        Expr::BinOp(
            Expr::BinOp(leaf("8").boxed(), BinOpType::Div, leaf("4").boxed()).boxed(),
            BinOpType::Div,
            leaf("2").boxed()
        )
    );
}

#[test]
fn operand_count_errors() {
    // Two adjacent expressions coming straight from the lexer are absorbed
    // by the implicit multiplication, so feed the parser raw tokens.
    let parser = Parser::new(vec![ntok("1"), ntok("2")]);
    assert_eq!(parser.parse().unwrap_err(), ParserError::TooMuchOperands);

    let parser = Parser::new(tokenize("+".into()).unwrap());
    assert_eq!(parser.parse().unwrap_err(), ParserError::NotEnoughOperands);

    let parser = Parser::new(tokenize("".into()).unwrap());
    assert_eq!(parser.parse().unwrap_err(), ParserError::NotEnoughOperands);

    let parser = Parser::new(tokenize("1*".into()).unwrap());
    assert_eq!(parser.parse().unwrap_err(), ParserError::NotEnoughOperands);
}

#[test]
fn whitespace_separated_atoms_absorbed() {
    // `1 2` becomes `1*2`: the lexer discards the space, and the
    // implicit-multiplication pass joins the adjacent numbers.
    let parser = Parser::new(tokenize("1 2".into()).unwrap());
    assert_eq!(
        parser.parse().unwrap(),
        Expr::BinOp(Box::new(leaf("1")), BinOpType::Mul, Box::new(leaf("2")))
    );
}
