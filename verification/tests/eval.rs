use rust_calculator::ast::BinOpType;
use rust_calculator::ast::Expr;
use rust_calculator::ast::UnaryOpType;
use rust_calculator::parser::Parser;
use rust_calculator::token::tokenize;

/// The numeric meaning of a tree: the library carries numbers as their
/// literal characters, so the floating-point fold lives with the caller.
fn eval(e: &Expr) -> f32 {
    match e {
        Expr::Number(d) => d.iter().collect::<String>().parse::<f32>().unwrap(),
        Expr::E => std::f32::consts::E,
        Expr::Pi => std::f32::consts::PI,
        Expr::UnaryOp(UnaryOpType::Negate, operand) => -eval(operand),
        Expr::UnaryOp(UnaryOpType::Noop, operand) => eval(operand),
        Expr::BinOp(left, BinOpType::Add, right) => eval(left) + eval(right),
        Expr::BinOp(left, BinOpType::Sub, right) => eval(left) - eval(right),
        Expr::BinOp(left, BinOpType::Mul, right) => eval(left) * eval(right),
        Expr::BinOp(left, BinOpType::Div, right) => eval(left) / eval(right),
        Expr::BinOp(left, BinOpType::Pow, right) => eval(left).powf(eval(right)),
    }
}

/// A number leaf over the given literal characters.
fn num(s: &str) -> Expr {
    Expr::Number(s.chars().collect())
}

/// The whole pipeline on a source text.
fn run(source: &str) -> f32 {
    eval(&Parser::new(tokenize(source.into()).unwrap()).parse().unwrap())
}

#[test]
fn eval_atom() {
    let atom = num("42");
    assert_eq!(eval(&atom), 42.);

    let atom = Expr::E;
    assert_eq!(eval(&atom), std::f32::consts::E);

    let atom = Expr::Pi;
    assert_eq!(eval(&atom), std::f32::consts::PI);
}

#[test]
fn eval_unary() {
    let negate = Expr::UnaryOp(UnaryOpType::Negate, num("1").boxed());
    assert_eq!(eval(&negate), -1.);

    let noop = Expr::UnaryOp(UnaryOpType::Noop, num("1").boxed());
    assert_eq!(eval(&noop), 1.);
}

#[test]
fn eval_bin() {
    let add = Expr::BinOp(num("1").boxed(), BinOpType::Add, num("2").boxed());
    assert_eq!(eval(&add), 3.);
    let sub = Expr::BinOp(num("1").boxed(), BinOpType::Sub, num("2").boxed());
    assert_eq!(eval(&sub), -1.);
    let mul = Expr::BinOp(num("1").boxed(), BinOpType::Mul, num("2").boxed());
    assert_eq!(eval(&mul), 2.);
    let div = Expr::BinOp(num("1").boxed(), BinOpType::Div, num("2").boxed());
    assert_eq!(eval(&div), 0.5);
    let pow = Expr::BinOp(num("1").boxed(), BinOpType::Pow, num("2").boxed());
    assert_eq!(eval(&pow), 1.);
}

#[test]
fn precedence_and_associativity() {
    // Multiplication binds tighter than addition.
    assert_eq!(run("1+2*3"), 7.0);
    // Power groups from the right: 2**(3**2), not (2**3)**2.
    assert_eq!(run("2**3**2"), 512.0);
    // Subtraction and division group from the left.
    assert_eq!(run("1-2-3"), -4.0);
    assert_eq!(run("8/4/2"), 1.0);
}

#[test]
fn pipeline_values() {
    assert_eq!(run("-1"), -1.0);
    assert_eq!(run("e"), std::f32::consts::E);
    assert_eq!(run("1/0"), f32::INFINITY);
    assert_eq!(run("2pi"), 2.0 * std::f32::consts::PI);
    assert_eq!(run("(1)(2)"), 2.0);
}
