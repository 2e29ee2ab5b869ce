//! A verified single-expression calculator front end.
//!
//! The pipeline has three stages: the lexer turns source text into a token
//! sequence ([`token::tokenize`]), the parser turns the token sequence into an
//! abstract syntax tree with an operator-precedence (shunting-yard) algorithm
//! ([`parser::Parser`]), and a numeric evaluator (outside this library, since
//! it works on floating-point values) folds the tree into a number.
//!
//! A numeric literal travels through the pipeline as the exact sequence of
//! characters that the lexer accepted, so the lexer and the parser are
//! verified without committing to any floating-point representation; the
//! caller converts the literal when it evaluates the tree.

pub mod ast;
pub mod errors;
pub mod parser;
pub mod token;
