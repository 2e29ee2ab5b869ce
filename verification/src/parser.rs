//! The parser: an operator-precedence (shunting-yard) pass over the token
//! sequence, producing an expression tree.

use vstd::prelude::*;

use crate::ast::BinOpType;
use crate::ast::Expr;
use crate::ast::ExprView;
use crate::ast::UnaryOpType;
use crate::ast::exprs_view;
use crate::errors::ParserError;
use crate::token::Token;
use crate::token::TokenView;
use crate::token::lemma_tokens_view_push;
use crate::token::spec_is_atom;
use crate::token::spec_is_bin_op;
use crate::token::spec_is_left_assoc;
use crate::token::spec_is_op;
use crate::token::spec_is_paren;
use crate::token::spec_is_unary_op;
use crate::token::spec_op_prec;
use crate::token::tokens_view;

verus! {

// ---------------------------------------------------------------------------
// The algorithm, as mathematical functions on the token sequence and the two
// stacks: `out` holds the completed subtrees, `ops` the pending operators
// and opening parentheses. The last element of a sequence is the top of the
// stack it models.
// ---------------------------------------------------------------------------

/// The leaf for an atom token.
pub open spec fn spec_leaf(t: TokenView) -> ExprView {
    match t {
        TokenView::Number(d) => ExprView::Number(d),
        TokenView::E => ExprView::E,
        TokenView::Pi => ExprView::Pi,
        _ => vstd::pervasive::arbitrary(),
    }
}

/// The unary operator node built for a unary sign token.
pub open spec fn spec_unary_type(op: TokenView) -> UnaryOpType {
    if op == TokenView::UnaryMinus {
        UnaryOpType::Negate
    } else {
        UnaryOpType::Noop
    }
}

/// The binary operator node built for a binary operator token.
pub open spec fn spec_bin_type(op: TokenView) -> BinOpType {
    match op {
        TokenView::Plus => BinOpType::Add,
        TokenView::Minus => BinOpType::Sub,
        TokenView::Times => BinOpType::Mul,
        TokenView::Slash => BinOpType::Div,
        TokenView::TimesTimes => BinOpType::Pow,
        _ => vstd::pervasive::arbitrary(),
    }
}

/// Applying the operator `op` to the output stack: pop one operand for a
/// unary operator, two for a binary one (the right operand lies on top), and
/// push the built node. Too few operands is an error, reported at once.
pub open spec fn spec_apply_op(op: TokenView, out: Seq<ExprView>) -> Result<
    Seq<ExprView>,
    ParserError,
> {
    if spec_is_unary_op(op) {
        if out.len() == 0 {
            Err(ParserError::NotEnoughOperands)
        } else {
            Ok(
                out.drop_last().push(
                    ExprView::UnaryOp(spec_unary_type(op), Box::new(out.last())),
                ),
            )
        }
    } else {
        if out.len() < 2 {
            Err(ParserError::NotEnoughOperands)
        } else {
            Ok(
                out.take(out.len() - 2).push(
                    ExprView::BinOp(
                        Box::new(out[out.len() - 2]),
                        spec_bin_type(op),
                        Box::new(out.last()),
                    ),
                ),
            )
        }
    }
}

/// The operator on top of the stack is applied before the incoming one:
/// it binds strictly tighter, or equally tight while the incoming operator
/// groups from the left. An opening parenthesis has the weakest binding
/// strength, so it never satisfies this.
pub open spec fn spec_should_pop(top: TokenView, cur: TokenView) -> bool {
    spec_op_prec(top) > spec_op_prec(cur) || (spec_op_prec(top) == spec_op_prec(cur)
        && spec_is_left_assoc(cur))
}

/// Handling an incoming operator: apply every stacked operator that comes
/// first, then push the incoming one.
pub open spec fn spec_pop_ge(cur: TokenView, out: Seq<ExprView>, ops: Seq<TokenView>) -> Result<
    (Seq<ExprView>, Seq<TokenView>),
    ParserError,
>
    decreases ops.len(),
{
    if ops.len() > 0 && spec_should_pop(ops.last(), cur) {
        match spec_apply_op(ops.last(), out) {
            Ok(out2) => spec_pop_ge(cur, out2, ops.drop_last()),
            Err(e) => Err(e),
        }
    } else {
        Ok((out, ops.push(cur)))
    }
}

/// Handling a closing parenthesis: apply stacked operators until the
/// matching opening parenthesis, which is discarded. An empty stack means
/// the parenthesis had no match.
pub open spec fn spec_close_paren(out: Seq<ExprView>, ops: Seq<TokenView>) -> Result<
    (Seq<ExprView>, Seq<TokenView>),
    ParserError,
>
    decreases ops.len(),
{
    if ops.len() == 0 {
        Err(ParserError::MismatchedParenthesis)
    } else if ops.last() == TokenView::ParenStart {
        Ok((out, ops.drop_last()))
    } else {
        match spec_apply_op(ops.last(), out) {
            Ok(out2) => spec_close_paren(out2, ops.drop_last()),
            Err(e) => Err(e),
        }
    }
}

/// One pass over the token sequence, from the given stacks: atoms go to the
/// output stack, operators through [`spec_pop_ge`], parentheses open a group
/// or close one through [`spec_close_paren`].
pub open spec fn spec_shunt(
    ts: Seq<TokenView>,
    out: Seq<ExprView>,
    ops: Seq<TokenView>,
) -> Result<(Seq<ExprView>, Seq<TokenView>), ParserError>
    decreases ts.len(),
{
    if ts.len() == 0 {
        Ok((out, ops))
    } else {
        let t = ts[0];
        if spec_is_atom(t) {
            spec_shunt(ts.drop_first(), out.push(spec_leaf(t)), ops)
        } else if spec_is_op(t) {
            match spec_pop_ge(t, out, ops) {
                Ok(r) => spec_shunt(ts.drop_first(), r.0, r.1),
                Err(e) => Err(e),
            }
        } else if t == TokenView::ParenStart {
            spec_shunt(ts.drop_first(), out, ops.push(t))
        } else {
            match spec_close_paren(out, ops) {
                Ok(r) => spec_shunt(ts.drop_first(), r.0, r.1),
                Err(e) => Err(e),
            }
        }
    }
}

/// After the input is exhausted: apply the remaining stacked operators. A
/// parenthesis still on the stack is an opening parenthesis that was never
/// closed, so it is the mismatched-parenthesis error.
pub open spec fn spec_drain(out: Seq<ExprView>, ops: Seq<TokenView>) -> Result<
    Seq<ExprView>,
    ParserError,
>
    decreases ops.len(),
{
    if ops.len() == 0 {
        Ok(out)
    } else if spec_is_paren(ops.last()) {
        Err(ParserError::MismatchedParenthesis)
    } else {
        match spec_apply_op(ops.last(), out) {
            Ok(out2) => spec_drain(out2, ops.drop_last()),
            Err(e) => Err(e),
        }
    }
}

/// What [`Parser::parse`] returns for a token sequence: the pass over the
/// input, the drain of the operator stack, and the final check that exactly
/// one expression is left.
pub open spec fn spec_parse(ts: Seq<TokenView>) -> Result<ExprView, ParserError> {
    match spec_shunt(ts, Seq::empty(), Seq::empty()) {
        Ok(r) => match spec_drain(r.0, r.1) {
            Ok(out) => {
                if out.len() == 1 {
                    Ok(out[0])
                } else if out.len() == 0 {
                    Err(ParserError::NotEnoughOperands)
                } else {
                    Err(ParserError::TooMuchOperands)
                }
            },
            Err(e) => Err(e),
        },
        Err(e) => Err(e),
    }
}

/// Every token on the operator stack is an operator or an opening
/// parenthesis: the only tokens the pass ever pushes there.
pub open spec fn ops_wf(ops: Seq<TokenView>) -> bool {
    forall|k: int|
        0 <= k < ops.len() ==> spec_is_op(#[trigger] ops[k]) || ops[k] == TokenView::ParenStart
}

/// Pushing an expression and then taking views is taking views and then
/// pushing the expression's view.
pub proof fn lemma_exprs_view_push(es: Seq<Expr>, e: Expr)
    ensures
        exprs_view(es.push(e)) == exprs_view(es).push(e@),
{
    assert(exprs_view(es.push(e)) =~= exprs_view(es).push(e@));
}

// ---------------------------------------------------------------------------
// Laws of the parser.
// ---------------------------------------------------------------------------

/// Multiplication binds tighter than addition: for any atoms `a`, `b`, `c`,
/// the tokens of `a + b * c` parse as `a + (b * c)`, never `(a + b) * c`.
pub proof fn lemma_mul_binds_tighter(a: TokenView, b: TokenView, c: TokenView)
    requires
        spec_is_atom(a),
        spec_is_atom(b),
        spec_is_atom(c),
    ensures
        spec_parse(seq![a, TokenView::Plus, b, TokenView::Times, c]) == Ok::<
            ExprView,
            ParserError,
        >(
            ExprView::BinOp(
                Box::new(spec_leaf(a)),
                BinOpType::Add,
                Box::new(
                    ExprView::BinOp(Box::new(spec_leaf(b)), BinOpType::Mul, Box::new(spec_leaf(c))),
                ),
            ),
        ),
{
    let ts = seq![a, TokenView::Plus, b, TokenView::Times, c];
    lemma_infix_chain(ts, a, TokenView::Plus, b, TokenView::Times, c);
}

/// Power groups from the right: for any atoms `a`, `b`, `c`, the tokens of
/// `a ** b ** c` parse as `a ** (b ** c)`.
pub proof fn lemma_pow_right_assoc(a: TokenView, b: TokenView, c: TokenView)
    requires
        spec_is_atom(a),
        spec_is_atom(b),
        spec_is_atom(c),
    ensures
        spec_parse(seq![a, TokenView::TimesTimes, b, TokenView::TimesTimes, c]) == Ok::<
            ExprView,
            ParserError,
        >(
            ExprView::BinOp(
                Box::new(spec_leaf(a)),
                BinOpType::Pow,
                Box::new(
                    ExprView::BinOp(Box::new(spec_leaf(b)), BinOpType::Pow, Box::new(spec_leaf(c))),
                ),
            ),
        ),
{
    let ts = seq![a, TokenView::TimesTimes, b, TokenView::TimesTimes, c];
    lemma_infix_chain(ts, a, TokenView::TimesTimes, b, TokenView::TimesTimes, c);
}

/// Subtraction groups from the left: for any atoms `a`, `b`, `c`, the tokens
/// of `a - b - c` parse as `(a - b) - c`.
pub proof fn lemma_sub_left_assoc(a: TokenView, b: TokenView, c: TokenView)
    requires
        spec_is_atom(a),
        spec_is_atom(b),
        spec_is_atom(c),
    ensures
        spec_parse(seq![a, TokenView::Minus, b, TokenView::Minus, c]) == Ok::<
            ExprView,
            ParserError,
        >(
            ExprView::BinOp(
                Box::new(
                    ExprView::BinOp(Box::new(spec_leaf(a)), BinOpType::Sub, Box::new(spec_leaf(b))),
                ),
                BinOpType::Sub,
                Box::new(spec_leaf(c)),
            ),
        ),
{
    lemma_left_chain(a, TokenView::Minus, b, c);
}

/// Division groups from the left: for any atoms `a`, `b`, `c`, the tokens
/// of `a / b / c` parse as `(a / b) / c`.
pub proof fn lemma_div_left_assoc(a: TokenView, b: TokenView, c: TokenView)
    requires
        spec_is_atom(a),
        spec_is_atom(b),
        spec_is_atom(c),
    ensures
        spec_parse(seq![a, TokenView::Slash, b, TokenView::Slash, c]) == Ok::<
            ExprView,
            ParserError,
        >(
            ExprView::BinOp(
                Box::new(
                    ExprView::BinOp(Box::new(spec_leaf(a)), BinOpType::Div, Box::new(spec_leaf(b))),
                ),
                BinOpType::Div,
                Box::new(spec_leaf(c)),
            ),
        ),
{
    lemma_left_chain(a, TokenView::Slash, b, c);
}

/// The shape shared by the left-associativity laws: a chain of one binary
/// operator that is applied before its own kind (equal precedence, grouping
/// from the left) builds its tree from the left.
proof fn lemma_left_chain(a: TokenView, op: TokenView, b: TokenView, c: TokenView)
    requires
        spec_is_atom(a),
        spec_is_atom(b),
        spec_is_atom(c),
        spec_is_bin_op(op),
        spec_should_pop(op, op),
    ensures
        spec_parse(seq![a, op, b, op, c]) == Ok::<ExprView, ParserError>(
            ExprView::BinOp(
                Box::new(
                    ExprView::BinOp(
                        Box::new(spec_leaf(a)),
                        spec_bin_type(op),
                        Box::new(spec_leaf(b)),
                    ),
                ),
                spec_bin_type(op),
                Box::new(spec_leaf(c)),
            ),
        ),
{
    let ts = seq![a, op, b, op, c];
    let mi = op;
    let la = spec_leaf(a);
    let lb = spec_leaf(b);
    let lc = spec_leaf(c);
    let ab = ExprView::BinOp(Box::new(la), spec_bin_type(op), Box::new(lb));
    let abc = ExprView::BinOp(Box::new(ab), spec_bin_type(op), Box::new(lc));
    let ts1 = seq![mi, b, mi, c];
    let ts2 = seq![b, mi, c];
    let ts3 = seq![mi, c];
    let ts4 = seq![c];
    let e_out: Seq<ExprView> = Seq::empty();
    let e_ops: Seq<TokenView> = Seq::empty();
    assert(ts.drop_first() =~= ts1);
    assert(ts1.drop_first() =~= ts2);
    assert(ts2.drop_first() =~= ts3);
    assert(ts3.drop_first() =~= ts4);
    assert(ts4.drop_first() =~= e_ops);
    // a
    assert(spec_shunt(ts, e_out, e_ops) == spec_shunt(ts1, e_out.push(la), e_ops));
    // the first minus goes straight onto the empty operator stack
    assert(spec_pop_ge(mi, e_out.push(la), e_ops) == Ok::<
        (Seq<ExprView>, Seq<TokenView>),
        ParserError,
    >((e_out.push(la), e_ops.push(mi))));
    assert(spec_shunt(ts1, e_out.push(la), e_ops) == spec_shunt(
        ts2,
        e_out.push(la),
        e_ops.push(mi),
    ));
    // b
    assert(spec_shunt(ts2, e_out.push(la), e_ops.push(mi)) == spec_shunt(
        ts3,
        e_out.push(la).push(lb),
        e_ops.push(mi),
    ));
    // the second minus first applies the stacked one (equal precedence,
    // left-associative), then takes its place
    let out2 = e_out.push(la).push(lb);
    assert(spec_apply_op(mi, out2) == Ok::<Seq<ExprView>, ParserError>(out2.take(0).push(ab)));
    assert(out2.take(0).push(ab) =~= e_out.push(ab));
    assert(e_ops.push(mi).drop_last() =~= e_ops);
    assert(spec_pop_ge(mi, e_out.push(ab), e_ops) == Ok::<
        (Seq<ExprView>, Seq<TokenView>),
        ParserError,
    >((e_out.push(ab), e_ops.push(mi))));
    assert(spec_pop_ge(mi, out2, e_ops.push(mi)) == Ok::<
        (Seq<ExprView>, Seq<TokenView>),
        ParserError,
    >((e_out.push(ab), e_ops.push(mi))));
    assert(spec_shunt(ts3, out2, e_ops.push(mi)) == spec_shunt(
        ts4,
        e_out.push(ab),
        e_ops.push(mi),
    ));
    // c, end of input
    assert(spec_shunt(ts4, e_out.push(ab), e_ops.push(mi)) == spec_shunt(
        e_ops,
        e_out.push(ab).push(lc),
        e_ops.push(mi),
    ));
    assert(spec_shunt(e_ops, e_out.push(ab).push(lc), e_ops.push(mi)) == Ok::<
        (Seq<ExprView>, Seq<TokenView>),
        ParserError,
    >((e_out.push(ab).push(lc), e_ops.push(mi))));
    // drain the remaining minus
    let out4 = e_out.push(ab).push(lc);
    assert(spec_apply_op(mi, out4) == Ok::<Seq<ExprView>, ParserError>(out4.take(0).push(abc)));
    assert(out4.take(0).push(abc) =~= e_out.push(abc));
    assert(spec_drain(out4, e_ops.push(mi)) == spec_drain(e_out.push(abc), e_ops));
    assert(spec_drain(e_out.push(abc), e_ops) == Ok::<Seq<ExprView>, ParserError>(
        e_out.push(abc),
    ));
}

/// An input that is one lone operator has nothing to apply it to: it fails
/// with the not-enough-operands error, whichever operator it is.
pub proof fn lemma_lone_operator(op: TokenView)
    requires
        spec_is_op(op),
    ensures
        spec_parse(seq![op]) == Err::<ExprView, ParserError>(ParserError::NotEnoughOperands),
{
    let ts = seq![op];
    let e_out: Seq<ExprView> = Seq::empty();
    let e_ops: Seq<TokenView> = Seq::empty();
    assert(ts.drop_first() =~= e_ops);
    assert(spec_pop_ge(op, e_out, e_ops) == Ok::<(Seq<ExprView>, Seq<TokenView>), ParserError>(
        (e_out, e_ops.push(op)),
    ));
    assert(spec_shunt(ts, e_out, e_ops) == spec_shunt(e_ops, e_out, e_ops.push(op)));
    assert(spec_shunt(e_ops, e_out, e_ops.push(op)) == Ok::<
        (Seq<ExprView>, Seq<TokenView>),
        ParserError,
    >((e_out, e_ops.push(op))));
    assert(spec_apply_op(op, e_out) == Err::<Seq<ExprView>, ParserError>(
        ParserError::NotEnoughOperands,
    ));
    assert(spec_drain(e_out, e_ops.push(op)) == Err::<Seq<ExprView>, ParserError>(
        ParserError::NotEnoughOperands,
    ));
}

/// An empty input produces no expression: it fails with the
/// not-enough-operands error.
pub proof fn lemma_empty_input()
    ensures
        spec_parse(Seq::empty()) == Err::<ExprView, ParserError>(ParserError::NotEnoughOperands),
{
    let e_out: Seq<ExprView> = Seq::empty();
    let e_ops: Seq<TokenView> = Seq::empty();
    assert(spec_shunt(e_ops, e_out, e_ops) == Ok::<(Seq<ExprView>, Seq<TokenView>), ParserError>(
        (e_out, e_ops),
    ));
    assert(spec_drain(e_out, e_ops) == Ok::<Seq<ExprView>, ParserError>(e_out));
}

/// The shape shared by [`lemma_mul_binds_tighter`] and
/// [`lemma_pow_right_assoc`]: when the first of two chained operators is not
/// applied before the second (it binds less tightly, or equally with a
/// right-associative second), the second groups to the right.
proof fn lemma_infix_chain(
    ts: Seq<TokenView>,
    a: TokenView,
    op1: TokenView,
    b: TokenView,
    op2: TokenView,
    c: TokenView,
)
    requires
        spec_is_atom(a),
        spec_is_atom(b),
        spec_is_atom(c),
        spec_is_bin_op(op1),
        spec_is_bin_op(op2),
        !spec_should_pop(op1, op2),
        spec_op_prec(op1) <= spec_op_prec(op2),
        ts == seq![a, op1, b, op2, c],
    ensures
        spec_parse(ts) == Ok::<ExprView, ParserError>(
            ExprView::BinOp(
                Box::new(spec_leaf(a)),
                spec_bin_type(op1),
                Box::new(
                    ExprView::BinOp(
                        Box::new(spec_leaf(b)),
                        spec_bin_type(op2),
                        Box::new(spec_leaf(c)),
                    ),
                ),
            ),
        ),
{
    let la = spec_leaf(a);
    let lb = spec_leaf(b);
    let lc = spec_leaf(c);
    let ts1 = seq![op1, b, op2, c];
    let ts2 = seq![b, op2, c];
    let ts3 = seq![op2, c];
    let ts4 = seq![c];
    let e_out: Seq<ExprView> = Seq::empty();
    let e_ops: Seq<TokenView> = Seq::empty();
    assert(ts.drop_first() =~= ts1);
    assert(ts1.drop_first() =~= ts2);
    assert(ts2.drop_first() =~= ts3);
    assert(ts3.drop_first() =~= ts4);
    assert(ts4.drop_first() =~= e_ops);
    // a
    assert(spec_shunt(ts, e_out, e_ops) == spec_shunt(ts1, e_out.push(la), e_ops));
    // op1 goes straight onto the empty operator stack
    assert(spec_pop_ge(op1, e_out.push(la), e_ops) == Ok::<
        (Seq<ExprView>, Seq<TokenView>),
        ParserError,
    >((e_out.push(la), e_ops.push(op1))));
    assert(spec_shunt(ts1, e_out.push(la), e_ops) == spec_shunt(
        ts2,
        e_out.push(la),
        e_ops.push(op1),
    ));
    // b
    assert(spec_shunt(ts2, e_out.push(la), e_ops.push(op1)) == spec_shunt(
        ts3,
        e_out.push(la).push(lb),
        e_ops.push(op1),
    ));
    // op1 stays under op2
    let out2 = e_out.push(la).push(lb);
    assert(spec_pop_ge(op2, out2, e_ops.push(op1)) == Ok::<
        (Seq<ExprView>, Seq<TokenView>),
        ParserError,
    >((out2, e_ops.push(op1).push(op2))));
    assert(spec_shunt(ts3, out2, e_ops.push(op1)) == spec_shunt(
        ts4,
        out2,
        e_ops.push(op1).push(op2),
    ));
    // c, end of input
    assert(spec_shunt(ts4, out2, e_ops.push(op1).push(op2)) == spec_shunt(
        e_ops,
        out2.push(lc),
        e_ops.push(op1).push(op2),
    ));
    assert(spec_shunt(e_ops, out2.push(lc), e_ops.push(op1).push(op2)) == Ok::<
        (Seq<ExprView>, Seq<TokenView>),
        ParserError,
    >((out2.push(lc), e_ops.push(op1).push(op2))));
    // drain: op2 first, then op1
    let out3 = out2.push(lc);
    let bc = ExprView::BinOp(Box::new(lb), spec_bin_type(op2), Box::new(lc));
    let abc = ExprView::BinOp(Box::new(la), spec_bin_type(op1), Box::new(bc));
    assert(spec_apply_op(op2, out3) == Ok::<Seq<ExprView>, ParserError>(out3.take(1).push(bc)));
    assert(out3.take(1).push(bc) =~= e_out.push(la).push(bc));
    assert(e_ops.push(op1).push(op2).drop_last() =~= e_ops.push(op1));
    let out4 = e_out.push(la).push(bc);
    assert(spec_drain(out3, e_ops.push(op1).push(op2)) == spec_drain(out4, e_ops.push(op1)));
    assert(spec_apply_op(op1, out4) == Ok::<Seq<ExprView>, ParserError>(out4.take(0).push(abc)));
    assert(out4.take(0).push(abc) =~= e_out.push(abc));
    assert(e_ops.push(op1).drop_last() =~= e_ops);
    assert(spec_drain(out4, e_ops.push(op1)) == spec_drain(e_out.push(abc), e_ops));
    assert(spec_drain(e_out.push(abc), e_ops) == Ok::<Seq<ExprView>, ParserError>(
        e_out.push(abc),
    ));
}

/// A single-use parser: it is built over a token sequence and consumed by
/// [`Parser::parse`].
pub struct Parser {
    tokens: Vec<Token>,
    output: Vec<Expr>,
    operators: Vec<Token>,
}

impl View for Parser {
    type V = Seq<TokenView>;

    closed spec fn view(&self) -> Seq<TokenView> {
        tokens_view(self.tokens@)
    }
}

impl Parser {
    /// Both working stacks are still empty, as [`Parser::new`] leaves them.
    pub closed spec fn fresh(&self) -> bool {
        self.output@ == Seq::<Expr>::empty() && self.operators@ == Seq::<Token>::empty()
    }

    /// A parser over the given token sequence.
    pub fn new(tokens: Vec<Token>) -> (r: Self)
        ensures
            r@ == tokens_view(tokens@),
            r.fresh(),
    {
        Self { tokens, output: Vec::new(), operators: Vec::new() }
    }

    /// Take the top of the output stack; an empty stack is the
    /// not-enough-operands error.
    fn pop_operand(&mut self) -> (r: Result<Expr, ParserError>)
        ensures
            match r {
                Ok(e) => {
                    &&& old(self).output@.len() > 0
                    &&& e == old(self).output@.last()
                    &&& final(self).output@ == old(self).output@.drop_last()
                    &&& final(self).tokens == old(self).tokens
                    &&& final(self).operators == old(self).operators
                },
                Err(err) => {
                    &&& err == ParserError::NotEnoughOperands
                    &&& old(self).output@.len() == 0
                    &&& final(self).output@ == old(self).output@
                    &&& final(self).tokens == old(self).tokens
                    &&& final(self).operators == old(self).operators
                },
            },
    {
        match self.output.pop() {
            Some(e) => Ok(e),
            None => Err(ParserError::NotEnoughOperands),
        }
    }

    /// Apply one operator to the output stack, as [`spec_apply_op`] says.
    fn apply_op(&mut self, op: Token) -> (r: Result<(), ParserError>)
        requires
            spec_is_op(op@),
        ensures
            match r {
                Ok(_) => spec_apply_op(op@, exprs_view(old(self).output@)) == Ok::<
                    Seq<ExprView>,
                    ParserError,
                >(exprs_view(final(self).output@)) && final(self).tokens == old(self).tokens
                    && final(self).operators == old(self).operators,
                Err(e) => spec_apply_op(op@, exprs_view(old(self).output@)) == Err::<
                    Seq<ExprView>,
                    ParserError,
                >(e) && final(self).tokens == old(self).tokens && final(self).operators == old(
                    self,
                ).operators && final(self).output@ == Seq::<Expr>::empty(),
            },
    {
        let ghost v0 = exprs_view(self.output@);
        if op.is_unary_op() {
            let operand = match self.pop_operand() {
                Ok(e) => e,
                Err(e) => {
                    proof {
                        assert(v0.len() == 0);
                        assert(self.output@ =~= Seq::<Expr>::empty());
                    }
                    return Err(e);
                },
            };
            let t = match op {
                Token::UnaryMinus => UnaryOpType::Negate,
                _ => UnaryOpType::Noop,
            };
            let node = Expr::UnaryOp(t, Box::new(operand));
            proof {
                assert(exprs_view(self.output@) =~= v0.drop_last());
                assert(node@ == ExprView::UnaryOp(spec_unary_type(op@), Box::new(v0.last())));
                lemma_exprs_view_push(self.output@, node);
            }
            self.output.push(node);
            proof {
                assert(exprs_view(self.output@) =~= v0.drop_last().push(
                    ExprView::UnaryOp(spec_unary_type(op@), Box::new(v0.last())),
                ));
            }
            Ok(())
        } else {
            let right = match self.pop_operand() {
                Ok(e) => e,
                Err(e) => {
                    proof {
                        assert(v0.len() == 0);
                        assert(self.output@ =~= Seq::<Expr>::empty());
                    }
                    return Err(e);
                },
            };
            let left = match self.pop_operand() {
                Ok(e) => e,
                Err(e) => {
                    proof {
                        assert(v0.len() == 1);
                        assert(self.output@ =~= Seq::<Expr>::empty());
                    }
                    return Err(e);
                },
            };
            let t = match op {
                Token::Plus => BinOpType::Add,
                Token::Minus => BinOpType::Sub,
                Token::Times => BinOpType::Mul,
                Token::Slash => BinOpType::Div,
                Token::TimesTimes => BinOpType::Pow,
                _ => vstd::pervasive::unreached(),
            };
            let node = Expr::BinOp(Box::new(left), t, Box::new(right));
            proof {
                assert(exprs_view(self.output@) =~= v0.take(v0.len() - 2));
                assert(right@ == v0.last());
                assert(left@ == v0[v0.len() - 2]);
                assert(node@ == ExprView::BinOp(
                    Box::new(v0[v0.len() - 2]),
                    spec_bin_type(op@),
                    Box::new(v0.last()),
                ));
                lemma_exprs_view_push(self.output@, node);
            }
            self.output.push(node);
            proof {
                assert(exprs_view(self.output@) =~= v0.take(v0.len() - 2).push(
                    ExprView::BinOp(
                        Box::new(v0[v0.len() - 2]),
                        spec_bin_type(op@),
                        Box::new(v0.last()),
                    ),
                ));
            }
            Ok(())
        }
    }

    /// Consume the token sequence and build its expression tree, exactly as
    /// [`spec_parse`] says: the result is `Ok` on precisely the sequences on
    /// which the algorithm leaves one completed expression, and otherwise
    /// the error the algorithm meets first.
    pub fn parse(self) -> (r: Result<Expr, ParserError>)
        requires
            self.fresh(),
        ensures
            match r {
                Ok(e) => spec_parse(self@) == Ok::<ExprView, ParserError>(e@),
                Err(err) => spec_parse(self@) == Err::<ExprView, ParserError>(err),
            },
    {
        let ghost ts0 = self@;
        let mut p = self;
        proof {
            assert(exprs_view(p.output@) =~= Seq::<ExprView>::empty());
            assert(tokens_view(p.operators@) =~= Seq::<TokenView>::empty());
        }
        while p.tokens.len() > 0
            invariant
                ts0 == self@,
                ops_wf(tokens_view(p.operators@)),
                spec_shunt(ts0, Seq::empty(), Seq::empty()) == spec_shunt(
                    tokens_view(p.tokens@),
                    exprs_view(p.output@),
                    tokens_view(p.operators@),
                ),
            decreases p.tokens@.len(),
        {
            let ghost rem0 = tokens_view(p.tokens@);
            let ghost out0 = exprs_view(p.output@);
            let ghost ops0 = tokens_view(p.operators@);
            let token = p.tokens.remove(0);
            proof {
                assert(tokens_view(p.tokens@) =~= rem0.drop_first());
                assert(token@ == rem0[0]);
            }
            if token.is_atom() {
                let leaf = match token {
                    Token::Number(d) => Expr::Number(d),
                    Token::E => Expr::E,
                    Token::Pi => Expr::Pi,
                    _ => vstd::pervasive::unreached(),
                };
                proof {
                    assert(leaf@ == spec_leaf(rem0[0]));
                    lemma_exprs_view_push(p.output@, leaf);
                }
                p.output.push(leaf);
            } else if token.is_op() {
                let ghost cur = token@;
                loop
                    invariant_except_break
                        ts0 == self@,
                        spec_is_op(cur),
                        cur == rem0[0],
                        !spec_is_atom(rem0[0]),
                        token@ == cur,
                        ops_wf(tokens_view(p.operators@)),
                        tokens_view(p.tokens@) == rem0.drop_first(),
                        spec_pop_ge(cur, out0, ops0) == spec_pop_ge(
                            cur,
                            exprs_view(p.output@),
                            tokens_view(p.operators@),
                        ),
                        spec_shunt(ts0, Seq::empty(), Seq::empty()) == spec_shunt(
                            rem0,
                            out0,
                            ops0,
                        ),
                        rem0.len() > 0,
                    ensures
                        spec_is_op(cur),
                        token@ == cur,
                        ops_wf(tokens_view(p.operators@)),
                        tokens_view(p.tokens@) == rem0.drop_first(),
                        spec_pop_ge(cur, out0, ops0) == Ok::<
                            (Seq<ExprView>, Seq<TokenView>),
                            ParserError,
                        >((exprs_view(p.output@), tokens_view(p.operators@).push(cur))),
                    decreases p.operators@.len(),
                {
                    if p.operators.len() == 0 {
                        break;
                    }
                    let top_prec = p.operators[p.operators.len() - 1].op_prec();
                    let cur_prec = token.op_prec();
                    let pop_now = top_prec > cur_prec || (top_prec == cur_prec
                        && token.is_left_assoc());
                    proof {
                        assert(pop_now == spec_should_pop(
                            tokens_view(p.operators@).last(),
                            cur,
                        ));
                    }
                    if !pop_now {
                        break;
                    }
                    let ghost outc = exprs_view(p.output@);
                    let ghost opsc = tokens_view(p.operators@);
                    let last = p.operators.pop().unwrap();
                    proof {
                        assert(last@ == opsc.last());
                        assert(spec_op_prec(cur) >= 1);
                        assert(last@ != TokenView::ParenStart);
                        assert(spec_is_op(last@));
                        assert(tokens_view(p.operators@) =~= opsc.drop_last());
                    }
                    match p.apply_op(last) {
                        Ok(_) => {
                            proof {
                                assert(spec_pop_ge(cur, outc, opsc) == spec_pop_ge(
                                    cur,
                                    exprs_view(p.output@),
                                    tokens_view(p.operators@),
                                ));
                            }
                        },
                        Err(e) => {
                            proof {
                                assert(spec_pop_ge(cur, outc, opsc) == Err::<
                                    (Seq<ExprView>, Seq<TokenView>),
                                    ParserError,
                                >(e));
                                assert(spec_shunt(rem0, out0, ops0) == Err::<
                                    (Seq<ExprView>, Seq<TokenView>),
                                    ParserError,
                                >(e));
                                assert(spec_parse(ts0) == Err::<ExprView, ParserError>(e));
                            }
                            return Err(e);
                        },
                    }
                }
                proof {
                    lemma_tokens_view_push(p.operators@, token);
                }
                p.operators.push(token);
                proof {
                    assert(spec_shunt(rem0, out0, ops0) == spec_shunt(
                        tokens_view(p.tokens@),
                        exprs_view(p.output@),
                        tokens_view(p.operators@),
                    ));
                }
            } else if matches!(token, Token::ParenStart) {
                proof {
                    lemma_tokens_view_push(p.operators@, token);
                }
                p.operators.push(token);
            } else {
                proof {
                    assert(token@ == TokenView::ParenEnd);
                }
                loop
                    invariant_except_break
                        ts0 == self@,
                        token@ == rem0[0],
                        rem0[0] == TokenView::ParenEnd,
                        ops_wf(tokens_view(p.operators@)),
                        tokens_view(p.tokens@) == rem0.drop_first(),
                        spec_close_paren(out0, ops0) == spec_close_paren(
                            exprs_view(p.output@),
                            tokens_view(p.operators@),
                        ),
                        spec_shunt(ts0, Seq::empty(), Seq::empty()) == spec_shunt(
                            rem0,
                            out0,
                            ops0,
                        ),
                        rem0.len() > 0,
                    ensures
                        ops_wf(tokens_view(p.operators@)),
                        tokens_view(p.tokens@) == rem0.drop_first(),
                        spec_close_paren(out0, ops0) == Ok::<
                            (Seq<ExprView>, Seq<TokenView>),
                            ParserError,
                        >((exprs_view(p.output@), tokens_view(p.operators@))),
                    decreases p.operators@.len(),
                {
                    if p.operators.len() == 0 {
                        proof {
                            assert(spec_close_paren(out0, ops0) == Err::<
                                (Seq<ExprView>, Seq<TokenView>),
                                ParserError,
                            >(ParserError::MismatchedParenthesis));
                            assert(spec_shunt(rem0, out0, ops0) == Err::<
                                (Seq<ExprView>, Seq<TokenView>),
                                ParserError,
                            >(ParserError::MismatchedParenthesis));
                            assert(spec_parse(ts0) == Err::<ExprView, ParserError>(
                                ParserError::MismatchedParenthesis,
                            ));
                        }
                        return Err(ParserError::MismatchedParenthesis);
                    }
                    let ghost outc = exprs_view(p.output@);
                    let ghost opsc = tokens_view(p.operators@);
                    if matches!(&p.operators[p.operators.len() - 1], Token::ParenStart) {
                        let _start = p.operators.pop().unwrap();
                        proof {
                            assert(opsc.last() == TokenView::ParenStart);
                            assert(tokens_view(p.operators@) =~= opsc.drop_last());
                        }
                        break;
                    }
                    let last = p.operators.pop().unwrap();
                    proof {
                        assert(last@ == opsc.last());
                        assert(spec_is_op(last@));
                        assert(tokens_view(p.operators@) =~= opsc.drop_last());
                    }
                    match p.apply_op(last) {
                        Ok(_) => {
                            proof {
                                assert(spec_close_paren(outc, opsc) == spec_close_paren(
                                    exprs_view(p.output@),
                                    tokens_view(p.operators@),
                                ));
                            }
                        },
                        Err(e) => {
                            proof {
                                assert(spec_close_paren(outc, opsc) == Err::<
                                    (Seq<ExprView>, Seq<TokenView>),
                                    ParserError,
                                >(e));
                                assert(spec_shunt(rem0, out0, ops0) == Err::<
                                    (Seq<ExprView>, Seq<TokenView>),
                                    ParserError,
                                >(e));
                                assert(spec_parse(ts0) == Err::<ExprView, ParserError>(e));
                            }
                            return Err(e);
                        },
                    }
                }
                proof {
                    assert(spec_shunt(rem0, out0, ops0) == spec_shunt(
                        tokens_view(p.tokens@),
                        exprs_view(p.output@),
                        tokens_view(p.operators@),
                    ));
                }
            }
        }
        let ghost out_d = exprs_view(p.output@);
        let ghost ops_d = tokens_view(p.operators@);
        proof {
            assert(tokens_view(p.tokens@).len() == 0);
            assert(tokens_view(p.tokens@) =~= Seq::<TokenView>::empty());
            assert(spec_shunt(ts0, Seq::empty(), Seq::empty()) == Ok::<
                (Seq<ExprView>, Seq<TokenView>),
                ParserError,
            >((out_d, ops_d)));
        }
        while p.operators.len() > 0
            invariant
                ts0 == self@,
                ops_wf(tokens_view(p.operators@)),
                spec_drain(out_d, ops_d) == spec_drain(
                    exprs_view(p.output@),
                    tokens_view(p.operators@),
                ),
                spec_shunt(ts0, Seq::empty(), Seq::empty()) == Ok::<
                    (Seq<ExprView>, Seq<TokenView>),
                    ParserError,
                >((out_d, ops_d)),
            decreases p.operators@.len(),
        {
            let ghost outc = exprs_view(p.output@);
            let ghost opsc = tokens_view(p.operators@);
            let op = p.operators.pop().unwrap();
            proof {
                assert(op@ == opsc.last());
                assert(tokens_view(p.operators@) =~= opsc.drop_last());
            }
            if op.is_paren() {
                proof {
                    assert(spec_drain(outc, opsc) == Err::<Seq<ExprView>, ParserError>(
                        ParserError::MismatchedParenthesis,
                    ));
                    assert(spec_parse(ts0) == Err::<ExprView, ParserError>(
                        ParserError::MismatchedParenthesis,
                    ));
                }
                return Err(ParserError::MismatchedParenthesis);
            }
            proof {
                assert(spec_is_op(op@));
            }
            match p.apply_op(op) {
                Ok(_) => {
                    proof {
                        assert(spec_drain(outc, opsc) == spec_drain(
                            exprs_view(p.output@),
                            tokens_view(p.operators@),
                        ));
                    }
                },
                Err(e) => {
                    proof {
                        assert(spec_drain(outc, opsc) == Err::<Seq<ExprView>, ParserError>(e));
                        assert(spec_parse(ts0) == Err::<ExprView, ParserError>(e));
                    }
                    return Err(e);
                },
            }
        }
        proof {
            assert(tokens_view(p.operators@).len() == 0);
            assert(spec_drain(out_d, ops_d) == Ok::<Seq<ExprView>, ParserError>(
                exprs_view(p.output@),
            ));
        }
        if p.output.len() == 1 {
            let e = match p.output.pop() {
                Some(e) => e,
                None => vstd::pervasive::unreached(),
            };
            proof {
                assert(spec_parse(ts0) == Ok::<ExprView, ParserError>(e@));
            }
            Ok(e)
        } else if p.output.len() == 0 {
            Err(ParserError::NotEnoughOperands)
        } else {
            Err(ParserError::TooMuchOperands)
        }
    }
}

} // verus!
