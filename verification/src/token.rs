//! The lexer: turns source text into a sequence of tokens.
//!
//! Numbers, the constants `e` and `pi`, the operators `+ - * ** /`, and
//! parentheses are recognised; whitespace is discarded. A `+` or `-` is
//! unary when nothing precedes it, or when an operator or an opening
//! parenthesis does; otherwise it is binary. After the scan, a
//! multiplication token is inserted between every two adjacent tokens that
//! stand for values with no operator between them (`2pi`, `(1)(2)`).

use vstd::prelude::*;

use crate::errors::LexErrorKind;
use crate::errors::ParserError;

verus! {

/// One token of the expression language. A `Number` carries the exact
/// characters of its literal.
#[derive(PartialEq, Debug, Clone)]
pub enum Token {
    Plus,
    Minus,
    UnaryPlus,
    UnaryMinus,
    Times,
    TimesTimes,
    Slash,
    ParenStart,
    ParenEnd,
    E,
    Pi,
    Number(Vec<char>),
}

/// The mathematical shape of a [`Token`]: the same tag with a numeric
/// literal abstracted to its character sequence.
#[verifier::ext_equal]
pub enum TokenView {
    Plus,
    Minus,
    UnaryPlus,
    UnaryMinus,
    Times,
    TimesTimes,
    Slash,
    ParenStart,
    ParenEnd,
    E,
    Pi,
    Number(Seq<char>),
}

impl View for Token {
    type V = TokenView;

    open spec fn view(&self) -> TokenView {
        match self {
            Token::Plus => TokenView::Plus,
            Token::Minus => TokenView::Minus,
            Token::UnaryPlus => TokenView::UnaryPlus,
            Token::UnaryMinus => TokenView::UnaryMinus,
            Token::Times => TokenView::Times,
            Token::TimesTimes => TokenView::TimesTimes,
            Token::Slash => TokenView::Slash,
            Token::ParenStart => TokenView::ParenStart,
            Token::ParenEnd => TokenView::ParenEnd,
            Token::E => TokenView::E,
            Token::Pi => TokenView::Pi,
            Token::Number(d) => TokenView::Number(d@),
        }
    }
}

/// The views of a sequence of tokens, in order.
pub open spec fn tokens_view(ts: Seq<Token>) -> Seq<TokenView> {
    ts.map_values(|t: Token| t@)
}

// ---------------------------------------------------------------------------
// What each token means to the parser.
// ---------------------------------------------------------------------------

/// The token stands for a value: a number or a named constant.
pub open spec fn spec_is_atom(t: TokenView) -> bool {
    match t {
        TokenView::E | TokenView::Pi | TokenView::Number(_) => true,
        _ => false,
    }
}

/// The token is an operator, unary or binary.
pub open spec fn spec_is_op(t: TokenView) -> bool {
    match t {
        TokenView::Plus
        | TokenView::Minus
        | TokenView::UnaryPlus
        | TokenView::UnaryMinus
        | TokenView::Times
        | TokenView::Slash
        | TokenView::TimesTimes => true,
        _ => false,
    }
}

/// The token is a binary operator.
pub open spec fn spec_is_bin_op(t: TokenView) -> bool {
    match t {
        TokenView::Plus
        | TokenView::Minus
        | TokenView::Times
        | TokenView::Slash
        | TokenView::TimesTimes => true,
        _ => false,
    }
}

/// The token is a unary operator.
pub open spec fn spec_is_unary_op(t: TokenView) -> bool {
    match t {
        TokenView::UnaryPlus | TokenView::UnaryMinus => true,
        _ => false,
    }
}

/// Operators of equal precedence group from the left: addition,
/// subtraction, multiplication and division do; power groups from the
/// right, and unary signs take no part in the comparison.
pub open spec fn spec_is_left_assoc(t: TokenView) -> bool {
    match t {
        TokenView::Plus | TokenView::Minus | TokenView::Times | TokenView::Slash => true,
        _ => false,
    }
}

/// Binding strength: unary signs bind tightest, then power, then
/// multiplication and division, then addition and subtraction. Tokens that
/// are not operators get the weakest value, so an opening parenthesis on the
/// operator stack is never popped by precedence.
pub open spec fn spec_op_prec(t: TokenView) -> u32 {
    match t {
        TokenView::Plus | TokenView::Minus => 1,
        TokenView::Times | TokenView::Slash => 2,
        TokenView::TimesTimes => 3,
        TokenView::UnaryPlus | TokenView::UnaryMinus => 4,
        _ => 0,
    }
}

/// A `+` or `-` scanned right after this token is unary.
pub open spec fn spec_is_before_unary(t: TokenView) -> bool {
    spec_is_op(t) || t == TokenView::ParenStart
}

/// The token is a parenthesis.
pub open spec fn spec_is_paren(t: TokenView) -> bool {
    t == TokenView::ParenStart || t == TokenView::ParenEnd
}

impl Token {
    /// The token stands for a value: a number or a named constant.
    pub fn is_atom(&self) -> (r: bool)
        ensures
            r == spec_is_atom(self@),
    {
        match self {
            Token::E | Token::Pi | Token::Number(_) => true,
            _ => false,
        }
    }

    /// The token is an operator, unary or binary.
    pub fn is_op(&self) -> (r: bool)
        ensures
            r == spec_is_op(self@),
    {
        match self {
            Token::Plus
            | Token::Minus
            | Token::UnaryPlus
            | Token::UnaryMinus
            | Token::Times
            | Token::Slash
            | Token::TimesTimes => true,
            _ => false,
        }
    }

    /// The token is a binary operator.
    pub fn is_bin_op(&self) -> (r: bool)
        ensures
            r == spec_is_bin_op(self@),
    {
        match self {
            Token::Plus | Token::Minus | Token::Times | Token::Slash | Token::TimesTimes => true,
            _ => false,
        }
    }

    /// The token is a unary operator.
    pub fn is_unary_op(&self) -> (r: bool)
        ensures
            r == spec_is_unary_op(self@),
    {
        match self {
            Token::UnaryPlus | Token::UnaryMinus => true,
            _ => false,
        }
    }

    /// Operators of equal precedence group from the left; see
    /// [`spec_is_left_assoc`].
    pub fn is_left_assoc(&self) -> (r: bool)
        ensures
            r == spec_is_left_assoc(self@),
    {
        match self {
            Token::Plus | Token::Minus | Token::Times | Token::Slash => true,
            _ => false,
        }
    }

    /// Binding strength; see [`spec_op_prec`].
    pub fn op_prec(&self) -> (r: u32)
        ensures
            r == spec_op_prec(self@),
    {
        match self {
            Token::Plus | Token::Minus => 1,
            Token::Times | Token::Slash => 2,
            Token::TimesTimes => 3,
            Token::UnaryPlus | Token::UnaryMinus => 4,
            _ => 0,
        }
    }

    /// A `+` or `-` scanned right after this token is unary.
    pub fn is_before_unary(&self) -> (r: bool)
        ensures
            r == spec_is_before_unary(self@),
    {
        if self.is_op() {
            true
        } else {
            matches!(self, Token::ParenStart)
        }
    }

    /// The token is a parenthesis.
    pub fn is_paren(&self) -> (r: bool)
        ensures
            r == spec_is_paren(self@),
    {
        match self {
            Token::ParenStart | Token::ParenEnd => true,
            _ => false,
        }
    }
}

// ---------------------------------------------------------------------------
// The lexer, as a mathematical function on the character sequence.
// ---------------------------------------------------------------------------

/// The character is a decimal digit.
pub open spec fn is_digit(c: char) -> bool {
    48 <= c as u32 <= 57
}

/// The character has the Unicode whitespace property; see
/// [`char_is_whitespace`], the call that decides it.
pub uninterp spec fn is_whitespace_char(c: char) -> bool;

/// Relies on `char::is_whitespace`: whether the character has the Unicode
/// `White_Space` property, a function of the character alone. That property
/// holds of the blank characters (space, tab, line feed, carriage return)
/// and of no printable ASCII character, so no digit, operator, parenthesis,
/// dot or letter of this language is whitespace.
#[verifier::external_body]
fn char_is_whitespace(c: char) -> (r: bool)
    ensures
        r == is_whitespace_char(c),
        (c == ' ' || c == '\t' || c == '\n' || c == '\r') ==> r,
        (33 <= c as u32 && c as u32 <= 126) ==> !r,
{
    c.is_whitespace()
}

/// The first position at or after `i` that does not hold a digit (or the end
/// of the text): the digit run starting at `i` ends there.
pub open spec fn digit_run_end(s: Seq<char>, i: int) -> int
    decreases s.len() - i
        when 0 <= i <= s.len()
{
    if i == s.len() || !is_digit(s[i]) {
        i
    } else {
        digit_run_end(s, i + 1)
    }
}

/// Everything from `i` to the run's end is a digit, the run ends within the
/// text, and the character after the run (if any) is not a digit.
pub proof fn lemma_digit_run_end(s: Seq<char>, i: int)
    requires
        0 <= i <= s.len(),
    ensures
        i <= digit_run_end(s, i) <= s.len(),
        forall|j: int| i <= j < digit_run_end(s, i) ==> is_digit(#[trigger] s[j]),
        digit_run_end(s, i) < s.len() ==> !is_digit(s[digit_run_end(s, i)]),
    decreases s.len() - i,
{
    if i < s.len() && is_digit(s[i]) {
        lemma_digit_run_end(s, i + 1);
    }
}

/// A run of digits from `i` up to `e`, with `e` at the end of the text or at
/// a non-digit, ends exactly at `e`.
pub proof fn lemma_digit_run_end_is(s: Seq<char>, i: int, e: int)
    requires
        0 <= i <= e <= s.len(),
        forall|j: int| i <= j < e ==> is_digit(#[trigger] s[j]),
        e == s.len() || !is_digit(s[e]),
    ensures
        digit_run_end(s, i) == e,
    decreases e - i,
{
    if i < e {
        lemma_digit_run_end_is(s, i + 1, e);
    }
}

/// Where the numeric literal that starts at `i` ends: its digits, then at
/// most one dot followed by more digits. (`s[i]` is a digit or a dot.)
pub open spec fn number_end(s: Seq<char>, i: int) -> int {
    if s[i] == '.' {
        digit_run_end(s, i + 1)
    } else {
        let j = digit_run_end(s, i + 1);
        if j < s.len() && s[j] == '.' {
            digit_run_end(s, j + 1)
        } else {
            j
        }
    }
}

/// A `+` or `-` scanned when the tokens so far are `acc` is unary: nothing
/// was accepted yet, or an operator or an opening parenthesis was.
pub open spec fn sign_is_unary(acc: Seq<TokenView>) -> bool {
    acc.len() == 0 || spec_is_before_unary(acc.last())
}

/// The scan itself: the tokens of `s` from position `i` on, appended to
/// `acc`, or the first lexical error. Each branch mirrors one character
/// class; the classes are tried in this order, so they need not be disjoint.
pub open spec fn spec_lex_from(s: Seq<char>, i: int, acc: Seq<TokenView>) -> Result<
    Seq<TokenView>,
    ParserError,
>
    decreases s.len() - i
        when 0 <= i <= s.len()
{
    proof {
        if 0 <= i < s.len() {
            lemma_digit_run_end(s, i + 1);
            let j = digit_run_end(s, i + 1);
            if i + 1 <= j < s.len() {
                lemma_digit_run_end(s, j + 1);
            }
        }
    }
    if i == s.len() {
        Ok(acc)
    } else {
        let c = s[i];
        if c == '+' {
            let t = if sign_is_unary(acc) {
                TokenView::UnaryPlus
            } else {
                TokenView::Plus
            };
            spec_lex_from(s, i + 1, acc.push(t))
        } else if c == '-' {
            let t = if sign_is_unary(acc) {
                TokenView::UnaryMinus
            } else {
                TokenView::Minus
            };
            spec_lex_from(s, i + 1, acc.push(t))
        } else if c == '*' {
            if i + 1 < s.len() && s[i + 1] == '*' {
                spec_lex_from(s, i + 2, acc.push(TokenView::TimesTimes))
            } else {
                spec_lex_from(s, i + 1, acc.push(TokenView::Times))
            }
        } else if c == '/' {
            spec_lex_from(s, i + 1, acc.push(TokenView::Slash))
        } else if c == '(' {
            spec_lex_from(s, i + 1, acc.push(TokenView::ParenStart))
        } else if c == ')' {
            spec_lex_from(s, i + 1, acc.push(TokenView::ParenEnd))
        } else if c == 'e' {
            spec_lex_from(s, i + 1, acc.push(TokenView::E))
        } else if c == 'p' {
            if i + 1 < s.len() && s[i + 1] == 'i' {
                spec_lex_from(s, i + 2, acc.push(TokenView::Pi))
            } else {
                Err(ParserError::Tokenize(LexErrorKind::IncompletePi))
            }
        } else if is_digit(c) || c == '.' {
            let end = number_end(s, i);
            if c == '.' && end == i + 1 {
                Err(ParserError::Tokenize(LexErrorKind::LoneDot))
            } else {
                spec_lex_from(s, end, acc.push(TokenView::Number(s.subrange(i, end))))
            }
        } else if is_whitespace_char(c) {
            spec_lex_from(s, i + 1, acc)
        } else {
            Err(ParserError::Tokenize(LexErrorKind::UnexpectedChar(c)))
        }
    }
}

// ---------------------------------------------------------------------------
// Implicit multiplication.
// ---------------------------------------------------------------------------

/// A multiplication belongs between these two adjacent tokens: the first
/// ends a value (an atom or a closing parenthesis) and the second starts one
/// (an atom or an opening parenthesis).
pub open spec fn spec_needs_times(a: TokenView, b: TokenView) -> bool {
    (spec_is_atom(a) || a == TokenView::ParenEnd) && (spec_is_atom(b) || b
        == TokenView::ParenStart)
}

/// The token sequence with a multiplication inserted between every adjacent
/// pair of the input sequence that needs one.
pub open spec fn spec_expand(ts: Seq<TokenView>) -> Seq<TokenView>
    decreases ts.len(),
{
    if ts.len() < 2 {
        ts
    } else if spec_needs_times(ts[0], ts[1]) {
        seq![ts[0], TokenView::Times] + spec_expand(ts.drop_first())
    } else {
        seq![ts[0]] + spec_expand(ts.drop_first())
    }
}

/// What [`tokenize`] returns, stated over the character sequence: the scan,
/// then the implicit-multiplication pass.
pub open spec fn spec_tokenize(s: Seq<char>) -> Result<Seq<TokenView>, ParserError> {
    match spec_lex_from(s, 0, Seq::empty()) {
        Ok(ts) => Ok(spec_expand(ts)),
        Err(e) => Err(e),
    }
}

// ---------------------------------------------------------------------------
// Laws of the lexer.
// ---------------------------------------------------------------------------

/// Whatever keeps a pushed accumulator as a prefix keeps the accumulator
/// itself as a prefix.
proof fn lemma_prefix_drop_push(
    acc: Seq<TokenView>,
    t: TokenView,
    r: Result<Seq<TokenView>, ParserError>,
)
    requires
        r matches Ok(ts) ==> ts.len() >= acc.push(t).len() && (forall|k: int|
            0 <= k < acc.push(t).len() ==> ts[k] == #[trigger] acc.push(t)[k]),
    ensures
        r matches Ok(ts) ==> ts.len() >= acc.len() && (forall|k: int|
            0 <= k < acc.len() ==> ts[k] == #[trigger] acc[k]),
{
    if r is Ok {
        let ts = r->Ok_0;
        assert forall|k: int| 0 <= k < acc.len() implies ts[k] == #[trigger] acc[k] by {
            assert(ts[k] == acc.push(t)[k]);
        }
    }
}

/// A scan that succeeds only ever adds tokens: whatever was accepted before
/// position `i` stays, in place, in the result.
pub proof fn lemma_lex_extends(s: Seq<char>, i: int, acc: Seq<TokenView>)
    requires
        0 <= i <= s.len(),
    ensures
        spec_lex_from(s, i, acc) matches Ok(ts) ==> ts.len() >= acc.len() && (forall|k: int|
            0 <= k < acc.len() ==> ts[k] == #[trigger] acc[k]),
    decreases s.len() - i,
{
    if i == s.len() {
    } else {
        let c = s[i];
        let r = spec_lex_from(s, i, acc);
        if c == '+' || c == '-' {
            let t = if c == '+' {
                if sign_is_unary(acc) {
                    TokenView::UnaryPlus
                } else {
                    TokenView::Plus
                }
            } else {
                if sign_is_unary(acc) {
                    TokenView::UnaryMinus
                } else {
                    TokenView::Minus
                }
            };
            lemma_lex_extends(s, i + 1, acc.push(t));
            lemma_prefix_drop_push(acc, t, r);
        } else if c == '*' {
            if i + 1 < s.len() && s[i + 1] == '*' {
                lemma_lex_extends(s, i + 2, acc.push(TokenView::TimesTimes));
                lemma_prefix_drop_push(acc, TokenView::TimesTimes, r);
            } else {
                lemma_lex_extends(s, i + 1, acc.push(TokenView::Times));
                lemma_prefix_drop_push(acc, TokenView::Times, r);
            }
        } else if c == '/' {
            lemma_lex_extends(s, i + 1, acc.push(TokenView::Slash));
            lemma_prefix_drop_push(acc, TokenView::Slash, r);
        } else if c == '(' {
            lemma_lex_extends(s, i + 1, acc.push(TokenView::ParenStart));
            lemma_prefix_drop_push(acc, TokenView::ParenStart, r);
        } else if c == ')' {
            lemma_lex_extends(s, i + 1, acc.push(TokenView::ParenEnd));
            lemma_prefix_drop_push(acc, TokenView::ParenEnd, r);
        } else if c == 'e' {
            lemma_lex_extends(s, i + 1, acc.push(TokenView::E));
            lemma_prefix_drop_push(acc, TokenView::E, r);
        } else if c == 'p' {
            if i + 1 < s.len() && s[i + 1] == 'i' {
                lemma_lex_extends(s, i + 2, acc.push(TokenView::Pi));
                lemma_prefix_drop_push(acc, TokenView::Pi, r);
            }
        } else if is_digit(c) || c == '.' {
            lemma_digit_run_end(s, i + 1);
            let j = digit_run_end(s, i + 1);
            if i + 1 <= j < s.len() {
                lemma_digit_run_end(s, j + 1);
            }
            let end = number_end(s, i);
            if !(c == '.' && end == i + 1) {
                let t = TokenView::Number(s.subrange(i, end));
                lemma_lex_extends(s, end, acc.push(t));
                lemma_prefix_drop_push(acc, t, r);
            }
        } else if is_whitespace_char(c) {
            lemma_lex_extends(s, i + 1, acc);
        }
    }
}

/// The implicit-multiplication pass keeps the first token, and keeps the
/// sequence non-empty.
pub proof fn lemma_expand_first(ts: Seq<TokenView>)
    requires
        ts.len() > 0,
    ensures
        spec_expand(ts).len() > 0,
        spec_expand(ts)[0] == ts[0],
{
}

/// A valid numeric literal: digits with at most one dot among them, a digit
/// on at least one side of the dot.
pub open spec fn valid_number_literal(d: Seq<char>) -> bool {
    if d.len() == 0 {
        false
    } else if d[0] == '.' {
        d.len() >= 2 && (forall|j: int| 1 <= j < d.len() ==> is_digit(#[trigger] d[j]))
    } else {
        is_digit(d[0]) && {
            let j = digit_run_end(d, 0);
            j == d.len() || (d[j] == '.' && (forall|k: int|
                j < k < d.len() ==> is_digit(#[trigger] d[k])))
        }
    }
}

/// A text that is exactly one valid numeric literal lexes to exactly one
/// `Number` token, and that token carries the literal unchanged; its numeric
/// value is therefore the decimal value of the text.
pub proof fn lemma_tokenize_number_literal(d: Seq<char>)
    requires
        valid_number_literal(d),
    ensures
        spec_tokenize(d) == Ok::<Seq<TokenView>, ParserError>(seq![TokenView::Number(d)]),
{
    let n = d.len() as int;
    if d[0] == '.' {
        lemma_digit_run_end_is(d, 1, n);
        assert(number_end(d, 0) == n);
        assert(d.subrange(0, n) =~= d);
        assert(spec_lex_from(d, 0, Seq::empty()) == spec_lex_from(
            d,
            n,
            Seq::empty().push(TokenView::Number(d)),
        ));
    } else {
        let j = digit_run_end(d, 0);
        lemma_digit_run_end(d, 0);
        assert(digit_run_end(d, 1) == j);
        if j == n {
            assert(number_end(d, 0) == n);
        } else {
            assert(d[j] == '.');
            lemma_digit_run_end_is(d, j + 1, n);
            assert(number_end(d, 0) == n);
        }
        assert(d.subrange(0, n) =~= d);
        assert(spec_lex_from(d, 0, Seq::empty()) == spec_lex_from(
            d,
            n,
            Seq::empty().push(TokenView::Number(d)),
        ));
    }
    assert(Seq::empty().push(TokenView::Number(d)) =~= seq![TokenView::Number(d)]);
    assert(spec_expand(seq![TokenView::Number(d)]) == seq![TokenView::Number(d)]);
}

/// One scan step for a sign: a `+` or `-` becomes its unary token exactly
/// when nothing was accepted before it, or an operator or an opening
/// parenthesis was; otherwise it becomes its binary token.
pub proof fn lemma_sign_disambiguation(s: Seq<char>, i: int, acc: Seq<TokenView>)
    requires
        0 <= i < s.len(),
        s[i] == '+' || s[i] == '-',
    ensures
        sign_is_unary(acc) <==> (acc.len() == 0 || spec_is_op(acc.last()) || acc.last()
            == TokenView::ParenStart),
        spec_lex_from(s, i, acc) == spec_lex_from(
            s,
            i + 1,
            acc.push(
                if s[i] == '+' {
                    if sign_is_unary(acc) {
                        TokenView::UnaryPlus
                    } else {
                        TokenView::Plus
                    }
                } else {
                    if sign_is_unary(acc) {
                        TokenView::UnaryMinus
                    } else {
                        TokenView::Minus
                    }
                },
            ),
        ),
{
}

/// A sign in the first position always tokenizes as unary: when the scan
/// succeeds, the first token of the result is the unary sign.
pub proof fn lemma_leading_sign_unary(s: Seq<char>)
    requires
        s.len() > 0,
        s[0] == '+' || s[0] == '-',
    ensures
        spec_tokenize(s) matches Ok(ts) ==> ts.len() > 0 && ts[0] == (if s[0] == '+' {
            TokenView::UnaryPlus
        } else {
            TokenView::UnaryMinus
        }),
{
    let t = if s[0] == '+' {
        TokenView::UnaryPlus
    } else {
        TokenView::UnaryMinus
    };
    let acc1 = Seq::empty().push(t);
    assert(spec_lex_from(s, 0, Seq::empty()) == spec_lex_from(s, 1, acc1));
    lemma_lex_extends(s, 1, acc1);
    let r = spec_lex_from(s, 0, Seq::<TokenView>::empty());
    if r is Ok {
        let ts = r->Ok_0;
        assert(ts[0] == acc1[0]);
        lemma_expand_first(ts);
    }
}

/// After the implicit-multiplication pass, no two adjacent tokens need a
/// multiplication any more: every such pair was separated.
pub proof fn lemma_expand_complete(ts: Seq<TokenView>)
    ensures
        forall|k: int|
            0 <= k && k + 1 < spec_expand(ts).len() ==> !spec_needs_times(
                #[trigger] spec_expand(ts)[k],
                spec_expand(ts)[k + 1],
            ),
    decreases ts.len(),
{
    if ts.len() < 2 {
    } else {
        lemma_expand_complete(ts.drop_first());
        lemma_expand_first(ts.drop_first());
        let rest = spec_expand(ts.drop_first());
        let head: Seq<TokenView> = if spec_needs_times(ts[0], ts[1]) {
            seq![ts[0], TokenView::Times]
        } else {
            seq![ts[0]]
        };
        assert(spec_expand(ts) == head + rest);
        assert(rest[0] == ts[1]);
        assert forall|k: int|
            0 <= k && k + 1 < spec_expand(ts).len() implies !spec_needs_times(
            #[trigger] spec_expand(ts)[k],
            spec_expand(ts)[k + 1],
        ) by {
            let r = spec_expand(ts);
            let h = head.len() as int;
            if k + 1 < h {
                assert(r[k] == head[k] && r[k + 1] == head[k + 1]);
            } else if k + 1 == h {
                assert(r[k] == head[k] && r[k + 1] == rest[0]);
            } else {
                assert(r[k] == rest[k - h] && r[k + 1] == rest[k + 1 - h]);
            }
        }
    }
}

/// Pushing a token and then taking views is taking views and then pushing
/// the token's view.
pub proof fn lemma_tokens_view_push(ts: Seq<Token>, t: Token)
    ensures
        tokens_view(ts.push(t)) == tokens_view(ts).push(t@),
{
    assert(tokens_view(ts.push(t)) =~= tokens_view(ts).push(t@));
}

// ---------------------------------------------------------------------------
// The executable lexer.
// ---------------------------------------------------------------------------

/// The character is a decimal digit.
fn char_is_digit(c: char) -> (r: bool)
    ensures
        r == is_digit(c),
{
    let u = c as u32;
    48 <= u && u <= 57
}

/// A multiplication belongs between these two adjacent tokens.
fn needs_times(a: &Token, b: &Token) -> (r: bool)
    ensures
        r == spec_needs_times(a@, b@),
{
    (a.is_atom() || matches!(a, Token::ParenEnd)) && (b.is_atom() || matches!(
        b,
        Token::ParenStart,
    ))
}

/// Insert a multiplication token between every two adjacent tokens of the
/// input that need one.
fn expand_implicit_mul(tokens: Vec<Token>) -> (r: Vec<Token>)
    ensures
        tokens_view(r@) == spec_expand(tokens_view(tokens@)),
{
    let ghost ts0 = tokens@;
    let mut rest = tokens;
    let mut out: Vec<Token> = Vec::new();
    while rest.len() >= 2
        invariant
            spec_expand(tokens_view(ts0)) == tokens_view(out@) + spec_expand(
                tokens_view(rest@),
            ),
        decreases rest@.len(),
    {
        let ghost r0 = rest@;
        let ghost out0 = out@;
        let needs = needs_times(&rest[0], &rest[1]);
        let t = rest.remove(0);
        out.push(t);
        if needs {
            out.push(Token::Times);
        }
        proof {
            assert(r0.remove(0) =~= r0.drop_first());
            assert(tokens_view(r0.drop_first()) =~= tokens_view(r0).drop_first());
            lemma_tokens_view_push(out0, t);
            if needs {
                lemma_tokens_view_push(out0.push(t), Token::Times);
                assert(tokens_view(out@) =~= tokens_view(out0) + seq![t@, TokenView::Times]);
            } else {
                assert(tokens_view(out@) =~= tokens_view(out0) + seq![t@]);
            }
        }
    }
    if rest.len() == 1 {
        let ghost out0 = out@;
        let ghost r0 = rest@;
        let t = rest.remove(0);
        out.push(t);
        proof {
            lemma_tokens_view_push(out0, t);
            assert(tokens_view(r0) =~= seq![t@]);
            assert(tokens_view(out@) =~= tokens_view(out0) + tokens_view(r0));
        }
    } else {
        proof {
            assert(tokens_view(rest@) =~= Seq::<TokenView>::empty());
            assert(tokens_view(out@) + tokens_view(rest@) =~= tokens_view(out@));
        }
    }
    out
}

/// Turn the source text into the token sequence of the expression language,
/// or report the first lexical error.
pub fn tokenize(source: String) -> (r: Result<Vec<Token>, ParserError>)
    ensures
        match r {
            Ok(ts) => spec_tokenize(source@) == Ok::<Seq<TokenView>, ParserError>(
                tokens_view(ts@),
            ),
            Err(e) => spec_tokenize(source@) == Err::<Seq<TokenView>, ParserError>(e),
        },
{
    let s = source.as_str();
    let n = s.unicode_len();

    // Decode the text once, so that the scan can index characters directly.
    let mut chars: Vec<char> = Vec::new();
    let mut k: usize = 0;
    while k < n
        invariant
            k <= n,
            n == source@.len(),
            s@ == source@,
            chars@ == source@.subrange(0, k as int),
        decreases n - k,
    {
        chars.push(s.get_char(k));
        k += 1;
        proof {
            assert(chars@ =~= source@.subrange(0, k as int));
        }
    }
    proof {
        assert(chars@ =~= source@);
    }

    let mut tokens: Vec<Token> = Vec::new();
    proof {
        assert(tokens_view(tokens@) =~= Seq::<TokenView>::empty());
    }
    let mut i: usize = 0;
    while i < n
        invariant
            i <= n,
            n == source@.len(),
            chars@ == source@,
            spec_lex_from(source@, 0, Seq::empty()) == spec_lex_from(
                source@,
                i as int,
                tokens_view(tokens@),
            ),
        decreases n - i,
    {
        let ghost acc = tokens_view(tokens@);
        let ghost i0 = i as int;
        let c = chars[i];
        if c == '+' || c == '-' {
            let unary = tokens.len() == 0 || tokens[tokens.len() - 1].is_before_unary();
            proof {
                assert(unary == sign_is_unary(acc));
            }
            let t = if c == '+' {
                if unary {
                    Token::UnaryPlus
                } else {
                    Token::Plus
                }
            } else {
                if unary {
                    Token::UnaryMinus
                } else {
                    Token::Minus
                }
            };
            proof {
                lemma_tokens_view_push(tokens@, t);
            }
            tokens.push(t);
            i = i + 1;
        } else if c == '*' {
            if i + 1 < n && chars[i + 1] == '*' {
                proof {
                    lemma_tokens_view_push(tokens@, Token::TimesTimes);
                }
                tokens.push(Token::TimesTimes);
                i = i + 2;
            } else {
                proof {
                    lemma_tokens_view_push(tokens@, Token::Times);
                }
                tokens.push(Token::Times);
                i = i + 1;
            }
        } else if c == '/' {
            proof {
                lemma_tokens_view_push(tokens@, Token::Slash);
            }
            tokens.push(Token::Slash);
            i = i + 1;
        } else if c == '(' {
            proof {
                lemma_tokens_view_push(tokens@, Token::ParenStart);
            }
            tokens.push(Token::ParenStart);
            i = i + 1;
        } else if c == ')' {
            proof {
                lemma_tokens_view_push(tokens@, Token::ParenEnd);
            }
            tokens.push(Token::ParenEnd);
            i = i + 1;
        } else if c == 'e' {
            proof {
                lemma_tokens_view_push(tokens@, Token::E);
            }
            tokens.push(Token::E);
            i = i + 1;
        } else if c == 'p' {
            if i + 1 < n && chars[i + 1] == 'i' {
                proof {
                    lemma_tokens_view_push(tokens@, Token::Pi);
                }
                tokens.push(Token::Pi);
                i = i + 2;
            } else {
                return Err(ParserError::Tokenize(LexErrorKind::IncompletePi));
            }
        } else if char_is_digit(c) || c == '.' {
            // The digits after the first character (for a leading dot, the
            // whole fractional part).
            let mut j: usize = i + 1;
            while j < n && char_is_digit(chars[j])
                invariant
                    i + 1 <= j <= n,
                    i < n,
                    n == source@.len(),
                    chars@ == source@,
                    forall|m: int| i + 1 <= m < j ==> is_digit(#[trigger] source@[m]),
                decreases n - j,
            {
                j = j + 1;
            }
            proof {
                lemma_digit_run_end_is(source@, i0 + 1, j as int);
            }
            let end: usize;
            if c == '.' {
                if j == i + 1 {
                    return Err(ParserError::Tokenize(LexErrorKind::LoneDot));
                }
                end = j;
            } else {
                if j < n && chars[j] == '.' {
                    // The fractional part after the dot.
                    let mut l: usize = j + 1;
                    while l < n && char_is_digit(chars[l])
                        invariant
                            j + 1 <= l <= n,
                            j < n,
                            n == source@.len(),
                            chars@ == source@,
                            forall|m: int| j + 1 <= m < l ==> is_digit(#[trigger] source@[m]),
                        decreases n - l,
                    {
                        l = l + 1;
                    }
                    proof {
                        lemma_digit_run_end_is(source@, j as int + 1, l as int);
                    }
                    end = l;
                } else {
                    end = j;
                }
            }
            proof {
                assert(end == number_end(source@, i0));
            }
            let mut lit: Vec<char> = Vec::new();
            let mut m: usize = i;
            while m < end
                invariant
                    i <= m <= end,
                    end <= n,
                    n == source@.len(),
                    chars@ == source@,
                    lit@ == source@.subrange(i as int, m as int),
                decreases end - m,
            {
                lit.push(chars[m]);
                m = m + 1;
                proof {
                    assert(lit@ =~= source@.subrange(i as int, m as int));
                }
            }
            let t = Token::Number(lit);
            proof {
                lemma_tokens_view_push(tokens@, t);
            }
            tokens.push(t);
            i = end;
        } else if char_is_whitespace(c) {
            i = i + 1;
        } else {
            return Err(ParserError::Tokenize(LexErrorKind::UnexpectedChar(c)));
        }
        proof {
            assert(spec_lex_from(source@, 0, Seq::empty()) == spec_lex_from(
                source@,
                i as int,
                tokens_view(tokens@),
            ));
        }
    }
    proof {
        assert(spec_lex_from(source@, 0, Seq::empty()) == Ok::<Seq<TokenView>, ParserError>(
            tokens_view(tokens@),
        ));
    }
    let expanded = expand_implicit_mul(tokens);
    Ok(expanded)
}

} // verus!
