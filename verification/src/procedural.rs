//! The expression language of procedural surfaces `z = f(x, y)`: a
//! tokenizer and a recursive descent parser.
//!
//! Grammar:
//!
//! ```text
//! expr   = term { ('+' | '-') term }
//! term   = factor { ('*' | '/') factor }
//! factor = base ('^' factor)?
//! base   = number | 'x' | 'y' | 'pi' | 'e' | func '(' expr ')' | '(' expr ')' | '-' base
//! ```
//!
//! Functions: `sin`, `cos`, `tan`, `sqrt`, `abs`, `exp`, `ln` (also `log`).
//! Number literals are runs of digits and points, kept as their text; a
//! literal that `f32::from_str` rejects is an error.

use vstd::prelude::*;
use crate::text::str_chars;
use crate::timelapse::{is_white_space, is_white_space_char};

verus! {

// ── Character classes ─────────────────────────────────────────────────────────

/// Whether `char::is_alphabetic` holds of `c` (the Unicode `Alphabetic`
/// property).
pub uninterp spec fn alphabetic(c: char) -> bool;

/// Whether `char::is_alphanumeric` holds of `c` (`Alphabetic` or
/// `Numeric`).
pub uninterp spec fn alphanumeric(c: char) -> bool;

/// Calls `char::is_alphabetic`.
///
/// Trusted: the result is named `alphabetic(c)`; the Unicode table behind
/// it is not written out.
#[verifier::external_body]
fn is_alphabetic(c: char) -> (b: bool)
    ensures
        b == alphabetic(c),
{
    c.is_alphabetic()
}

/// Calls `char::is_alphanumeric`.
///
/// Trusted: the result is named `alphanumeric(c)`; the Unicode tables
/// behind it are not written out.
#[verifier::external_body]
fn is_alphanumeric(c: char) -> (b: bool)
    ensures
        b == alphanumeric(c),
{
    c.is_alphanumeric()
}

/// Whether a character is an ASCII decimal digit.
pub open spec fn is_ascii_digit(c: char) -> bool {
    '0' <= c <= '9'
}

fn is_digit_char(c: char) -> (b: bool)
    ensures
        b == is_ascii_digit(c),
{
    '0' <= c && c <= '9'
}

// ── Tokens ────────────────────────────────────────────────────────────────────

/// A token as a mathematical value.
pub enum SToken {
    Num(Seq<char>),
    Ident(Seq<char>),
    Plus,
    Minus,
    Star,
    Slash,
    Caret,
    LParen,
    RParen,
}

/// A token: a number literal (its text), a name, an operator or a
/// parenthesis.
#[derive(Debug)]
pub enum Token {
    Num(Vec<char>),
    Ident(Vec<char>),
    Plus,
    Minus,
    Star,
    Slash,
    Caret,
    LParen,
    RParen,
}

/// The mathematical value of a token.
pub open spec fn token_model(t: Token) -> SToken {
    match t {
        Token::Num(s) => SToken::Num(s@),
        Token::Ident(s) => SToken::Ident(s@),
        Token::Plus => SToken::Plus,
        Token::Minus => SToken::Minus,
        Token::Star => SToken::Star,
        Token::Slash => SToken::Slash,
        Token::Caret => SToken::Caret,
        Token::LParen => SToken::LParen,
        Token::RParen => SToken::RParen,
    }
}

impl View for Token {
    type V = SToken;

    open spec fn view(&self) -> SToken {
        token_model(*self)
    }
}

/// The tokens of a list, as values.
pub open spec fn tokens_model(v: Seq<Token>) -> Seq<SToken> {
    Seq::new(v.len(), |i: int| v[i]@)
}

// ── Errors ────────────────────────────────────────────────────────────────────

/// A parse failure as a mathematical value.
pub enum SExprError {
    UnexpectedChar(char),
    InvalidNumber(Seq<char>),
    TrailingToken(int, SToken),
    UnexpectedEnd,
    ExpectedOpenParen(Seq<char>),
    ExpectedCloseParenAfter(Seq<char>),
    ExpectedCloseParen,
    UnknownFunction(Seq<char>),
    UnexpectedToken(SToken),
}

/// Why an expression could not be parsed.
#[derive(Debug)]
pub enum ExprError {
    /// A character that starts no token: `unexpected character: '{c}'`.
    UnexpectedChar(char),
    /// A number literal that `f32::from_str` rejects: `invalid number: {s}`.
    InvalidNumber(Vec<char>),
    /// A token left after a complete expression, with its position:
    /// `unexpected token at position {pos}: {token:?}`.
    TrailingToken(usize, Token),
    /// The tokens ended where an operand was due: `unexpected end of
    /// expression`.
    UnexpectedEnd,
    /// A function name without `(`: `expected '(' after function '{name}'`.
    ExpectedOpenParen(Vec<char>),
    /// A function argument without `)`: `expected ')' after argument of
    /// '{name}'`.
    ExpectedCloseParenAfter(Vec<char>),
    /// A parenthesised expression without `)`: `expected ')'`.
    ExpectedCloseParen,
    /// A call of an unknown function: `unknown function: '{name}'`.
    UnknownFunction(Vec<char>),
    /// An operator or `)` where an operand was due: `unexpected token:
    /// {token:?}`.
    UnexpectedToken(Token),
}

/// The mathematical value of a parse failure.
pub open spec fn error_model(e: ExprError) -> SExprError {
    match e {
        ExprError::UnexpectedChar(c) => SExprError::UnexpectedChar(c),
        ExprError::InvalidNumber(s) => SExprError::InvalidNumber(s@),
        ExprError::TrailingToken(p, t) => SExprError::TrailingToken(p as int, t@),
        ExprError::UnexpectedEnd => SExprError::UnexpectedEnd,
        ExprError::ExpectedOpenParen(n) => SExprError::ExpectedOpenParen(n@),
        ExprError::ExpectedCloseParenAfter(n) => SExprError::ExpectedCloseParenAfter(n@),
        ExprError::ExpectedCloseParen => SExprError::ExpectedCloseParen,
        ExprError::UnknownFunction(n) => SExprError::UnknownFunction(n@),
        ExprError::UnexpectedToken(t) => SExprError::UnexpectedToken(t@),
    }
}

impl View for ExprError {
    type V = SExprError;

    open spec fn view(&self) -> SExprError {
        error_model(*self)
    }
}

// ── Tokenizer ─────────────────────────────────────────────────────────────────

/// Whether `t` is a literal that `f32::from_str` accepts, for a run of
/// digits and points: at least one digit and at most one point.
pub open spec fn valid_literal(t: Seq<char>) -> bool {
    &&& exists|i: int| 0 <= i < t.len() && is_ascii_digit(#[trigger] t[i])
    &&& forall|i: int, j: int| 0 <= i < j < t.len() && #[trigger] t[i] == '.' ==> #[trigger] t[j] != '.'
}

/// The end of the run of digits and points from `i`.
pub open spec fn number_run_end(cs: Seq<char>, i: int) -> int
    decreases cs.len() - i,
{
    if 0 <= i < cs.len() && (is_ascii_digit(cs[i]) || cs[i] == '.') {
        number_run_end(cs, i + 1)
    } else {
        i
    }
}

/// The end of the run of alphanumeric characters and underscores from `i`.
pub open spec fn name_run_end(cs: Seq<char>, i: int) -> int
    decreases cs.len() - i,
{
    if 0 <= i < cs.len() && (alphanumeric(cs[i]) || cs[i] == '_') {
        name_run_end(cs, i + 1)
    } else {
        i
    }
}

/// The single-character token of `c`, if it is one.
pub open spec fn symbol_token(c: char) -> Option<SToken> {
    if c == '+' {
        Some(SToken::Plus)
    } else if c == '-' {
        Some(SToken::Minus)
    } else if c == '*' {
        Some(SToken::Star)
    } else if c == '/' {
        Some(SToken::Slash)
    } else if c == '^' {
        Some(SToken::Caret)
    } else if c == '(' {
        Some(SToken::LParen)
    } else if c == ')' {
        Some(SToken::RParen)
    } else {
        None
    }
}

/// The tokens of `cs` from `i` on, after the tokens `acc` already read.
pub open spec fn tokens_from(cs: Seq<char>, i: int, acc: Seq<SToken>) -> Result<Seq<SToken>, SExprError>
    decreases cs.len() - i,
{
    if i < 0 || i >= cs.len() {
        Ok(acc)
    } else {
        let c = cs[i];
        if is_white_space(c) {
            tokens_from(cs, i + 1, acc)
        } else if symbol_token(c) is Some {
            tokens_from(cs, i + 1, acc.push(symbol_token(c)->0))
        } else if is_ascii_digit(c) || c == '.' {
            proof {
                lemma_number_run_bounds(cs, i + 1);
            }
            let e = number_run_end(cs, i + 1);
            let text = cs.subrange(i, e);
            if valid_literal(text) {
                tokens_from(cs, e, acc.push(SToken::Num(text)))
            } else {
                Err(SExprError::InvalidNumber(text))
            }
        } else if alphabetic(c) || c == '_' {
            proof {
                lemma_name_run_bounds(cs, i + 1);
            }
            let e = name_run_end(cs, i + 1);
            tokens_from(cs, e, acc.push(SToken::Ident(cs.subrange(i, e))))
        } else {
            Err(SExprError::UnexpectedChar(c))
        }
    }
}

/// A run of digits and points ends at or after its start and within the text.
pub proof fn lemma_number_run_bounds(cs: Seq<char>, i: int)
    requires
        0 <= i <= cs.len(),
    ensures
        i <= number_run_end(cs, i) <= cs.len(),
    decreases cs.len() - i,
{
    if i < cs.len() && (is_ascii_digit(cs[i]) || cs[i] == '.') {
        lemma_number_run_bounds(cs, i + 1);
    }
}

/// A run of name characters ends at or after its start and within the text.
pub proof fn lemma_name_run_bounds(cs: Seq<char>, i: int)
    requires
        0 <= i <= cs.len(),
    ensures
        i <= name_run_end(cs, i) <= cs.len(),
    decreases cs.len() - i,
{
    if i < cs.len() && (alphanumeric(cs[i]) || cs[i] == '_') {
        lemma_name_run_bounds(cs, i + 1);
    }
}

/// Whether a run of digits and points is a literal `f32::from_str`
/// accepts.
fn is_valid_literal(t: &Vec<char>) -> (b: bool)
    ensures
        b == valid_literal(t@),
{
    let mut digits = false;
    let mut points: usize = 0;
    let mut first_point: usize = 0;
    let mut i: usize = 0;
    while i < t.len()
        invariant
            i <= t@.len(),
            points <= i,
            digits <==> exists|k: int| 0 <= k < i && is_ascii_digit(#[trigger] t@[k]),
            points == 0 ==> forall|k: int| 0 <= k < i ==> #[trigger] t@[k] != '.',
            points == 1 ==> first_point < i && t@[first_point as int] == '.' && forall|k: int|
                0 <= k < i && k != first_point ==> #[trigger] t@[k] != '.',
            points >= 2 ==> exists|a: int, b: int| 0 <= a < b < i && #[trigger] t@[a] == '.' && #[trigger] t@[b] == '.',
        decreases t@.len() - i,
    {
        if is_digit_char(t[i]) {
            digits = true;
        }
        if t[i] == '.' {
            if points == 1 {
                assert(t@[first_point as int] == '.' && t@[i as int] == '.');
            }
            if points == 0 {
                first_point = i;
            }
            if points < 2 {
                points += 1;
            }
        }
        i += 1;
    }
    proof {
        if points >= 2 {
            let (a, b) = choose|a: int, b: int| 0 <= a < b < t@.len() && #[trigger] t@[a] == '.' && #[trigger] t@[b] == '.';
            assert(!valid_literal(t@));
        }
    }
    digits && points < 2
}

/// Splits an expression into tokens, skipping white space.
pub fn tokenize(input: &str) -> (r: Result<Vec<Token>, ExprError>)
    ensures
        match r {
            Ok(v) => tokens_from(input@, 0, Seq::empty()) == Ok::<Seq<SToken>, SExprError>(tokens_model(v@)),
            Err(e) => tokens_from(input@, 0, Seq::empty()) == Err::<Seq<SToken>, SExprError>(e@),
        },
{
    let chars = str_chars(input);
    let ghost cs = chars@;
    let mut tokens: Vec<Token> = Vec::new();
    let mut i: usize = 0;
    proof {
        assert(tokens_model(tokens@) =~= Seq::<SToken>::empty());
    }
    while i < chars.len()
        invariant
            cs == chars@,
            cs == input@,
            i <= cs.len(),
            tokens_from(cs, 0, Seq::empty()) == tokens_from(cs, i as int, tokens_model(tokens@)),
        decreases cs.len() - i,
    {
        let c = chars[i];
        let ghost acc = tokens_model(tokens@);
        if is_white_space_char(c) {
            i += 1;
        } else if c == '+' || c == '-' || c == '*' || c == '/' || c == '^' || c == '(' || c == ')' {
            let tok = if c == '+' {
                Token::Plus
            } else if c == '-' {
                Token::Minus
            } else if c == '*' {
                Token::Star
            } else if c == '/' {
                Token::Slash
            } else if c == '^' {
                Token::Caret
            } else if c == '(' {
                Token::LParen
            } else {
                Token::RParen
            };
            proof {
                assert(tok@ == symbol_token(c)->0);
            }
            tokens.push(tok);
            proof {
                assert(tokens_model(tokens@) =~= acc.push(symbol_token(c)->0));
            }
            i += 1;
        } else if is_digit_char(c) || c == '.' {
            let start = i;
            i += 1;
            while i < chars.len() && (is_digit_char(chars[i]) || chars[i] == '.')
                invariant
                    cs == chars@,
                    start < i <= cs.len(),
                    number_run_end(cs, i as int) == number_run_end(cs, start + 1),
                decreases cs.len() - i,
            {
                i += 1;
            }
            let mut text: Vec<char> = Vec::new();
            let mut k = start;
            while k < i
                invariant
                    cs == chars@,
                    start <= k <= i <= cs.len(),
                    text@ == cs.subrange(start as int, k as int),
                decreases i - k,
            {
                text.push(chars[k]);
                k += 1;
                proof {
                    assert(text@ =~= cs.subrange(start as int, k as int));
                }
            }
            if !is_valid_literal(&text) {
                return Err(ExprError::InvalidNumber(text));
            }
            let ghost t = text@;
            tokens.push(Token::Num(text));
            proof {
                assert(tokens_model(tokens@) =~= acc.push(SToken::Num(t)));
            }
        } else if is_alphabetic(c) || c == '_' {
            let start = i;
            i += 1;
            while i < chars.len() && (is_alphanumeric(chars[i]) || chars[i] == '_')
                invariant
                    cs == chars@,
                    start < i <= cs.len(),
                    name_run_end(cs, i as int) == name_run_end(cs, start + 1),
                decreases cs.len() - i,
            {
                i += 1;
            }
            let mut name: Vec<char> = Vec::new();
            let mut k = start;
            while k < i
                invariant
                    cs == chars@,
                    start <= k <= i <= cs.len(),
                    name@ == cs.subrange(start as int, k as int),
                decreases i - k,
            {
                name.push(chars[k]);
                k += 1;
                proof {
                    assert(name@ =~= cs.subrange(start as int, k as int));
                }
            }
            let ghost t = name@;
            tokens.push(Token::Ident(name));
            proof {
                assert(tokens_model(tokens@) =~= acc.push(SToken::Ident(t)));
            }
        } else {
            return Err(ExprError::UnexpectedChar(c));
        }
    }
    proof {
        assert(tokens_from(cs, i as int, tokens_model(tokens@)) == Ok::<Seq<SToken>, SExprError>(tokens_model(tokens@)));
    }
    Ok(tokens)
}


// ── Expression trees ──────────────────────────────────────────────────────────

/// An expression tree as a mathematical value.
pub enum SPExpr {
    Lit(Seq<char>),
    Pi,
    E,
    X,
    Y,
    Add(Box<SPExpr>, Box<SPExpr>),
    Sub(Box<SPExpr>, Box<SPExpr>),
    Mul(Box<SPExpr>, Box<SPExpr>),
    Div(Box<SPExpr>, Box<SPExpr>),
    Pow(Box<SPExpr>, Box<SPExpr>),
    Neg(Box<SPExpr>),
    Sin(Box<SPExpr>),
    Cos(Box<SPExpr>),
    Tan(Box<SPExpr>),
    Sqrt(Box<SPExpr>),
    Abs(Box<SPExpr>),
    Exp(Box<SPExpr>),
    Ln(Box<SPExpr>),
}

/// A parsed expression: literals keep their text; `Pi` and `E` stand for
/// the constants π and e.
#[derive(Debug)]
pub enum Expr {
    Lit(Vec<char>),
    Pi,
    E,
    X,
    Y,
    Add(Box<Expr>, Box<Expr>),
    Sub(Box<Expr>, Box<Expr>),
    Mul(Box<Expr>, Box<Expr>),
    Div(Box<Expr>, Box<Expr>),
    Pow(Box<Expr>, Box<Expr>),
    Neg(Box<Expr>),
    Sin(Box<Expr>),
    Cos(Box<Expr>),
    Tan(Box<Expr>),
    Sqrt(Box<Expr>),
    Abs(Box<Expr>),
    Exp(Box<Expr>),
    Ln(Box<Expr>),
}

/// The mathematical value of an expression tree.
pub open spec fn expr_model(e: Expr) -> SPExpr
    decreases e,
{
    match e {
        Expr::Lit(t) => SPExpr::Lit(t@),
        Expr::Pi => SPExpr::Pi,
        Expr::E => SPExpr::E,
        Expr::X => SPExpr::X,
        Expr::Y => SPExpr::Y,
        Expr::Add(a, b) => SPExpr::Add(Box::new(expr_model(*a)), Box::new(expr_model(*b))),
        Expr::Sub(a, b) => SPExpr::Sub(Box::new(expr_model(*a)), Box::new(expr_model(*b))),
        Expr::Mul(a, b) => SPExpr::Mul(Box::new(expr_model(*a)), Box::new(expr_model(*b))),
        Expr::Div(a, b) => SPExpr::Div(Box::new(expr_model(*a)), Box::new(expr_model(*b))),
        Expr::Pow(a, b) => SPExpr::Pow(Box::new(expr_model(*a)), Box::new(expr_model(*b))),
        Expr::Neg(a) => SPExpr::Neg(Box::new(expr_model(*a))),
        Expr::Sin(a) => SPExpr::Sin(Box::new(expr_model(*a))),
        Expr::Cos(a) => SPExpr::Cos(Box::new(expr_model(*a))),
        Expr::Tan(a) => SPExpr::Tan(Box::new(expr_model(*a))),
        Expr::Sqrt(a) => SPExpr::Sqrt(Box::new(expr_model(*a))),
        Expr::Abs(a) => SPExpr::Abs(Box::new(expr_model(*a))),
        Expr::Exp(a) => SPExpr::Exp(Box::new(expr_model(*a))),
        Expr::Ln(a) => SPExpr::Ln(Box::new(expr_model(*a))),
    }
}

impl View for Expr {
    type V = SPExpr;

    open spec fn view(&self) -> SPExpr {
        expr_model(*self)
    }
}

// ── Grammar ───────────────────────────────────────────────────────────────────

/// The outcome of parsing from a token position: the tree and the position
/// after it, or the failure.
pub type PParsed = Result<(SPExpr, int), SExprError>;

/// The call of the function `name` on `a`, if `name` is a known function.
pub open spec fn func_node(name: Seq<char>, a: SPExpr) -> Option<SPExpr> {
    if name == "sin"@ {
        Some(SPExpr::Sin(Box::new(a)))
    } else if name == "cos"@ {
        Some(SPExpr::Cos(Box::new(a)))
    } else if name == "tan"@ {
        Some(SPExpr::Tan(Box::new(a)))
    } else if name == "sqrt"@ {
        Some(SPExpr::Sqrt(Box::new(a)))
    } else if name == "abs"@ {
        Some(SPExpr::Abs(Box::new(a)))
    } else if name == "exp"@ {
        Some(SPExpr::Exp(Box::new(a)))
    } else if name == "ln"@ || name == "log"@ {
        Some(SPExpr::Ln(Box::new(a)))
    } else {
        None
    }
}

/// `expr`: terms joined by `+` and `-`, left to right.
pub open spec fn p_expr(t: Seq<SToken>, pos: int) -> PParsed
    decreases t.len() - pos, 5int
    when 0 <= pos <= t.len()
{
    match p_term(t, pos) {
        Ok((l, q)) => if pos <= q <= t.len() {
            expr_rest(t, q, l)
        } else {
            Err(SExprError::UnexpectedEnd)
        },
        Err(e) => Err(e),
    }
}

/// The rest of an `expr` after its first terms, which make `left`.
pub open spec fn expr_rest(t: Seq<SToken>, pos: int, left: SPExpr) -> PParsed
    decreases t.len() - pos, 4int
    when 0 <= pos <= t.len()
{
    if pos < t.len() && (t[pos] is Plus || t[pos] is Minus) {
        match p_term(t, pos + 1) {
            Ok((r, q)) => if pos + 1 <= q <= t.len() {
                let e = if t[pos] is Plus {
                    SPExpr::Add(Box::new(left), Box::new(r))
                } else {
                    SPExpr::Sub(Box::new(left), Box::new(r))
                };
                expr_rest(t, q, e)
            } else {
                Err(SExprError::UnexpectedEnd)
            },
            Err(e) => Err(e),
        }
    } else {
        Ok((left, pos))
    }
}

/// `term`: factors joined by `*` and `/`, left to right.
pub open spec fn p_term(t: Seq<SToken>, pos: int) -> PParsed
    decreases t.len() - pos, 3int
    when 0 <= pos <= t.len()
{
    match p_factor(t, pos) {
        Ok((l, q)) => if pos <= q <= t.len() {
            term_rest(t, q, l)
        } else {
            Err(SExprError::UnexpectedEnd)
        },
        Err(e) => Err(e),
    }
}

/// The rest of a `term` after its first factors, which make `left`.
pub open spec fn term_rest(t: Seq<SToken>, pos: int, left: SPExpr) -> PParsed
    decreases t.len() - pos, 2int
    when 0 <= pos <= t.len()
{
    if pos < t.len() && (t[pos] is Star || t[pos] is Slash) {
        match p_factor(t, pos + 1) {
            Ok((r, q)) => if pos + 1 <= q <= t.len() {
                let e = if t[pos] is Star {
                    SPExpr::Mul(Box::new(left), Box::new(r))
                } else {
                    SPExpr::Div(Box::new(left), Box::new(r))
                };
                term_rest(t, q, e)
            } else {
                Err(SExprError::UnexpectedEnd)
            },
            Err(e) => Err(e),
        }
    } else {
        Ok((left, pos))
    }
}

/// `factor`: a base with an optional `^` and a right-associative exponent.
pub open spec fn p_factor(t: Seq<SToken>, pos: int) -> PParsed
    decreases t.len() - pos, 1int
    when 0 <= pos <= t.len()
{
    match p_base(t, pos) {
        Ok((b, q)) => if pos <= q <= t.len() {
            if q < t.len() && t[q] is Caret {
                match p_factor(t, q + 1) {
                    Ok((e, r)) => Ok((SPExpr::Pow(Box::new(b), Box::new(e)), r)),
                    Err(e) => Err(e),
                }
            } else {
                Ok((b, q))
            }
        } else {
            Err(SExprError::UnexpectedEnd)
        },
        Err(e) => Err(e),
    }
}

/// `base`: a number, a variable, a constant, a call, a parenthesised
/// expression or a negated base.
pub open spec fn p_base(t: Seq<SToken>, pos: int) -> PParsed
    decreases t.len() - pos, 0int
    when 0 <= pos <= t.len()
{
    if pos >= t.len() {
        Err(SExprError::UnexpectedEnd)
    } else {
        match t[pos] {
            SToken::Minus => match p_base(t, pos + 1) {
                Ok((e, q)) => Ok((SPExpr::Neg(Box::new(e)), q)),
                Err(e) => Err(e),
            },
            SToken::Num(v) => Ok((SPExpr::Lit(v), pos + 1)),
            SToken::Ident(name) => if name == "x"@ {
                Ok((SPExpr::X, pos + 1))
            } else if name == "y"@ {
                Ok((SPExpr::Y, pos + 1))
            } else if name == "pi"@ {
                Ok((SPExpr::Pi, pos + 1))
            } else if name == "e"@ {
                Ok((SPExpr::E, pos + 1))
            } else if pos + 1 >= t.len() || !(t[pos + 1] is LParen) {
                Err(SExprError::ExpectedOpenParen(name))
            } else {
                match p_expr(t, pos + 2) {
                    Ok((a, q)) => if pos + 2 <= q <= t.len() {
                        if q >= t.len() || !(t[q] is RParen) {
                            Err(SExprError::ExpectedCloseParenAfter(name))
                        } else {
                            match func_node(name, a) {
                                Some(f) => Ok((f, q + 1)),
                                None => Err(SExprError::UnknownFunction(name)),
                            }
                        }
                    } else {
                        Err(SExprError::UnexpectedEnd)
                    },
                    Err(e) => Err(e),
                }
            },
            SToken::LParen => match p_expr(t, pos + 1) {
                Ok((inner, q)) => if pos + 1 <= q <= t.len() {
                    if q >= t.len() || !(t[q] is RParen) {
                        Err(SExprError::ExpectedCloseParen)
                    } else {
                        Ok((inner, q + 1))
                    }
                } else {
                    Err(SExprError::UnexpectedEnd)
                },
                Err(e) => Err(e),
            },
            other => Err(SExprError::UnexpectedToken(other)),
        }
    }
}

/// The expression `s` denotes, or why it has none.
pub open spec fn parse_spec(s: Seq<char>) -> Result<SPExpr, SExprError> {
    match tokens_from(s, 0, Seq::empty()) {
        Err(e) => Err(e),
        Ok(t) => match p_expr(t, 0) {
            Err(e) => Err(e),
            Ok((e, q)) => if q < t.len() {
                Err(SExprError::TrailingToken(q, t[q]))
            } else {
                Ok(e)
            },
        },
    }
}


// ── Parser ────────────────────────────────────────────────────────────────────

/// Whether a parse result agrees with the grammar's outcome: the same tree
/// and end position on success, the same failure otherwise.
pub open spec fn pagrees(r: Result<Expr, ExprError>, expected: PParsed, end: int) -> bool {
    match r {
        Ok(e) => expected == Ok::<(SPExpr, int), SExprError>((e@, end)),
        Err(err) => expected == Err::<(SPExpr, int), SExprError>(err@),
    }
}

/// A copy of a list of characters.
fn copy_chars(v: &Vec<char>) -> (r: Vec<char>)
    ensures
        r@ == v@,
{
    let mut r: Vec<char> = Vec::new();
    let mut i: usize = 0;
    while i < v.len()
        invariant
            i <= v@.len(),
            r@ == v@.take(i as int),
        decreases v@.len() - i,
    {
        r.push(v[i]);
        i += 1;
        proof {
            assert(r@ =~= v@.take(i as int));
        }
    }
    proof {
        assert(v@.take(v@.len() as int) =~= v@);
    }
    r
}

/// A copy of a token.
fn copy_token(t: &Token) -> (r: Token)
    ensures
        r@ == t@,
{
    match t {
        Token::Num(s) => Token::Num(copy_chars(s)),
        Token::Ident(s) => Token::Ident(copy_chars(s)),
        Token::Plus => Token::Plus,
        Token::Minus => Token::Minus,
        Token::Star => Token::Star,
        Token::Slash => Token::Slash,
        Token::Caret => Token::Caret,
        Token::LParen => Token::LParen,
        Token::RParen => Token::RParen,
    }
}

/// Whether `name` spells `word`.
fn name_is(name: &Vec<char>, word: &str) -> (b: bool)
    ensures
        b == (name@ == word@),
{
    let w = str_chars(word);
    if name.len() != w.len() {
        return false;
    }
    let mut i: usize = 0;
    while i < name.len()
        invariant
            name@.len() == w@.len(),
            w@ == word@,
            i <= name@.len(),
            forall|k: int| 0 <= k < i ==> name@[k] == w@[k],
        decreases name@.len() - i,
    {
        if name[i] != w[i] {
            return false;
        }
        i += 1;
    }
    proof {
        assert(name@ =~= w@);
    }
    true
}

/// Whether the token at `pos` is `(`, `)`, `+`, `-`, `*`, `/` or `^`
/// as asked.
fn token_is(tokens: &[Token], pos: usize, which: u8) -> (b: bool)
    requires
        pos < tokens@.len(),
    ensures
        b == (which == 0 && tokens@[pos as int]@ is LParen || which == 1 && tokens@[pos as int]@ is RParen
            || which == 2 && tokens@[pos as int]@ is Plus || which == 3 && tokens@[pos as int]@ is Minus
            || which == 4 && tokens@[pos as int]@ is Star || which == 5 && tokens@[pos as int]@ is Slash
            || which == 6 && tokens@[pos as int]@ is Caret),
{
    match &tokens[pos] {
        Token::LParen => which == 0,
        Token::RParen => which == 1,
        Token::Plus => which == 2,
        Token::Minus => which == 3,
        Token::Star => which == 4,
        Token::Slash => which == 5,
        Token::Caret => which == 6,
        _ => false,
    }
}

/// `expr`: terms joined by `+` and `-`, left to right.
pub fn parse_expr(tokens: &[Token], pos: &mut usize) -> (r: Result<Expr, ExprError>)
    requires
        *old(pos) <= tokens@.len(),
    ensures
        pagrees(r, p_expr(tokens_model(tokens@), *old(pos) as int), *final(pos) as int),
        r is Ok ==> *old(pos) <= *final(pos) <= tokens@.len(),
    decreases tokens@.len() - *old(pos), 5int,
{
    let ghost t = tokens_model(tokens@);
    let ghost p0 = *pos as int;
    let mut left = match parse_term(tokens, pos) {
        Ok(e) => e,
        Err(err) => return Err(err),
    };
    loop
        invariant
            t == tokens_model(tokens@),
            p0 == *old(pos),
            p0 <= *pos <= t.len(),
            p_expr(t, p0) == expr_rest(t, *pos as int, left@),
        decreases t.len() - *pos,
    {
        if *pos < tokens.len() && (token_is(tokens, *pos, 2) || token_is(tokens, *pos, 3)) {
            let plus = token_is(tokens, *pos, 2);
            *pos += 1;
            let right = match parse_term(tokens, pos) {
                Ok(e) => e,
                Err(err) => return Err(err),
            };
            left = if plus {
                Expr::Add(Box::new(left), Box::new(right))
            } else {
                Expr::Sub(Box::new(left), Box::new(right))
            };
        } else {
            return Ok(left);
        }
    }
}

/// `term`: factors joined by `*` and `/`, left to right.
pub fn parse_term(tokens: &[Token], pos: &mut usize) -> (r: Result<Expr, ExprError>)
    requires
        *old(pos) <= tokens@.len(),
    ensures
        pagrees(r, p_term(tokens_model(tokens@), *old(pos) as int), *final(pos) as int),
        r is Ok ==> *old(pos) <= *final(pos) <= tokens@.len(),
    decreases tokens@.len() - *old(pos), 3int,
{
    let ghost t = tokens_model(tokens@);
    let ghost p0 = *pos as int;
    let mut left = match parse_factor(tokens, pos) {
        Ok(e) => e,
        Err(err) => return Err(err),
    };
    loop
        invariant
            t == tokens_model(tokens@),
            p0 == *old(pos),
            p0 <= *pos <= t.len(),
            p_term(t, p0) == term_rest(t, *pos as int, left@),
        decreases t.len() - *pos,
    {
        if *pos < tokens.len() && (token_is(tokens, *pos, 4) || token_is(tokens, *pos, 5)) {
            let star = token_is(tokens, *pos, 4);
            *pos += 1;
            let right = match parse_factor(tokens, pos) {
                Ok(e) => e,
                Err(err) => return Err(err),
            };
            left = if star {
                Expr::Mul(Box::new(left), Box::new(right))
            } else {
                Expr::Div(Box::new(left), Box::new(right))
            };
        } else {
            return Ok(left);
        }
    }
}

/// `factor`: a base with an optional `^` and a right-associative exponent.
pub fn parse_factor(tokens: &[Token], pos: &mut usize) -> (r: Result<Expr, ExprError>)
    requires
        *old(pos) <= tokens@.len(),
    ensures
        pagrees(r, p_factor(tokens_model(tokens@), *old(pos) as int), *final(pos) as int),
        r is Ok ==> *old(pos) <= *final(pos) <= tokens@.len(),
    decreases tokens@.len() - *old(pos), 1int,
{
    let base = match parse_base(tokens, pos) {
        Ok(e) => e,
        Err(err) => return Err(err),
    };
    if *pos < tokens.len() && token_is(tokens, *pos, 6) {
        *pos += 1;
        let exp = match parse_factor(tokens, pos) {
            Ok(e) => e,
            Err(err) => return Err(err),
        };
        return Ok(Expr::Pow(Box::new(base), Box::new(exp)));
    }
    Ok(base)
}

/// `base`: a number, a variable, a constant, a call, a parenthesised
/// expression or a negated base.
pub fn parse_base(tokens: &[Token], pos: &mut usize) -> (r: Result<Expr, ExprError>)
    requires
        *old(pos) <= tokens@.len(),
    ensures
        pagrees(r, p_base(tokens_model(tokens@), *old(pos) as int), *final(pos) as int),
        r is Ok ==> *old(pos) <= *final(pos) <= tokens@.len(),
    decreases tokens@.len() - *old(pos), 0int,
{
    let ghost t = tokens_model(tokens@);
    if *pos >= tokens.len() {
        return Err(ExprError::UnexpectedEnd);
    }
    let at = *pos;
    proof {
        assert(t[at as int] == tokens@[at as int]@);
    }
    match &tokens[at] {
        Token::Minus => {
            *pos += 1;
            let e = match parse_base(tokens, pos) {
                Ok(e) => e,
                Err(err) => return Err(err),
            };
            Ok(Expr::Neg(Box::new(e)))
        },
        Token::Num(v) => {
            *pos += 1;
            Ok(Expr::Lit(copy_chars(v)))
        },
        Token::Ident(name) => {
            *pos += 1;
            if name_is(name, "x") {
                return Ok(Expr::X);
            }
            if name_is(name, "y") {
                return Ok(Expr::Y);
            }
            if name_is(name, "pi") {
                return Ok(Expr::Pi);
            }
            if name_is(name, "e") {
                return Ok(Expr::E);
            }
            if *pos >= tokens.len() || !token_is(tokens, *pos, 0) {
                return Err(ExprError::ExpectedOpenParen(copy_chars(name)));
            }
            *pos += 1;
            let arg = match parse_expr(tokens, pos) {
                Ok(e) => e,
                Err(err) => return Err(err),
            };
            if *pos >= tokens.len() || !token_is(tokens, *pos, 1) {
                return Err(ExprError::ExpectedCloseParenAfter(copy_chars(name)));
            }
            *pos += 1;
            let b = Box::new(arg);
            if name_is(name, "sin") {
                Ok(Expr::Sin(b))
            } else if name_is(name, "cos") {
                Ok(Expr::Cos(b))
            } else if name_is(name, "tan") {
                Ok(Expr::Tan(b))
            } else if name_is(name, "sqrt") {
                Ok(Expr::Sqrt(b))
            } else if name_is(name, "abs") {
                Ok(Expr::Abs(b))
            } else if name_is(name, "exp") {
                Ok(Expr::Exp(b))
            } else if name_is(name, "ln") || name_is(name, "log") {
                Ok(Expr::Ln(b))
            } else {
                Err(ExprError::UnknownFunction(copy_chars(name)))
            }
        },
        Token::LParen => {
            *pos += 1;
            let inner = match parse_expr(tokens, pos) {
                Ok(e) => e,
                Err(err) => return Err(err),
            };
            if *pos >= tokens.len() || !token_is(tokens, *pos, 1) {
                return Err(ExprError::ExpectedCloseParen);
            }
            *pos += 1;
            Ok(inner)
        },
        other => Err(ExprError::UnexpectedToken(copy_token(other))),
    }
}

/// Parses a mathematical expression string into an [`Expr`] tree.
pub fn parse_expression(input: &str) -> (r: Result<Expr, ExprError>)
    ensures
        match r {
            Ok(e) => parse_spec(input@) == Ok::<SPExpr, SExprError>(e@),
            Err(err) => parse_spec(input@) == Err::<SPExpr, SExprError>(err@),
        },
{
    let tokens = match tokenize(input) {
        Ok(v) => v,
        Err(err) => return Err(err),
    };
    let slice = tokens.as_slice();
    let mut pos: usize = 0;
    let expr = match parse_expr(slice, &mut pos) {
        Ok(e) => e,
        Err(err) => return Err(err),
    };
    if pos < tokens.len() {
        proof {
            assert(tokens_model(tokens@)[pos as int] == tokens@[pos as int]@);
        }
        return Err(ExprError::TrailingToken(pos, copy_token(&tokens[pos])));
    }
    Ok(expr)
}


// ── Value noise ───────────────────────────────────────────────────────────────

/// `|v|` as an unsigned 32-bit number.
pub open spec fn magnitude32(v: i32) -> u32 {
    if v < 0 {
        (-(v as int)) as u32
    } else {
        v as u32
    }
}

/// The 24 hash bits of lattice point `(xi, yi)` under `seed` that the
/// value noise scales to `[-1, 1]`.
pub open spec fn lattice_bits_spec(xi: i32, yi: i32, seed: u32) -> u32 {
    let h0 = seed.wrapping_add(magnitude32(xi)).wrapping_mul(2246822519);
    let h1 = h0 ^ magnitude32(yi).wrapping_mul(3266489917);
    let h2 = h1.wrapping_mul(668265263);
    let h3 = h2 ^ (h2 >> 15u32);
    let h4 = h3.wrapping_mul(2246822519);
    let h5 = h4 ^ (h4 >> 13u32);
    h5 >> 8u32
}

/// The hash bits of a lattice point of the value noise.
pub fn lattice_bits(xi: i32, yi: i32, seed: u32) -> (h: u32)
    ensures
        h == lattice_bits_spec(xi, yi, seed),
        h < 0x100_0000,
{
    let ax: u32 = if xi < 0 {
        (0i64 - xi as i64) as u32
    } else {
        xi as u32
    };
    let ay: u32 = if yi < 0 {
        (0i64 - yi as i64) as u32
    } else {
        yi as u32
    };
    let mut h = seed.wrapping_add(ax).wrapping_mul(2246822519);
    h ^= ay.wrapping_mul(3266489917);
    h = h.wrapping_mul(668265263);
    h ^= h >> 15;
    h = h.wrapping_mul(2246822519);
    h ^= h >> 13;
    let r = h >> 8;
    assert(r < 0x100_0000) by (bit_vector)
        requires
            r == h >> 8u32,
    ;
    r
}

} // verus!
