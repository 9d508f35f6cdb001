//! The expression language of user-defined surfaces: a recursive descent
//! parser from the text of `z(x, y)` to an expression tree.
//!
//! Grammar (white space is space, tab, newline and carriage return):
//!
//! ```text
//! expr    := mul (('+' | '-') mul)*
//! mul     := unary (('*' | '**' | '/') unary)*
//! unary   := '-' pow | '+' pow | pow
//! pow     := primary ('^' unary)?
//! primary := '(' expr ')' | number | identifier | call
//! call    := identifier '(' expr (',' expr)? ')'
//! ```
//!
//! Number literals are kept as their text, which is checked against the
//! grammar of `f64::from_str`; the caller turns them into values.

use vstd::prelude::*;
use crate::text::{push_char, push_chars, push_decimal, str_chars, decimal, zero_pad};
use crate::timelapse::{trim, trimmed_chars};

verus! {

// ── Errors ────────────────────────────────────────────────────────────────────

/// Error type for expression parsing failures.
#[derive(Debug)]
pub struct ParseError(pub String);

impl ParseError {
    /// The error as shown to the user: `parse error: ` and the message.
    pub fn to_text(&self) -> (s: String)
        ensures
            s@ == seq!['p', 'a', 'r', 's', 'e', ' ', 'e', 'r', 'r', 'o', 'r', ':', ' '] + self.0@,
    {
        let mut s = String::from_str("parse error: ");
        proof {
            reveal_strlit("parse error: ");
            assert(s@ =~= seq!['p', 'a', 'r', 's', 'e', ' ', 'e', 'r', 'r', 'o', 'r', ':', ' ']);
        }
        s.append(self.0.as_str());
        s
    }
}

/// The text of the message for a missing expected byte, as `format!`
/// renders `expected '{}', got {:?}` of the expected character and the
/// optional byte found, taken as a character.
pub uninterp spec fn expected_text(ch: u8, got: Option<u8>) -> Seq<char>;

/// Renders the message for a missing expected byte with `format!`.
///
/// Trusted: the contract names the text `format!` produces from the two
/// arguments (the expected byte as a character, the byte found as an
/// optional character in debug form), and states its fixed start up to the
/// debug form; the debug form itself is not stated.
#[verifier::external_body]
fn expected_message(ch: u8, got: Option<u8>) -> (s: String)
    ensures
        s@ == expected_text(ch, got),
        ("expected '"@ + seq![ch as char] + "', got "@).is_prefix_of(s@),
{
    format!("expected '{}', got {:?}", ch as char, got.map(char::from))
}

/// The text of the message for a byte that cannot start an operand, as
/// `format!` renders `unexpected token: {:?}` of the optional byte found,
/// taken as a character.
pub uninterp spec fn unexpected_text(got: Option<u8>) -> Seq<char>;

/// Renders the message for a byte that cannot start an operand with
/// `format!`.
///
/// Trusted: the contract names the text `format!` produces from the
/// argument (the byte found as an optional character in debug form), and
/// states its fixed start; the debug form itself is not stated.
#[verifier::external_body]
fn unexpected_message(got: Option<u8>) -> (s: String)
    ensures
        s@ == unexpected_text(got),
        "unexpected token: "@.is_prefix_of(s@),
{
    format!("unexpected token: {:?}", got.map(char::from))
}

/// The message for a number literal that `f64::from_str` rejects.
pub open spec fn invalid_float_text() -> Seq<char> {
    "invalid float literal"@
}

/// The message for a name that is neither a constant, a variable nor
/// followed by an argument list.
pub open spec fn unknown_identifier_text(name: Seq<char>) -> Seq<char> {
    "unknown identifier: "@ + name
}

/// The message for input left over after a complete expression.
pub open spec fn trailing_text(pos: nat, rest: Seq<char>) -> Seq<char> {
    "trailing input at position "@ + decimal(pos) + seq![':', ' ', '\''] + rest + seq!['\'']
}

// ── Characters ────────────────────────────────────────────────────────────────

/// Whether a character is skipped as white space: space, tab, newline or
/// carriage return.
pub open spec fn is_ws(c: char) -> bool {
    c == ' ' || c == '\t' || c == '\n' || c == '\r'
}

/// Whether a character is an ASCII decimal digit.
pub open spec fn is_ascii_digit(c: char) -> bool {
    '0' <= c <= '9'
}

/// Whether a character is an ASCII letter.
pub open spec fn is_ascii_alpha(c: char) -> bool {
    ('a' <= c <= 'z') || ('A' <= c <= 'Z')
}

/// Whether a character may continue a name.
pub open spec fn is_ident_char(c: char) -> bool {
    is_ascii_alpha(c) || is_ascii_digit(c) || c == '_'
}

/// Whether a character may occur in the text of a number literal.
pub open spec fn is_number_char(c: char) -> bool {
    is_ascii_digit(c) || c == '.' || c == 'e' || c == 'E' || c == '+' || c == '-'
}

/// The first byte of the UTF-8 encoding of `c`: what a byte-wise reader
/// sees at the start of the character.
pub open spec fn utf8_lead(c: char) -> u8 {
    let v = c as int;
    if v < 0x80 {
        v as u8
    } else if v < 0x800 {
        (0xC0 + v / 0x40) as u8
    } else if v < 0x10000 {
        (0xE0 + v / 0x1000) as u8
    } else {
        (0xF0 + v / 0x40000) as u8
    }
}

/// The character at `pos`, if any.
pub open spec fn char_at(s: Seq<char>, pos: int) -> Option<char> {
    if 0 <= pos < s.len() {
        Some(s[pos])
    } else {
        None
    }
}

/// The first byte of the character at `pos`, if any.
pub open spec fn byte_at(s: Seq<char>, pos: int) -> Option<u8> {
    match char_at(s, pos) {
        Some(c) => Some(utf8_lead(c)),
        None => None,
    }
}

/// The first position at or after `pos` that does not hold white space.
pub open spec fn skip_ws_from(s: Seq<char>, pos: int) -> int
    decreases s.len() - pos,
{
    if 0 <= pos < s.len() && is_ws(s[pos]) {
        skip_ws_from(s, pos + 1)
    } else {
        pos
    }
}

/// The end of the name that starts at `pos`.
pub open spec fn ident_end(s: Seq<char>, pos: int) -> int
    decreases s.len() - pos,
{
    if 0 <= pos < s.len() && is_ident_char(s[pos]) {
        ident_end(s, pos + 1)
    } else {
        pos
    }
}

/// The end of the number literal that starts at `start`, scanned from
/// `pos`: digits, points and exponent letters, and a sign only right after
/// an exponent letter.
pub open spec fn number_end(s: Seq<char>, start: int, pos: int) -> int
    decreases s.len() - pos,
{
    if 0 <= pos < s.len() && is_number_char(s[pos]) && !((s[pos] == '+' || s[pos] == '-') && (
    pos == start || !(s[pos - 1] == 'e' || s[pos - 1] == 'E'))) {
        number_end(s, start, pos + 1)
    } else {
        pos
    }
}

/// The end of the run of digits that starts at `pos`.
pub open spec fn digits_end(t: Seq<char>, pos: int) -> int
    decreases t.len() - pos,
{
    if 0 <= pos < t.len() && is_ascii_digit(t[pos]) {
        digits_end(t, pos + 1)
    } else {
        pos
    }
}

/// Whether the text from `pos` on is an exponent's digits with an
/// optional sign.
pub open spec fn exponent_digits_ok(t: Seq<char>, pos: int) -> bool {
    let j = if pos < t.len() && (t[pos] == '+' || t[pos] == '-') {
        pos + 1
    } else {
        pos
    };
    let k = digits_end(t, j);
    k > j && k == t.len()
}

/// Whether `t` is a decimal literal that `f64::from_str` accepts:
/// `digits ['.' digits]` with at least one digit before the exponent, then
/// optionally `e` or `E`, an optional sign and at least one digit.
pub open spec fn valid_float(t: Seq<char>) -> bool {
    let a = digits_end(t, 0);
    let b = if a < t.len() && t[a] == '.' {
        digits_end(t, a + 1)
    } else {
        a
    };
    let mantissa_digits = if a < t.len() && t[a] == '.' {
        a + (b - (a + 1))
    } else {
        a
    };
    &&& mantissa_digits > 0
    &&& (b == t.len() || ((t[b] == 'e' || t[b] == 'E') && exponent_digits_ok(t, b + 1)))
}

/// Skipping white space stays within the text and stops at a character
/// that is not white space.
pub proof fn lemma_skip_ws_bounds(s: Seq<char>, pos: int)
    requires
        0 <= pos <= s.len(),
    ensures
        pos <= skip_ws_from(s, pos) <= s.len(),
        skip_ws_from(s, pos) < s.len() ==> !is_ws(s[skip_ws_from(s, pos)]),
    decreases s.len() - pos,
{
    if pos < s.len() && is_ws(s[pos]) {
        lemma_skip_ws_bounds(s, pos + 1);
    }
}

/// A name ends at or after its start and within the text, and consists of
/// name characters.
pub proof fn lemma_ident_end_bounds(s: Seq<char>, pos: int)
    requires
        0 <= pos <= s.len(),
    ensures
        pos <= ident_end(s, pos) <= s.len(),
        forall|i: int| pos <= i < ident_end(s, pos) ==> is_ident_char(#[trigger] s[i]),
    decreases s.len() - pos,
{
    if pos < s.len() && is_ident_char(s[pos]) {
        lemma_ident_end_bounds(s, pos + 1);
    }
}

// ── Expression trees ──────────────────────────────────────────────────────────

/// An expression tree as a mathematical value.
pub enum SExpr {
    Num(Seq<char>),
    X,
    Y,
    Pi,
    E,
    Neg(Box<SExpr>),
    Add(Box<SExpr>, Box<SExpr>),
    Sub(Box<SExpr>, Box<SExpr>),
    Mul(Box<SExpr>, Box<SExpr>),
    Div(Box<SExpr>, Box<SExpr>),
    Pow(Box<SExpr>, Box<SExpr>),
    Func1(Seq<char>, Box<SExpr>),
    Func2(Seq<char>, Box<SExpr>, Box<SExpr>),
}

/// A parsed expression: number literals keep their text, calls keep the
/// function's name.
#[derive(Debug)]
pub enum Expr {
    Num(Vec<char>),
    X,
    Y,
    Pi,
    E,
    Neg(Box<Expr>),
    Add(Box<Expr>, Box<Expr>),
    Sub(Box<Expr>, Box<Expr>),
    Mul(Box<Expr>, Box<Expr>),
    Div(Box<Expr>, Box<Expr>),
    Pow(Box<Expr>, Box<Expr>),
    Func1(Vec<char>, Box<Expr>),
    Func2(Vec<char>, Box<Expr>, Box<Expr>),
}

/// The mathematical value of an expression tree.
pub open spec fn expr_model(e: Expr) -> SExpr
    decreases e,
{
    match e {
        Expr::Num(t) => SExpr::Num(t@),
        Expr::X => SExpr::X,
        Expr::Y => SExpr::Y,
        Expr::Pi => SExpr::Pi,
        Expr::E => SExpr::E,
        Expr::Neg(a) => SExpr::Neg(Box::new(expr_model(*a))),
        Expr::Add(a, b) => SExpr::Add(Box::new(expr_model(*a)), Box::new(expr_model(*b))),
        Expr::Sub(a, b) => SExpr::Sub(Box::new(expr_model(*a)), Box::new(expr_model(*b))),
        Expr::Mul(a, b) => SExpr::Mul(Box::new(expr_model(*a)), Box::new(expr_model(*b))),
        Expr::Div(a, b) => SExpr::Div(Box::new(expr_model(*a)), Box::new(expr_model(*b))),
        Expr::Pow(a, b) => SExpr::Pow(Box::new(expr_model(*a)), Box::new(expr_model(*b))),
        Expr::Func1(n, a) => SExpr::Func1(n@, Box::new(expr_model(*a))),
        Expr::Func2(n, a, b) => SExpr::Func2(n@, Box::new(expr_model(*a)), Box::new(expr_model(*b))),
    }
}

impl View for Expr {
    type V = SExpr;

    open spec fn view(&self) -> SExpr {
        expr_model(*self)
    }
}

// ── Scanner ───────────────────────────────────────────────────────────────────

fn utf8_lead_byte(c: char) -> (b: u8)
    ensures
        b == utf8_lead(c),
{
    let v = c as u32;
    if v < 0x80 {
        v as u8
    } else if v < 0x800 {
        (0xC0 + v / 0x40) as u8
    } else if v < 0x10000 {
        (0xE0 + v / 0x1000) as u8
    } else {
        (0xF0 + v / 0x40000) as u8
    }
}

fn is_ws_char(c: char) -> (b: bool)
    ensures
        b == is_ws(c),
{
    c == ' ' || c == '\t' || c == '\n' || c == '\r'
}

fn is_digit_char(c: char) -> (b: bool)
    ensures
        b == is_ascii_digit(c),
{
    '0' <= c && c <= '9'
}

fn is_alpha_char(c: char) -> (b: bool)
    ensures
        b == is_ascii_alpha(c),
{
    ('a' <= c && c <= 'z') || ('A' <= c && c <= 'Z')
}

/// The end of the run of digits of `t` that starts at `pos`.
fn scan_digits(t: &Vec<char>, pos: usize) -> (e: usize)
    requires
        pos <= t@.len(),
    ensures
        e == digits_end(t@, pos as int),
        pos <= e <= t@.len(),
{
    let mut i = pos;
    while i < t.len() && is_digit_char(t[i])
        invariant
            pos <= i <= t@.len(),
            digits_end(t@, i as int) == digits_end(t@, pos as int),
        decreases t@.len() - i,
    {
        i += 1;
    }
    i
}

/// Whether `t` is a decimal literal that `f64::from_str` accepts.
pub fn is_valid_float(t: &Vec<char>) -> (b: bool)
    ensures
        b == valid_float(t@),
{
    let a = scan_digits(t, 0);
    let has_point = a < t.len() && t[a] == '.';
    let b = if has_point {
        scan_digits(t, a + 1)
    } else {
        a
    };
    let mantissa_digits = if has_point {
        a + (b - (a + 1))
    } else {
        a
    };
    if mantissa_digits == 0 {
        return false;
    }
    if b == t.len() {
        return true;
    }
    if !(t[b] == 'e' || t[b] == 'E') {
        return false;
    }
    let mut j = b + 1;
    if j < t.len() && (t[j] == '+' || t[j] == '-') {
        j += 1;
    }
    let k = scan_digits(t, j);
    k > j && k == t.len()
}

/// A cursor over the characters of an expression.
pub struct Parser {
    pub input: Vec<char>,
    pub pos: usize,
}

impl Parser {
    /// A parser at the start of `s`.
    pub fn new(s: &str) -> (p: Self)
        ensures
            p.input@ == s@,
            p.pos == 0,
    {
        Parser { input: str_chars(s), pos: 0 }
    }

    /// The character at the current position, if any.
    pub fn peek(&self) -> (c: Option<char>)
        ensures
            c == char_at(self.input@, self.pos as int),
    {
        if self.pos < self.input.len() {
            Some(self.input[self.pos])
        } else {
            None
        }
    }

    /// Moves past spaces, tabs, newlines and carriage returns.
    pub fn skip_ws(&mut self)
        requires
            old(self).pos <= old(self).input@.len(),
        ensures
            final(self).input == old(self).input,
            final(self).pos == skip_ws_from(old(self).input@, old(self).pos as int),
            old(self).pos <= final(self).pos <= final(self).input@.len(),
    {
        while self.pos < self.input.len() && is_ws_char(self.input[self.pos])
            invariant
                self.input == old(self).input,
                old(self).pos <= self.pos <= self.input@.len(),
                skip_ws_from(self.input@, self.pos as int) == skip_ws_from(
                    old(self).input@,
                    old(self).pos as int,
                ),
            decreases self.input@.len() - self.pos,
        {
            self.pos += 1;
        }
    }

    /// The character at the current position, moving past it.
    pub fn consume(&mut self) -> (c: Option<char>)
        ensures
            final(self).input == old(self).input,
            c == char_at(old(self).input@, old(self).pos as int),
            final(self).pos == if c is Some {
                old(self).pos + 1
            } else {
                old(self).pos as int
            },
    {
        let c = self.peek();
        match c {
            Some(_) => {
                self.bump();
                c
            },
            None => None,
        }
    }

    /// Skips white space and then moves past `ch`, or fails with a message
    /// naming `ch` and what was found instead.
    pub fn expect(&mut self, ch: u8) -> (r: Result<(), ParseError>)
        requires
            old(self).pos <= old(self).input@.len(),
        ensures
            final(self).input == old(self).input,
            match (r, expect_at(old(self).input@, old(self).pos as int, ch)) {
                (Ok(_), Ok(q)) => final(self).pos == q,
                (Err(e), Err(m)) => e.0@ == m,
                _ => false,
            },
            r is Ok ==> old(self).pos < final(self).pos <= final(self).input@.len(),
    {
        self.skip_ws();
        let got = self.peek();
        match got {
            Some(c) => {
                if c == ch as char {
                    self.bump();
                    return Ok(());
                }
                Err(ParseError(expected_message(ch, Some(utf8_lead_byte(c)))))
            },
            None => Err(ParseError(expected_message(ch, None))),
        }
    }
}

/// Skipping white space from `pos` and then passing `ch`: the position
/// after it, or the message naming what was found instead.
pub open spec fn expect_at(s: Seq<char>, pos: int, ch: u8) -> Result<int, Seq<char>> {
    let w = skip_ws_from(s, pos);
    if char_at(s, w) == Some(ch as char) {
        Ok(w + 1)
    } else {
        Err(expected_text(ch, byte_at(s, w)))
    }
}


// ── Grammar ───────────────────────────────────────────────────────────────────

/// The outcome of parsing from a position: the tree and the position after
/// it, or the error message.
pub type Parsed = Result<(SExpr, int), Seq<char>>;

/// A sum: terms joined by `+` and `-`, left to right.
pub open spec fn p_add(s: Seq<char>, pos: int) -> Parsed
    decreases s.len() - pos, 7int
    when 0 <= pos <= s.len()
{
    match p_mul(s, pos) {
        Ok((l, q)) => if pos <= q <= s.len() {
            add_rest(s, q, l)
        } else {
            Err(Seq::empty())
        },
        Err(m) => Err(m),
    }
}

/// The rest of a sum after its first terms, which make `left`.
pub open spec fn add_rest(s: Seq<char>, pos: int, left: SExpr) -> Parsed
    decreases s.len() - pos, 6int
    when 0 <= pos <= s.len()
{
    let w = skip_ws_from(s, pos);
    if 0 <= w < s.len() && (s[w] == '+' || s[w] == '-') {
        proof {
            lemma_skip_ws_bounds(s, pos);
        }
        match p_mul(s, w + 1) {
            Ok((r, q)) => if w + 1 <= q <= s.len() {
                let e = if s[w] == '+' {
                    SExpr::Add(Box::new(left), Box::new(r))
                } else {
                    SExpr::Sub(Box::new(left), Box::new(r))
                };
                add_rest(s, q, e)
            } else {
                Err(Seq::empty())
            },
            Err(m) => Err(m),
        }
    } else {
        Ok((left, w))
    }
}

/// A term: factors joined by `*`, `**` and `/`, left to right.
pub open spec fn p_mul(s: Seq<char>, pos: int) -> Parsed
    decreases s.len() - pos, 5int
    when 0 <= pos <= s.len()
{
    match p_unary(s, pos) {
        Ok((l, q)) => if pos <= q <= s.len() {
            mul_rest(s, q, l)
        } else {
            Err(Seq::empty())
        },
        Err(m) => Err(m),
    }
}

/// The rest of a term after its first factors, which make `left`.
pub open spec fn mul_rest(s: Seq<char>, pos: int, left: SExpr) -> Parsed
    decreases s.len() - pos, 4int
    when 0 <= pos <= s.len()
{
    let w = skip_ws_from(s, pos);
    if 0 <= w < s.len() && (s[w] == '*' || s[w] == '/') {
        proof {
            lemma_skip_ws_bounds(s, pos);
        }
        let power = s[w] == '*' && w + 1 < s.len() && s[w + 1] == '*';
        let start = if power {
            w + 2
        } else {
            w + 1
        };
        match p_unary(s, start) {
            Ok((r, q)) => if start <= q <= s.len() {
                let e = if power {
                    SExpr::Pow(Box::new(left), Box::new(r))
                } else if s[w] == '*' {
                    SExpr::Mul(Box::new(left), Box::new(r))
                } else {
                    SExpr::Div(Box::new(left), Box::new(r))
                };
                mul_rest(s, q, e)
            } else {
                Err(Seq::empty())
            },
            Err(m) => Err(m),
        }
    } else {
        Ok((left, w))
    }
}

/// A factor with an optional leading `-` (negation) or `+`.
pub open spec fn p_unary(s: Seq<char>, pos: int) -> Parsed
    decreases s.len() - pos, 3int
    when 0 <= pos <= s.len()
{
    let w = skip_ws_from(s, pos);
    proof {
        lemma_skip_ws_bounds(s, pos);
    }
    if char_at(s, w) == Some('-') {
        match p_pow(s, w + 1) {
            Ok((e, q)) => Ok((SExpr::Neg(Box::new(e)), q)),
            Err(m) => Err(m),
        }
    } else if char_at(s, w) == Some('+') {
        p_pow(s, w + 1)
    } else {
        p_pow(s, w)
    }
}

/// An operand with an optional `^` and a right-associative exponent.
pub open spec fn p_pow(s: Seq<char>, pos: int) -> Parsed
    decreases s.len() - pos, 2int
    when 0 <= pos <= s.len()
{
    match p_primary(s, pos) {
        Ok((b, q)) => if pos <= q <= s.len() {
            proof {
                lemma_skip_ws_bounds(s, q);
            }
            let w = skip_ws_from(s, q);
            if char_at(s, w) == Some('^') {
                match p_unary(s, w + 1) {
                    Ok((e, r)) => Ok((SExpr::Pow(Box::new(b), Box::new(e)), r)),
                    Err(m) => Err(m),
                }
            } else {
                Ok((b, w))
            }
        } else {
            Err(Seq::empty())
        },
        Err(m) => Err(m),
    }
}

/// A parenthesised expression, a number, a name or a call.
pub open spec fn p_primary(s: Seq<char>, pos: int) -> Parsed
    decreases s.len() - pos, 1int
    when 0 <= pos <= s.len()
{
    let w = skip_ws_from(s, pos);
    proof {
        lemma_skip_ws_bounds(s, pos);
    }
    match char_at(s, w) {
        Some(c) => if c == '(' {
            match p_add(s, w + 1) {
                Ok((e, q)) => if w + 1 <= q <= s.len() {
                    match expect_at(s, q, 0x29u8) {
                        Ok(r) => Ok((e, r)),
                        Err(m) => Err(m),
                    }
                } else {
                    Err(Seq::empty())
                },
                Err(m) => Err(m),
            }
        } else if is_ascii_digit(c) || c == '.' {
            p_number(s, w)
        } else if is_ascii_alpha(c) || c == '_' {
            p_ident(s, w)
        } else {
            Err(unexpected_text(Some(utf8_lead(c))))
        },
        None => Err(unexpected_text(None)),
    }
}

/// A number literal starting at `pos`.
pub open spec fn p_number(s: Seq<char>, pos: int) -> Parsed {
    let e = number_end(s, pos, pos);
    let t = s.subrange(pos, e);
    if valid_float(t) {
        Ok((SExpr::Num(t), e))
    } else {
        Err(invalid_float_text())
    }
}

/// A name starting at `pos`: a variable, a constant, or a call of one or
/// two arguments.
pub open spec fn p_ident(s: Seq<char>, pos: int) -> Parsed
    decreases s.len() - pos, 0int
    when 0 <= pos <= s.len()
{
    proof {
        lemma_ident_end_bounds(s, pos);
    }
    let e = ident_end(s, pos);
    let name = s.subrange(pos, e);
    if name == seq!['x'] {
        Ok((SExpr::X, e))
    } else if name == seq!['y'] {
        Ok((SExpr::Y, e))
    } else if name == seq!['p', 'i'] || name == seq!['P', 'I'] {
        Ok((SExpr::Pi, e))
    } else if name == seq!['e'] || name == seq!['E'] {
        Ok((SExpr::E, e))
    } else {
        proof {
            lemma_skip_ws_bounds(s, e);
        }
        let w = skip_ws_from(s, e);
        if char_at(s, w) == Some('(') {
            match p_add(s, w + 1) {
                Ok((a, q)) => if w + 1 <= q <= s.len() {
                    proof {
                        lemma_skip_ws_bounds(s, q);
                    }
                    let w2 = skip_ws_from(s, q);
                    if char_at(s, w2) == Some(',') {
                        match p_add(s, w2 + 1) {
                            Ok((b, q2)) => if w2 + 1 <= q2 <= s.len() {
                                match expect_at(s, q2, 0x29u8) {
                                    Ok(r) => Ok((SExpr::Func2(name, Box::new(a), Box::new(b)), r)),
                                    Err(m) => Err(m),
                                }
                            } else {
                                Err(Seq::empty())
                            },
                            Err(m) => Err(m),
                        }
                    } else {
                        match expect_at(s, q, 0x29u8) {
                            Ok(r) => Ok((SExpr::Func1(name, Box::new(a)), r)),
                            Err(m) => Err(m),
                        }
                    }
                } else {
                    Err(Seq::empty())
                },
                Err(m) => Err(m),
            }
        } else {
            Err(unknown_identifier_text(name))
        }
    }
}

/// The whole text as one expression, with nothing but white space after
/// it.
pub open spec fn parse_text(s: Seq<char>) -> Result<SExpr, Seq<char>> {
    match p_add(s, 0) {
        Ok((e, q)) => {
            let w = skip_ws_from(s, q);
            if w == s.len() {
                Ok(e)
            } else {
                Err(trailing_text(w as nat, s.subrange(w, s.len() as int)))
            }
        },
        Err(m) => Err(m),
    }
}


/// Whether a parse result agrees with the grammar's outcome: the same tree
/// and end position on success, the same message on failure.
pub open spec fn agrees(r: Result<Expr, ParseError>, expected: Parsed, end: int) -> bool {
    match r {
        Ok(e) => expected == Ok::<(SExpr, int), Seq<char>>((e@, end)),
        Err(err) => expected == Err::<(SExpr, int), Seq<char>>(err.0@),
    }
}

fn is_ident_char_exec(c: char) -> (b: bool)
    ensures
        b == is_ident_char(c),
{
    is_alpha_char(c) || is_digit_char(c) || c == '_'
}

/// The characters of `v` from `lo` up to `hi`.
fn copy_range(v: &Vec<char>, lo: usize, hi: usize) -> (t: Vec<char>)
    requires
        lo <= hi <= v@.len(),
    ensures
        t@ == v@.subrange(lo as int, hi as int),
{
    let mut t: Vec<char> = Vec::new();
    let mut i = lo;
    while i < hi
        invariant
            lo <= i <= hi <= v@.len(),
            t@ == v@.subrange(lo as int, i as int),
        decreases hi - i,
    {
        t.push(v[i]);
        i += 1;
        proof {
            assert(t@ =~= v@.subrange(lo as int, i as int));
        }
    }
    t
}

impl Parser {
    /// The character at the current position, or a space at the end.
    fn current(&self) -> (c: char)
        ensures
            c == match char_at(self.input@, self.pos as int) {
                Some(x) => x,
                None => ' ',
            },
    {
        match self.peek() {
            Some(c) => c,
            None => ' ',
        }
    }

    /// Moves one character on.
    fn bump(&mut self)
        requires
            old(self).pos < old(self).input@.len(),
        ensures
            final(self).input == old(self).input,
            final(self).pos == old(self).pos + 1,
    {
        if self.pos < self.input.len() {
            self.pos += 1;
        }
    }

    /// Parses an expression: a sum of terms.
    pub fn parse_expr(&mut self) -> (r: Result<Expr, ParseError>)
        requires
            old(self).pos <= old(self).input@.len(),
        ensures
            final(self).input == old(self).input,
            agrees(r, p_add(old(self).input@, old(self).pos as int), final(self).pos as int),
            r is Ok ==> old(self).pos <= final(self).pos <= final(self).input@.len(),
        decreases old(self).input@.len() - old(self).pos, 8int,
    {
        self.parse_add()
    }

    /// Parses terms joined by `+` and `-`, left to right.
    pub fn parse_add(&mut self) -> (r: Result<Expr, ParseError>)
        requires
            old(self).pos <= old(self).input@.len(),
        ensures
            final(self).input == old(self).input,
            agrees(r, p_add(old(self).input@, old(self).pos as int), final(self).pos as int),
            r is Ok ==> old(self).pos <= final(self).pos <= final(self).input@.len(),
        decreases old(self).input@.len() - old(self).pos, 7int,
    {
        let ghost s = self.input@;
        let ghost p0 = self.pos as int;
        let ghost input0 = self.input;
        let mut left = match self.parse_mul() {
            Ok(e) => e,
            Err(err) => return Err(err),
        };
        loop
            invariant
                self.input == input0,
                input0 == old(self).input,
                s == input0@,
                p0 == old(self).pos,
                p0 <= self.pos <= s.len(),
                p_add(s, p0) == add_rest(s, self.pos as int, left@),
            decreases s.len() - self.pos,
        {
            self.skip_ws();
            let op = self.current();
            if op == '+' || op == '-' {
                self.bump();
                let right = match self.parse_mul() {
                    Ok(e) => e,
                    Err(err) => return Err(err),
                };
                left = if op == '+' {
                    Expr::Add(Box::new(left), Box::new(right))
                } else {
                    Expr::Sub(Box::new(left), Box::new(right))
                };
            } else {
                return Ok(left);
            }
        }
    }

    /// Parses factors joined by `*`, `**` (power) and `/`, left to right.
    pub fn parse_mul(&mut self) -> (r: Result<Expr, ParseError>)
        requires
            old(self).pos <= old(self).input@.len(),
        ensures
            final(self).input == old(self).input,
            agrees(r, p_mul(old(self).input@, old(self).pos as int), final(self).pos as int),
            r is Ok ==> old(self).pos <= final(self).pos <= final(self).input@.len(),
        decreases old(self).input@.len() - old(self).pos, 5int,
    {
        let ghost s = self.input@;
        let ghost p0 = self.pos as int;
        let ghost input0 = self.input;
        let mut left = match self.parse_unary() {
            Ok(e) => e,
            Err(err) => return Err(err),
        };
        loop
            invariant
                self.input == input0,
                input0 == old(self).input,
                s == input0@,
                p0 == old(self).pos,
                p0 <= self.pos <= s.len(),
                p_mul(s, p0) == mul_rest(s, self.pos as int, left@),
            decreases s.len() - self.pos,
        {
            self.skip_ws();
            let op = self.current();
            if op == '*' || op == '/' {
                self.bump();
                let power = op == '*' && self.current() == '*' && self.pos < self.input.len();
                if power {
                    self.bump();
                }
                let right = match self.parse_unary() {
                    Ok(e) => e,
                    Err(err) => return Err(err),
                };
                left = if power {
                    Expr::Pow(Box::new(left), Box::new(right))
                } else if op == '*' {
                    Expr::Mul(Box::new(left), Box::new(right))
                } else {
                    Expr::Div(Box::new(left), Box::new(right))
                };
            } else {
                return Ok(left);
            }
        }
    }

    /// Parses a factor with an optional leading `-` (negation) or `+`.
    pub fn parse_unary(&mut self) -> (r: Result<Expr, ParseError>)
        requires
            old(self).pos <= old(self).input@.len(),
        ensures
            final(self).input == old(self).input,
            agrees(r, p_unary(old(self).input@, old(self).pos as int), final(self).pos as int),
            r is Ok ==> old(self).pos <= final(self).pos <= final(self).input@.len(),
        decreases old(self).input@.len() - old(self).pos, 3int,
    {
        self.skip_ws();
        let c = self.current();
        if c == '-' && self.pos < self.input.len() {
            self.bump();
            let e = match self.parse_pow() {
                Ok(e) => e,
                Err(err) => return Err(err),
            };
            return Ok(Expr::Neg(Box::new(e)));
        }
        if c == '+' && self.pos < self.input.len() {
            self.bump();
        }
        self.parse_pow()
    }

    /// Parses an operand with an optional `^` and a right-associative
    /// exponent.
    pub fn parse_pow(&mut self) -> (r: Result<Expr, ParseError>)
        requires
            old(self).pos <= old(self).input@.len(),
        ensures
            final(self).input == old(self).input,
            agrees(r, p_pow(old(self).input@, old(self).pos as int), final(self).pos as int),
            r is Ok ==> old(self).pos <= final(self).pos <= final(self).input@.len(),
        decreases old(self).input@.len() - old(self).pos, 2int,
    {
        let base = match self.parse_primary() {
            Ok(e) => e,
            Err(err) => return Err(err),
        };
        self.skip_ws();
        if self.current() == '^' && self.pos < self.input.len() {
            self.bump();
            let e = match self.parse_unary() {
                Ok(e) => e,
                Err(err) => return Err(err),
            };
            return Ok(Expr::Pow(Box::new(base), Box::new(e)));
        }
        Ok(base)
    }

    /// Parses a parenthesised expression, a number, a name or a call.
    pub fn parse_primary(&mut self) -> (r: Result<Expr, ParseError>)
        requires
            old(self).pos <= old(self).input@.len(),
        ensures
            final(self).input == old(self).input,
            agrees(r, p_primary(old(self).input@, old(self).pos as int), final(self).pos as int),
            r is Ok ==> old(self).pos <= final(self).pos <= final(self).input@.len(),
        decreases old(self).input@.len() - old(self).pos, 1int,
    {
        self.skip_ws();
        match self.peek() {
            Some(c) => {
                if c == '(' {
                    self.bump();
                    let e = match self.parse_expr() {
                        Ok(e) => e,
                        Err(err) => return Err(err),
                    };
                    match self.expect(0x29u8) {
                        Ok(_) => {},
                        Err(err) => return Err(err),
                    }
                    Ok(e)
                } else if is_digit_char(c) || c == '.' {
                    self.parse_number()
                } else if is_alpha_char(c) || c == '_' {
                    self.parse_ident_or_func()
                } else {
                    Err(ParseError(unexpected_message(Some(utf8_lead_byte(c)))))
                }
            },
            None => Err(ParseError(unexpected_message(None))),
        }
    }

    /// Parses a number literal: digits, points and exponent letters, with
    /// a sign only right after an exponent letter.
    pub fn parse_number(&mut self) -> (r: Result<Expr, ParseError>)
        requires
            old(self).pos <= old(self).input@.len(),
        ensures
            final(self).input == old(self).input,
            agrees(r, p_number(old(self).input@, old(self).pos as int), final(self).pos as int),
            r is Ok ==> old(self).pos <= final(self).pos <= final(self).input@.len(),
    {
        let start = self.pos;
        let ghost s = self.input@;
        while self.pos < self.input.len() && is_number_char_exec(self.input[self.pos]) && !((
        self.input[self.pos] == '+' || self.input[self.pos] == '-') && (self.pos == start || !(
        self.input[self.pos - 1] == 'e' || self.input[self.pos - 1] == 'E')))
            invariant
                self.input == old(self).input,
                s == self.input@,
                start == old(self).pos,
                start <= self.pos <= s.len(),
                number_end(s, start as int, self.pos as int) == number_end(
                    s,
                    start as int,
                    start as int,
                ),
            decreases s.len() - self.pos,
        {
            self.pos += 1;
        }
        let t = copy_range(&self.input, start, self.pos);
        if is_valid_float(&t) {
            Ok(Expr::Num(t))
        } else {
            Err(ParseError(String::from_str("invalid float literal")))
        }
    }

    /// Parses a name: a variable, a constant, or a call of one or two
    /// arguments.
    pub fn parse_ident_or_func(&mut self) -> (r: Result<Expr, ParseError>)
        requires
            old(self).pos <= old(self).input@.len(),
        ensures
            final(self).input == old(self).input,
            agrees(r, p_ident(old(self).input@, old(self).pos as int), final(self).pos as int),
            r is Ok ==> old(self).pos <= final(self).pos <= final(self).input@.len(),
        decreases old(self).input@.len() - old(self).pos, 0int,
    {
        let start = self.pos;
        let ghost s = self.input@;
        while self.pos < self.input.len() && is_ident_char_exec(self.input[self.pos])
            invariant
                self.input == old(self).input,
                s == self.input@,
                start == old(self).pos,
                start <= self.pos <= s.len(),
                ident_end(s, self.pos as int) == ident_end(s, start as int),
            decreases s.len() - self.pos,
        {
            self.pos += 1;
        }
        let name = copy_range(&self.input, start, self.pos);
        let n = name.len();
        if n == 1 && name[0] == 'x' {
            proof {
                assert(name@ =~= seq!['x']);
            }
            return Ok(Expr::X);
        }
        if n == 1 && name[0] == 'y' {
            proof {
                assert(name@ =~= seq!['y']);
            }
            return Ok(Expr::Y);
        }
        if n == 2 && ((name[0] == 'p' && name[1] == 'i') || (name[0] == 'P' && name[1] == 'I')) {
            proof {
                if name[0] == 'p' {
                    assert(name@ =~= seq!['p', 'i']);
                } else {
                    assert(name@ =~= seq!['P', 'I']);
                }
            }
            return Ok(Expr::Pi);
        }
        if n == 1 && (name[0] == 'e' || name[0] == 'E') {
            proof {
                if name[0] == 'e' {
                    assert(name@ =~= seq!['e']);
                } else {
                    assert(name@ =~= seq!['E']);
                }
            }
            return Ok(Expr::E);
        }
        self.skip_ws();
        if self.current() == '(' && self.pos < self.input.len() {
            self.bump();
            let arg1 = match self.parse_expr() {
                Ok(e) => e,
                Err(err) => return Err(err),
            };
            let ghost q = self.pos as int;
            self.skip_ws();
            proof {
                lemma_skip_ws_bounds(s, q);
                assert(skip_ws_from(s, self.pos as int) == self.pos);
            }
            if self.current() == ',' && self.pos < self.input.len() {
                self.bump();
                let arg2 = match self.parse_expr() {
                    Ok(e) => e,
                    Err(err) => return Err(err),
                };
                match self.expect(0x29u8) {
                    Ok(_) => {},
                    Err(err) => return Err(err),
                }
                return Ok(Expr::Func2(name, Box::new(arg1), Box::new(arg2)));
            }
            match self.expect(0x29u8) {
                Ok(_) => {},
                Err(err) => return Err(err),
            }
            return Ok(Expr::Func1(name, Box::new(arg1)));
        }
        let mut m = String::from_str("unknown identifier: ");
        push_chars(&mut m, name.as_slice());
        Err(ParseError(m))
    }
}

fn is_number_char_exec(c: char) -> (b: bool)
    ensures
        b == is_number_char(c),
{
    is_digit_char(c) || c == '.' || c == 'e' || c == 'E' || c == '+' || c == '-'
}

/// Parses the whole of `s`, less leading and trailing white space, as one
/// expression.
pub fn parse_expr(s: &str) -> (r: Result<Expr, ParseError>)
    ensures
        match r {
            Ok(e) => parse_text(trim(s@)) == Ok::<SExpr, Seq<char>>(e@),
            Err(err) => parse_text(trim(s@)) == Err::<SExpr, Seq<char>>(err.0@),
        },
{
    let t = trimmed_chars(s);
    let mut p = Parser { input: t, pos: 0 };
    let expr = match p.parse_expr() {
        Ok(e) => e,
        Err(err) => return Err(err),
    };
    p.skip_ws();
    if p.pos != p.input.len() {
        let mut m = String::from_str("trailing input at position ");
        push_decimal(&mut m, p.pos as u64, 0);
        push_char(&mut m, ':');
        push_char(&mut m, ' ');
        push_char(&mut m, '\'');
        let rest = copy_range(&p.input, p.pos, p.input.len());
        push_chars(&mut m, rest.as_slice());
        push_char(&mut m, '\'');
        proof {
            assert((p.pos as u64) as nat == p.pos as nat);
            assert(m@ =~= trailing_text(p.pos as nat, p.input@.subrange(p.pos as int, p.input@.len() as int)));
        }
        return Err(ParseError(m));
    }
    Ok(expr)
}

} // verus!
