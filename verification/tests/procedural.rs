use geodesic_wallpaper::procedural::{lattice_bits, parse_expression, tokenize, Expr, ExprError, Token};

fn text(cs: &[char]) -> String {
    cs.iter().collect()
}

/// Evaluates a parsed expression at `(x, y)`.
fn eval(e: &Expr, x: f32, y: f32) -> f32 {
    match e {
        Expr::Lit(t) => text(t).parse().unwrap(),
        Expr::Pi => std::f32::consts::PI,
        Expr::E => std::f32::consts::E,
        Expr::X => x,
        Expr::Y => y,
        Expr::Add(a, b) => eval(a, x, y) + eval(b, x, y),
        Expr::Sub(a, b) => eval(a, x, y) - eval(b, x, y),
        Expr::Mul(a, b) => eval(a, x, y) * eval(b, x, y),
        Expr::Div(a, b) => {
            let denom = eval(b, x, y);
            if denom.abs() < 1e-10 { 0.0 } else { eval(a, x, y) / denom }
        }
        Expr::Pow(a, b) => eval(a, x, y).powf(eval(b, x, y)),
        Expr::Neg(a) => -eval(a, x, y),
        Expr::Sin(a) => eval(a, x, y).sin(),
        Expr::Cos(a) => eval(a, x, y).cos(),
        Expr::Tan(a) => eval(a, x, y).tan(),
        Expr::Sqrt(a) => eval(a, x, y).abs().sqrt(),
        Expr::Abs(a) => eval(a, x, y).abs(),
        Expr::Exp(a) => eval(a, x, y).exp(),
        Expr::Ln(a) => eval(a, x, y).abs().ln(),
    }
}

/// The tree in prefix form, for comparison.
fn show(e: &Expr) -> String {
    let un = |n: &str, a: &Expr| format!("({} {})", n, show(a));
    let bin = |n: &str, a: &Expr, b: &Expr| format!("({} {} {})", n, show(a), show(b));
    match e {
        Expr::Lit(t) => text(t),
        Expr::Pi => "pi".to_string(),
        Expr::E => "e".to_string(),
        Expr::X => "x".to_string(),
        Expr::Y => "y".to_string(),
        Expr::Add(a, b) => bin("+", a, b),
        Expr::Sub(a, b) => bin("-", a, b),
        Expr::Mul(a, b) => bin("*", a, b),
        Expr::Div(a, b) => bin("/", a, b),
        Expr::Pow(a, b) => bin("^", a, b),
        Expr::Neg(a) => un("neg", a),
        Expr::Sin(a) => un("sin", a),
        Expr::Cos(a) => un("cos", a),
        Expr::Tan(a) => un("tan", a),
        Expr::Sqrt(a) => un("sqrt", a),
        Expr::Abs(a) => un("abs", a),
        Expr::Exp(a) => un("exp", a),
        Expr::Ln(a) => un("ln", a),
    }
}

fn parsed(s: &str) -> String {
    show(&parse_expression(s).unwrap())
}

#[test]
fn test_expression_parse_and_eval() {
    let expr = parse_expression("sin(x) * cos(y)").unwrap();
    let val = eval(&expr, 0.0, 0.0);
    assert!((val - 0.0).abs() < 1e-5, "sin(0)*cos(0) should be 0: {val}");

    let expr2 = parse_expression("x^2 + y^2").unwrap();
    let val2 = eval(&expr2, 3.0, 4.0);
    assert!((val2 - 25.0).abs() < 1e-4, "3^2+4^2 should be 25: {val2}");
}

#[test]
fn test_expression_parse_pi() {
    let expr = parse_expression("sin(pi)").unwrap();
    let val = eval(&expr, 0.0, 0.0);
    assert!(val.abs() < 1e-5, "sin(pi) should be ~0: {val}");
}

#[test]
fn test_expression_parse_error() {
    assert!(parse_expression("sin(x +").is_err());
    assert!(parse_expression("unknown(x)").is_err());
}

#[test]
fn tokens_of_an_expression() {
    let t = tokenize(" 2.5*x_1\u{2003}^(y)").unwrap();
    assert_eq!(t.len(), 7);
    assert!(matches!(&t[0], Token::Num(s) if text(s) == "2.5"));
    assert!(matches!(t[1], Token::Star));
    assert!(matches!(&t[2], Token::Ident(s) if text(s) == "x_1"));
    assert!(matches!(t[3], Token::Caret));
    assert!(matches!(t[4], Token::LParen));
    assert!(matches!(&t[5], Token::Ident(s) if text(s) == "y"));
    assert!(matches!(t[6], Token::RParen));
}

#[test]
fn grammar_shapes() {
    assert_eq!(parsed("1 - 2 - 3"), "(- (- 1 2) 3)");
    assert_eq!(parsed("1 + 2 * 3"), "(+ 1 (* 2 3))");
    assert_eq!(parsed("2^3^2"), "(^ 2 (^ 3 2))");
    assert_eq!(parsed("-x^2"), "(^ (neg x) 2)");
    assert_eq!(parsed("--x"), "(neg (neg x))");
    assert_eq!(parsed("log(e) / ln(pi)"), "(/ (ln e) (ln pi))");
    assert_eq!(parsed("sqrt(abs(tan(exp(x))))"), "(sqrt (abs (tan (exp x))))");
    assert_eq!(parsed("(x)"), "x");
}

#[test]
fn failures_name_their_cause() {
    assert!(matches!(parse_expression("2 $ 3"), Err(ExprError::UnexpectedChar('$'))));
    assert!(matches!(parse_expression("1.2.3"), Err(ExprError::InvalidNumber(s)) if text(&s) == "1.2.3"));
    assert!(matches!(parse_expression("."), Err(ExprError::InvalidNumber(s)) if text(&s) == "."));
    assert!(matches!(parse_expression("x y"), Err(ExprError::TrailingToken(1, Token::Ident(s))) if text(&s) == "y"));
    assert!(matches!(parse_expression(""), Err(ExprError::UnexpectedEnd)));
    assert!(matches!(parse_expression("1 +"), Err(ExprError::UnexpectedEnd)));
    assert!(matches!(parse_expression("sin x"), Err(ExprError::ExpectedOpenParen(s)) if text(&s) == "sin"));
    assert!(matches!(parse_expression("sin(x"), Err(ExprError::ExpectedCloseParenAfter(s)) if text(&s) == "sin"));
    assert!(matches!(parse_expression("(x"), Err(ExprError::ExpectedCloseParen)));
    assert!(matches!(parse_expression("foo(x)"), Err(ExprError::UnknownFunction(s)) if text(&s) == "foo"));
    assert!(matches!(parse_expression("*x"), Err(ExprError::UnexpectedToken(Token::Star))));
    assert!(matches!(parse_expression("x)"), Err(ExprError::TrailingToken(1, Token::RParen))));
}

#[test]
fn unicode_names() {
    // '²' is numeric, so it continues a name; 'é' is alphabetic.
    assert!(matches!(parse_expression("x\u{b2}"), Err(ExprError::ExpectedOpenParen(s)) if text(&s) == "x\u{b2}"));
    assert!(matches!(parse_expression("\u{e9}"), Err(ExprError::ExpectedOpenParen(s)) if text(&s) == "\u{e9}"));
    // '²' alone starts no token.
    assert!(matches!(parse_expression("\u{b2}"), Err(ExprError::UnexpectedChar('\u{b2}'))));
}

#[test]
fn lattice_hash_bits() {
    assert_eq!(lattice_bits(3, -5, 42), 7251316);
    assert_eq!(lattice_bits(0, 0, 0), 0);
    assert_eq!(lattice_bits(i32::MIN, 7, 1), 16344358);
    assert_eq!(lattice_bits(3, 5, 42), lattice_bits(-3, -5, 42));
}
