use geodesic_wallpaper::user_defined::{is_valid_float, parse_expr, Expr, ParseError, Parser};

fn text(cs: &[char]) -> String {
    cs.iter().collect()
}

/// The tree in prefix form, for comparison.
fn show(e: &Expr) -> String {
    match e {
        Expr::Num(t) => text(t),
        Expr::X => "x".to_string(),
        Expr::Y => "y".to_string(),
        Expr::Pi => "pi".to_string(),
        Expr::E => "e".to_string(),
        Expr::Neg(a) => format!("(neg {})", show(a)),
        Expr::Add(a, b) => format!("(+ {} {})", show(a), show(b)),
        Expr::Sub(a, b) => format!("(- {} {})", show(a), show(b)),
        Expr::Mul(a, b) => format!("(* {} {})", show(a), show(b)),
        Expr::Div(a, b) => format!("(/ {} {})", show(a), show(b)),
        Expr::Pow(a, b) => format!("(^ {} {})", show(a), show(b)),
        Expr::Func1(n, a) => format!("({} {})", text(n), show(a)),
        Expr::Func2(n, a, b) => format!("({} {} {})", text(n), show(a), show(b)),
    }
}

fn parsed(s: &str) -> String {
    show(&parse_expr(s).expect("parse should succeed"))
}

fn error(s: &str) -> String {
    parse_expr(s).unwrap_err().0
}

#[test]
fn parser_scanning() {
    let mut p = Parser::new("  ( x)");
    assert_eq!(p.peek(), Some(' '));
    p.skip_ws();
    assert_eq!(p.pos, 2);
    assert_eq!(p.consume(), Some('('));
    assert!(p.expect(b'x').is_ok());
    assert!(p.expect(b')').is_ok());
    assert_eq!(p.consume(), None);
    assert_eq!(p.pos, 6);
}

#[test]
fn parser_expect_reports_what_was_found() {
    let mut p = Parser::new("a");
    let err: ParseError = p.expect(b')').unwrap_err();
    assert_eq!(err.0, "expected ')', got Some('a')");
    assert_eq!(err.to_text(), "parse error: expected ')', got Some('a')");
    assert_eq!(p.pos, 0);
    p.consume();
    assert_eq!(p.expect(b')').unwrap_err().0, "expected ')', got None");
}

#[test]
fn constants_and_variables() {
    assert_eq!(parsed("3.14"), "3.14");
    assert_eq!(parsed("x"), "x");
    assert_eq!(parsed("y"), "y");
    assert_eq!(parsed("pi"), "pi");
    assert_eq!(parsed("PI"), "pi");
    assert_eq!(parsed("e"), "e");
    assert_eq!(parsed("E"), "e");
    assert_eq!(parsed("  \t pi \n "), "pi");
}

#[test]
fn precedence_and_associativity() {
    assert_eq!(parsed("sin(x) * cos(y)"), "(* (sin x) (cos y))");
    assert_eq!(parsed("x^2 + y^2"), "(+ (^ x 2) (^ y 2))");
    assert_eq!(parsed("1 - 2 - 3"), "(- (- 1 2) 3)");
    assert_eq!(parsed("8 / 4 / 2"), "(/ (/ 8 4) 2)");
    assert_eq!(parsed("2^3^2"), "(^ 2 (^ 3 2))");
    assert_eq!(parsed("2**3"), "(^ 2 3)");
    assert_eq!(error("2 * * 3"), "unexpected token: Some('*')");
    assert_eq!(parsed("1 + 2 * 3"), "(+ 1 (* 2 3))");
    assert_eq!(parsed("(1 + 2) * 3"), "(* (+ 1 2) 3)");
}

#[test]
fn unary_signs() {
    assert_eq!(parsed("-x"), "(neg x)");
    assert_eq!(parsed("-x^2"), "(neg (^ x 2))");
    assert_eq!(parsed("+x"), "x");
    assert_eq!(parsed("2 * -x"), "(* 2 (neg x))");
    assert_eq!(parsed("exp(-x*x)"), "(exp (* (neg x) x))");
}

#[test]
fn calls_of_one_and_two_arguments() {
    assert_eq!(parsed("atan2(y, x)"), "(atan2 y x)");
    assert_eq!(
        parsed("sin(x) * cos(y) * exp(-0.1 * (x*x + y*y))"),
        "(* (* (sin x) (cos y)) (exp (* (neg 0.1) (+ (* x x) (* y y)))))"
    );
    assert_eq!(parsed("f_2 (x)"), "(f_2 x)");
}

#[test]
fn number_literals() {
    assert_eq!(parsed("1.5e-3"), "1.5e-3");
    assert_eq!(parsed("1E+5"), "1E+5");
    assert_eq!(parsed(".5"), ".5");
    assert_eq!(parsed("5."), "5.");
    assert_eq!(parsed("1+5"), "(+ 1 5)");
    assert_eq!(error("."), "invalid float literal");
    assert_eq!(error("1.2.3"), "invalid float literal");
    assert_eq!(error("2e"), "invalid float literal");
    assert_eq!(error("2e+"), "invalid float literal");
}

#[test]
fn float_literal_grammar() {
    let check = |s: &str| is_valid_float(&s.chars().collect());
    assert!(check("0"));
    assert!(check("12.5"));
    assert!(check("12.5e10"));
    assert!(check("7e-2"));
    assert!(!check(""));
    assert!(!check(".e1"));
    assert!(!check("1e1.5"));
    assert!(!check("1ee1"));
}

#[test]
fn invalid_expression_returns_error() {
    assert!(parse_expr("sin(x").is_err());
    assert_eq!(error("sin(x"), "expected ')', got None");
}

#[test]
fn error_messages() {
    assert_eq!(error(""), "unexpected token: None");
    assert_eq!(error("1 +"), "unexpected token: None");
    assert_eq!(error("*"), "unexpected token: Some('*')");
    assert_eq!(error("1 + \u{e9}"), "unexpected token: Some('\u{c3}')");
    assert_eq!(error("foo"), "unknown identifier: foo");
    assert_eq!(error("foo + 1"), "unknown identifier: foo");
    assert_eq!(error("1 2"), "trailing input at position 2: '2'");
    assert_eq!(error("x y z"), "trailing input at position 2: 'y z'");
    assert_eq!(error("(x"), "expected ')', got None");
    assert_eq!(error("atan2(y, x"), "expected ')', got None");
    assert_eq!(error("atan2(y x)"), "expected ')', got Some('x')");
}
