use fsearch::calc::{parse, Expr, Op};

fn value(e: &Expr) -> f64 {
    match e {
        Expr::Number(digits) => digits.parse().unwrap(),
        Expr::Negative(inner) => -value(inner),
        Expr::Binary(op, l, r) => {
            let (l, r) = (value(l), value(r));
            match op {
                Op::Plus => l + r,
                Op::Minus => l - r,
                Op::Times => l * r,
                Op::Over => l / r,
                Op::Remainder => l % r,
                Op::Power => l.powf(r),
            }
        }
    }
}

fn eval(expr: &str) -> Option<f64> {
    parse(expr).map(|e| value(&e)).filter(|v| v.is_finite())
}

#[test]
fn precedence_and_parens() {
    assert_eq!(eval("2+3*4"), Some(14.0));
    assert_eq!(eval("(2+3)*4"), Some(20.0));
    assert_eq!(eval("7%3"), Some(1.0));
    assert_eq!(eval("7/2"), Some(3.5));
    assert_eq!(eval(" 2 * ( 3 + 4 ) / 7 "), Some(2.0));
}

#[test]
fn exponent_is_right_associative_and_tighter_than_unary_minus() {
    assert_eq!(eval("2^3^2"), Some(512.0));
    assert_eq!(eval("-3^2"), Some(-9.0));
    assert_eq!(eval("(-3)^2"), Some(9.0));
}

#[test]
fn leading_dot_and_unary_chains() {
    assert_eq!(eval(".5*2"), Some(1.0));
    assert_eq!(eval("--4"), Some(4.0));
}

#[test]
fn invalid_input_is_none() {
    assert_eq!(eval("2 +"), None);
    assert_eq!(eval("abc"), None);
    assert_eq!(eval("1/0"), None);
    assert_eq!(eval(""), None);
    assert_eq!(eval("2 2"), None); // trailing garbage
    assert_eq!(eval("(2"), None);
    assert_eq!(eval("."), None);
}

#[test]
fn sums_and_products_group_from_the_left() {
    assert_eq!(eval("10-3-2"), Some(5.0));
    assert_eq!(eval("100/5/2"), Some(10.0));
    assert_eq!(eval("2*-3"), Some(-6.0));
    assert_eq!(eval("2^-1"), Some(0.5));
    assert_eq!(eval("1.2.3"), None);
    assert_eq!(eval("3."), Some(3.0));
    let number = |s: &str| Box::new(Expr::Number(s.to_string()));
    assert_eq!(
        parse("1+2*3"),
        Some(Expr::Binary(
            Op::Plus,
            number("1"),
            Box::new(Expr::Binary(Op::Times, number("2"), number("3")))
        ))
    );
}

#[test]
fn parenthesized_expressions_are_read_back() {
    let tree = |s: &str| parse(s).unwrap();
    assert_eq!(tree("((1+2)*(-3))"), tree("(1+2)*-3"));
    assert_eq!(tree("(2^(3^2))"), tree("2^3^2"));
    assert_eq!(tree("((8-4)-2)"), tree("8-4-2"));
    assert_eq!(tree("(-(3^2))"), tree("-3^2"));
}
