use oderom::expr::Expr;
use oderom::rational_form::normalize;
use oderom::rationalize::{denominator_degree, rationalize};

#[test]
fn rationalizes_a_single_fraction() {
    let x = Expr::var("x");
    let e = Expr::integer(3) * Expr::Pow(Box::new(x), -1);
    let (num, den) = rationalize(&e).unwrap();
    assert_eq!(num, Expr::integer(3));
    assert_eq!(den, Expr::var("x"));
}

#[test]
fn combines_two_fractions_with_different_denominators() {
    let x = Expr::var("x");
    let y = Expr::var("y");
    let e = Expr::Pow(Box::new(x.clone()), -1) + Expr::Pow(Box::new(y.clone()), -1);
    let (num, den) = rationalize(&e).unwrap();
    assert_eq!(num, normalize(&(x.clone() + y.clone())).unwrap());
    assert_eq!(den, normalize(&(x * y)).unwrap());
}

fn has_negative_exponent(e: &Expr) -> bool {
    match e {
        Expr::Rational(_) | Expr::Var(_) => false,
        Expr::Add(terms) | Expr::Mul(terms) => terms.iter().any(has_negative_exponent),
        Expr::Pow(base, n) => *n < 0 || has_negative_exponent(base),
        Expr::Sin(inner) | Expr::Cos(inner) | Expr::Exp(inner) | Expr::Sinh(inner) | Expr::Cosh(inner) => {
            has_negative_exponent(inner)
        }
        Expr::Func { args, .. } => args.iter().any(has_negative_exponent),
    }
}

#[test]
fn handles_two_independent_sums_multiplied_together() {
    let x = Expr::var("x");
    let f = Expr::one() + x.clone();
    let e = Expr::Pow(Box::new(f), -2) * x.pow(2);
    let (num, den) = rationalize(&e).unwrap();
    assert!(!has_negative_exponent(&num), "{num:?}");
    assert!(!has_negative_exponent(&den), "{den:?}");
}

#[test]
fn denominator_degree_of_a_simple_power() {
    let r = Expr::var("r");
    assert_eq!(denominator_degree(&Expr::Pow(Box::new(r.clone()), -1)), Some(1));
    assert_eq!(denominator_degree(&Expr::Pow(Box::new(r), -4)), Some(4));
}

#[test]
fn denominator_degree_grows_when_denominators_do_not_unify() {
    let r = Expr::var("r");
    let f = |k: i64| Expr::one() - Expr::integer(k) * Expr::var("M") / r.clone();
    let one_term = Expr::Pow(Box::new(f(2)), -1);
    let four_terms = Expr::Pow(Box::new(f(2)), -1)
        + Expr::Pow(Box::new(f(3)), -1)
        + Expr::Pow(Box::new(f(4)), -1)
        + Expr::Pow(Box::new(f(5)), -1);
    let d1 = denominator_degree(&one_term).unwrap();
    let d4 = denominator_degree(&four_terms).unwrap();
    assert!(d4 > d1, "d1={d1}, d4={d4}");
}
