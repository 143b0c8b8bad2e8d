use oderom::expr::Expr;
use oderom::isolate_linear::isolate_linear;
use oderom::rational_form::normalize;

fn t() -> Expr {
    Expr::Func { name: "r".to_string(), args: vec![Expr::var("tau")], order: vec![2] }
}

fn nf(e: &Expr) -> Expr {
    normalize(e).unwrap()
}

#[test]
fn isolates_the_bare_target_with_coefficient_one() {
    let (c, r) = isolate_linear(&t(), &t()).unwrap();
    assert_eq!(c, Expr::one());
    assert_eq!(r, Expr::zero());
}

#[test]
fn isolates_a_target_with_a_nontrivial_coefficient_and_remainder() {
    let e = Expr::integer(3) * t() + Expr::var("M") * Expr::var("r");
    let (c, r) = isolate_linear(&e, &t()).unwrap();
    assert_eq!(nf(&c), Expr::integer(3));
    assert_eq!(nf(&r), nf(&(Expr::var("M") * Expr::var("r"))));
}

#[test]
fn isolates_correctly_when_the_whole_equation_shares_a_common_denominator() {
    let m = Expr::var("M");
    let r = Expr::var("r");
    let x = Expr::var("x");
    let e = nf(&(t() - m.clone() * x.clone().pow(2) / (m.clone() - r.clone())));
    let (c, rem) = isolate_linear(&e, &t()).unwrap();
    assert_eq!(c, Expr::one());
    assert_eq!(rem, nf(&(-(m.clone() * x.pow(2)) / (m - r))));
}

#[test]
fn a_squared_target_is_reported_as_not_linear() {
    let e = t().pow(2) + Expr::var("M");
    assert!(isolate_linear(&e, &t()).is_none());
}

#[test]
fn two_independent_factors_each_depending_on_target_is_not_linear() {
    let e = t() * t();
    assert!(isolate_linear(&e, &t()).is_none());
}

#[test]
fn target_nested_inside_a_transcendental_function_is_not_linear() {
    let e = t().sin();
    assert!(isolate_linear(&e, &t()).is_none());
}

#[test]
fn target_nested_inside_another_functions_argument_is_not_linear() {
    let e = Expr::func("f", vec![t()]);
    assert!(isolate_linear(&e, &t()).is_none());
}

#[test]
fn an_expression_never_containing_target_has_coefficient_zero() {
    let e = Expr::var("M") * Expr::var("r");
    let (c, r) = isolate_linear(&e, &t()).unwrap();
    assert_eq!(c, Expr::zero());
    assert_eq!(nf(&r), nf(&(Expr::var("M") * Expr::var("r"))));
}
