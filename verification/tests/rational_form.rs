use oderom::atoms::AtomTable;
use oderom::big_scalar::BigScalar;
use oderom::canonical::RationalFunction;
use oderom::expr::Expr;
use oderom::poly::Poly;
use oderom::rational_form::{expr_to_rational, normalize, normalize_via_rational_form, reduce};

fn nf(e: &Expr) -> Expr {
    normalize_via_rational_form(e).expect("the engine reaches a normal form")
}

fn scalar(s: &BigScalar) -> f64 {
    let text = s.to_text();
    match text.split_once('/') {
        Some((n, d)) => n.parse::<f64>().unwrap() / d.parse::<f64>().unwrap(),
        None => text.parse::<f64>().unwrap(),
    }
}

fn eval(e: &Expr, vars: &[(&str, f64)]) -> f64 {
    match e {
        Expr::Rational(s) => scalar(s),
        Expr::Var(name) => vars.iter().find(|(n, _)| *n == name).map(|(_, v)| *v).expect("unbound var"),
        Expr::Add(terms) => terms.iter().map(|t| eval(t, vars)).sum(),
        Expr::Mul(factors) => factors.iter().map(|f| eval(f, vars)).product(),
        Expr::Pow(base, n) => eval(base, vars).powi(*n),
        Expr::Sin(arg) => eval(arg, vars).sin(),
        Expr::Cos(arg) => eval(arg, vars).cos(),
        Expr::Exp(arg) => eval(arg, vars).exp(),
        Expr::Sinh(arg) => eval(arg, vars).sinh(),
        Expr::Cosh(arg) => eval(arg, vars).cosh(),
        Expr::Func { name, .. } => panic!("no value for the indeterminate function {name}"),
    }
}

#[test]
fn a_single_pole_variable_with_two_denominator_degrees_is_fine() {
    let r = Expr::var("r");
    let t1 = Expr::integer(-1536) * r.clone().pow(-9);
    let t2 = Expr::integer(-384) * r.pow(-7);
    let _ = nf(&(t1 + t2));
}

#[test]
fn reduce_terminates_summing_two_monomials_in_two_variables() {
    let m = Expr::var("M");
    let r = Expr::var("r");
    let t1 = Expr::integer(-1536) * m.clone().pow(5) * r.clone().pow(-9);
    let t2 = Expr::integer(-384) * m.pow(3) * r.pow(-7);
    let result = nf(&(t1 + t2));
    let expected = -1536.0 * 2.0f64.powi(5) / 3.0f64.powi(9) + -384.0 * 2.0f64.powi(3) / 3.0f64.powi(7);
    assert!((eval(&result, &[("M", 2.0), ("r", 3.0)]) - expected).abs() < 1e-9, "{result:?}");
}

#[test]
fn debug_pow4() {
    let m = Expr::var("M");
    let r = Expr::var("r");
    let f = Expr::one() - Expr::integer(2) * m / r;
    let e = Expr::Pow(Box::new(f), 4);
    let result = nf(&e);
    assert!(result.node_count() > 0);
}

#[test]
fn reduce_finds_a_hidden_denominator_cancellation() {
    let m = Expr::var("M");
    let r = Expr::var("r");
    let f_inv = (Expr::one() - Expr::integer(2) * m.clone() * r.clone().pow(-1)).pow(-1);
    let a = m.clone() * r.clone().pow(-2) * f_inv;
    let b = Expr::integer(-2) * m.clone().pow(2) * r.clone().pow(-3) + m * r.pow(-2);
    let val = a * b;
    let result = nf(&val);
    let expected = 4.0f64.powi(2) / 3.0f64.powi(4);
    assert!((eval(&result, &[("M", 4.0), ("r", 3.0)]) - expected).abs() < 1e-9, "{result:?}");
}

#[test]
fn roundtrips_a_simple_expression() {
    let e = Expr::integer(2) * Expr::var("x") + Expr::integer(3);
    let result = nf(&e);
    match &result {
        Expr::Add(terms) => assert_eq!(terms.len(), 2, "{result:?}"),
        other => panic!("expected an Add, got {other:?}"),
    }
}

#[test]
fn cancels_a_simple_reciprocal() {
    let x = Expr::var("x");
    let e = x.clone() * Expr::Pow(Box::new(x), -1);
    assert_eq!(nf(&e), Expr::one());
}

#[test]
fn collects_sin_squared_across_separately_built_terms() {
    let theta = Expr::var("theta");
    let sin_sq = theta.sin().pow(2);
    let e = Expr::integer(2) * sin_sq.clone() + Expr::integer(3) * sin_sq;
    let result = nf(&e);
    assert!(!matches!(result, Expr::Add(_)), "{result:?}");
}

#[test]
fn pythagorean_identity_makes_an_expression_collapse_to_zero() {
    let theta = Expr::var("theta");
    let e = theta.clone().sin().pow(2) + theta.cos().pow(2) - Expr::one();
    assert_eq!(nf(&e), Expr::zero());
}

#[test]
fn hyperbolic_identity_makes_an_expression_collapse_to_zero() {
    let chi = Expr::var("chi");
    let e = chi.clone().cosh().pow(2) - chi.sinh().pow(2) - Expr::one();
    assert_eq!(nf(&e), Expr::zero());
}

#[test]
fn collects_sinh_squared_across_separately_built_terms() {
    let chi = Expr::var("chi");
    let sinh_sq = chi.sinh().pow(2);
    let e = Expr::integer(2) * sinh_sq.clone() + Expr::integer(3) * sinh_sq;
    let result = nf(&e);
    assert!(!matches!(result, Expr::Add(_)), "{result:?}");
}

#[test]
fn cosh_squared_always_expands_via_the_hyperbolic_identity() {
    let chi = Expr::var("chi");
    let e = Expr::integer(5) * chi.clone().cosh().pow(2);
    let result = nf(&e);
    let expected = nf(&(Expr::integer(5) + Expr::integer(5) * chi.sinh().pow(2)));
    assert_eq!(result, expected, "{result:?}");
}

#[test]
fn exp_of_two_different_arguments_does_not_collapse() {
    let a = Expr::var("a");
    let b = Expr::var("b");
    let e = a.exp() * b.exp();
    let result = nf(&e);
    assert!(
        matches!(&result, Expr::Mul(factors) if factors.iter().filter(|f| matches!(f, Expr::Exp(_))).count() == 2),
        "{result:?}"
    );
}

#[test]
fn exp_of_the_same_argument_still_combines_via_ordinary_exponent_arithmetic() {
    let a = Expr::var("a");
    let e = a.clone().exp() * a.exp();
    let result = nf(&e);
    let expected = nf(&Expr::Pow(Box::new(Expr::var("a").exp()), 2));
    assert_eq!(result, expected, "{result:?}");
}

fn ratio(num: &Expr, den: &Expr, table: &mut AtomTable) -> RationalFunction {
    let n = expr_to_rational(num, table).unwrap();
    let d = expr_to_rational(den, table).unwrap();
    n.mul(&d.pow(-1, table).unwrap(), table).unwrap()
}

fn degree_in(p: &Poly, table: &mut AtomTable, var_name: &str) -> u32 {
    let id = table.var(var_name);
    p.terms().iter().flat_map(|t| t.generators.iter()).filter(|(g, _)| *g == id).map(|(_, e)| *e).max().unwrap_or(0)
}

#[test]
fn adding_the_same_fraction_three_times_stays_at_degree_one() {
    let mut t = AtomTable::new();
    let r = Expr::var("r");
    let f = Expr::one() - Expr::integer(2) * Expr::var("M") / r.clone();
    let one = Expr::one();
    let one_over_f = ratio(&one, &f, &mut t);
    let sum = one_over_f.add(&one_over_f, &mut t).unwrap();
    let sum = sum.add(&one_over_f, &mut t).unwrap();
    assert_eq!(degree_in(&sum.den, &mut t, "r"), 1);
}

#[test]
fn reduces_a_simple_common_factor() {
    let mut t = AtomTable::new();
    let r = Expr::var("r");
    let ratio_val = ratio(&r.clone().pow(2), &r, &mut t);
    assert_eq!(degree_in(&ratio_val.den, &mut t, "r"), 0);
    assert_eq!(degree_in(&ratio_val.num, &mut t, "r"), 1);
}

#[test]
fn reduce_of_one_over_one_terminates_immediately() {
    let mut t = AtomTable::new();
    let r = reduce(Poly::constant(BigScalar::one()), Poly::constant(BigScalar::one()), &mut t).unwrap();
    assert!(!r.num.is_zero());
}

#[test]
fn schwarzschild_like_fraction_sum_cancels() {
    // (1 - 2M/r)^-1 * (1 - 2M/r) - 1 == 0
    let m = Expr::var("M");
    let r = Expr::var("r");
    let f = Expr::one() - Expr::integer(2) * m * r.pow(-1);
    let e = f.clone().pow(-1) * f - Expr::one();
    assert_eq!(normalize(&e).unwrap(), Expr::zero());
}

#[test]
fn normalizing_twice_changes_nothing() {
    let m = Expr::var("M");
    let r = Expr::var("r");
    let e = (Expr::one() - Expr::integer(2) * m.clone() / r.clone()).pow(3) + m / r.pow(2);
    let once = nf(&e);
    assert_eq!(nf(&once), once);
}
