use oderom::big_scalar::BigScalar;
use oderom::expr::Expr;
use oderom::localization::{expr_to_localized, localized_to_expr, normalize_localized, LocalizationContext, LocalizedRational};
use oderom::poly::Poly;
use oderom::rational_form::normalize as general_normalize;

fn sigma_expr() -> Expr {
    Expr::var("r").pow(2) + Expr::var("a").pow(2) * Expr::var("theta").cos().pow(2)
}

fn delta_expr() -> Expr {
    Expr::var("r").pow(2) - Expr::integer(2) * Expr::var("M") * Expr::var("r") + Expr::var("a").pow(2)
}

fn scalar(s: &BigScalar) -> f64 {
    let text = s.to_text();
    match text.split_once('/') {
        Some((n, d)) => n.parse::<f64>().unwrap() / d.parse::<f64>().unwrap(),
        None => text.parse::<f64>().unwrap(),
    }
}

fn eval(e: &Expr, vars: &[(&str, f64)]) -> f64 {
    match e {
        Expr::Rational(s) => scalar(s),
        Expr::Var(name) => vars.iter().find(|(n, _)| *n == name).map(|(_, v)| *v).unwrap_or_else(|| panic!("unbound var {name}")),
        Expr::Add(terms) => terms.iter().map(|t| eval(t, vars)).sum(),
        Expr::Mul(factors) => factors.iter().map(|f| eval(f, vars)).product(),
        Expr::Pow(base, n) => eval(base, vars).powi(*n),
        Expr::Sin(arg) => eval(arg, vars).sin(),
        Expr::Cos(arg) => eval(arg, vars).cos(),
        Expr::Exp(arg) => eval(arg, vars).exp(),
        Expr::Sinh(arg) => eval(arg, vars).sinh(),
        Expr::Cosh(arg) => eval(arg, vars).cosh(),
        Expr::Func { name, .. } => panic!("no numeric value for indeterminate function `{name}` in this test"),
    }
}

const VARS: &[(&str, f64)] = &[("r", 3.0), ("a", 0.7), ("M", 1.3), ("theta", 0.9)];

fn ctx_of(seeds: Vec<Expr>) -> LocalizationContext {
    LocalizationContext::new(&seeds).expect("seeding reaches a context")
}

fn localize(e: &Expr, ctx: &mut LocalizationContext) -> LocalizedRational {
    match expr_to_localized(e, ctx, false).expect("the engine reaches a form") {
        Ok(lr) => lr,
        Err(err) => panic!("{}", err.message()),
    }
}

fn assert_matches_general_engine(e: &Expr, ctx: &mut LocalizationContext) {
    let localized = match normalize_localized(e, ctx, false).unwrap() {
        Ok(x) => x,
        Err(err) => panic!("{}", err.message()),
    };
    let general = general_normalize(e).unwrap();
    let lv = eval(&localized, VARS);
    let gv = eval(&general, VARS);
    assert!((lv - gv).abs() < 1e-6, "localized={lv} general={gv}\nlocalized_expr={localized:?}\ngeneral_expr={general:?}");
}

#[test]
fn adding_the_same_reciprocal_generator_twice_collects_without_squaring_the_denominator() {
    let mut ctx = ctx_of(vec![sigma_expr()]);
    let e = Expr::Pow(Box::new(sigma_expr()), -1) + Expr::Pow(Box::new(sigma_expr()), -1);
    let lr = localize(&e, &mut ctx);
    assert_eq!(lr.den().clone(), vec![(0, 1)], "{:?}", lr.den());
    assert!(ctx.fallback_log().is_empty(), "{:?}", ctx.fallback_log());
    assert_matches_general_engine(&e, &mut ctx);
}

#[test]
fn sigma_over_one_times_one_over_sigma_cancels_to_the_literal_one() {
    let mut ctx = ctx_of(vec![sigma_expr()]);
    let e = sigma_expr() * Expr::Pow(Box::new(sigma_expr()), -1);
    let lr = localize(&e, &mut ctx);
    assert!(lr.den().is_empty(), "{:?}", lr.den());
    assert!(lr.num().is_literal_one());
}

#[test]
fn a_kerr_shaped_cancellation_reduces_to_zero_not_merely_smaller() {
    let mut ctx = ctx_of(vec![sigma_expr()]);
    let e = Expr::Pow(Box::new(sigma_expr()), -1) - sigma_expr() * Expr::Pow(Box::new(sigma_expr().pow(2)), -1);
    let result = normalize_localized(&e, &mut ctx, false).unwrap().ok().unwrap();
    assert_eq!(result, Expr::zero(), "{result:?}");
}

#[test]
fn an_unseeded_denominator_is_auto_admitted_as_a_new_generator() {
    let mut ctx = ctx_of(vec![delta_expr()]);
    assert_eq!(ctx.generator_count(), 1);
    let e = Expr::Pow(Box::new(sigma_expr()), -1);
    let _ = localize(&e, &mut ctx);
    assert_eq!(ctx.generator_count(), 2, "Sigma should have been auto-admitted as a second generator");
    assert!(ctx.fallback_log().is_empty(), "{:?}", ctx.fallback_log());
}

#[test]
fn sin_theta_squared_encountered_before_bare_sin_theta_still_decomposes() {
    let mut ctx = ctx_of(vec![]);
    let e = Expr::Pow(Box::new(Expr::var("theta").sin().pow(2)), -1);
    let lr = localize(&e, &mut ctx);
    assert_eq!(lr.den().clone(), vec![(0, 2)], "{:?}", lr.den());
    assert!(ctx.fallback_log().is_empty(), "{:?}", ctx.fallback_log());
}

#[test]
fn a_denominator_that_is_the_product_of_two_known_generators_decomposes_instead_of_falling_back() {
    let mut ctx = ctx_of(vec![sigma_expr(), delta_expr()]);
    assert_eq!(ctx.generator_count(), 2);
    let sigma_times_delta = sigma_expr() * delta_expr();
    let e = Expr::Pow(Box::new(sigma_times_delta), -1);
    let lr = localize(&e, &mut ctx);
    assert_eq!(ctx.generator_count(), 2, "must not have admitted a third, composite generator");
    assert!(ctx.fallback_log().is_empty(), "{:?}", ctx.fallback_log());
    let mut den = lr.den().clone();
    den.sort();
    assert_eq!(den, vec![(0, 1), (1, 1)], "expected Sigma^1 * Delta^1, got {den:?}");
    assert!(lr.overflow().is_literal_one());
}

#[test]
fn a_squared_denominator_recovers_its_repeated_factor_instead_of_falling_back() {
    let mut ctx = ctx_of(vec![]);
    let x = Expr::var("x");
    let squared = (x.clone() - Expr::one()).pow(2);
    let e = Expr::Pow(Box::new(squared), -1);
    let lr = localize(&e, &mut ctx);
    assert_eq!(lr.den().clone(), vec![(0, 2)], "{:?}", lr.den());
    assert!(lr.overflow().is_literal_one());
    assert!(ctx.fallback_log().is_empty(), "{:?}", ctx.fallback_log());
    let vars: &[(&str, f64)] = &[("x", 5.0)];
    let localized_val = eval(&localized_to_expr(&lr, &mut ctx).unwrap(), vars);
    assert!((localized_val - 1.0 / 16.0).abs() < 1e-9, "{localized_val}");
}

#[test]
fn a_denominator_not_square_free_even_after_extracting_one_repeated_factor_falls_back() {
    let mut ctx = ctx_of(vec![]);
    let x = Expr::var("x");
    let cubed = (x.clone() - Expr::one()).pow(3);
    let e = Expr::Pow(Box::new(cubed), -1);
    let lr = localize(&e, &mut ctx);
    assert!(lr.den().is_empty(), "{:?}", lr.den());
    assert!(!lr.overflow().is_literal_one());
    assert!(!ctx.fallback_log().is_empty());
    let vars: &[(&str, f64)] = &[("x", 5.0)];
    let localized_val = eval(&localized_to_expr(&lr, &mut ctx).unwrap(), vars);
    assert!((localized_val - 1.0 / 64.0).abs() < 1e-9, "{localized_val}");
}

#[test]
fn the_execution_budget_actually_fires_at_the_fallback_boundary() {
    let mut ctx = ctx_of(vec![sigma_expr()]);
    let x = Expr::var("x");
    let cubed = (x.clone() - Expr::one()).pow(3);
    let lr_with_overflow = localize(&Expr::Pow(Box::new(cubed), -1), &mut ctx);
    assert!(!lr_with_overflow.overflow().is_literal_one());

    let other = LocalizedRational::from_plain(Poly::constant(BigScalar::one()));
    let err = match lr_with_overflow.add(&other, &mut ctx, true).unwrap() {
        Ok(_) => panic!("a spent budget must produce an error, not a value"),
        Err(err) => err,
    };

    let rendered_denominator = err.denominator.to_text();
    assert!(rendered_denominator.contains('x'), "{rendered_denominator:?}");
    let rendered_generators: Vec<String> = err.generators.iter().map(|g| g.to_text()).collect();
    assert_eq!(rendered_generators.len(), 1, "{rendered_generators:?}");

    let message = err.message();
    assert!(message.contains(&rendered_denominator), "{message}");
    assert!(message.contains(&rendered_generators[0]), "{message}");
}

#[test]
fn matches_the_general_engine_on_a_sum_of_three_kerr_shaped_terms() {
    let mut ctx = ctx_of(vec![sigma_expr(), delta_expr()]);
    let sin_theta = Expr::var("theta").sin();
    let e = Expr::var("M") * Expr::Pow(Box::new(sigma_expr()), -2)
        + Expr::var("a") * sin_theta * Expr::Pow(Box::new(delta_expr()), -1)
        + Expr::integer(3) * Expr::Pow(Box::new(sigma_expr()), -1);
    assert_matches_general_engine(&e, &mut ctx);
    assert!(ctx.fallback_log().is_empty(), "{:?}", ctx.fallback_log());
}

fn final_generator_set(order: &[Expr]) -> Vec<String> {
    let mut ctx = ctx_of(vec![]);
    for candidate in order {
        let e = Expr::Pow(Box::new(candidate.clone()), -1);
        let _ = localize(&e, &mut ctx);
    }
    let mut set: Vec<String> = ctx.generator_sources().iter().map(|g| g.to_text()).collect();
    set.sort();
    set
}

fn permute(arr: &mut Vec<Expr>, k: usize, visit: &mut dyn FnMut(&[Expr])) {
    if k == arr.len() {
        visit(arr);
        return;
    }
    for i in k..arr.len() {
        arr.swap(k, i);
        permute(arr, k + 1, visit);
        arr.swap(k, i);
    }
}

fn assert_all_permutations_agree(candidates: &[Expr]) {
    let reference = final_generator_set(candidates);
    let mut perm = candidates.to_vec();
    permute(&mut perm, 0, &mut |ordering| {
        assert_eq!(final_generator_set(ordering), reference, "ordering {ordering:?} produced a different generator set");
    });
}

fn sigma() -> Expr {
    sigma_expr()
}

fn delta() -> Expr {
    delta_expr()
}

#[test]
fn kerr_shaped_atomic_denominators_reach_the_same_generator_set_regardless_of_order() {
    assert_all_permutations_agree(&[sigma(), delta(), Expr::var("theta").sin(), Expr::var("theta").sin().pow(2)]);
}

#[test]
fn the_exact_ordering_that_caused_the_original_bug_is_named_explicitly() {
    let bug_order = [Expr::var("theta").sin().pow(2), Expr::var("theta").sin(), sigma(), delta()];
    let natural_order = [sigma(), delta(), Expr::var("theta").sin(), Expr::var("theta").sin().pow(2)];
    assert_eq!(final_generator_set(&bug_order), final_generator_set(&natural_order));
}

#[test]
fn composite_mixed_with_its_own_factors_still_reaches_the_same_generator_set() {
    assert_all_permutations_agree(&[sigma() * delta(), sigma(), delta()]);
}
