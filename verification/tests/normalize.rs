use oderom::expr::Expr;
use oderom::rational_form::normalize as normalize_opt;

fn normalize(e: &Expr) -> Expr {
    normalize_opt(e).expect("the engine reaches a normal form")
}

#[test]
fn normalize_does_not_canonicalize_scale_factor_placement_around_pow_neg1() {
    let x = Expr::var("x");
    let half_times_inverse = Expr::rational(1, 2) * x.clone().pow(-1);
    let inverse_of_double = Expr::Pow(Box::new(Expr::integer(2) * x), -1);
    assert_ne!(normalize(&half_times_inverse), normalize(&inverse_of_double));
}

#[test]
fn shape_ambiguity_around_pow_neg1_does_not_survive_as_a_false_nonzero() {
    let x = Expr::var("x");
    let stored_a = normalize(&(Expr::rational(1, 2) * x.clone().pow(-1)));
    let stored_b = normalize(&Expr::Pow(Box::new(Expr::integer(2) * x), -1));
    assert_ne!(stored_a, stored_b);
    let combined_later = stored_a + Expr::integer(-1) * stored_b;
    let result = normalize(&combined_later);
    assert!(result.is_zero(), "{result:?}");
}

#[test]
fn folds_rational_arithmetic() {
    let e = Expr::integer(2) + Expr::integer(3) * Expr::integer(4);
    assert_eq!(normalize(&e), Expr::integer(14));
}

#[test]
fn combines_like_terms_regardless_of_order() {
    let x = Expr::var("x");
    let a = normalize(&(x.clone() + x.clone()));
    let b = normalize(&(Expr::integer(2) * x));
    assert_eq!(a, b);
    assert_eq!(a, Expr::integer(2) * Expr::var("x"));
}

#[test]
fn combines_like_powers() {
    let x = Expr::var("x");
    let e = x.clone() * x.clone().pow(2);
    assert_eq!(normalize(&e), Expr::var("x").pow(3));
}

#[test]
fn cancels_reciprocal_factor() {
    let r = Expr::var("r");
    let e = r.clone() * r.pow(-1);
    assert_eq!(normalize(&e), Expr::one());
}

#[test]
fn cancels_reciprocal_of_a_sum() {
    let f = Expr::one() - Expr::integer(2) * Expr::var("M") / Expr::var("r");
    let e = f.clone() * Expr::Pow(Box::new(f), -1);
    assert_eq!(normalize(&e), Expr::one());
}

#[test]
fn a_sum_and_its_algebraic_negation_are_recognized_as_the_same_base() {
    let f = Expr::one() - Expr::integer(2) * Expr::var("M") / Expr::var("r");
    let neg_f = Expr::integer(-1) + Expr::integer(2) * Expr::var("M") / Expr::var("r");
    let e = Expr::Pow(Box::new(f), -1) * neg_f;
    assert_eq!(normalize(&e), Expr::integer(-1));
}

#[test]
fn distributes_multiplication_over_addition() {
    let x = Expr::var("x");
    let e = Expr::integer(2) * (x.clone() + Expr::integer(3));
    let expected = Expr::integer(2) * x + Expr::integer(6);
    assert_eq!(normalize(&e), normalize(&expected));
}

#[test]
fn expands_positive_integer_power_of_a_sum() {
    let x = Expr::var("x");
    let e = (x.clone() + Expr::one()).pow(2);
    let expected = x.clone().pow(2) + Expr::integer(2) * x + Expr::one();
    assert_eq!(normalize(&e), normalize(&expected));
}

#[test]
fn a_bare_sum_still_cancels_its_own_reciprocal_power_instead_of_expanding() {
    let x = Expr::var("x");
    let f = x + Expr::one();
    let e = Expr::Pow(Box::new(f.clone()), -1) * f;
    assert_eq!(normalize(&e), Expr::one());
}

#[test]
fn cancellation_survives_alongside_unrelated_expansion() {
    let x = Expr::var("x");
    let y = Expr::var("y");
    let f = x + Expr::one();
    let e = Expr::Pow(Box::new(f.clone()), -1) * f * (y.clone() + Expr::integer(2));
    assert_eq!(normalize(&e), normalize(&(y + Expr::integer(2))));
}

#[test]
fn zero_coefficient_terms_vanish() {
    let x = Expr::var("x");
    let e = x.clone() - x;
    assert_eq!(normalize(&e), Expr::zero());
}

#[test]
fn idempotent() {
    let x = Expr::var("x");
    let e = (x.clone() + Expr::one()).pow(2) * Expr::integer(3);
    let once = normalize(&e);
    let twice = normalize(&once);
    assert_eq!(once, twice);
}

#[test]
fn cos_squared_of_the_same_argument_inside_a_gcd_used_to_break_subresultant_prs() {
    let e = Expr::Add(vec![
        Expr::integer(0).cos(),
        Expr::Pow(Box::new(Expr::Add(vec![Expr::var("r"), Expr::var("x")])), -3),
        Expr::Add(vec![Expr::var("r"), Expr::integer(-1)]),
    ]);
    let _ = normalize(&e);
}

#[test]
fn kretschmann_shaped_numerator_over_a_power_of_the_lapse_collapses() {
    // 48 M^2 r^-6 (1 - 2M/r)^4, expanded, divided by (1 - 2M/r)^4.
    let m = Expr::var("M");
    let r = Expr::var("r");
    let f = Expr::one() - Expr::integer(2) * m.clone() / r.clone();
    let numerator = Expr::integer(-1536) * m.clone().pow(5) * r.clone().pow(-9)
        + Expr::integer(-384) * m.clone().pow(3) * r.clone().pow(-7)
        + Expr::integer(48) * m.clone().pow(2) * r.clone().pow(-6)
        + Expr::integer(768) * m.clone().pow(6) * r.clone().pow(-10)
        + Expr::integer(1152) * m.clone().pow(4) * r.clone().pow(-8);
    let e = numerator * Expr::Pow(Box::new(f), -4);
    let expected = Expr::integer(48) * m.pow(2) * r.pow(-6);
    assert_eq!(normalize(&e), normalize(&expected));
}
