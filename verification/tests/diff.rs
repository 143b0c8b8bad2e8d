use oderom::diff::diff;
use oderom::expr::Expr;
use oderom::rational_form::normalize;

fn nf(e: &Expr) -> Expr {
    normalize(e).unwrap()
}

#[test]
fn derivative_of_a_constant_and_of_variables() {
    assert_eq!(diff(&Expr::integer(5), "r"), Expr::zero());
    assert_eq!(diff(&Expr::var("r"), "r"), Expr::one());
    assert_eq!(diff(&Expr::var("theta"), "r"), Expr::zero());
}

#[test]
fn power_rule_shape() {
    let e = Expr::var("r").pow(3);
    let expected = Expr::Mul(vec![Expr::integer(3), Expr::var("r").pow(2), Expr::one()]);
    assert_eq!(diff(&e, "r"), expected);
    assert_eq!(diff(&Expr::var("r").pow(0), "r"), Expr::zero());
}

#[test]
fn generalized_product_rule_shape() {
    let e = Expr::Mul(vec![Expr::var("a"), Expr::var("b"), Expr::var("c")]);
    let expected = Expr::Add(vec![
        Expr::Mul(vec![Expr::one(), Expr::var("b"), Expr::var("c")]),
        Expr::Mul(vec![Expr::zero(), Expr::var("a"), Expr::var("c")]),
        Expr::Mul(vec![Expr::zero(), Expr::var("a"), Expr::var("b")]),
    ]);
    assert_eq!(diff(&e, "a"), expected);
}

#[test]
fn chain_rules_through_the_known_functions() {
    let u = Expr::var("r");
    assert_eq!(diff(&u.clone().sin(), "r"), Expr::Mul(vec![u.clone().cos(), Expr::one()]));
    assert_eq!(diff(&u.clone().cos(), "r"), Expr::Mul(vec![Expr::integer(-1), u.clone().sin(), Expr::one()]));
    assert_eq!(diff(&u.clone().exp(), "r"), Expr::Mul(vec![u.clone().exp(), Expr::one()]));
    assert_eq!(diff(&u.clone().sinh(), "r"), Expr::Mul(vec![u.clone().cosh(), Expr::one()]));
    assert_eq!(diff(&u.clone().cosh(), "r"), Expr::Mul(vec![u.sinh(), Expr::one()]));
}

#[test]
fn indeterminate_function_partials_raise_one_order() {
    let t = Expr::var("t");
    let r = Expr::var("r");
    let h = Expr::func("h", vec![t.clone(), r.clone()]);
    let expected = Expr::Add(vec![
        Expr::Mul(vec![Expr::Func { name: "h".to_string(), args: vec![t.clone(), r.clone()], order: vec![1, 0] }, Expr::zero()]),
        Expr::Mul(vec![Expr::Func { name: "h".to_string(), args: vec![t, r], order: vec![0, 1] }, Expr::one()]),
    ]);
    assert_eq!(diff(&h, "r"), expected);
}

#[test]
fn a_sum_differentiates_term_by_term() {
    let e = Expr::var("x") + Expr::integer(7);
    assert_eq!(diff(&e, "x"), Expr::Add(vec![Expr::one(), Expr::zero()]));
}

#[test]
fn derivative_of_constant_is_zero() {
    assert_eq!(nf(&diff(&Expr::integer(5), "r")), Expr::zero());
}

#[test]
fn derivative_of_var_wrt_itself_is_one() {
    assert_eq!(nf(&diff(&Expr::var("r"), "r")), Expr::one());
}

#[test]
fn derivative_of_unrelated_var_is_zero() {
    assert_eq!(nf(&diff(&Expr::var("theta"), "r")), Expr::zero());
}

#[test]
fn power_rule() {
    // d(r^3)/dr = 3 r^2
    let e = Expr::var("r").pow(3);
    let expected = Expr::integer(3) * Expr::var("r").pow(2);
    assert_eq!(nf(&diff(&e, "r")), nf(&expected));
}

#[test]
fn negative_power_rule() {
    // d(r^-1)/dr = -1 * r^-2
    let e = Expr::var("r").pow(-1);
    let expected = Expr::integer(-1) * Expr::var("r").pow(-2);
    assert_eq!(nf(&diff(&e, "r")), nf(&expected));
}

#[test]
fn product_rule() {
    // d(r * M)/dr = M   (M constant wrt r)
    let e = Expr::var("r") * Expr::var("M");
    assert_eq!(nf(&diff(&e, "r")), Expr::var("M"));
}

#[test]
fn chain_rule_through_sin() {
    // d(sin(2r))/dr = 2 cos(2r)
    let e = (Expr::integer(2) * Expr::var("r")).sin();
    let expected = Expr::integer(2) * (Expr::integer(2) * Expr::var("r")).cos();
    assert_eq!(nf(&diff(&e, "r")), nf(&expected));
}

#[test]
fn derivative_of_1_minus_2m_over_r() {
    // d/dr (1 - 2M/r) = 2M/r^2
    let e = Expr::one() - Expr::integer(2) * Expr::var("M") / Expr::var("r");
    let expected = Expr::integer(2) * Expr::var("M") * Expr::var("r").pow(-2);
    assert_eq!(nf(&diff(&e, "r")), nf(&expected));
}

#[test]
fn exp_is_its_own_derivative() {
    // d(exp(r))/dr = exp(r)
    let e = Expr::var("r").exp();
    assert_eq!(nf(&diff(&e, "r")), nf(&Expr::var("r").exp()));
}

#[test]
fn chain_rule_through_exp() {
    // d(exp(2r))/dr = 2*exp(2r)
    let e = (Expr::integer(2) * Expr::var("r")).exp();
    let expected = Expr::integer(2) * (Expr::integer(2) * Expr::var("r")).exp();
    assert_eq!(nf(&diff(&e, "r")), nf(&expected));
}

#[test]
fn sinh_derives_to_cosh() {
    // d(sinh(2r))/dr = 2*cosh(2r) -- no sign flip, unlike cos.
    let e = (Expr::integer(2) * Expr::var("r")).sinh();
    let expected = Expr::integer(2) * (Expr::integer(2) * Expr::var("r")).cosh();
    assert_eq!(nf(&diff(&e, "r")), nf(&expected));
}

#[test]
fn cosh_derives_to_sinh() {
    // d(cosh(2r))/dr = 2*sinh(2r) -- also no sign flip.
    let e = (Expr::integer(2) * Expr::var("r")).cosh();
    let expected = Expr::integer(2) * (Expr::integer(2) * Expr::var("r")).sinh();
    assert_eq!(nf(&diff(&e, "r")), nf(&expected));
}

// -----------------------------------------------------------------
// Marco 6 step 4: indeterminate functions (DESIGN-M6-PREP.md
// section 1). `f`'s derivative is itself, one order higher -- never
// a fixed sibling function the way sin's derivative is always
// literally cos -- so these are the chain rule generalized over
// `order`, not a set of special cases.
// -----------------------------------------------------------------

fn f_of(r: Expr) -> Expr {
    Expr::func("f", vec![r])
}

fn g_of(r: Expr) -> Expr {
    Expr::func("g", vec![r])
}

fn f_prime_of(r: Expr) -> Expr {
    Expr::Func { name: "f".to_string(), args: vec![r], order: vec![1] }
}

fn g_prime_of(r: Expr) -> Expr {
    Expr::Func { name: "g".to_string(), args: vec![r], order: vec![1] }
}

fn f_double_prime_of(r: Expr) -> Expr {
    Expr::Func { name: "f".to_string(), args: vec![r], order: vec![2] }
}

#[test]
fn derivative_of_an_indeterminate_function_wrt_its_own_argument_is_the_bare_prime() {
    // diff(f(r), r) = f'(r).
    let result = nf(&diff(&f_of(Expr::var("r")), "r"));
    let expected = nf(&f_prime_of(Expr::var("r")));
    assert_eq!(result, expected);
}

#[test]
fn power_and_chain_rule_compose_through_an_indeterminate_function() {
    // diff(f(r)^2, r) = 2*f(r)*f'(r).
    let e = f_of(Expr::var("r")).pow(2);
    let result = nf(&diff(&e, "r"));
    let expected = nf(&(Expr::integer(2) * f_of(Expr::var("r")) * f_prime_of(Expr::var("r"))));
    assert_eq!(result, expected);
}

#[test]
fn product_rule_composes_through_two_distinct_indeterminate_functions() {
    // diff(f(r)*g(r), r) = f'(r)*g(r) + f(r)*g'(r).
    let e = f_of(Expr::var("r")) * g_of(Expr::var("r"));
    let result = nf(&diff(&e, "r"));
    let expected =
        nf(&(f_prime_of(Expr::var("r")) * g_of(Expr::var("r")) + f_of(Expr::var("r")) * g_prime_of(Expr::var("r"))));
    assert_eq!(result, expected);
}

#[test]
fn derivative_of_an_indeterminate_function_wrt_an_unrelated_coordinate_is_zero() {
    // diff(f(r), t) = 0 -- falls out of the chain rule itself
    // (diff(r, t) = 0), not a special case: see `diff`'s own `Func`
    // arm doc comment.
    let result = nf(&diff(&f_of(Expr::var("r")), "t"));
    assert_eq!(result, Expr::zero());
}

#[test]
fn second_derivative_of_an_indeterminate_function_is_order_two() {
    // diff(diff(f(r), r), r) = f''(r).
    let once = diff(&f_of(Expr::var("r")), "r");
    let result = nf(&diff(&once, "r"));
    let expected = nf(&f_double_prime_of(Expr::var("r")));
    assert_eq!(result, expected);
}

#[test]
fn multivariable_partial_derivative_picks_out_only_the_matching_argument_slot() {
    // h(t, r): dh/dt and dh/dr are two DISTINCT order-one partials
    // (order [1,0] vs [0,1]) -- neither collapses into the other,
    // and differentiating wrt a genuinely unrelated third variable
    // is zero, the same "falls out of the chain rule" property the
    // single-argument case has.
    let t = Expr::var("t");
    let r = Expr::var("r");
    let h = Expr::func("h", vec![t.clone(), r.clone()]);

    let dh_dt = nf(&diff(&h, "t"));
    let expected_dt = nf(&Expr::Func { name: "h".to_string(), args: vec![t.clone(), r.clone()], order: vec![1, 0] });
    assert_eq!(dh_dt, expected_dt);

    let dh_dr = nf(&diff(&h, "r"));
    let expected_dr = nf(&Expr::Func { name: "h".to_string(), args: vec![t.clone(), r.clone()], order: vec![0, 1] });
    assert_eq!(dh_dr, expected_dr);

    assert_ne!(dh_dt, dh_dr, "the two distinct partials must not collapse into each other");

    let dh_ds = nf(&diff(&h, "s"));
    assert_eq!(dh_ds, Expr::zero(), "differentiating wrt a variable that appears in none of h's arguments must be zero");
}

#[test]
fn second_mixed_partial_of_a_multivariable_indeterminate_function() {
    // d^2h/dt dr: differentiate h(t,r) wrt t (giving order [1,0]),
    // then that result wrt r (giving order [1,1]) -- confirms
    // `order` accumulates correctly across two separate `diff`
    // calls on different variables, not just repeated calls on the
    // same one (the single-argument second-derivative test above).
    let t = Expr::var("t");
    let r = Expr::var("r");
    let h = Expr::func("h", vec![t.clone(), r.clone()]);
    let dh_dt = diff(&h, "t");
    let mixed = nf(&diff(&dh_dt, "r"));
    let expected = nf(&Expr::Func { name: "h".to_string(), args: vec![t, r], order: vec![1, 1] });
    assert_eq!(mixed, expected);
}

#[test]
fn distinct_indeterminate_functions_never_cancel_or_collapse() {
    // f(r) - f(r) = 0 (same atom, cancels normally), but f(r) -
    // g(r) must NOT collapse to zero or otherwise simplify -- an
    // indeterminate function has no identity relating it to a
    // different one (DESIGN-M6-PREP.md section 1: unlike sin/cos,
    // no cross-atom rewrite exists or should ever be invented for
    // this atom).
    let r = Expr::var("r");
    assert_eq!(nf(&(f_of(r.clone()) - f_of(r.clone()))), Expr::zero());
    assert_ne!(nf(&(f_of(r.clone()) - g_of(r))), Expr::zero());
}
