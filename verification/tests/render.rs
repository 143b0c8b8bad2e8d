use oderom::expr::Expr;
use oderom::render::{assemble_mul, join_signed, json_escape, latex_var, parenthesize_if, split_sign, Target};

fn func(name: &str, args: Vec<Expr>, order: Vec<u32>) -> Expr {
    Expr::Func { name: name.to_string(), args, order }
}

#[test]
fn unicode_infix_with_precedence() {
    let m = Expr::var("M");
    let r = Expr::var("r");
    let kretschmann = Expr::integer(48) * m.clone().pow(2) * r.clone().pow(-6);
    assert_eq!(kretschmann.render(Target::Unicode), "48*M^2/r^6");

    // The normal form of 1 - 2M/r: one fraction with a sum numerator.
    let schwarzschild_gtt_normal = Expr::Mul(vec![
        Expr::Add(vec![Expr::Mul(vec![Expr::integer(-2), m]), r.clone()]),
        r.pow(-1),
    ]);
    assert_eq!(schwarzschild_gtt_normal.render(Target::Unicode), "(-2*M + r)/r");

    let squared_sum = (Expr::var("a") + Expr::var("b")).pow(2);
    assert_eq!(squared_sum.render(Target::Unicode), "(a + b)^2");
}

#[test]
fn latex_uses_frac_and_greek_macros() {
    let m = Expr::var("M");
    let r = Expr::var("r");
    let kretschmann = Expr::integer(48) * m * r.pow(-6);
    assert_eq!(kretschmann.render(Target::Latex), "\\frac{48 M}{r^{6}}");

    let theta = Expr::var("theta");
    assert_eq!(theta.sin().render(Target::Latex), "\\sin\\left(\\theta\\right)");
}

#[test]
fn json_is_a_tagged_tree() {
    let e = Expr::var("x").pow(2) + Expr::integer(1);
    assert_eq!(
        e.render(Target::Json),
        r#"{"type":"Add","terms":[{"type":"Pow","base":{"type":"Var","name":"x"},"exp":2},{"type":"Rational","value":{"num":1,"den":1}}]}"#
    );
}

#[test]
fn display_matches_unicode_target() {
    let e = Expr::var("x") + Expr::integer(1);
    assert_eq!(e.to_text(), e.render(Target::Unicode));
}

#[test]
fn mathematica_power_and_builtin_functions() {
    let m = Expr::var("M");
    let r = Expr::var("r");
    let kretschmann = Expr::integer(48) * m.clone().pow(2) * r.clone().pow(-6);
    assert_eq!(kretschmann.render(Target::Mathematica), "48*M^2/r^6");

    let theta = Expr::var("theta");
    assert_eq!(theta.clone().sin().render(Target::Mathematica), "Sin[theta]");
    assert_eq!(theta.clone().cos().render(Target::Mathematica), "Cos[theta]");
    assert_eq!(theta.exp().render(Target::Mathematica), "Exp[theta]");

    assert_eq!(r.pow(-6).render(Target::Mathematica), "r^(-6)");
}

#[test]
fn mathematica_indeterminate_function_and_derivative() {
    let r = Expr::var("r");
    assert_eq!(func("f", vec![r.clone()], vec![0]).render(Target::Mathematica), "f[r]");
    assert_eq!(func("f", vec![r.clone()], vec![1]).render(Target::Mathematica), "f'[r]");
    assert_eq!(func("f", vec![r.clone()], vec![2]).render(Target::Mathematica), "f''[r]");

    let t = Expr::var("t");
    assert_eq!(func("h", vec![t.clone(), r.clone()], vec![2, 1]).render(Target::Mathematica), "D[h[t, r], {t, 2}, {r, 1}]");
    assert_eq!(func("h", vec![t, r], vec![0, 0]).render(Target::Mathematica), "h[t, r]");
}

#[test]
fn mathematica_rational_literal_is_exact_division() {
    let e = Expr::rational(3, 4) * Expr::var("M");
    assert_eq!(e.render(Target::Mathematica), "3/4*M");
}

#[test]
fn sympy_power_and_builtin_functions_and_explicit_star() {
    let m = Expr::var("M");
    let r = Expr::var("r");
    let kretschmann = Expr::integer(48) * m.clone().pow(2) * r.clone().pow(-6);
    assert_eq!(kretschmann.render(Target::Sympy), "48*M**2/r**6");

    let theta = Expr::var("theta");
    assert_eq!(theta.sin().render(Target::Sympy), "sin(theta)");

    assert_eq!(r.pow(-6).render(Target::Sympy), "r**(-6)");

    let two_m = Expr::integer(2) * m;
    assert_eq!(two_m.render(Target::Sympy), "2*M");
}

#[test]
fn sympy_indeterminate_function_and_derivative() {
    let r = Expr::var("r");
    assert_eq!(func("f", vec![r.clone()], vec![0]).render(Target::Sympy), "Function('f')(r)");
    assert_eq!(func("f", vec![r.clone()], vec![1]).render(Target::Sympy), "Derivative(Function('f')(r), r, 1)");

    let t = Expr::var("t");
    assert_eq!(func("h", vec![t.clone(), r.clone()], vec![2, 1]).render(Target::Sympy), "Derivative(Function('h')(t, r), t, 2, r, 1)");
    assert_eq!(func("h", vec![t, r], vec![0, 0]).render(Target::Sympy), "Function('h')(t, r)");
}

#[test]
fn sympy_fraction_literal_is_wrapped_never_bare_python_division() {
    let e = Expr::rational(3, 4) * Expr::var("M");
    assert_eq!(e.render(Target::Sympy), "Rational(3, 4)*M");

    let negative = Expr::rational(-3, 4);
    assert_eq!(negative.render(Target::Sympy), "Rational(-3, 4)");

    let integer_coeff = Expr::integer(48) * Expr::var("M");
    assert_eq!(integer_coeff.render(Target::Sympy), "48*M");
}

#[test]
fn mathematica_and_sympy_never_escape_greek_names_to_latex_macros() {
    let theta = Expr::var("theta");
    assert_eq!(theta.render(Target::Mathematica), "theta");
    assert_eq!(theta.render(Target::Sympy), "theta");
}

#[test]
fn unicode_and_latex_indeterminate_functions() {
    let r = Expr::var("r");
    let t = Expr::var("t");
    assert_eq!(func("f", vec![r.clone()], vec![2]).render(Target::Unicode), "f''(r)");
    assert_eq!(func("h", vec![t.clone(), r.clone()], vec![2, 1]).render(Target::Unicode), "h_ttr(t,r)");
    assert_eq!(func("h", vec![t.clone(), r.clone()], vec![0, 0]).render(Target::Unicode), "h(t,r)");
    assert_eq!(func("h", vec![Expr::integer(2), r.clone()], vec![1, 0]).render(Target::Unicode), "h_arg1(2,r)");
    assert_eq!(func("psi", vec![Expr::var("theta"), r.clone()], vec![1, 1]).render(Target::Latex), "\\psi_{\\theta r}(\\theta, r)");
    assert_eq!(func("f", vec![r], vec![1]).render(Target::Latex), "f'(r)");
}

#[test]
fn negative_terms_join_with_a_minus() {
    let e = Expr::var("a") - Expr::integer(2) * Expr::var("b");
    assert_eq!(e.render(Target::Unicode), "a - 2*b");
    let nested = Expr::Add(vec![Expr::Add(vec![]), Expr::Add(vec![Expr::var("x"), Expr::integer(-1)])]);
    assert_eq!(nested.render(Target::Unicode), "x - 1");
    assert_eq!(Expr::Add(vec![]).render(Target::Unicode), "0");
    assert_eq!(Expr::Mul(vec![]).render(Target::Unicode), "1");
}

#[test]
fn products_fold_coefficients_and_signs() {
    let e = Expr::integer(-2) * Expr::rational(3, 4) * Expr::var("x") * Expr::var("y").pow(-2) * Expr::var("z").pow(-1);
    assert_eq!(e.render(Target::Unicode), "-3/2*x/(y^2*z)");
    assert_eq!(e.render(Target::Latex), "-\\frac{\\frac{3}{2} x}{y^{2} z}");
    assert_eq!((Expr::integer(-1) * Expr::var("x")).render(Target::Unicode), "-x");
    assert_eq!((Expr::one() * Expr::var("x").pow(-1)).render(Target::Latex), "\\frac{1}{x}");
}

#[test]
fn json_of_functions_and_escapes() {
    let e = Expr::Func { name: "g\"".to_string(), args: vec![Expr::var("a\\b").cosh()], order: vec![3] };
    assert_eq!(
        e.render(Target::Json),
        r#"{"type":"Func","name":"g\"","args":[{"type":"Cosh","arg":{"type":"Var","name":"a\\b"}}],"order":[3]}"#
    );
}

#[test]
fn latex_var_macros_only_for_greek_letters() {
    assert_eq!(latex_var("theta"), "\\theta");
    assert_eq!(latex_var("Theta"), "\\Theta");
    assert_eq!(latex_var("PHI"), "\\Phi");
    assert_eq!(latex_var("r"), "r");
    assert_eq!(latex_var("thetas"), "thetas");
}

#[test]
fn small_text_helpers() {
    assert_eq!(split_sign("-3/4".to_string()), (true, "3/4".to_string()));
    assert_eq!(split_sign("x".to_string()), (false, "x".to_string()));
    assert_eq!(join_signed(vec!["-a".to_string(), "b".to_string(), "-c".to_string()], "0"), "-a + b - c");
    assert_eq!(join_signed(vec![], "0"), "0");
    assert_eq!(parenthesize_if("a + b".to_string(), 0, 1), "(a + b)");
    assert_eq!(parenthesize_if("a".to_string(), 3, 1), "a");
    assert_eq!(json_escape("a\"b\\c"), "\"a\\\"b\\\\c\"");
    assert_eq!(assemble_mul(true, Some("1".to_string()), vec!["x".to_string()], vec!["y".to_string(), "z".to_string()], "*"), "-x/(y*z)");
    assert_eq!(assemble_mul(false, Some("1".to_string()), vec![], vec![], "*"), "1");
}
