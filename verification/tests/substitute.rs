use oderom::expr::Expr;
use oderom::substitute::substitute;

#[test]
fn substitutes_a_bare_variable() {
    let e = Expr::var("x");
    let result = substitute(&e, "x", &Expr::integer(5));
    assert_eq!(result, Expr::integer(5));
}

#[test]
fn leaves_unrelated_variables_alone() {
    let e = Expr::var("y");
    let result = substitute(&e, "x", &Expr::integer(5));
    assert_eq!(result, Expr::var("y"));
}

#[test]
fn substitutes_inside_a_compound_expression() {
    let x = Expr::var("x");
    let e = (x.clone() + Expr::one()) * x.pow(2);
    let uv = Expr::var("u") + Expr::var("v");
    let result = substitute(&e, "x", &uv);
    let expected = (Expr::var("u") + Expr::var("v") + Expr::one()) * (Expr::var("u") + Expr::var("v")).pow(2);
    let nf = |x: &Expr| oderom::rational_form::normalize(x).unwrap();
    assert_eq!(nf(&result), nf(&expected));
}

#[test]
fn substitutes_inside_sin_and_cos() {
    let e = Expr::var("theta").sin() + Expr::var("theta").cos();
    let result = substitute(&e, "theta", &Expr::integer(0));
    let nf = |x: &Expr| oderom::rational_form::normalize(x).unwrap();
    assert_eq!(nf(&result), nf(&(Expr::integer(0).sin() + Expr::integer(0).cos())));
}

#[test]
fn substitutes_inside_function_arguments_never_the_function_name() {
    let e = Expr::func("x", vec![Expr::var("x").exp()]);
    let result = substitute(&e, "x", &Expr::var("r"));
    assert_eq!(result, Expr::func("x", vec![Expr::var("r").exp()]));
}

#[test]
fn stereographic_style_substitution() {
    let u = Expr::var("u");
    let v = Expr::var("v");
    let denom = u.clone().pow(2) + v.pow(2);
    let replacement = u / denom;
    let e = Expr::var("u").pow(2);
    let result = oderom::rational_form::normalize(&substitute(&e, "u", &replacement)).unwrap();
    assert_ne!(result, Expr::zero());
}
