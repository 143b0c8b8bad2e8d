use oderom::expr::Expr;

#[test]
fn node_count_counts_every_node() {
    let e = (Expr::var("x") + Expr::one()).pow(2);
    assert_eq!(e.node_count(), 4);
}

#[test]
fn node_count_of_a_function_application() {
    let e = Expr::func("f", vec![Expr::var("t"), Expr::var("r").sin()]);
    assert_eq!(e.node_count(), 4);
}

#[test]
fn constructors_build_the_unsimplified_tree() {
    assert_eq!(Expr::var("a") - Expr::var("b"), Expr::Add(vec![Expr::var("a"), Expr::Mul(vec![Expr::integer(-1), Expr::var("b")])]));
    assert_eq!(Expr::var("a") / Expr::var("b"), Expr::Mul(vec![Expr::var("a"), Expr::Pow(Box::new(Expr::var("b")), -1)]));
    assert_eq!(-Expr::var("a"), Expr::Mul(vec![Expr::integer(-1), Expr::var("a")]));
    assert_eq!(Expr::rational(2, 4), Expr::rational(1, 2));
    assert!(Expr::zero().is_zero());
    assert!(!Expr::one().is_zero());
    assert!(!(Expr::zero() + Expr::zero()).is_zero());
}

#[test]
fn func_starts_undifferentiated_in_every_argument() {
    let h = Expr::func("h", vec![Expr::var("t"), Expr::var("r")]);
    assert_eq!(h, Expr::Func { name: "h".to_string(), args: vec![Expr::var("t"), Expr::var("r")], order: vec![0, 0] });
}

#[test]
fn clone_and_equality_are_structural() {
    let e = Expr::func("f", vec![Expr::var("r").exp().pow(3)]) * Expr::rational(-5, 7);
    assert_eq!(e.clone(), e);
    assert_ne!(Expr::var("x"), Expr::var("y"));
    assert_ne!(Expr::var("x").sinh(), Expr::var("x").cosh());
}
