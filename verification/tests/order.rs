use oderom::expr::Expr;
use oderom::order::{expr_compare, expr_less, sort_exprs};

#[test]
fn ord_makes_addition_order_irrelevant_to_sorted_form() {
    let m = Expr::var("M");
    let r = Expr::var("r");
    let mut a = vec![Expr::one(), (Expr::integer(-2) * m.clone()) / r.clone()];
    let mut b = vec![(Expr::integer(-2) * m) / r, Expr::one()];
    sort_exprs(&mut a);
    sort_exprs(&mut b);
    assert_eq!(a, b);
}

#[test]
fn variants_sort_in_declaration_order() {
    let one = Expr::one();
    let x = Expr::var("x");
    let p = Expr::var("x").pow(2);
    let s = Expr::var("x").sin();
    assert!(expr_less(&one, &x));
    assert!(expr_less(&x, &p));
    assert!(expr_less(&p, &s));
    assert_eq!(expr_compare(&s, &one), 1);
    assert_eq!(expr_compare(&s, &Expr::var("x").sin()), 0);
}

#[test]
fn rationals_sort_by_numerator_then_denominator() {
    assert_eq!(expr_compare(&Expr::integer(-3), &Expr::integer(2)), -1);
    assert_eq!(expr_compare(&Expr::rational(1, 3), &Expr::rational(1, 2)), 1);
    assert_eq!(expr_compare(&Expr::rational(1, 2), &Expr::integer(1)), 1);
    assert_eq!(expr_compare(&Expr::integer(7), &Expr::integer(7)), 0);
}

#[test]
fn names_and_child_lists_sort_lexicographically() {
    assert!(expr_less(&Expr::var("M"), &Expr::var("r")));
    assert!(expr_less(&Expr::var("r"), &Expr::var("rho")));
    let short = Expr::var("a") + Expr::var("b");
    let long = Expr::Add(vec![Expr::var("a"), Expr::var("b"), Expr::var("c")]);
    assert!(expr_less(&short, &long));
    let mut v = vec![Expr::var("z"), Expr::integer(3), Expr::var("a"), Expr::integer(3)];
    sort_exprs(&mut v);
    assert_eq!(v, vec![Expr::integer(3), Expr::integer(3), Expr::var("a"), Expr::var("z")]);
}
