use oderom::atoms::AtomTable;
use oderom::big_scalar::BigScalar;
use oderom::canonical::poly_to_expr;
use oderom::division::same_poly;
use oderom::poly::Poly;
use oderom::poly_gcd::poly_gcd_bounded;
use oderom::upoly::{gcd, UPoly};

fn c(n: i64) -> Poly {
    Poly::constant(BigScalar::from_i64(n))
}

fn render(p: &Poly, t: &AtomTable) -> String {
    poly_to_expr(p, t).to_text()
}

#[test]
fn exact_division_of_a_difference_of_squares() {
    let mut t = AtomTable::new();
    let x = Poly::generator(t.var("x"));
    let y = Poly::generator(t.var("y"));
    let p = x.product(&x).sub(&y.product(&y));
    let d = x.sub(&y);
    let q = p.exact_div(&d).expect("x - y divides x^2 - y^2");
    assert!(same_poly(&q, &x.add(&y)));
}

#[test]
fn exact_division_refuses_what_does_not_divide() {
    let mut t = AtomTable::new();
    let x = Poly::generator(t.var("x"));
    let p = x.product(&x).add(&c(1));
    assert!(p.exact_div(&x.sub(&c(1))).is_none());
    assert!(p.exact_div(&Poly::zero()).is_none());
    let z = Poly::zero().exact_div(&x).unwrap();
    assert!(z.is_zero());
}

#[test]
fn exact_division_by_a_constant_scales() {
    let mut t = AtomTable::new();
    let x = Poly::generator(t.var("x"));
    let p = x.scale(BigScalar::from_i64(6)).add(&c(4));
    let q = p.exact_div(&c(2)).unwrap();
    assert!(same_poly(&q, &x.scale(BigScalar::from_i64(3)).add(&c(2))));
}

#[test]
fn pseudo_division_exponent_and_remainder_degree() {
    let mut t = AtomTable::new();
    let x = t.var("x");
    let y = Poly::generator(t.var("y"));
    // a = x^3 + 1, b = y*x + 1 as polynomials in x.
    let a = UPoly::from_coeffs(vec![c(1), Poly::zero(), Poly::zero(), c(1)]);
    let b = UPoly::from_coeffs(vec![c(1), y.add(&Poly::zero())]);
    let (q, r, e) = a.pseudo_div_rem(&b).unwrap();
    assert_eq!(e, 3);
    assert!(r.degree().is_none() || r.degree().unwrap() < 1);
    assert_eq!(q.degree(), Some(2));
    // y^3 * a == q * b + r, checked through the flattened polynomials.
    let lhs = poly_of(&a, x).product(&y.product(&y).product(&y));
    let rhs = poly_of(&q, x).product(&poly_of(&b, x)).add(&poly_of(&r, x));
    assert!(same_poly(&lhs, &rhs));
    assert!(UPoly::zero().pseudo_div_rem(&UPoly::zero()).is_none());
}

fn poly_of(u: &UPoly, x: oderom::poly::AtomId) -> Poly {
    u.to_poly(x).unwrap()
}

#[test]
fn univariate_gcd_finds_the_common_factor() {
    let mut t = AtomTable::new();
    let x = t.var("x");
    let xp = Poly::generator(x);
    // (x - 1)(x + 2) and (x - 1)(x - 3)
    let a = xp.sub(&c(1)).product(&xp.add(&c(2)));
    let b = xp.sub(&c(1)).product(&xp.sub(&c(3)));
    let g = gcd(UPoly::from_poly(&a, x), UPoly::from_poly(&b, x)).unwrap();
    assert_eq!(g.degree(), Some(1));
    let gp = g.to_poly(x).unwrap();
    assert!(a.exact_div(&gp).is_some());
    assert!(b.exact_div(&gp).is_some());
}

#[test]
fn multivariate_gcd_with_content() {
    let mut t = AtomTable::new();
    let x = Poly::generator(t.var("x"));
    let y = Poly::generator(t.var("y"));
    // a = 2*y*(x + y), b = 4*y^2*(x - y)*(x + y)
    let s = x.add(&y);
    let a = c(2).product(&y).product(&s);
    let b = c(4).product(&y).product(&y).product(&x.sub(&y)).product(&s);
    let g = poly_gcd_bounded(&a, &b, &t, None).unwrap();
    // The GCD is 2*y*(x + y) up to sign.
    let expected = c(2).product(&y).product(&s);
    assert!(same_poly(&g, &expected) || same_poly(&g, &expected.neg()), "{}", render(&g, &t));
}

#[test]
fn gcd_with_zero_and_of_constants() {
    let mut t = AtomTable::new();
    let x = Poly::generator(t.var("x"));
    let g = poly_gcd_bounded(&Poly::zero(), &x, &t, None).unwrap();
    assert!(same_poly(&g, &x));
    let g = poly_gcd_bounded(&c(12), &c(-18), &t, None).unwrap();
    assert!(same_poly(&g, &c(6)));
}
