use oderom::atoms::{AtomKey, AtomTable};
use oderom::big_scalar::BigScalar;
use oderom::expr::Expr;
use oderom::canonical::{content_key_of, poly_to_expr, rational_to_expr, term_to_expr, RationalFunction};
use oderom::poly::{mono_product, AtomId, Poly};

#[test]
fn add_collects_like_terms() {
    let mut t = AtomTable::new();
    let r = t.var("r");
    let x = Poly::generator(r);
    let sum = x.add(&x);
    let terms = sum.terms();
    assert_eq!(terms.len(), 1);
    assert_eq!(terms[0].coeff, BigScalar::new(2, 1));
}

#[test]
fn mul_combines_exponents() {
    let mut t = AtomTable::new();
    let r = t.var("r");
    let x = Poly::generator(r);
    let squared = x.mul(&x, &mut t);
    let sorted = squared.sorted_terms(&t);
    assert_eq!(sorted.len(), 1);
    assert_eq!(sorted[0].generators, vec![(r, 2)]);
}

#[test]
fn distributes_over_addition() {
    // r * (r + 1) = r^2 + r
    let mut t = AtomTable::new();
    let r = t.var("r");
    let x = Poly::generator(r);
    let sum = x.add(&Poly::constant(BigScalar::one()));
    let product = x.mul(&sum, &mut t);
    let sorted = product.sorted_terms(&t);
    assert_eq!(sorted.len(), 2);
}

#[test]
fn a_polynomial_minus_itself_is_zero() {
    let mut t = AtomTable::new();
    let r = t.var("r");
    let m = t.var("M");
    let p = Poly::generator(r).add(&Poly::generator(m).scale(BigScalar::new(-2, 3)));
    assert!(!p.is_zero());
    assert!(p.sub(&p).is_zero());
}

#[test]
fn constants_and_the_literal_one() {
    assert!(Poly::constant(BigScalar::one()).is_literal_one());
    assert!(!Poly::constant(BigScalar::new(2, 1)).is_literal_one());
    assert!(Poly::constant(BigScalar::zero()).is_zero());
    let two = Poly::constant(BigScalar::new(2, 1));
    assert!(two.scale(BigScalar::new(1, 2)).is_literal_one());
    assert!(two.neg().add(&two).is_zero());
}

#[test]
fn cubing_a_binomial_gives_binomial_coefficients() {
    // (r + 1)^3 = r^3 + 3r^2 + 3r + 1
    let mut t = AtomTable::new();
    let r = t.var("r");
    let p = Poly::generator(r).add(&Poly::constant(BigScalar::one()));
    let square = p.mul(&p, &mut t);
    let cube = square.mul(&p, &mut t);
    let terms = cube.terms();
    assert_eq!(terms.len(), 4);
    for term in terms.iter() {
        let e = if term.generators.is_empty() { 0 } else { term.generators[0].1 };
        let expected = if e == 0 || e == 3 { BigScalar::one() } else { BigScalar::new(3, 1) };
        assert_eq!(term.coeff, expected);
    }
    assert!(Poly::constant(BigScalar::one()).mul(&Poly::constant(BigScalar::one()), &mut t).is_literal_one());
}

#[test]
fn monomial_products_merge_generators_in_id_order() {
    let a = vec![(AtomId(0), 1u32), (AtomId(2), 2)];
    let b = vec![(AtomId(1), 3u32), (AtomId(2), 1)];
    assert_eq!(mono_product(&a, &b), vec![(AtomId(0), 1), (AtomId(1), 3), (AtomId(2), 3)]);
}

#[test]
fn interning_the_same_generator_twice_gives_the_same_id() {
    let mut t = AtomTable::new();
    let theta = Expr::var("theta");
    let c1 = t.cos(theta.clone());
    let s = t.sin(theta.clone());
    let c2 = t.cos(theta);
    assert_eq!(c1, c2);
    assert_ne!(c1, s);
    assert_eq!(t.len(), 2);
    assert!(t.is_cos(c1));
    assert!(!t.is_cos(s));
    assert!(matches!(t.key(s), AtomKey::Sin(_)));
    assert_eq!(t.to_expr(c1), Expr::var("theta").cos());
}

#[test]
fn atom_id_order_does_not_affect_the_canonical_sort() {
    let mut t1 = AtomTable::new();
    let a1 = t1.var("a");
    let b1 = t1.var("b");
    let poly1 = Poly::generator(a1).add(&Poly::generator(b1));

    let mut t2 = AtomTable::new();
    let b2 = t2.var("b");
    let a2 = t2.var("a");
    let poly2 = Poly::generator(a2).add(&Poly::generator(b2));

    let sorted1: Vec<_> =
        poly1.sorted_terms(&t1).into_iter().map(|term| content_key_of(&t1, &term.generators)).collect();
    let sorted2: Vec<_> =
        poly2.sorted_terms(&t2).into_iter().map(|term| content_key_of(&t2, &term.generators)).collect();
    assert_eq!(sorted1, sorted2);
}

#[test]
fn a_polynomial_converts_to_one_canonical_expression() {
    // (r + 1)^2 = 1 + 2*r + r^2, terms in order of their generators
    let mut t = AtomTable::new();
    let r = t.var("r");
    let q = Poly::generator(r).add(&Poly::constant(BigScalar::one()));
    let p = q.mul(&q, &mut t);
    let e = poly_to_expr(&p, &t);
    let expected = Expr::Add(vec![
        Expr::one(),
        Expr::Mul(vec![Expr::integer(2), Expr::var("r")]),
        Expr::var("r").pow(2),
    ]);
    assert_eq!(e, expected);
    assert_eq!(poly_to_expr(&Poly::zero(), &t), Expr::zero());
}

#[test]
fn a_term_lists_its_generators_in_order_of_their_expressions() {
    let mut t = AtomTable::new();
    let theta = t.sin(Expr::var("theta"));
    let m = t.var("M");
    let p = Poly::generator(theta).mul(&Poly::generator(m), &mut t).scale(BigScalar::new(-1, 2));
    let terms = p.terms();
    assert_eq!(terms.len(), 1);
    let e = term_to_expr(&terms[0], &t);
    assert_eq!(e, Expr::Mul(vec![Expr::rational(-1, 2), Expr::var("M"), Expr::var("theta").sin()]));
}

#[test]
fn cos_squared_becomes_one_minus_sin_squared() {
    let mut t = AtomTable::new();
    let theta = Expr::var("theta");
    let cos_id = t.cos(theta.clone());
    let sin_id = t.sin(theta);
    let cos = Poly::generator(cos_id);
    let cos_sq = cos.mul(&cos, &mut t);
    // Expect 1 - sin(theta)^2, i.e. two terms: constant 1 and -sin^2.
    let sorted = cos_sq.sorted_terms(&t);
    assert_eq!(sorted.len(), 2, "{sorted:?}");
    let constant = sorted.iter().find(|term| term.generators.is_empty()).expect("constant term");
    assert_eq!(constant.coeff, BigScalar::one());
    let sin_term = sorted.iter().find(|term| !term.generators.is_empty()).expect("sin^2 term");
    assert_eq!(sin_term.generators, vec![(sin_id, 2)]);
    assert_eq!(sin_term.coeff, BigScalar::new(-1, 1));
}

#[test]
fn cos_cubed_keeps_one_bare_cos_factor() {
    let mut t = AtomTable::new();
    let theta = Expr::var("theta");
    let cos_id = t.cos(theta);
    let cos = Poly::generator(cos_id);
    let cos_sq = cos.mul(&cos, &mut t);
    let cos_cubed = cos_sq.mul(&cos, &mut t);
    let sorted = cos_cubed.sorted_terms(&t);
    // (1 - sin^2) * cos = cos - sin^2*cos -- two terms, each with
    // exactly one bare `cos` factor (exponent 1), never cos^2 or higher.
    for term in &sorted {
        let cos_exp = term.generators.iter().find(|(id, _)| *id == cos_id).map(|(_, e)| *e);
        assert_eq!(cos_exp, Some(1), "{sorted:?}");
    }
}

#[test]
fn cosh_squared_becomes_one_plus_sinh_squared() {
    let mut t = AtomTable::new();
    let chi = Expr::var("chi");
    let cosh_id = t.cosh(chi.clone());
    let sinh_id = t.sinh(chi);
    let cosh = Poly::generator(cosh_id);
    let cosh_sq = cosh.mul(&cosh, &mut t);
    let sorted = cosh_sq.sorted_terms(&t);
    assert_eq!(sorted.len(), 2, "{sorted:?}");
    let constant = sorted.iter().find(|term| term.generators.is_empty()).expect("constant term");
    assert_eq!(constant.coeff, BigScalar::one());
    let sinh_term = sorted.iter().find(|term| !term.generators.is_empty()).expect("sinh^2 term");
    assert_eq!(sinh_term.generators, vec![(sinh_id, 2)]);
    assert_eq!(sinh_term.coeff, BigScalar::one(), "unlike cos^2, the sinh^2 coefficient is +1, not -1");
}

#[test]
fn cosh_cubed_keeps_one_bare_cosh_factor() {
    let mut t = AtomTable::new();
    let chi = Expr::var("chi");
    let cosh_id = t.cosh(chi);
    let cosh = Poly::generator(cosh_id);
    let cosh_sq = cosh.mul(&cosh, &mut t);
    let cosh_cubed = cosh_sq.mul(&cosh, &mut t);
    let sorted = cosh_cubed.sorted_terms(&t);
    for term in &sorted {
        let cosh_exp = term.generators.iter().find(|(id, _)| *id == cosh_id).map(|(_, e)| *e);
        assert_eq!(cosh_exp, Some(1), "{sorted:?}");
    }
}

#[test]
fn a_term_with_both_a_reducible_cos_and_a_reducible_cosh_reduces_both() {
    let mut t = AtomTable::new();
    let x = Expr::var("x");
    let y = Expr::var("y");
    let cos_id = t.cos(x.clone());
    let sin_id = t.sin(x);
    let cosh_id = t.cosh(y.clone());
    let sinh_id = t.sinh(y);
    let cos_sq = Poly::generator(cos_id).mul(&Poly::generator(cos_id), &mut t);
    let cosh_sq = Poly::generator(cosh_id).mul(&Poly::generator(cosh_id), &mut t);
    let product = cos_sq.mul(&cosh_sq, &mut t);
    for term in product.sorted_terms(&t) {
        let cos_exp = term.generators.iter().find(|(id, _)| *id == cos_id).map(|(_, e)| *e).unwrap_or(0);
        let cosh_exp = term.generators.iter().find(|(id, _)| *id == cosh_id).map(|(_, e)| *e).unwrap_or(0);
        assert!(cos_exp <= 1, "cos left at degree {cos_exp}: {term:?}");
        assert!(cosh_exp <= 1, "cosh left at degree {cosh_exp}: {term:?}");
        for &(id, _) in &term.generators {
            assert!(id == cos_id || id == cosh_id || id == sin_id || id == sinh_id, "unexpected generator {:?}", t.key(id));
        }
    }
}

#[test]
fn the_sine_a_cosine_needs_is_interned_on_first_use() {
    // cos(x)^4 = (1 - sin(x)^2)^2 = 1 - 2 sin(x)^2 + sin(x)^4, with sin(x)
    // interned by the product itself.
    let mut t = AtomTable::new();
    let cos_id = t.cos(Expr::var("x"));
    let cos_sq = Poly::generator(cos_id).mul(&Poly::generator(cos_id), &mut t);
    assert_eq!(t.len(), 2);
    let sin_id = AtomId(1);
    assert!(matches!(t.key(sin_id), AtomKey::Sin(_)));
    let fourth = cos_sq.mul(&cos_sq, &mut t);
    assert_eq!(t.len(), 2);
    let sorted = fourth.sorted_terms(&t);
    assert_eq!(sorted.len(), 3, "{sorted:?}");
    for term in &sorted {
        let e = term.generators.iter().find(|(id, _)| *id == sin_id).map(|(_, e)| *e).unwrap_or(0);
        let expected = match e {
            0 => BigScalar::one(),
            2 => BigScalar::new(-2, 1),
            4 => BigScalar::one(),
            _ => panic!("unexpected exponent {e}"),
        };
        assert_eq!(term.coeff, expected);
    }
}

#[test]
fn a_cosine_with_its_sine_already_present_adds_to_the_sine_exponent() {
    // sin(x) * cos(x)^2 = sin(x) - sin(x)^3
    let mut t = AtomTable::new();
    let sin_id = t.sin(Expr::var("x"));
    let cos_id = t.cos(Expr::var("x"));
    let sin_cos = Poly::generator(sin_id).mul(&Poly::generator(cos_id), &mut t);
    let p = sin_cos.mul(&Poly::generator(cos_id), &mut t);
    assert_eq!(t.len(), 2);
    let e = poly_to_expr(&p, &t);
    let s = Expr::var("x").sin();
    assert_eq!(e, Expr::Add(vec![s.clone(), Expr::Mul(vec![Expr::integer(-1), s.pow(3)])]));
}

#[test]
fn a_quotient_becomes_the_numerator_times_the_inverted_denominator() {
    let mut t = AtomTable::new();
    let r = t.var("r");
    let x = Poly::generator(r);
    let sum = x.add(&Poly::constant(BigScalar::one()));
    let q = RationalFunction { num: Poly::generator(r), den: sum };
    assert_eq!(
        rational_to_expr(&q, &t),
        Expr::Mul(vec![Expr::var("r"), Expr::Pow(Box::new(Expr::Add(vec![Expr::one(), Expr::var("r")])), -1)])
    );
    let inverse = RationalFunction { num: Poly::constant(BigScalar::one()), den: Poly::generator(r) };
    assert_eq!(rational_to_expr(&inverse, &t), Expr::var("r").pow(-1));
    let whole = RationalFunction::from_poly(Poly::generator(r).scale(BigScalar::new(3, 1)));
    assert_eq!(rational_to_expr(&whole, &t), Expr::Mul(vec![Expr::integer(3), Expr::var("r")]));
}

#[test]
fn a_zero_denominator_is_kept_as_zero_to_the_minus_one() {
    let mut t = AtomTable::new();
    let r = t.var("r");
    let over_zero = RationalFunction { num: Poly::generator(r), den: Poly::zero() };
    assert_eq!(
        rational_to_expr(&over_zero, &t),
        Expr::Mul(vec![Expr::var("r"), Expr::Pow(Box::new(Expr::zero()), -1)])
    );
    let one_over_zero = RationalFunction { num: Poly::constant(BigScalar::one()), den: Poly::zero() };
    assert_eq!(rational_to_expr(&one_over_zero, &t), Expr::Pow(Box::new(Expr::zero()), -1));
}

#[test]
fn interning_order_does_not_change_the_expression() {
    let mut t1 = AtomTable::new();
    let a1 = t1.var("a");
    let b1 = t1.var("b");
    let p1 = Poly::generator(a1).mul(&Poly::generator(b1), &mut t1).add(&Poly::generator(b1));
    let mut t2 = AtomTable::new();
    let b2 = t2.var("b");
    let a2 = t2.var("a");
    let p2 = Poly::generator(b2).add(&Poly::generator(a2).mul(&Poly::generator(b2), &mut t2));
    assert_eq!(poly_to_expr(&p1, &t1), poly_to_expr(&p2, &t2));
}

#[test]
fn a_suppressed_product_keeps_cos_squared_until_normalized() {
    let mut t = AtomTable::new();
    let theta = Expr::var("theta");
    let cos_id = t.cos(theta.clone());
    let cos = Poly::generator(cos_id);
    let plain = cos.product(&cos);
    let terms = plain.terms();
    assert_eq!(terms.len(), 1);
    assert_eq!(terms[0].generators, vec![(cos_id, 2)]);
    assert_eq!(t.len(), 1);
    let normalized = plain.normalize_trig(&mut t);
    assert_eq!(t.len(), 2);
    let sin_id = AtomId(1);
    let e = poly_to_expr(&normalized, &t);
    assert_eq!(e, Expr::Add(vec![Expr::one(), Expr::Mul(vec![Expr::integer(-1), theta.sin().pow(2)])]));
    assert!(matches!(t.key(sin_id), AtomKey::Sin(_)));
    // Already reduced: nothing changes.
    let again = normalized.normalize_trig(&mut t);
    assert_eq!(poly_to_expr(&again, &t), e);
}

#[test]
fn exponentials_and_functions_only_ever_add_exponents() {
    // exp(x) * exp(y) stays a product of two generators, and f(r)^2 a
    // square: nothing but cos and cosh is ever rewritten.
    let mut t = AtomTable::new();
    let ex = t.exp(Expr::var("x"));
    let ey = t.exp(Expr::var("y"));
    let f = t.func("f".to_string(), vec![Expr::var("r")], vec![0]);
    let p = Poly::generator(ex).mul(&Poly::generator(ey), &mut t);
    let q = Poly::generator(f).mul(&Poly::generator(f), &mut t);
    assert_eq!(t.len(), 3);
    assert_eq!(p.terms().len(), 1);
    assert_eq!(p.terms()[0].generators, vec![(ex, 1), (ey, 1)]);
    assert_eq!(q.terms()[0].generators, vec![(f, 2)]);
}
