use oderom::big_scalar::BigScalar;
use oderom::render::Target;

#[test]
fn reduces_on_construction() {
    assert_eq!(BigScalar::new(2, 4), BigScalar::new(1, 2));
}

#[test]
fn arithmetic() {
    assert_eq!(BigScalar::new(1, 2) + BigScalar::new(1, 3), BigScalar::new(5, 6));
    assert_eq!(BigScalar::new(1, 2) * BigScalar::new(2, 3), BigScalar::new(1, 3));
}

#[test]
fn does_not_overflow_i64_range() {
    let huge = BigScalar::from_i64(i64::MAX) * BigScalar::from_i64(i64::MAX) * BigScalar::from_i64(1_000_000);
    let doubled = huge.clone() + huge;
    assert!(!doubled.is_zero());
}

#[test]
fn display_matches_scalar_convention() {
    assert_eq!(BigScalar::new(3, 1).to_text(), "3");
    assert_eq!(BigScalar::new(3, 4).to_text(), "3/4");
    assert_eq!(BigScalar::new(-3, 4).to_text(), "-3/4");
}

#[test]
fn small_times_small_stays_small_and_matches_big() {
    let a = BigScalar::from_i64(3) * BigScalar::from_i64(5);
    assert_eq!(a, BigScalar::new(15, 1));
}

#[test]
fn recip_then_multiply_back_demotes_to_small() {
    let seven = BigScalar::from_i64(7);
    let recip = seven.recip().unwrap();
    let back = recip * BigScalar::from_i64(7);
    assert_eq!(back, BigScalar::one());
}

#[test]
fn overflowing_small_arithmetic_promotes_correctly() {
    let big = BigScalar::from_i64(i64::MAX) + BigScalar::from_i64(1);
    assert_eq!(big, BigScalar::new(i64::MAX, 1) + BigScalar::one());
    let big2 = BigScalar::from_i64(i64::MAX) * BigScalar::from_i64(2);
    let as_float: f64 = big2.to_text().parse().unwrap();
    assert_eq!(as_float, (i64::MAX as f64) * 2.0);
}

#[test]
fn big_values_print_every_digit() {
    let big = BigScalar::from_i64(i64::MAX) * BigScalar::from_i64(i64::MAX);
    assert_eq!(big.to_text(), "85070591730234615847396907784232501249");
    let third = BigScalar::new(1, 3) * big;
    assert_eq!(third.to_text(), "85070591730234615847396907784232501249/3");
}

#[test]
fn negation_of_the_smallest_i64_is_exact() {
    let m = -BigScalar::from_i64(i64::MIN);
    assert_eq!(m.to_text(), "9223372036854775808");
    assert_eq!(-m, BigScalar::from_i64(i64::MIN));
}

#[test]
fn subtraction_and_sign() {
    let d = BigScalar::new(1, 3) - BigScalar::new(1, 2);
    assert_eq!(d, BigScalar::new(-1, 6));
    assert!(d.is_negative());
    assert!(!d.is_integer());
    assert!(BigScalar::new(6, 3).is_integer());
}

#[test]
fn recip_of_zero_is_none() {
    assert!(BigScalar::zero().recip().is_none());
    assert_eq!(BigScalar::new(-2, 3).recip().unwrap(), BigScalar::new(-3, 2));
}

#[test]
fn renders_in_every_target() {
    let q = BigScalar::new(-3, 4);
    assert_eq!(q.render(Target::Unicode), "-3/4");
    assert_eq!(q.render(Target::Latex), "-\\frac{3}{4}");
    assert_eq!(q.render(Target::Json), "{\"num\":-3,\"den\":4}");
    assert_eq!(q.render(Target::Mathematica), "-3/4");
    assert_eq!(q.render(Target::Sympy), "Rational(-3, 4)");
    assert_eq!(BigScalar::from_i64(5).render(Target::Sympy), "5");
    assert_eq!(BigScalar::from_i64(5).render(Target::Latex), "5");
}

#[test]
fn gcd_of_integers_and_of_a_fraction() {
    assert_eq!(BigScalar::from_i64(12).gcd(&BigScalar::from_i64(-18)), BigScalar::from_i64(6));
    assert_eq!(BigScalar::zero().gcd(&BigScalar::from_i64(-4)), BigScalar::from_i64(4));
    assert_eq!(BigScalar::new(1, 2).gcd(&BigScalar::from_i64(4)), BigScalar::one());
}

#[test]
fn gcd_is_never_negative() {
    assert_eq!(BigScalar::from_i64(4).gcd(&BigScalar::from_i64(-2)), BigScalar::from_i64(2));
    assert_eq!(BigScalar::zero().gcd(&BigScalar::from_i64(-2)), BigScalar::from_i64(2));
    assert_eq!(BigScalar::from_i64(-7).gcd(&BigScalar::zero()), BigScalar::from_i64(7));
    assert_eq!(BigScalar::zero().gcd(&BigScalar::new(-1, 3)), BigScalar::one());
    assert_eq!(BigScalar::zero().gcd(&BigScalar::zero()), BigScalar::zero());
}

#[test]
fn bit_length_estimate_of_small_and_big_values() {
    assert_eq!(BigScalar::from_i64(1).bit_length_estimate(), 1);
    assert_eq!(BigScalar::from_i64(255).bit_length_estimate(), 8);
    assert_eq!(BigScalar::new(1, 1024).bit_length_estimate(), 11);
}

#[test]
fn values_compare_as_numbers() {
    assert_eq!(BigScalar::new(1, 2).compare_values(&BigScalar::new(2, 3)), -1);
    assert_eq!(BigScalar::new(-3, 1).compare_values(&BigScalar::new(1, 7)), -1);
    assert_eq!(BigScalar::new(4, 6).compare_values(&BigScalar::new(2, 3)), 0);
    let big = BigScalar::from_i64(i64::MAX) + BigScalar::from_i64(i64::MAX);
    assert_eq!(big.compare_values(&BigScalar::from_i64(i64::MAX)), 1);
    assert_eq!(BigScalar::from_i64(i64::MIN).compare_values(&big), -1);
}

#[test]
fn small_integers_print_with_their_sign() {
    assert_eq!(BigScalar::from_i64(-42).to_text(), "-42");
    assert_eq!(BigScalar::from_i64(0).to_text(), "0");
    assert_eq!(BigScalar::from_i64(i64::MIN).to_text(), "-9223372036854775808");
    assert_eq!(BigScalar::from_i64(i64::MAX).to_text(), "9223372036854775807");
}
