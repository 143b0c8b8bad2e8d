//! Putting an expression over one explicit numerator and denominator,
//! carried through a single top-down recursion:
//! `a/b + c/d = (ad + bc)/(bd)`, `(a/b)(c/d) = ac/bd`, `(a/b)^n = a^n/b^n`.
use vstd::prelude::*;
use crate::expr::{Expr, clone_expr};
use crate::rational_form::normalize;

verus! {

/// `(numerator, denominator)` of `expr`, both normalized; `None` where
/// normalizing stops.
pub fn rationalize(expr: &Expr) -> (r: Option<(Expr, Expr)>) {
    match normalize(expr) {
        Some(n) => to_fraction(&n),
        None => None,
    }
}

/// `base` multiplied by itself `n` times (`1` for `n <= 0`).
fn pow_by_repeated_mul(base: &Expr, n: i32) -> (r: Expr) {
    let mut acc = Expr::one();
    let mut i: i32 = 0;
    while i < n
        decreases n - i,
    {
        acc = acc * clone_expr(base);
        i += 1;
    }
    acc
}

/// Normalizes, or stops.
fn nf(e: &Expr) -> (r: Option<Expr>) {
    normalize(e)
}

#[verifier::loop_isolation(false)]
fn to_fraction(expr: &Expr) -> (r: Option<(Expr, Expr)>)
    decreases expr,
{
    match expr {
        Expr::Add(terms) => {
            let mut num = Expr::zero();
            let mut den = Expr::one();
            let mut i: usize = 0;
            while i < terms.len()
                decreases terms@.len() - i,
            {
                let (tn, td) = match to_fraction(&terms[i]) {
                    Some(p) => p,
                    None => return None,
                };
                let new_num = match nf(&(num * clone_expr(&td) + tn * clone_expr(&den))) {
                    Some(x) => x,
                    None => return None,
                };
                let new_den = match nf(&(den * td)) {
                    Some(x) => x,
                    None => return None,
                };
                num = new_num;
                den = new_den;
                i += 1;
            }
            Some((num, den))
        },
        Expr::Mul(factors) => {
            let mut num = Expr::one();
            let mut den = Expr::one();
            let mut i: usize = 0;
            while i < factors.len()
                decreases factors@.len() - i,
            {
                let (fnum, fden) = match to_fraction(&factors[i]) {
                    Some(p) => p,
                    None => return None,
                };
                num = match nf(&(num * fnum)) {
                    Some(x) => x,
                    None => return None,
                };
                den = match nf(&(den * fden)) {
                    Some(x) => x,
                    None => return None,
                };
                i += 1;
            }
            Some((num, den))
        },
        Expr::Pow(base, n) => {
            let (bn, bd) = match to_fraction(base) {
                Some(p) => p,
                None => return None,
            };
            let (top, bottom, k) = if *n >= 0 {
                (bn, bd, *n)
            } else if *n == i32::MIN {
                return None;
            } else {
                (bd, bn, -*n)
            };
            let a = match nf(&pow_by_repeated_mul(&top, k)) {
                Some(x) => x,
                None => return None,
            };
            let b = match nf(&pow_by_repeated_mul(&bottom, k)) {
                Some(x) => x,
                None => return None,
            };
            Some((a, b))
        },
        _ => Some((clone_expr(expr), Expr::one())),
    }
}

/// The polynomial degree of `e`'s denominator once `e` is put over one
/// fraction by [`rationalize`]; `None` where that stops.
pub fn denominator_degree(e: &Expr) -> (r: Option<i32>) {
    match rationalize(e) {
        Some((_, den)) => Some(degree(&den)),
        None => None,
    }
}

/// `a + b`, held at `i32::MAX`.
fn add_held(a: i32, b: i32) -> (r: i32)
    requires
        a >= 0,
        b >= 0,
    ensures
        r >= 0,
{
    if a > i32::MAX - b {
        i32::MAX
    } else {
        a + b
    }
}

/// `a * b`, held at `i32::MAX`.
fn mul_held(a: i32, b: i32) -> (r: i32)
    requires
        a >= 0,
        b >= 0,
    ensures
        r >= 0,
{
    if b != 0 && a > i32::MAX / b {
        i32::MAX
    } else {
        assert(a * b <= i32::MAX) by (nonlinear_arith)
            requires
                b != 0 ==> a <= i32::MAX / b,
                a >= 0,
                b >= 0,
        ;
        a * b
    }
}

/// The polynomial degree of `e`: a number `0`, any variable or function
/// `1`, a sum the largest of its terms', a product the sum of its
/// factors', `base^n` `|n|` times `base`'s (held at `i32::MAX`).
#[verifier::loop_isolation(false)]
fn degree(e: &Expr) -> (r: i32)
    ensures
        r >= 0,
    decreases e,
{
    match e {
        Expr::Rational(_) => 0,
        Expr::Add(terms) => {
            let mut best: i32 = 0;
            let mut i: usize = 0;
            while i < terms.len()
                invariant
                    best >= 0,
                decreases terms@.len() - i,
            {
                let d = degree(&terms[i]);
                if d > best {
                    best = d;
                }
                i += 1;
            }
            best
        },
        Expr::Mul(factors) => {
            let mut sum: i32 = 0;
            let mut i: usize = 0;
            while i < factors.len()
                invariant
                    sum >= 0,
                decreases factors@.len() - i,
            {
                sum = add_held(sum, degree(&factors[i]));
                i += 1;
            }
            sum
        },
        Expr::Pow(base, n) => {
            let k: i32 = if *n == i32::MIN {
                i32::MAX
            } else if *n < 0 {
                -*n
            } else {
                *n
            };
            mul_held(k, degree(base))
        },
        _ => 1,
    }
}

} // verus!
