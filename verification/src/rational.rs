//! The mathematical model of exact rational numbers: a numerator and a
//! positive denominator, with the lowest-terms predicate and the
//! arithmetic that [`crate::big_scalar::BigScalar`]'s operations are
//! stated against.
use vstd::prelude::*;

verus! {

/// Greatest common divisor by Euclid's recursion (`gcd(a, 0) == a`).
pub open spec fn gcd(a: nat, b: nat) -> nat
    decreases b,
{
    if b == 0 {
        a
    } else {
        gcd(b, a % b)
    }
}

pub open spec fn abs(i: int) -> nat {
    if i < 0 {
        (-i) as nat
    } else {
        i as nat
    }
}

/// A fraction `(num, den)` in lowest terms with a positive denominator:
/// the unique representation of its value (zero is `(0, 1)`).
pub open spec fn canonical(q: (int, int)) -> bool {
    q.1 > 0 && gcd(abs(q.0), q.1 as nat) == 1
}

/// Whether two fractions with nonzero denominators denote the same number.
pub open spec fn same_value(a: (int, int), b: (int, int)) -> bool {
    a.0 * b.1 == b.0 * a.1
}

/// `a + b`, not reduced.
pub open spec fn rat_add(a: (int, int), b: (int, int)) -> (int, int) {
    (a.0 * b.1 + b.0 * a.1, a.1 * b.1)
}

/// `a * b`, not reduced.
pub open spec fn rat_mul(a: (int, int), b: (int, int)) -> (int, int) {
    (a.0 * b.0, a.1 * b.1)
}

/// `-a`.
pub open spec fn rat_neg(a: (int, int)) -> (int, int) {
    (-a.0, a.1)
}

/// Whether `i` fits an `i64`.
pub open spec fn fits_i64(i: int) -> bool {
    i64::MIN <= i <= i64::MAX
}

/// `gcd` does not depend on argument order.
pub proof fn lemma_gcd_symmetric(a: nat, b: nat)
    ensures
        gcd(a, b) == gcd(b, a),
{
    if a == 0 && b == 0 {
    } else if a == 0 {
        assert(gcd(0, b) == gcd(b, 0nat));
    } else if b == 0 {
        assert(gcd(0, a) == gcd(a, 0nat));
    } else if a < b {
        assert(a % b == a) by (nonlinear_arith)
            requires
                a < b,
        ;
        assert(gcd(a, b) == gcd(b, a % b));
    } else if b < a {
        assert(b % a == b) by (nonlinear_arith)
            requires
                b < a,
        ;
        assert(gcd(b, a) == gcd(a, b % a));
    }
}

/// `gcd(n, 1) == 1` and `gcd(1, n) == 1`.
pub proof fn lemma_gcd_one(n: nat)
    ensures
        gcd(n, 1) == 1,
        gcd(1, n) == 1,
{
    assert(n % 1 == 0);
    assert(gcd(n, 1) == gcd(1, 0));
    lemma_gcd_symmetric(1, n);
}

/// An integer `n` written over `1` is canonical.
pub proof fn lemma_integer_canonical(n: int)
    ensures
        canonical((n, 1)),
{
    lemma_gcd_one(abs(n));
}

/// A canonical fraction with numerator zero is `0/1`.
pub proof fn lemma_zero_canonical(d: int)
    requires
        canonical((0, d)),
    ensures
        d == 1,
{
    assert(0nat % (d as nat) == 0);
    assert(gcd(0, d as nat) == gcd(d as nat, 0));
}

/// The canonical fraction of a value is unique.
pub proof fn lemma_canonical_unique(a: (int, int), b: (int, int))
    requires
        canonical(a),
        canonical(b),
        same_value(a, b),
    ensures
        a == b,
{
    // a.0 * b.1 == b.0 * a.1 with both fractions in lowest terms: a.1
    // divides a.0 * b.1 and is coprime to a.0, so it divides b.1; by
    // symmetry b.1 divides a.1, hence the denominators agree.
    assert(abs(a.0) * b.1 == abs(b.0) * a.1 && abs(b.0) * a.1 == abs(a.0) * b.1) by (nonlinear_arith)
        requires
            a.0 * b.1 == b.0 * a.1,
            a.1 > 0,
            b.1 > 0,
    {
        if a.0 < 0 {
            assert(b.0 * a.1 < 0);
            assert(b.0 < 0);
        } else if a.0 > 0 {
            assert(b.0 * a.1 > 0);
            assert(b.0 > 0);
        } else {
            assert(b.0 * a.1 == 0);
            assert(b.0 == 0);
        }
    }
    lemma_coprime_divides(abs(a.0), a.1 as nat, b.1 as nat, abs(b.0));
    lemma_coprime_divides(abs(b.0), b.1 as nat, a.1 as nat, abs(a.0));
    let x = a.1;
    let y = b.1;
    assert(x == y) by (nonlinear_arith)
        requires
            x > 0,
            y > 0,
            y % x == 0,
            x % y == 0,
    {
        if x < y {
            assert(x % y == x);
        }
        if y < x {
            assert(y % x == y);
        }
    }
    assert(a.0 == b.0) by (nonlinear_arith)
        requires
            a.0 * y == b.0 * x,
            x == y,
            x > 0,
    ;
}

/// Bezout-style divisibility: if `gcd(p, q) == 1` and `q` divides `p * r`
/// (in the sense `p * r == q * s` up to sign), then `q` divides `r`.
pub proof fn lemma_coprime_divides(p: nat, q: nat, r: nat, s: nat)
    requires
        q > 0,
        gcd(p, q) == 1,
        p * r == s * q,
    ensures
        r % q == 0,
{
    lemma_gcd_linear_combination(p, q);
    let (u, v) = gcd_coefficients(p, q);
    // 1 == u*p + v*q, so r == u*(p*r) + v*q*r == q*(u*s + v*r)
    assert(r == q * (u * s + v * r)) by (nonlinear_arith)
        requires
            u * p + v * q == 1,
            p * r == s * q,
    ;
    let k = u * s + v * r;
    assert((q * k) % (q as int) == 0) by (nonlinear_arith)
        requires
            q > 0,
    {
        vstd::arithmetic::div_mod::lemma_mod_multiples_basic(k, q as int);
    }
}

/// Bezout coefficients of Euclid's recursion.
pub open spec fn gcd_coefficients(a: nat, b: nat) -> (int, int)
    decreases b,
{
    if b == 0 {
        (1, 0)
    } else {
        let (x, y) = gcd_coefficients(b, a % b);
        (y, x - (a / b) as int * y)
    }
}

pub proof fn lemma_gcd_linear_combination(a: nat, b: nat)
    ensures
        ({
            let (u, v) = gcd_coefficients(a, b);
            u * a + v * b == gcd(a, b)
        }),
    decreases b,
{
    if b != 0 {
        lemma_gcd_linear_combination(b, a % b);
        let (x, y) = gcd_coefficients(b, a % b);
        let q = (a / b) as int;
        let r = (a % b) as int;
        assert(a == b * q + r) by (nonlinear_arith)
            requires
                b > 0,
                q == a / b,
                r == a % b,
        ;
        assert(y * a + (x - q * y) * b == x * b + y * r) by (nonlinear_arith)
            requires
                a == b * q + r,
        ;
    }
}


/// `same_value` is transitive through a fraction with a nonzero
/// denominator.
pub proof fn lemma_same_value_transitive(a: (int, int), b: (int, int), c: (int, int))
    requires
        same_value(a, b),
        same_value(b, c),
        b.1 != 0,
    ensures
        same_value(a, c),
{
    assert(a.0 * c.1 * b.1 == c.0 * a.1 * b.1) by (nonlinear_arith)
        requires
            a.0 * b.1 == b.0 * a.1,
            b.0 * c.1 == c.0 * b.1,
    ;
    assert(a.0 * c.1 == c.0 * a.1) by (nonlinear_arith)
        requires
            a.0 * c.1 * b.1 == c.0 * a.1 * b.1,
            b.1 != 0,
    ;
}

/// Multiplying equal values by the same fraction gives equal values.
pub proof fn lemma_same_value_mul(a: (int, int), b: (int, int), m: (int, int))
    requires
        same_value(a, b),
    ensures
        same_value(rat_mul(a, m), rat_mul(b, m)),
{
    assert((a.0 * m.0) * (b.1 * m.1) == (b.0 * m.0) * (a.1 * m.1)) by (nonlinear_arith)
        requires
            a.0 * b.1 == b.0 * a.1,
    ;
}

/// The fraction in lowest terms with the value of `q`.
pub open spec fn canon(q: (int, int)) -> (int, int) {
    choose|c: (int, int)| canonical(c) && same_value(c, q)
}

/// A fraction in lowest terms is the one `canon` picks for its value.
pub proof fn lemma_canon(c: (int, int), q: (int, int))
    requires
        canonical(c),
        same_value(c, q),
        q.1 != 0,
    ensures
        canon(q) == c,
{
    let d = canon(q);
    assert(canonical(d) && same_value(d, q));
    assert(same_value(q, c)) by (nonlinear_arith)
        requires
            c.0 * q.1 == q.0 * c.1,
    ;
    lemma_same_value_transitive(d, q, c);
    lemma_canonical_unique(d, c);
}

/// `gcd(a, b)` divides both arguments: the cofactors.
pub proof fn lemma_gcd_divides(a: nat, b: nat) -> (k: (nat, nat))
    ensures
        a == gcd(a, b) * k.0,
        b == gcd(a, b) * k.1,
    decreases b,
{
    if b == 0 {
        (1, 0)
    } else {
        let (k1, k2) = lemma_gcd_divides(b, a % b);
        let g = gcd(b, a % b);
        let q = a / b;
        assert(a == b * q + a % b) by (nonlinear_arith)
            requires
                b > 0,
                q == a / b,
        ;
        assert(a == g * (k1 * q + k2)) by (nonlinear_arith)
            requires
                a == b * q + a % b,
                b == g * k1,
                a % b == g * k2,
        ;
        (k1 * q + k2, k1)
    }
}

/// Every fraction with a positive denominator has a lowest-terms form,
/// which `canon` picks.
pub proof fn lemma_canon_exists(q: (int, int))
    requires
        q.1 > 0,
    ensures
        canonical(canon(q)),
        same_value(canon(q), q),
{
    let a = abs(q.0);
    let b = q.1 as nat;
    let g = gcd(a, b);
    let (ka, kb) = lemma_gcd_divides(a, b);
    assert(g > 0 && kb > 0) by (nonlinear_arith)
        requires
            b == g * kb,
            b > 0,
    ;
    let c0: int = if q.0 < 0 {
        -(ka as int)
    } else {
        ka as int
    };
    let c = (c0, kb as int);
    assert(same_value(c, q)) by (nonlinear_arith)
        requires
            a == g * ka,
            b == g * kb,
            c0 == (if q.0 < 0 { -(ka as int) } else { ka as int }),
            a == (if q.0 < 0 { -q.0 } else { q.0 }),
            b == q.1,
            c == (c0, kb as int),
    ;
    lemma_gcd_linear_combination(a, b);
    let (u, v) = gcd_coefficients(a, b);
    assert(u * ka + v * kb == 1) by (nonlinear_arith)
        requires
            u * a + v * b == g,
            a == g * ka,
            b == g * kb,
            g > 0,
    ;
    let h = gcd(ka, kb);
    let (x, y) = lemma_gcd_divides(ka, kb);
    let w = u * x + v * y;
    assert(h * w == 1) by (nonlinear_arith)
        requires
            ka == h * x,
            kb == h * y,
            u * ka + v * kb == 1,
            w == u * x + v * y,
    ;
    assert(h == 1) by (nonlinear_arith)
        requires
            h * w == 1,
            h >= 0,
    ;
    assert(abs(c0) == ka);
    assert(canonical(c));
}

/// Fractions of equal value have the same lowest-terms form.
pub proof fn lemma_canon_same_value(q1: (int, int), q2: (int, int))
    requires
        q1.1 > 0,
        q2.1 > 0,
        same_value(q1, q2),
    ensures
        canon(q1) == canon(q2),
{
    lemma_canon_exists(q1);
    lemma_same_value_transitive(canon(q1), q1, q2);
    lemma_canon(canon(q1), q2);
}

} // verus!
