//! Arbitrary-precision rational coefficients for [`crate::expr::Expr::Rational`].
//!
//! Two representations: `Small(i64)` (a plain integer, denominator
//! implicitly 1: `checked_add`/`checked_mul`, no GCD, no allocation) and
//! `Big` (a fraction in lowest terms with big-integer parts, used only
//! once a value genuinely needs it: `i64` overflow, or a non-unit
//! denominator). Every `Big` result that turns out to be an integer
//! fitting an `i64` is demoted back to `Small`, so each value has exactly
//! one representation: structural equality is value equality.
//!
//! The big-integer arithmetic itself is `num-rational`'s `BigRational`
//! over `num-bigint`; those calls sit behind the trusted wrappers at the
//! end of this file, each stated against the rational model in
//! [`crate::rational`].
use vstd::prelude::*;
use crate::render::Target;
use crate::text::push_str;
use vstd::arithmetic::power2::{lemma2_to64, lemma_pow2_unfold, pow2};
use crate::digits::{
    int_decimal, nat_decimal, i64_to_decimal, digits_to_decimal, digits_order, int_order,
    base, base_pow, digits_equal, digits_from_u64, digits_is_one, digits_normal, digits_value,
    lemma_base_pow_mono, lemma_base_pow_positive, lemma_digits_bounds, lemma_digits_injective, magnitude_of_i64,
    u64_from_digits,
};
use crate::rational::{
    abs, canonical, gcd, fits_i64, lemma_canonical_unique, lemma_gcd_one, lemma_gcd_symmetric,
    lemma_integer_canonical, lemma_zero_canonical, rat_add, rat_mul, rat_neg, same_value,
};
use num_bigint::{BigInt, Sign};
use num_rational::BigRational;

verus! {

/// A fraction in lowest terms with big-integer parts: sign, magnitude of
/// the numerator and the (positive) denominator, both as normalized
/// base-2^32 digits.
#[derive(Debug)]
pub struct Fraction {
    pub negative: bool,
    pub num: Vec<u32>,
    pub den: Vec<u32>,
}

impl Fraction {
    /// The `(numerator, denominator)` pair this fraction denotes.
    pub open spec fn value(&self) -> (int, int) {
        (
            if self.negative {
                -digits_value(self.num@)
            } else {
                digits_value(self.num@) as int
            },
            digits_value(self.den@) as int,
        )
    }

    /// Normalized digits, no negative zero, lowest terms.
    pub open spec fn wf(&self) -> bool {
        &&& digits_normal(self.num@)
        &&& digits_normal(self.den@)
        &&& !(self.negative && digits_value(self.num@) == 0)
        &&& canonical(self.value())
    }
}

#[derive(Debug)]
enum Repr {
    Small(i64),
    Big(Fraction),
}

/// An exact rational number.
#[derive(Debug)]
pub struct BigScalar(Repr);

impl Fraction {
    /// A copy of this fraction.
    pub fn duplicate(&self) -> (r: Fraction)
        ensures
            r.negative == self.negative,
            r.num@ == self.num@,
            r.den@ == self.den@,
    {
        Fraction { negative: self.negative, num: copy_digits(&self.num), den: copy_digits(&self.den) }
    }
}

/// A copy of a digit vector.
fn copy_digits(d: &Vec<u32>) -> (r: Vec<u32>)
    ensures
        r@ == d@,
{
    let mut r: Vec<u32> = Vec::new();
    let mut i: usize = 0;
    while i < d.len()
        invariant
            i <= d@.len(),
            r@ == d@.subrange(0, i as int),
        decreases d@.len() - i,
    {
        r.push(d[i]);
        i += 1;
    }
    assert(r@ =~= d@);
    r
}

impl Clone for BigScalar {
    fn clone(&self) -> (r: Self)
        ensures
            r@ == self@,
            canonical(r@),
    {
        proof {
            use_type_invariant(self);
        }
        let r = match &self.0 {
            Repr::Small(n) => BigScalar(Repr::Small(*n)),
            Repr::Big(f) => BigScalar(Repr::Big(f.duplicate())),
        };
        proof {
            use_type_invariant(&r);
            BigScalar::lemma_inv_canonical(r);
        }
        r
    }
}

impl View for BigScalar {
    type V = (int, int);

    /// `(numerator, denominator)` in lowest terms.
    closed spec fn view(&self) -> (int, int) {
        match self.0 {
            Repr::Small(n) => (n as int, 1),
            Repr::Big(f) => f.value(),
        }
    }
}

impl BigScalar {
    /// Every value is stored once: a `Big` is a well-formed fraction that
    /// is not an integer fitting an `i64`.
    #[verifier::type_invariant]
    closed spec fn inv(self) -> bool {
        match self.0 {
            Repr::Small(_) => true,
            Repr::Big(f) => f.wf() && !(f.value().1 == 1 && fits_i64(f.value().0)),
        }
    }

    /// A stored value is in lowest terms.
    proof fn lemma_inv_canonical(s: BigScalar)
        requires
            s.inv(),
        ensures
            canonical(s@),
    {
        match s.0 {
            Repr::Small(n) => lemma_integer_canonical(n as int),
            Repr::Big(f) => {},
        }
    }

    pub fn zero() -> (r: Self)
        ensures
            r@ == (0int, 1int),
    {
        BigScalar(Repr::Small(0))
    }

    pub fn one() -> (r: Self)
        ensures
            r@ == (1int, 1int),
    {
        BigScalar(Repr::Small(1))
    }

    pub fn from_i64(n: i64) -> (r: Self)
        ensures
            r@ == (n as int, 1int),
    {
        BigScalar(Repr::Small(n))
    }

    /// `num/den` in lowest terms. The denominator must be nonzero.
    pub fn new(num: i64, den: i64) -> (r: Self)
        requires
            den != 0,
        ensures
            canonical(r@),
            same_value(r@, (num as int, den as int)),
    {
        if den == 1 {
            proof {
                lemma_integer_canonical(num as int);
            }
            return BigScalar(Repr::Small(num));
        }
        let n = Integer::from_i64(num);
        let d = Integer::from_i64(den);
        let f = fraction_new(&n, &d);
        Self::from_fraction(f)
    }

    /// Holds `f` as `Small` when it is an integer fitting an `i64`.
    fn from_fraction(f: Fraction) -> (r: Self)
        requires
            f.wf(),
        ensures
            r@ == f.value(),
            canonical(r@),
    {
        let ghost v = f.value();
        if digits_is_one(&f.den) && f.num.len() <= 2 {
            let m = u64_from_digits(&f.num);
            if f.negative {
                if m <= 9223372036854775808u64 {
                    let n: i64 = if m == 9223372036854775808u64 {
                        i64::MIN
                    } else {
                        -(m as i64)
                    };
                    return BigScalar(Repr::Small(n));
                }
            } else if m <= 9223372036854775807u64 {
                return BigScalar(Repr::Small(m as i64));
            }
        }
        proof {
            lemma_digits_bounds(f.num@);
            if f.num@.len() > 2 {
                assert(base_pow(2) == base() * base()) by {
                    assert(base_pow(0) == 1);
                    assert(base_pow(1) == base());
                }
                lemma_base_pow_mono(2, (f.num@.len() - 1) as nat);
            }
        }
        BigScalar(Repr::Big(f))
    }

    /// This value as a fraction.
    fn to_fraction(&self) -> (f: Fraction)
        ensures
            f.wf(),
            f.value() == self@,
    {
        proof {
            use_type_invariant(self);
        }
        match &self.0 {
            Repr::Small(n) => {
                let m = magnitude_of_i64(*n);
                let num = digits_from_u64(m);
                let den = digits_from_u64(1);
                proof {
                    lemma_integer_canonical(*n as int);
                }
                Fraction { negative: *n < 0, num, den }
            },
            Repr::Big(f) => f.duplicate(),
        }
    }

    /// Whether the value is zero (every value is held in lowest terms).
    pub fn is_zero(&self) -> (r: bool)
        ensures
            r == (self@.0 == 0),
            canonical(self@),
    {
        proof {
            use_type_invariant(self);
            BigScalar::lemma_inv_canonical(*self);
        }
        match &self.0 {
            Repr::Small(n) => *n == 0,
            Repr::Big(f) => {
                proof {
                    lemma_big_nonzero(f);
                }
                false
            },
        }
    }

    pub fn is_negative(&self) -> (r: bool)
        ensures
            r == (self@.0 < 0),
    {
        proof {
            use_type_invariant(self);
        }
        match &self.0 {
            Repr::Small(n) => *n < 0,
            Repr::Big(f) => f.negative,
        }
    }

    pub fn is_integer(&self) -> (r: bool)
        ensures
            r == (self@.1 == 1),
    {
        proof {
            use_type_invariant(self);
        }
        match &self.0 {
            Repr::Small(_) => true,
            Repr::Big(f) => digits_is_one(&f.den),
        }
    }

    /// `1/self`, or `None` for zero (which has no reciprocal).
    pub fn recip(&self) -> (r: Option<Self>)
        ensures
            self@.0 == 0 <==> r is None,
            r matches Some(q) ==> same_value(q@, (self@.1, self@.0)),
    {
        proof {
            use_type_invariant(self);
        }
        match &self.0 {
            Repr::Small(n) => {
                if *n == 0 {
                    None
                } else if *n == 1 {
                    let r = BigScalar(Repr::Small(1));
                    assert(same_value(r@, (self@.1, self@.0)));
                    Some(r)
                } else if *n == -1 {
                    let r = BigScalar(Repr::Small(-1));
                    assert(r@ == (-1int, 1int));
                    assert(self@ == (-1int, 1int));
                    assert(same_value(r@, (self@.1, self@.0)));
                    Some(r)
                } else {
                    let one = Integer::from_i64(1);
                    let d = Integer::from_i64(*n);
                    let f = fraction_new(&one, &d);
                    proof {
                        let q = f.value();
                        let m = *n as int;
                        assert(q.1 != 1) by (nonlinear_arith)
                            requires
                                q.0 * m == 1 * q.1,
                                m < -1 || m > 1,
                        {
                            if q.1 == 1 {
                                assert(q.0 * m == 1);
                                if q.0 == 0 {
                                } else if q.0 > 0 {
                                    assert(q.0 * m > 1 || q.0 * m < -1);
                                } else {
                                    assert(q.0 * m > 1 || q.0 * m < -1);
                                }
                            }
                        }
                    }
                    let r = BigScalar(Repr::Big(f));
                    assert(same_value(r@, (self@.1, self@.0)));
                    Some(r)
                }
            },
            Repr::Big(f) => {
                proof {
                    lemma_big_nonzero(f);
                }
                {
                    let g = Fraction { negative: f.negative, num: copy_digits(&f.den), den: copy_digits(&f.num) };
                    proof {
                        let p = digits_value(f.num@) as int;
                        let q = digits_value(f.den@) as int;
                        let sp = if f.negative { -p } else { p };
                        let sq = if f.negative { -q } else { q };
                        assert(sq * sp == q * p) by (nonlinear_arith)
                            requires
                                sp == p || sp == -p,
                                sq == q || sq == -q,
                                (sp == -p) == (sq == -q),
                        ;
                    }
                    proof {
                        lemma_gcd_symmetric(digits_value(f.num@), digits_value(f.den@));
                    }
                    let r = Self::from_fraction(g);
                    assert(r@ == g.value());
                    assert(same_value(r@, (self@.1, self@.0)));
                    Some(r)
                }
            },
        }
    }

    /// The decimal text of the numerator.
    pub fn numer_text(&self) -> (s: String)
        ensures
            s@ == int_decimal(self@.0),
    {
        proof {
            use_type_invariant(self);
        }
        match &self.0 {
            Repr::Small(n) => i64_to_decimal(*n),
            Repr::Big(f) => {
                proof {
                    lemma_big_nonzero(f);
                }
                let digits = digits_to_decimal(&f.num);
                if f.negative {
                    let mut s = String::new();
                    push_str(&mut s, "-");
                    push_str(&mut s, digits.as_str());
                    proof {
                        reveal_strlit("-");
                        assert(s@ =~= seq!['-'] + digits@);
                    }
                    s
                } else {
                    digits
                }
            },
        }
    }

    /// The decimal text of the numerator's magnitude.
    pub fn magnitude_text(&self) -> (s: String)
        ensures
            s@ == nat_decimal(abs(self@.0)),
    {
        match &self.0 {
            Repr::Small(n) => {
                let m = magnitude_of_i64(*n);
                let d = digits_from_u64(m);
                digits_to_decimal(&d)
            },
            Repr::Big(f) => digits_to_decimal(&f.num),
        }
    }

    /// The decimal text of the denominator.
    pub fn denom_text(&self) -> (s: String)
        ensures
            s@ == nat_decimal(self@.1 as nat),
    {
        proof {
            use_type_invariant(self);
        }
        match &self.0 {
            Repr::Small(_) => {
                let d = digits_from_u64(1);
                digits_to_decimal(&d)
            },
            Repr::Big(f) => digits_to_decimal(&f.den),
        }
    }

    /// Plain text: `n` for an integer, `n/d` otherwise (`-3/4`).
    pub fn to_text(&self) -> (s: String)
        ensures
            s@ == scalar_text(self@),
    {
        let mut s = self.numer_text();
        if !self.is_integer() {
            push_str(&mut s, "/");
            let d = self.denom_text();
            push_str(&mut s, d.as_str());
        }
        s
    }

    /// This value as text in `target`'s own syntax.
    pub fn render(&self, target: Target) -> (s: String)
        ensures
            s@ == scalar_render(self@, target),
    {
        match target {
            Target::Unicode | Target::Mathematica => self.to_text(),
            Target::Latex => {
                if self.is_integer() {
                    self.numer_text()
                } else {
                    let mut s = String::new();
                    if self.is_negative() {
                        push_str(&mut s, "-");
                    }
                    push_str(&mut s, "\\frac{");
                    let m = self.magnitude_text();
                    push_str(&mut s, m.as_str());
                    push_str(&mut s, "}{");
                    let d = self.denom_text();
                    push_str(&mut s, d.as_str());
                    push_str(&mut s, "}");
                    s
                }
            },
            Target::Json => {
                let mut s = String::new();
                push_str(&mut s, "{\"num\":");
                let n = self.numer_text();
                push_str(&mut s, n.as_str());
                push_str(&mut s, ",\"den\":");
                let d = self.denom_text();
                push_str(&mut s, d.as_str());
                push_str(&mut s, "}");
                s
            },
            Target::Sympy => {
                if self.is_integer() {
                    self.numer_text()
                } else {
                    let mut s = String::new();
                    push_str(&mut s, "Rational(");
                    let n = self.numer_text();
                    push_str(&mut s, n.as_str());
                    push_str(&mut s, ", ");
                    let d = self.denom_text();
                    push_str(&mut s, d.as_str());
                    push_str(&mut s, ")");
                    s
                }
            },
        }
    }

    /// The absolute value of an integer; `1` for a non-integer.
    fn integer_magnitude(&self) -> (r: Self)
        ensures
            r@ == (if self@.1 == 1 { (abs(self@.0) as int, 1int) } else { (1int, 1int) }),
    {
        proof {
            use_type_invariant(self);
        }
        if !self.is_integer() {
            return BigScalar::one();
        }
        if self.is_negative() {
            core::ops::Neg::neg(self.clone())
        } else {
            self.clone()
        }
    }

    /// The non-negative GCD of two integers (the sign is no part of a GCD):
    /// against zero it is the other argument's absolute value, and a
    /// non-integer argument yields `1`.
    pub fn gcd(&self, other: &Self) -> (r: Self)
        ensures
            r@ == scalar_gcd(self@, other@),
    {
        proof {
            use_type_invariant(self);
            use_type_invariant(other);
        }
        if self.is_zero() {
            return other.integer_magnitude();
        }
        if other.is_zero() {
            return self.integer_magnitude();
        }
        if !self.is_integer() || !other.is_integer() {
            return BigScalar::one();
        }
        match (&self.0, &other.0) {
            (Repr::Small(x), Repr::Small(y)) => {
                let mut a = magnitude_of_i64(*x);
                let mut b = magnitude_of_i64(*y);
                while b != 0
                    invariant
                        gcd(a as nat, b as nat) == gcd(abs(*x as int), abs(*y as int)),
                    decreases b,
                {
                    let t = a % b;
                    a = b;
                    b = t;
                }
                if a <= 9223372036854775807u64 {
                    BigScalar(Repr::Small(a as i64))
                } else {
                    let num = digits_from_u64(a);
                    let den = digits_from_u64(1);
                    proof {
                        lemma_gcd_one(a as nat);
                    }
                    BigScalar(Repr::Big(Fraction { negative: false, num, den }))
                }
            },
            _ => {
                let f = self.to_fraction();
                let g = other.to_fraction();
                let mut a = f.num;
                let mut b = g.num;
                while b.len() != 0
                    invariant
                        digits_normal(a@),
                        digits_normal(b@),
                        gcd(digits_value(a@), digits_value(b@)) == gcd(abs(self@.0), abs(other@.0)),
                    decreases digits_value(b@),
                {
                    proof {
                        lemma_digits_bounds(b@);
                        lemma_base_pow_positive((b@.len() - 1) as nat);
                    }
                    let t = digits_rem(&a, &b);
                    proof {
                        let x = digits_value(a@);
                        let y = digits_value(b@);
                        assert(x % y < y) by (nonlinear_arith)
                            requires
                                y > 0,
                        ;
                    }
                    a = b;
                    b = t;
                }
                let one = digits_from_u64(1);
                proof {
                    lemma_gcd_one(digits_value(a@));
                }
                Self::from_fraction(Fraction { negative: false, num: a, den: one })
            },
        }
    }

    /// Rough magnitude of numerator/denominator in bits: the numerator's
    /// bit length for an integer, the larger of the two bit lengths
    /// otherwise.
    pub fn bit_length_estimate(&self) -> (r: u64)
        ensures
            r == if self@.1 == 1 {
                bit_len(abs(self@.0))
            } else {
                max_nat(bit_len(abs(self@.0)), bit_len(self@.1 as nat))
            },
    {
        proof {
            use_type_invariant(self);
            lemma_bit_len_one();
        }
        match &self.0 {
            Repr::Small(n) => {
                let m0 = magnitude_of_i64(*n);
                let mut m = m0;
                let mut k: u64 = 0;
                proof {
                    lemma_bit_len_u64(m0);
                }
                while m != 0
                    invariant
                        k + bit_len(m as nat) == bit_len(abs(*n as int)),
                        k <= 64 - bit_len(m as nat),
                        bit_len(m as nat) <= 64,
                    decreases m,
                {
                    proof {
                        lemma_bit_len_u64(m);
                        lemma_bit_len_u64(m / 2);
                    }
                    m = m / 2;
                    k = k + 1;
                }
                k
            },
            Repr::Big(f) => {
                proof {
                    lemma_big_nonzero(f);
                    let v = digits_value(f.num@);
                    assert(bit_len(v) == 1 + bit_len(v / 2));
                }
                let a = digits_bits(&f.num);
                let b = digits_bits(&f.den);
                if a >= b {
                    a
                } else {
                    b
                }
            },
        }
    }

    /// Orders two values by numerator, then by denominator (a fixed total
    /// order on the lowest-terms pairs, not the order of the numbers).
    pub fn compare(&self, other: &Self) -> (r: i8)
        ensures
            r as int == scalar_order(self@, other@),
    {
        if let Repr::Small(a) = &self.0 {
            if let Repr::Small(b) = &other.0 {
                return if *a < *b {
                    -1
                } else if *a == *b {
                    0
                } else {
                    1
                };
            }
        }
        let f = self.to_fraction();
        let g = other.to_fraction();
        let num: i8 = if f.negative && !g.negative {
            -1
        } else if !f.negative && g.negative {
            1
        } else if f.negative {
            -digits_order(&f.num, &g.num)
        } else {
            digits_order(&f.num, &g.num)
        };
        if num != 0 {
            return num;
        }
        digits_order(&f.den, &g.den)
    }

    /// Orders two values as numbers: `-1`, `0` or `1` as `self` is below,
    /// equal to or above `other`.
    pub fn compare_values(&self, other: &Self) -> (r: i8)
        ensures
            r as int == int_order(self@.0 * other@.1, other@.0 * self@.1),
    {
        if let Repr::Small(a) = &self.0 {
            if let Repr::Small(b) = &other.0 {
                assert(self@ == (*a as int, 1int) && other@ == (*b as int, 1int));
                assert(self@.0 * other@.1 == *a as int && other@.0 * self@.1 == *b as int);
                return if *a < *b {
                    -1
                } else if *a == *b {
                    0
                } else {
                    1
                };
            }
        }
        let f = self.to_fraction();
        let g = other.to_fraction();
        fraction_order(&f, &g)
    }

    /// Value equality (the representation is canonical, so this is also
    /// structural equality).
    pub fn equals(&self, other: &Self) -> (r: bool)
        ensures
            r == (self@ == other@),
    {
        proof {
            use_type_invariant(self);
            use_type_invariant(other);
        }
        match (&self.0, &other.0) {
            (Repr::Small(a), Repr::Small(b)) => *a == *b,
            (Repr::Big(f), Repr::Big(g)) => {
                let r = f.negative == g.negative && digits_equal(&f.num, &g.num) && digits_equal(
                    &f.den,
                    &g.den,
                );
                proof {
                    if self@ == other@ {
                        assert(f.negative == g.negative) by {
                            if f.negative != g.negative {
                                assert(digits_value(f.num@) == 0);
                            }
                        }
                        lemma_digits_injective(f.num@, g.num@);
                        lemma_digits_injective(f.den@, g.den@);
                    }
                }
                r
            },
            _ => false,
        }
    }
}


impl core::ops::Add for BigScalar {
    type Output = BigScalar;

    fn add(self, rhs: Self) -> (r: Self)
        ensures
            same_value(r@, rat_add(self@, rhs@)),
            canonical(r@),
    {
        if let Repr::Small(x) = self.0 {
            if let Repr::Small(y) = rhs.0 {
                if let Some(s) = x.checked_add(y) {
                    proof {
                        lemma_integer_canonical(s as int);
                    }
                    return BigScalar(Repr::Small(s));
                }
            }
        }
        let a = self.to_fraction();
        let b = rhs.to_fraction();
        Self::from_fraction(fraction_add(&a, &b))
    }

}

impl vstd::std_specs::ops::AddSpecImpl for BigScalar {
    open spec fn obeys_add_spec() -> bool {
        false
    }

    open spec fn add_req(self, rhs: BigScalar) -> bool {
        true
    }

    open spec fn add_spec(self, rhs: BigScalar) -> BigScalar {
        arbitrary()
    }
}

impl core::ops::Mul for BigScalar {
    type Output = BigScalar;

    fn mul(self, rhs: Self) -> (r: Self)
        ensures
            same_value(r@, rat_mul(self@, rhs@)),
            canonical(r@),
    {
        if let Repr::Small(x) = self.0 {
            if let Repr::Small(y) = rhs.0 {
                if let Some(p) = x.checked_mul(y) {
                    proof {
                        lemma_integer_canonical(p as int);
                    }
                    return BigScalar(Repr::Small(p));
                }
            }
        }
        let a = self.to_fraction();
        let b = rhs.to_fraction();
        Self::from_fraction(fraction_mul(&a, &b))
    }

}

impl vstd::std_specs::ops::MulSpecImpl for BigScalar {
    open spec fn obeys_mul_spec() -> bool {
        false
    }

    open spec fn mul_req(self, rhs: BigScalar) -> bool {
        true
    }

    open spec fn mul_spec(self, rhs: BigScalar) -> BigScalar {
        arbitrary()
    }
}

impl core::ops::Sub for BigScalar {
    type Output = BigScalar;

    fn sub(self, rhs: Self) -> (r: Self)
        ensures
            same_value(r@, rat_add(self@, rat_neg(rhs@))),
    {
        core::ops::Add::add(self, core::ops::Neg::neg(rhs))
    }

}

impl vstd::std_specs::ops::SubSpecImpl for BigScalar {
    open spec fn obeys_sub_spec() -> bool {
        false
    }

    open spec fn sub_req(self, rhs: BigScalar) -> bool {
        true
    }

    open spec fn sub_spec(self, rhs: BigScalar) -> BigScalar {
        arbitrary()
    }
}

impl core::ops::Neg for BigScalar {
    type Output = BigScalar;

    fn neg(self) -> (r: Self)
        ensures
            r@ == rat_neg(self@),
            canonical(r@),
    {
        proof {
            use_type_invariant(&self);
        }
        let r = match self.0 {
            Repr::Small(n) => {
                if n == i64::MIN {
                    let num = digits_from_u64(9223372036854775808u64);
                    let den = digits_from_u64(1);
                    proof {
                        lemma_gcd_one(9223372036854775808nat);
                    }
                    BigScalar(Repr::Big(Fraction { negative: false, num, den }))
                } else {
                    BigScalar(Repr::Small(-n))
                }
            },
            Repr::Big(f) => {
                let g = Fraction { negative: !f.negative, num: f.num, den: f.den };
                proof {
                    lemma_big_nonzero(&f);
                }
                Self::from_fraction(g)
            },
        };
        proof {
            use_type_invariant(&r);
            BigScalar::lemma_inv_canonical(r);
        }
        r
    }

}

impl vstd::std_specs::ops::NegSpecImpl for BigScalar {
    open spec fn obeys_neg_spec() -> bool {
        false
    }

    open spec fn neg_req(self) -> bool {
        true
    }

    open spec fn neg_spec(self) -> BigScalar {
        arbitrary()
    }
}

impl PartialEq for BigScalar {
    fn eq(&self, other: &Self) -> (r: bool) {
        self.equals(other)
    }
}

impl vstd::std_specs::cmp::PartialEqSpecImpl for BigScalar {
    open spec fn obeys_eq_spec() -> bool {
        true
    }

    open spec fn eq_spec(&self, other: &BigScalar) -> bool {
        self@ == other@
    }
}

impl Eq for BigScalar {
}

/// A `Big` value is never zero (zero is an `i64`).
proof fn lemma_big_nonzero(f: &Fraction)
    requires
        f.wf(),
        !(f.value().1 == 1 && fits_i64(f.value().0)),
    ensures
        digits_value(f.num@) != 0,
        f.num@.len() != 0,
{
    if digits_value(f.num@) == 0 {
        lemma_zero_canonical(f.value().1);
    }
    if f.num@.len() == 0 {
        assert(digits_value(f.num@) == 0);
    }
}

/// A signed big integer as plain values: sign and magnitude digits.
pub struct Integer {
    pub negative: bool,
    pub mag: Vec<u32>,
}

impl Integer {
    pub open spec fn value(&self) -> int {
        if self.negative {
            -digits_value(self.mag@)
        } else {
            digits_value(self.mag@) as int
        }
    }

    pub fn from_i64(n: i64) -> (r: Integer)
        ensures
            r.value() == n as int,
            digits_normal(r.mag@),
    {
        let m = magnitude_of_i64(n);
        Integer { negative: n < 0, mag: digits_from_u64(m) }
    }
}

/// `num/den` in lowest terms, via `num_rational::BigRational::new`.
///
/// Trusted: `Ratio::new` divides both parts by their gcd and makes the
/// denominator positive (it panics only on a zero denominator, excluded
/// by `requires`); the contract states the value and the lowest-terms
/// form of the result.
#[verifier::external_body]
fn fraction_new(num: &Integer, den: &Integer) -> (r: Fraction)
    requires
        den.value() != 0,
    ensures
        r.wf(),
        same_value(r.value(), (num.value(), den.value())),
{
    let s = |n: bool| if n { Sign::Minus } else { Sign::Plus };
    let r = BigRational::new(BigInt::from_slice(s(num.negative), &num.mag), BigInt::from_slice(s(den.negative), &den.mag));
    Fraction { negative: r.numer().sign() == Sign::Minus, num: r.numer().magnitude().to_u32_digits(), den: r.denom().magnitude().to_u32_digits() }
}

/// `a + b`, via `BigRational`'s `Add`.
///
/// Trusted: `Ratio`'s `Add` returns `Ratio::new` of the sum over the
/// common denominator, so the result is the sum in lowest terms.
#[verifier::external_body]
fn fraction_add(a: &Fraction, b: &Fraction) -> (r: Fraction)
    requires
        a.wf(),
        b.wf(),
    ensures
        r.wf(),
        same_value(r.value(), rat_add(a.value(), b.value())),
{
    let s = |n: bool| if n { Sign::Minus } else { Sign::Plus };
    let x = BigRational::new_raw(BigInt::from_slice(s(a.negative), &a.num), BigInt::from_slice(Sign::Plus, &a.den));
    let y = BigRational::new_raw(BigInt::from_slice(s(b.negative), &b.num), BigInt::from_slice(Sign::Plus, &b.den));
    let r = x + y;
    Fraction { negative: r.numer().sign() == Sign::Minus, num: r.numer().magnitude().to_u32_digits(), den: r.denom().magnitude().to_u32_digits() }
}

/// `a` against `b` as numbers, via `BigRational`'s `Ord`.
///
/// Trusted: `Ratio`'s `Ord` compares the values of the two fractions
/// (for positive denominators, the sign of `a.n * b.d - b.n * a.d`).
#[verifier::external_body]
fn fraction_order(a: &Fraction, b: &Fraction) -> (r: i8)
    requires
        a.wf(),
        b.wf(),
    ensures
        r == int_order(a.value().0 * b.value().1, b.value().0 * a.value().1),
{
    let s = |n: bool| if n { Sign::Minus } else { Sign::Plus };
    let x = BigRational::new_raw(BigInt::from_slice(s(a.negative), &a.num), BigInt::from_slice(Sign::Plus, &a.den));
    let y = BigRational::new_raw(BigInt::from_slice(s(b.negative), &b.num), BigInt::from_slice(Sign::Plus, &b.den));
    match x.cmp(&y) {
        core::cmp::Ordering::Less => -1,
        core::cmp::Ordering::Equal => 0,
        core::cmp::Ordering::Greater => 1,
    }
}

/// `a * b`, via `BigRational`'s `Mul`.
///
/// Trusted: `Ratio`'s `Mul` cross-cancels and returns `Ratio::new` of
/// the product, so the result is the product in lowest terms.
#[verifier::external_body]
fn fraction_mul(a: &Fraction, b: &Fraction) -> (r: Fraction)
    requires
        a.wf(),
        b.wf(),
    ensures
        r.wf(),
        same_value(r.value(), rat_mul(a.value(), b.value())),
{
    let s = |n: bool| if n { Sign::Minus } else { Sign::Plus };
    let x = BigRational::new_raw(BigInt::from_slice(s(a.negative), &a.num), BigInt::from_slice(Sign::Plus, &a.den));
    let y = BigRational::new_raw(BigInt::from_slice(s(b.negative), &b.num), BigInt::from_slice(Sign::Plus, &b.den));
    let r = x * y;
    Fraction { negative: r.numer().sign() == Sign::Minus, num: r.numer().magnitude().to_u32_digits(), den: r.denom().magnitude().to_u32_digits() }
}


/// Numerators first, then denominators.
pub open spec fn scalar_order(a: (int, int), b: (int, int)) -> int {
    if int_order(a.0, b.0) != 0 {
        int_order(a.0, b.0)
    } else {
        int_order(a.1, b.1)
    }
}

/// The text of a rational: `n` for an integer, `n/d` otherwise.
pub open spec fn scalar_text(q: (int, int)) -> Seq<char> {
    if q.1 == 1 {
        int_decimal(q.0)
    } else {
        int_decimal(q.0) + "/"@ + nat_decimal(q.1 as nat)
    }
}

/// The text of a rational in `target`'s syntax: a LaTeX `\frac`, a JSON
/// `{"num":..,"den":..}` object, a SymPy `Rational(n, d)` for a genuine
/// fraction (a bare `n/d` would be inexact Python division), and the
/// plain text otherwise.
pub open spec fn scalar_render(q: (int, int), target: Target) -> Seq<char> {
    match target {
        Target::Unicode | Target::Mathematica => scalar_text(q),
        Target::Latex => if q.1 == 1 {
            int_decimal(q.0)
        } else {
            (if q.0 < 0 {
                "-"@
            } else {
                Seq::<char>::empty()
            }) + "\\frac{"@ + nat_decimal(abs(q.0)) + "}{"@ + nat_decimal(q.1 as nat) + "}"@
        },
        Target::Json => "{\"num\":"@ + int_decimal(q.0) + ",\"den\":"@ + nat_decimal(q.1 as nat)
            + "}"@,
        Target::Sympy => if q.1 == 1 {
            int_decimal(q.0)
        } else {
            "Rational("@ + int_decimal(q.0) + ", "@ + nat_decimal(q.1 as nat) + ")"@
        },
    }
}

/// What [`BigScalar::gcd`] returns.
pub open spec fn scalar_gcd(a: (int, int), b: (int, int)) -> (int, int) {
    if a.0 == 0 {
        if b.1 == 1 { (abs(b.0) as int, 1) } else { (1, 1) }
    } else if b.0 == 0 {
        if a.1 == 1 { (abs(a.0) as int, 1) } else { (1, 1) }
    } else if a.1 != 1 || b.1 != 1 {
        (1, 1)
    } else {
        (gcd(abs(a.0), abs(b.0)) as int, 1)
    }
}

/// The number of bits needed to write `n` (zero for zero).
pub open spec fn bit_len(n: nat) -> nat
    decreases n,
{
    if n == 0 {
        0
    } else {
        1 + bit_len(n / 2)
    }
}

pub open spec fn max_nat(a: nat, b: nat) -> nat {
    if a >= b {
        a
    } else {
        b
    }
}

proof fn lemma_bit_len_one()
    ensures
        bit_len(1) == 1,
{
    assert(bit_len(0) == 0);
}

proof fn lemma_bit_len_bound(n: nat, k: nat)
    requires
        n < pow2(k),
    ensures
        bit_len(n) <= k,
    decreases k,
{
    if n > 0 {
        if k == 0 {
            assert(pow2(0) == 1) by {
                lemma2_to64();
            }
        } else {
            lemma_pow2_unfold(k);
            lemma_bit_len_bound(n / 2, (k - 1) as nat);
        }
    }
}

proof fn lemma_bit_len_u64(m: u64)
    ensures
        bit_len(m as nat) <= 64,
{
    lemma2_to64();
    lemma_bit_len_bound(m as nat, 64);
}

/// `a % b` of two magnitudes, via `num_bigint::BigUint`'s `Rem`.
///
/// Trusted: `BigUint`'s `%` is the remainder of division (it panics only
/// on a zero divisor, excluded by `requires`), and `to_u32_digits`
/// returns normalized little-endian digits.
#[verifier::external_body]
fn digits_rem(a: &Vec<u32>, b: &Vec<u32>) -> (r: Vec<u32>)
    requires
        digits_value(b@) != 0,
    ensures
        digits_normal(r@),
        digits_value(r@) == digits_value(a@) % digits_value(b@),
{
    (num_bigint::BigUint::from_slice(a) % num_bigint::BigUint::from_slice(b)).to_u32_digits()
}

/// The bit length of a magnitude, via `num_bigint::BigUint::bits`.
///
/// Trusted: `BigUint::bits` returns the fewest bits needed to write the
/// value (zero for zero).
#[verifier::external_body]
fn digits_bits(d: &Vec<u32>) -> (r: u64)
    ensures
        r as nat == bit_len(digits_value(d@)),
{
    num_bigint::BigUint::from_slice(d).bits()
}

} // verus!
