//! Arbitrary-size magnitudes as plain little-endian base-2^32 digit
//! vectors, plus the decimal text of integers.
//!
//! A magnitude is a `Vec<u32>`, least significant digit first, with no
//! trailing zero digit (so zero is the empty vector and every value has
//! exactly one representation). The arithmetic that needs real bignum
//! work is done by `num-bigint`/`num-rational` in `big_scalar.rs`; this
//! module holds the model those calls are stated against and the small
//! conversions that are proved here.
use vstd::prelude::*;

verus! {

/// `2^32`, the digit base.
pub open spec fn base() -> nat {
    4294967296
}

/// The value of a little-endian base-2^32 digit sequence.
pub open spec fn digits_value(d: Seq<u32>) -> nat
    decreases d.len(),
{
    if d.len() == 0 {
        0
    } else {
        d[0] as nat + base() * digits_value(d.subrange(1, d.len() as int))
    }
}

/// No trailing zero digit: the unique representation of its value.
pub open spec fn digits_normal(d: Seq<u32>) -> bool {
    d.len() == 0 || d[d.len() - 1] != 0
}

/// `base^k`.
pub open spec fn base_pow(k: nat) -> nat
    decreases k,
{
    if k == 0 {
        1
    } else {
        base() * base_pow((k - 1) as nat)
    }
}

/// A normalized digit sequence of length `n > 0` is at least `base^(n-1)`
/// and always below `base^n`.
pub proof fn lemma_digits_bounds(d: Seq<u32>)
    ensures
        digits_value(d) < base_pow(d.len()),
        digits_normal(d) && d.len() > 0 ==> digits_value(d) >= base_pow((d.len() - 1) as nat),
    decreases d.len(),
{
    if d.len() > 0 {
        let rest = d.subrange(1, d.len() as int);
        lemma_digits_bounds(rest);
        assert(base_pow(d.len()) == base() * base_pow(rest.len()));
        assert(digits_value(d) < base_pow(d.len())) by (nonlinear_arith)
            requires
                digits_value(d) == d[0] as nat + base() * digits_value(rest),
                digits_value(rest) < base_pow(rest.len()),
                base_pow(d.len()) == base() * base_pow(rest.len()),
                d[0] < base(),
        ;
        if digits_normal(d) && d.len() > 1 {
            assert(rest[rest.len() - 1] == d[d.len() - 1]);
            assert(digits_normal(rest));
            assert(base_pow((d.len() - 1) as nat) == base() * base_pow((rest.len() - 1) as nat));
            assert(digits_value(d) >= base_pow((d.len() - 1) as nat)) by (nonlinear_arith)
                requires
                    digits_value(d) == d[0] as nat + base() * digits_value(rest),
                    digits_value(rest) >= base_pow((rest.len() - 1) as nat),
                    base_pow((d.len() - 1) as nat) == base() * base_pow((rest.len() - 1) as nat),
            ;
        }
        if digits_normal(d) && d.len() == 1 {
            assert(rest.len() == 0);
            assert(digits_value(d) == d[0] as nat);
        }
    }
}

/// Two normalized digit sequences with the same value are the same
/// sequence.
pub proof fn lemma_digits_injective(a: Seq<u32>, b: Seq<u32>)
    requires
        digits_normal(a),
        digits_normal(b),
        digits_value(a) == digits_value(b),
    ensures
        a == b,
    decreases a.len(),
{
    lemma_digits_bounds(a);
    lemma_digits_bounds(b);
    if a.len() == 0 {
        if b.len() > 0 {
            assert(base_pow((b.len() - 1) as nat) >= 1) by {
                lemma_base_pow_positive((b.len() - 1) as nat);
            }
        }
    } else if b.len() == 0 {
        assert(base_pow((a.len() - 1) as nat) >= 1) by {
            lemma_base_pow_positive((a.len() - 1) as nat);
        }
    } else {
        let ra = a.subrange(1, a.len() as int);
        let rb = b.subrange(1, b.len() as int);
        let va = digits_value(ra);
        let vb = digits_value(rb);
        assert(a[0] as nat + base() * va == b[0] as nat + base() * vb);
        assert(a[0] == b[0] && va == vb) by (nonlinear_arith)
            requires
                a[0] as nat + base() * va == b[0] as nat + base() * vb,
                a[0] < base(),
                b[0] < base(),
        ;
        if ra.len() > 0 {
            assert(ra[ra.len() - 1] == a[a.len() - 1]);
        }
        if rb.len() > 0 {
            assert(rb[rb.len() - 1] == b[b.len() - 1]);
        }
        lemma_digits_injective(ra, rb);
        assert(a =~= seq![a[0]] + ra);
        assert(b =~= seq![b[0]] + rb);
    }
}

pub proof fn lemma_base_pow_positive(k: nat)
    ensures
        base_pow(k) >= 1,
    decreases k,
{
    if k > 0 {
        lemma_base_pow_positive((k - 1) as nat);
    }
}

/// `base^i <= base^j` for `i <= j`.
pub proof fn lemma_base_pow_mono(i: nat, j: nat)
    requires
        i <= j,
    ensures
        base_pow(i) <= base_pow(j),
    decreases j,
{
    if i < j {
        lemma_base_pow_mono(i, (j - 1) as nat);
        lemma_base_pow_positive((j - 1) as nat);
        assert(base_pow(j) == base() * base_pow((j - 1) as nat));
    }
}

/// The two-digit case of [`digits_value`], spelled out.
pub proof fn lemma_two_digits(d: Seq<u32>)
    requires
        d.len() == 2,
    ensures
        digits_value(d) == d[0] as nat + base() * d[1] as nat,
{
    let r = d.subrange(1, 2);
    let rr = r.subrange(1, 1);
    assert(rr.len() == 0);
    assert(digits_value(r) == r[0] as nat + base() * digits_value(rr));
}

/// The one-digit case of [`digits_value`].
pub proof fn lemma_one_digit(d: Seq<u32>)
    requires
        d.len() == 1,
    ensures
        digits_value(d) == d[0] as nat,
{
    let r = d.subrange(1, 1);
    assert(r.len() == 0);
    assert(digits_value(r) == 0);
}

/// The digits of a `u64`.
pub fn digits_from_u64(m: u64) -> (d: Vec<u32>)
    ensures
        digits_normal(d@),
        digits_value(d@) == m as nat,
        d@.len() <= 2,
{
    let mut d: Vec<u32> = Vec::new();
    if m == 0 {
        return d;
    }
    let lo: u32 = (m % 4294967296) as u32;
    let hi: u32 = (m / 4294967296) as u32;
    assert(m == lo + 4294967296 * hi) by (nonlinear_arith)
        requires
            lo == m % 4294967296,
            hi == m / 4294967296,
    ;
    d.push(lo);
    if hi != 0 {
        d.push(hi);
        proof {
            lemma_two_digits(d@);
        }
    } else {
        proof {
            lemma_one_digit(d@);
        }
    }
    d
}

/// The `u64` value of at most two digits.
pub fn u64_from_digits(d: &Vec<u32>) -> (m: u64)
    requires
        d@.len() <= 2,
    ensures
        m as nat == digits_value(d@),
{
    if d.len() == 0 {
        0
    } else if d.len() == 1 {
        proof {
            lemma_one_digit(d@);
        }
        d[0] as u64
    } else {
        proof {
            lemma_two_digits(d@);
        }
        let lo = d[0] as u64;
        let hi = d[1] as u64;
        assert(hi * 4294967296 + lo <= u64::MAX) by (nonlinear_arith)
            requires
                hi < 4294967296,
                lo < 4294967296,
        ;
        hi * 4294967296 + lo
    }
}

/// `n`'s magnitude as a `u64` (total: `|i64::MIN|` fits).
pub fn magnitude_of_i64(n: i64) -> (m: u64)
    ensures
        m as int == if n < 0 {
            -n
        } else {
            n as int
        },
{
    if n < 0 {
        if n == i64::MIN {
            9223372036854775808u64
        } else {
            (-n) as u64
        }
    } else {
        n as u64
    }
}

/// Whether the digits are the single digit `1`.
pub fn digits_is_one(d: &Vec<u32>) -> (r: bool)
    requires
        digits_normal(d@),
    ensures
        r == (digits_value(d@) == 1),
{
    proof {
        lemma_digits_bounds(d@);
    }
    if d.len() == 1 {
        proof {
            lemma_one_digit(d@);
        }
        d[0] == 1
    } else {
        if d.len() >= 2 {
            assert(base_pow((d@.len() - 1) as nat) >= base()) by {
                assert(base_pow((d@.len() - 1) as nat) == base() * base_pow((d@.len() - 2) as nat));
                lemma_base_pow_positive((d@.len() - 2) as nat);
                assert(base() * base_pow((d@.len() - 2) as nat) >= base()) by (nonlinear_arith)
                    requires
                        base_pow((d@.len() - 2) as nat) >= 1,
                ;
            }
        }
        false
    }
}

/// Structural equality of two digit vectors.
pub fn digits_equal(a: &Vec<u32>, b: &Vec<u32>) -> (r: bool)
    ensures
        r == (a@ == b@),
{
    if a.len() != b.len() {
        return false;
    }
    let mut i: usize = 0;
    while i < a.len()
        invariant
            a@.len() == b@.len(),
            i <= a@.len(),
            forall|j: int| 0 <= j < i ==> a@[j] == b@[j],
        decreases a@.len() - i,
    {
        if a[i] != b[i] {
            return false;
        }
        i += 1;
    }
    assert(a@ =~= b@);
    true
}

/// `-1`, `0` or `1` as `a` is below, equal to or above `b`.
pub open spec fn int_order(a: int, b: int) -> int {
    if a < b {
        -1
    } else if a == b {
        0
    } else {
        1
    }
}

/// Appending a most significant digit `x` adds `x * base^len`.
pub proof fn lemma_digits_push(d: Seq<u32>, x: u32)
    ensures
        digits_value(d.push(x)) == digits_value(d) + base_pow(d.len()) * x,
    decreases d.len(),
{
    let p = d.push(x);
    if d.len() == 0 {
        assert(p.subrange(1, 1).len() == 0);
        assert(digits_value(p.subrange(1, 1)) == 0);
        assert(digits_value(p) == x as nat);
        assert(base_pow(0) == 1);
    } else {
        let rest = d.subrange(1, d.len() as int);
        lemma_digits_push(rest, x);
        assert(p.subrange(1, p.len() as int) =~= rest.push(x));
        assert(base_pow(d.len()) == base() * base_pow(rest.len()));
        assert(digits_value(p) == digits_value(d) + base_pow(d.len()) * x) by (nonlinear_arith)
            requires
                digits_value(p) == d[0] as nat + base() * digits_value(rest.push(x)),
                digits_value(d) == d[0] as nat + base() * digits_value(rest),
                digits_value(rest.push(x)) == digits_value(rest) + base_pow(rest.len()) * x,
                base_pow(d.len()) == base() * base_pow(rest.len()),
        ;
    }
}

/// Magnitude comparison of two normalized digit vectors.
pub fn digits_order(a: &Vec<u32>, b: &Vec<u32>) -> (r: i8)
    requires
        digits_normal(a@),
        digits_normal(b@),
    ensures
        r as int == int_order(digits_value(a@) as int, digits_value(b@) as int),
{
    proof {
        lemma_digits_bounds(a@);
        lemma_digits_bounds(b@);
    }
    if a.len() != b.len() {
        proof {
            if a@.len() < b@.len() {
                lemma_base_pow_mono(a@.len(), (b@.len() - 1) as nat);
            } else {
                lemma_base_pow_mono(b@.len(), (a@.len() - 1) as nat);
            }
        }
        return if a.len() < b.len() {
            -1
        } else {
            1
        };
    }
    let mut r: i8 = 0;
    let mut i: usize = 0;
    while i < a.len()
        invariant
            a@.len() == b@.len(),
            i <= a@.len(),
            r as int == int_order(
                digits_value(a@.take(i as int)) as int,
                digits_value(b@.take(i as int)) as int,
            ),
        decreases a@.len() - i,
    {
        proof {
            let ta = a@.take(i as int);
            let tb = b@.take(i as int);
            lemma_digits_push(ta, a@[i as int]);
            lemma_digits_push(tb, b@[i as int]);
            assert(a@.take(i + 1) =~= ta.push(a@[i as int]));
            assert(b@.take(i + 1) =~= tb.push(b@[i as int]));
            lemma_digits_bounds(ta);
            lemma_digits_bounds(tb);
            let p = base_pow(i as nat);
            let va = digits_value(ta);
            let vb = digits_value(tb);
            let x = a@[i as int] as int;
            let y = b@[i as int] as int;
            if x < y {
                assert(va + p * x < vb + p * y) by (nonlinear_arith)
                    requires
                        va < p,
                        x < y,
                        vb >= 0,
                ;
            } else if x > y {
                assert(va + p * x > vb + p * y) by (nonlinear_arith)
                    requires
                        vb < p,
                        x > y,
                        va >= 0,
                ;
            }
        }
        if a[i] < b[i] {
            r = -1;
        } else if a[i] > b[i] {
            r = 1;
        }
        i += 1;
    }
    proof {
        assert(a@.take(a@.len() as int) =~= a@);
        assert(b@.take(b@.len() as int) =~= b@);
    }
    r
}

// ---------------------------------------------------------------------
// Decimal text
// ---------------------------------------------------------------------

/// The ASCII digit for `d < 10`.
pub open spec fn digit_char(d: nat) -> char {
    (48 + d) as char
}

/// The decimal digits of `n`, most significant first, no leading zero.
pub open spec fn nat_decimal(n: nat) -> Seq<char>
    decreases n,
{
    if n < 10 {
        seq![digit_char(n)]
    } else {
        nat_decimal(n / 10) + seq![digit_char(n % 10)]
    }
}

/// The decimal text of `i`: a `-` sign before the digits when negative.
pub open spec fn int_decimal(i: int) -> Seq<char> {
    if i < 0 {
        seq!['-'] + nat_decimal((-i) as nat)
    } else {
        nat_decimal(i as nat)
    }
}

/// The decimal text of an `i64`: a `-` before the digits of its
/// magnitude when negative.
pub(crate) fn i64_to_decimal(n: i64) -> (s: String)
    ensures
        s@ == int_decimal(n as int),
{
    if n < 0 {
        let m: u64 = ((-(n + 1)) as u64) + 1;
        let digits = u64_decimal(m);
        let mut s = String::new();
        crate::text::push_char(&mut s, '-');
        crate::text::push_str(&mut s, digits.as_str());
        assert(s@ =~= seq!['-'] + nat_decimal(m as nat));
        s
    } else {
        u64_decimal(n as u64)
    }
}

/// The decimal text of a magnitude, via `num_bigint::BigUint`'s
/// `Display` impl.
///
/// Trusted: `BigUint::from_slice` reads base-2^32 digits least
/// significant first, and its `Display` writes the plain decimal digits
/// of the value, no sign and no leading zeros; that is what the
/// contract states.
#[verifier::external_body]
pub(crate) fn digits_to_decimal(d: &Vec<u32>) -> (s: String)
    ensures
        s@ == nat_decimal(digits_value(d@)),
{
    num_bigint::BigUint::from_slice(d).to_string()
}


/// The decimal text of a `u64`.
pub fn u64_decimal(n: u64) -> (s: String)
    ensures
        s@ == nat_decimal(n as nat),
    decreases n,
{
    let d = (n % 10) as u8;
    let c = (d + 48) as char;
    if n < 10 {
        let mut s = String::new();
        crate::text::push_char(&mut s, c);
        assert(s@ =~= nat_decimal(n as nat));
        s
    } else {
        let mut s = u64_decimal(n / 10);
        crate::text::push_char(&mut s, c);
        s
    }
}

} // verus!
