//! Polynomials in one chosen generator (the pole) whose coefficients are
//! polynomials in the others, and pseudo-division on them: the ring the
//! subresultant GCD works in. No operation here divides a coefficient,
//! so no denominator can arise.
use vstd::prelude::*;
use crate::big_scalar::BigScalar;
use crate::division::product_fits_all;
use crate::poly::{
    AtomId, Monomial, Poly, entries, entries_wf, entry, lemma_entries_len, monomial_wf,
    EXPONENT_SANITY_LIMIT,
};

verus! {

/// The empty polynomial map: the zero coefficient.
pub open spec fn zero_map() -> Map<Monomial, (int, int)> {
    Map::<Monomial, (int, int)>::empty()
}

/// No zero coefficient at the top: the length is the degree plus one.
pub open spec fn trimmed(s: Seq<Map<Monomial, (int, int)>>) -> bool {
    s.len() == 0 || s.last() != zero_map()
}

/// The coefficient models of a list of polynomials.
pub open spec fn coef_views(v: Seq<Poly>) -> Seq<Map<Monomial, (int, int)>> {
    v.map_values(|p: Poly| p@)
}

/// `coeffs[i]` is the coefficient of `pole^i`; the last one is nonzero.
pub struct UPoly {
    coeffs: Vec<Poly>,
}

impl View for UPoly {
    type V = Seq<Map<Monomial, (int, int)>>;

    closed spec fn view(&self) -> Seq<Map<Monomial, (int, int)>> {
        coef_views(self.coeffs@)
    }
}

/// A copy of a polynomial.
pub(crate) fn copy_poly(p: &Poly) -> (r: Poly)
    ensures
        r@ == p@,
{
    let r = p.add(&Poly::zero());
    proof {
        use_type_invariant(p);
        use_type_invariant(&r);
        p.lemma_coef_canonical();
        r.lemma_coef_canonical();
        assert forall|m: Monomial| #[trigger] crate::poly::coef_at(r@, m) == crate::poly::coef_at(
            p@,
            m,
        ) by {
            crate::poly::lemma_qadd_zero(crate::poly::coef_at(p@, m));
        }
        crate::poly::lemma_map_by_coefs(r@, p@);
    }
    r
}

/// Drops the zero coefficients at the top of `v`.
fn trim(v: Vec<Poly>) -> (r: UPoly)
    ensures
        r.wf(),
        r@.len() <= v@.len(),
        r@ == coef_views(v@).take(r@.len() as int),
        forall|i: int| r@.len() <= i < v@.len() ==> #[trigger] coef_views(v@)[i] == zero_map(),
{
    let mut v = v;
    let ghost v0 = v@;
    while v.len() > 0 && v[v.len() - 1].is_zero()
        invariant
            v@.len() <= v0.len(),
            v@ == v0.take(v@.len() as int),
            forall|i: int| v@.len() <= i < v0.len() ==> (#[trigger] v0[i])@ == zero_map(),
        decreases v@.len(),
    {
        let ghost before = v@;
        let last = v.pop();
        proof {
            assert(v@ =~= v0.take(v@.len() as int));
        }
    }
    let r = UPoly { coeffs: v };
    proof {
        assert(coef_views(v@) =~= coef_views(v0).take(v@.len() as int));
        if v@.len() > 0 {
            assert(coef_views(v@).last() == v@.last()@);
        }
    }
    r
}

impl UPoly {
    /// No zero coefficient at the top.
    pub closed spec fn wf(&self) -> bool {
        trimmed(self@)
    }

    /// The zero polynomial.
    pub fn zero() -> (r: UPoly)
        ensures
            r.wf(),
            r@.len() == 0,
    {
        let r = UPoly { coeffs: Vec::new() };
        assert(r@ =~= Seq::<Map<Monomial, (int, int)>>::empty());
        r
    }

    /// Builds a polynomial from its coefficients, lowest power first,
    /// dropping zero coefficients at the top.
    pub fn from_coeffs(coeffs: Vec<Poly>) -> (r: UPoly)
        ensures
            r.wf(),
            r@ == coef_views(coeffs@).take(r@.len() as int),
            forall|i: int| r@.len() <= i < coeffs@.len() ==> #[trigger] coef_views(coeffs@)[i]
                == zero_map(),
    {
        trim(coeffs)
    }

    /// The coefficients, lowest power first.
    pub fn coeffs(&self) -> (r: &Vec<Poly>)
        ensures
            coef_views(r@) == self@,
    {
        &self.coeffs
    }

    pub fn is_zero(&self) -> (r: bool)
        ensures
            r == (self@.len() == 0),
    {
        self.coeffs.len() == 0
    }

    /// The degree in the pole; `None` for zero.
    pub fn degree(&self) -> (r: Option<usize>)
        ensures
            r is None <==> self@.len() == 0,
            r matches Some(d) ==> d == self@.len() - 1,
    {
        if self.coeffs.len() == 0 {
            None
        } else {
            Some(self.coeffs.len() - 1)
        }
    }

    /// A copy.
    fn duplicate(&self) -> (r: UPoly)
        requires
            self.wf(),
        ensures
            r.wf(),
            r@ == self@,
    {
        let mut v: Vec<Poly> = Vec::new();
        let mut i: usize = 0;
        while i < self.coeffs.len()
            invariant
                0 <= i <= self.coeffs@.len(),
                coef_views(v@) == coef_views(self.coeffs@).take(i as int),
            decreases self.coeffs@.len() - i,
        {
            let c = copy_poly(&self.coeffs[i]);
            let ghost before = v@;
            v.push(c);
            proof {
                assert(coef_views(v@) =~= coef_views(before).push(c@));
                assert(coef_views(self.coeffs@).take(i + 1) =~= coef_views(self.coeffs@).take(
                    i as int,
                ).push(self.coeffs@[i as int]@));
            }
            i += 1;
        }
        let r = UPoly { coeffs: v };
        proof {
            assert(coef_views(self.coeffs@).take(self.coeffs@.len() as int) =~= self@);
        }
        r
    }

    /// Every coefficient times `factor`, with the zero coefficients at the
    /// top dropped; `None` where a product would pass the exponent sanity
    /// limit.
    fn scale_by_poly(&self, factor: &Poly) -> (r: Option<UPoly>)
        ensures
            r matches Some(u) ==> u.wf() && u@.len() <= self@.len(),
    {
        let mut v: Vec<Poly> = Vec::new();
        let mut i: usize = 0;
        while i < self.coeffs.len()
            invariant
                0 <= i <= self.coeffs@.len(),
                v@.len() == i,
            decreases self.coeffs@.len() - i,
        {
            if !product_fits_all(&self.coeffs[i], factor) {
                return None;
            }
            v.push(self.coeffs[i].product(factor));
            i += 1;
        }
        proof {
            assert(coef_views(v@).len() == v@.len());
        }
        Some(trim(v))
    }
}

impl UPoly {
    /// Pseudo-division: `(q, r, e)` with `lc(other)^e * self = q * other + r`
    /// and `r` zero or of lower degree than `other`, where `e` is the fixed
    /// classical exponent `deg(self) - deg(other) + 1` (zero when `self`
    /// is zero or of lower degree than `other`). Each of the `e` steps
    /// scales the remainder by `lc(other)` and, where its degree is still
    /// at least `other`'s, cancels its leading coefficient. `None` for a
    /// zero `other`, and where a product would pass the exponent sanity
    /// limit.
    pub fn pseudo_div_rem(&self, other: &UPoly) -> (r: Option<(UPoly, UPoly, u32)>)
        requires
            self.wf(),
            other.wf(),
        ensures
            other@.len() == 0 ==> r is None,
            r matches Some((q, rem, e)) ==> {
                &&& q.wf()
                &&& rem.wf()
                &&& rem@.len() < other@.len()
                &&& e == (if self@.len() >= other@.len() {
                    self@.len() - other@.len() + 1
                } else {
                    0
                })
                &&& self@.len() < other@.len() ==> q@.len() == 0 && rem@ == self@
                &&& self@.len() >= other@.len() ==> q@.len() <= self@.len() - other@.len() + 1
            },
    {
        let od = match other.degree() {
            Some(d) => d,
            None => return None,
        };
        let lc_b = &other.coeffs[od];
        if self.is_zero() {
            let z = UPoly::zero();
            proof {
                assert(z@ =~= self@);
            }
            return Some((UPoly::zero(), z, 0));
        }
        let sd = self.coeffs.len() - 1;
        if sd < od {
            return Some((UPoly::zero(), self.duplicate(), 0));
        }
        if sd - od >= 4294967294usize {
            return None;
        }
        let e: u32 = (sd - od + 1) as u32;
        let mut r = self.duplicate();
        let mut q_terms: Vec<(usize, Poly, u32)> = Vec::new();
        let mut step: u32 = 1;
        while step <= e
            invariant
                1 <= step <= e + 1,
                e == sd - od + 1,
                od + 1 == other@.len(),
                sd + 1 == self@.len(),
                od <= sd,
                r.wf(),
                r@.len() + step <= sd + 2,
                forall|k: int| 0 <= k < q_terms@.len() ==> (#[trigger] q_terms@[k]).0 <= sd - od
                    && 1 <= q_terms@[k].2 <= e,
                e < 4294967295,
            ensures
                r.wf(),
                r@.len() < other@.len(),
                forall|k: int| 0 <= k < q_terms@.len() ==> (#[trigger] q_terms@[k]).0 <= sd - od
                    && 1 <= q_terms@[k].2 <= e,
            decreases e + 1 - step,
        {
            let rd = match r.degree() {
                Some(d) => d,
                None => break,
            };
            if rd < od {
                r = match r.scale_by_poly(lc_b) {
                    Some(u) => u,
                    None => return None,
                };
                step += 1;
                continue;
            }
            let lc_r = copy_poly(&r.coeffs[rd]);
            let scaled = match r.scale_by_poly(lc_b) {
                Some(u) => u,
                None => return None,
            };
            if scaled.coeffs.len() == 0 || scaled.coeffs.len() - 1 != rd {
                return None;
            }
            let shift = rd - od;
            let mut coeffs = scaled.coeffs;
            let mut i: usize = 0;
            while i < od
                invariant
                    coeffs@.len() == rd + 1,
                    shift + od == rd,
                    od + 1 == other@.len(),
                    0 <= i <= od,
                decreases od - i,
            {
                let c = &other.coeffs[i];
                if !c.is_zero() {
                    if !product_fits_all(c, &lc_r) {
                        return None;
                    }
                    let contribution = c.product(&lc_r);
                    let pos = shift + i;
                    let updated = coeffs[pos].sub(&contribution);
                    coeffs.set(pos, updated);
                }
                i += 1;
            }
            coeffs.set(rd, Poly::zero());
            let ghost cv = coef_views(coeffs@);
            r = trim(coeffs);
            proof {
                if r@.len() == rd + 1 {
                    assert(cv[rd as int] == zero_map());
                    assert(r@.last() == cv[rd as int]);
                }
            }
            q_terms.push((shift, lc_r, step));
            step += 1;
        }
        let mut powers: Vec<Poly> = Vec::new();
        powers.push(Poly::constant(BigScalar::one()));
        let mut k: u32 = 0;
        while k < e
            invariant
                powers@.len() == k + 1,
                k <= e,
            decreases e - k,
        {
            let last = &powers[powers.len() - 1];
            if !product_fits_all(last, lc_b) {
                return None;
            }
            let next = last.product(lc_b);
            powers.push(next);
            k += 1;
        }
        let mut qc: Vec<Poly> = Vec::new();
        let mut j: usize = 0;
        while j < q_terms.len()
            invariant
                forall|k: int| 0 <= k < q_terms@.len() ==> (#[trigger] q_terms@[k]).0 <= sd - od
                    && 1 <= q_terms@[k].2 <= e,
                qc@.len() <= sd - od + 1,
                powers@.len() == e + 1,
            decreases q_terms@.len() - j,
        {
            let shift = q_terms[j].0;
            while qc.len() <= shift
                invariant
                    shift <= sd - od,
                    qc@.len() <= sd - od + 1,
                decreases shift + 1 - qc@.len(),
            {
                qc.push(Poly::zero());
            }
            let pw = &powers[(e - q_terms[j].2) as usize];
            if !product_fits_all(&q_terms[j].1, pw) {
                return None;
            }
            let term = q_terms[j].1.product(pw);
            qc.set(shift, term);
            j += 1;
        }
        let q = trim(qc);
        Some((q, r, e))
    }
}

/// `p^n` by repeated plain products; `None` where a product would pass
/// the exponent sanity limit.
pub fn poly_power(p: &Poly, n: u32) -> (r: Option<Poly>)
    ensures
        r matches Some(x) ==> x@ == crate::poly::poly_pow(p@, n as nat),
{
    let mut acc = crate::trig::one_poly();
    let mut i: u32 = 0;
    while i < n
        invariant
            i <= n,
            acc@ == crate::poly::poly_pow(p@, i as nat),
        decreases n - i,
    {
        if !product_fits_all(&acc, p) {
            return None;
        }
        acc = acc.product(p);
        i += 1;
    }
    Some(acc)
}

impl UPoly {
    /// Every coefficient divided exactly by `divisor`; `None` where one
    /// does not divide.
    fn exact_div_by_poly(&self, divisor: &Poly) -> (r: Option<UPoly>)
        ensures
            r matches Some(u) ==> u.wf() && u@.len() <= self@.len(),
    {
        let mut v: Vec<Poly> = Vec::new();
        let mut i: usize = 0;
        while i < self.coeffs.len()
            invariant
                0 <= i <= self.coeffs@.len(),
                v@.len() == i,
            decreases self.coeffs@.len() - i,
        {
            let c = &self.coeffs[i];
            if c.is_zero() {
                v.push(Poly::zero());
            } else {
                match c.exact_div(divisor) {
                    Some(q) => v.push(q),
                    None => return None,
                }
            }
            i += 1;
        }
        proof {
            assert(coef_views(v@).len() == v@.len());
        }
        Some(trim(v))
    }

    /// `self - other`.
    fn sub(&self, other: &UPoly) -> (r: UPoly)
        ensures
            r.wf(),
    {
        let len = if self.coeffs.len() >= other.coeffs.len() {
            self.coeffs.len()
        } else {
            other.coeffs.len()
        };
        let mut v: Vec<Poly> = Vec::new();
        let mut i: usize = 0;
        while i < len
            invariant
                0 <= i <= len,
            decreases len - i,
        {
            let a = if i < self.coeffs.len() {
                copy_poly(&self.coeffs[i])
            } else {
                Poly::zero()
            };
            let b = if i < other.coeffs.len() {
                copy_poly(&other.coeffs[i])
            } else {
                Poly::zero()
            };
            v.push(a.sub(&b));
            i += 1;
        }
        trim(v)
    }
}

/// The subresultant polynomial remainder sequence of `a` and `b`, ended
/// at its last nonzero member: a GCD of `a` and `b` up to a factor free
/// of the pole. Each pseudo-remainder is divided by the factor `beta`
/// the subresultant theory predicts, from the previous leading
/// coefficients `gamma` and the running `psi`; the division is checked
/// by multiplying back. A zero `b` gives `a`, a zero `a` gives `b`.
/// `None` where a predicted division is not exact or a product would
/// pass the exponent sanity limit.
pub fn gcd(a: UPoly, b: UPoly) -> (g: Option<UPoly>)
    requires
        a.wf(),
        b.wf(),
    ensures
        b@.len() == 0 ==> (g matches Some(x) && x@ == a@),
        a@.len() == 0 && b@.len() > 0 ==> (g matches Some(x) && x@ == b@),
        g matches Some(x) ==> x.wf() && x@.len() <= (if a@.len() >= b@.len() { a@.len() } else { b@.len() }),
{
    let ghost top = if a@.len() >= b@.len() { a@.len() } else { b@.len() };
    if b.is_zero() {
        return Some(a);
    }
    if a.is_zero() {
        return Some(b);
    }
    let (mut r_prev, mut r_cur) = if a.coeffs.len() >= b.coeffs.len() {
        (a, b)
    } else {
        (b, a)
    };
    let mut gamma_prev = Poly::zero();
    let mut psi_prev = Poly::zero();
    let mut delta_prev: u32 = 0;
    let mut first = true;
    while !r_cur.is_zero()
        invariant
            r_prev.wf(),
            r_cur.wf(),
            r_cur@.len() <= r_prev@.len() <= top,
            r_prev@.len() > 0 || r_cur@.len() == 0,
            a@.len() > 0,
            b@.len() > 0,
            top == (if a@.len() >= b@.len() { a@.len() } else { b@.len() }),
        decreases r_cur@.len(),
    {
        let d_prev = r_prev.coeffs.len() - 1;
        let d_cur = r_cur.coeffs.len() - 1;
        if d_prev - d_cur >= 4294967295usize {
            return None;
        }
        let d: u32 = (d_prev - d_cur) as u32;
        let gamma_cur = copy_poly(&r_cur.coeffs[d_cur]);
        let (psi_cur, beta) = if first {
            let sign = if (d as u64 + 1) % 2 == 0 {
                BigScalar::one()
            } else {
                core::ops::Neg::neg(BigScalar::one())
            };
            (Poly::constant(core::ops::Neg::neg(BigScalar::one())), Poly::constant(sign))
        } else {
            let numerator = match poly_power(&gamma_prev.neg(), delta_prev) {
                Some(x) => x,
                None => return None,
            };
            let psi = if delta_prev == 0 {
                copy_poly(&psi_prev)
            } else if delta_prev == 1 {
                numerator
            } else {
                let denom = match poly_power(&psi_prev, delta_prev - 1) {
                    Some(x) => x,
                    None => return None,
                };
                match numerator.exact_div(&denom) {
                    Some(x) => x,
                    None => return None,
                }
            };
            let psi_d = match poly_power(&psi, d) {
                Some(x) => x,
                None => return None,
            };
            let ng = gamma_prev.neg();
            if !product_fits_all(&ng, &psi_d) {
                return None;
            }
            let beta = ng.product(&psi_d);
            (psi, beta)
        };
        let prem = match r_prev.pseudo_div_rem(&r_cur) {
            Some((_, rem, _)) => rem,
            None => return None,
        };
        if prem.is_zero() {
            return Some(r_cur);
        }
        let r_next = match prem.exact_div_by_poly(&beta) {
            Some(x) => x,
            None => return None,
        };
        let back = match r_next.scale_by_poly(&beta) {
            Some(x) => x,
            None => return None,
        };
        if !back.sub(&prem).is_zero() {
            return None;
        }
        r_prev = r_cur;
        r_cur = r_next;
        gamma_prev = gamma_cur;
        psi_prev = psi_cur;
        delta_prev = d;
        first = false;
    }
    Some(r_prev)
}

/// Splits the monomial `m` into the exponent of `pole` and the rest.
fn split_pole(m: &Vec<(AtomId, u32)>, pole: AtomId) -> (r: (u32, Vec<(AtomId, u32)>))
    requires
        monomial_wf(m@),
    ensures
        monomial_wf(r.1@),
{
    let mut pole_exp: u32 = 0;
    let mut rest: Vec<(AtomId, u32)> = Vec::new();
    let mut j: usize = 0;
    let ghost mut last: int = -1;
    while j < m.len()
        invariant
            0 <= j <= m@.len(),
            monomial_wf(m@),
            monomial_wf(rest@),
            -1 <= last < j,
            rest@.len() == 0 <==> last == -1,
            rest@.len() > 0 ==> rest@.last() == m@[last],
        decreases m@.len() - j,
    {
        let (g, e) = m[j];
        if g.0 == pole.0 {
            pole_exp = e;
        } else {
            let ghost before = rest@;
            rest.push((g, e));
            proof {
                assert forall|a: int, b: int| 0 <= a < b < rest@.len() implies (
                #[trigger] rest@[a]).0.0 < (#[trigger] rest@[b]).0.0 by {
                    if b == rest@.len() - 1 {
                        if a < before.len() - 1 {
                            assert(before[a].0.0 < before.last().0.0);
                        }
                        assert(m@[last].0.0 < m@[j as int].0.0);
                    } else {
                        assert(rest@[a] == before[a] && rest@[b] == before[b]);
                    }
                }
                assert forall|a: int| 0 <= a < rest@.len() implies 1 <= (#[trigger] rest@[a]).1
                    <= EXPONENT_SANITY_LIMIT by {
                    if a < before.len() {
                        assert(rest@[a] == before[a]);
                    } else {
                        assert(1 <= m@[j as int].1 <= EXPONENT_SANITY_LIMIT);
                    }
                }
                last = j as int;
            }
        }
        j += 1;
    }
    (pole_exp, rest)
}

impl UPoly {
    /// `p` as a polynomial in `pole`: the coefficient of `pole^i` gathers
    /// the terms of `p` holding `pole` to the power `i`, with `pole`
    /// taken out.
    pub fn from_poly(p: &Poly, pole: AtomId) -> (r: UPoly)
        ensures
            r.wf(),
    {
        let ts = p.terms();
        proof {
            lemma_entries_len(ts@);
        }
        let mut coeffs: Vec<Poly> = Vec::new();
        let mut i: usize = 0;
        while i < ts.len()
            invariant
                0 <= i <= ts@.len(),
                entries(ts@).len() == ts@.len(),
                forall|k: int| 0 <= k < ts@.len() ==> #[trigger] entries(ts@)[k] == entry(ts@[k]),
                entries_wf(entries(ts@)),
                forall|k: int| 0 <= k < ts@.len() ==> (#[trigger] ts@[k]).coeff@.0 != 0,
            decreases ts@.len() - i,
        {
            let t = &ts[i];
            proof {
                assert(entries(ts@)[i as int] == entry(ts@[i as int]));
            }
            let (pole_exp, rest) = split_pole(&t.generators, pole);
            let idx = pole_exp as usize;
            while coeffs.len() <= idx
                decreases idx + 1 - coeffs@.len(),
            {
                coeffs.push(Poly::zero());
            }
            let contribution = Poly::single(t.coeff.clone(), rest);
            let updated = coeffs[idx].add(&contribution);
            coeffs.set(idx, updated);
            i += 1;
        }
        trim(coeffs)
    }

    /// Reassembles `sum coeffs[i] * pole^i`; `None` where a product would
    /// pass the exponent sanity limit.
    pub fn to_poly(&self, pole: AtomId) -> (r: Option<Poly>) {
        let mut result = Poly::zero();
        let mut exp: usize = 0;
        while exp < self.coeffs.len()
            decreases self.coeffs@.len() - exp,
        {
            let coeff = &self.coeffs[exp];
            if !coeff.is_zero() {
                let term_poly = if exp == 0 {
                    copy_poly(coeff)
                } else {
                    if exp > 4294967295usize {
                        return None;
                    }
                    let power = match poly_power(&Poly::generator(pole), exp as u32) {
                        Some(x) => x,
                        None => return None,
                    };
                    if !product_fits_all(coeff, &power) {
                        return None;
                    }
                    coeff.product(&power)
                };
                result = result.add(&term_poly);
            }
            exp += 1;
        }
        Some(result)
    }
}

} // verus!
