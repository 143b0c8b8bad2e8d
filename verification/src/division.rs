//! Exact division of polynomials, the step the polynomial GCD relies on
//! to strip contents and the subresultant correction factors.
//!
//! Division here multiplies with the plain product [`Poly::product`]:
//! the GCD runs with the `cos^2` and `cosh^2` identities held back, and
//! applies them once on its result.
use vstd::prelude::*;
use crate::poly::{
    AtomId, Monomial, Poly, Term, coef_at, entries, entry, lemma_coeffs_distinct,
    lemma_entries_len, lemma_mono_exp_wf, mono_exp, monomial_wf, poly_mul, product_fits,
    product_sum, EXPONENT_SANITY_LIMIT,
};
use crate::rational::{
    canon, canonical, lemma_canon, lemma_canonical_unique, lemma_integer_canonical, rat_add,
    rat_neg, same_value,
};

verus! {

/// The largest exponent of any generator in `p` (`0` for a constant).
pub fn max_exponent(p: &Poly) -> (r: u32)
    ensures
        r <= EXPONENT_SANITY_LIMIT,
        forall|m: Monomial, id: u32|
            #![trigger p@.dom().contains(m), mono_exp(m, id)]
            p@.dom().contains(m) ==> mono_exp(m, id) <= r,
{
    let ts = p.terms();
    let ghost es = entries(ts@);
    proof {
        lemma_entries_len(ts@);
        lemma_coeffs_distinct(es);
    }
    let mut r: u32 = 0;
    let mut i: usize = 0;
    while i < ts.len()
        invariant
            0 <= i <= ts@.len(),
            es == entries(ts@),
            es.len() == ts@.len(),
            forall|k: int| 0 <= k < ts@.len() ==> #[trigger] es[k] == entry(ts@[k]),
            forall|k: int| 0 <= k < es.len() ==> monomial_wf(#[trigger] es[k].0),
            r <= EXPONENT_SANITY_LIMIT,
            forall|k: int, j: int|
                0 <= k < i && 0 <= j < ts@[k].generators@.len() ==> (
                #[trigger] ts@[k].generators@[j]).1 <= r,
        decreases ts@.len() - i,
    {
        let g = &ts[i].generators;
        let mut j: usize = 0;
        proof {
            assert(es[i as int] == entry(ts@[i as int]));
            assert(monomial_wf(es[i as int].0));
        }
        while j < g.len()
            invariant
                0 <= j <= g@.len(),
                g == &ts@[i as int].generators,
                monomial_wf(g@),
                r <= EXPONENT_SANITY_LIMIT,
                forall|k: int, l: int|
                    0 <= k < i && 0 <= l < ts@[k].generators@.len() ==> (
                    #[trigger] ts@[k].generators@[l]).1 <= r,
                forall|l: int| 0 <= l < j ==> (#[trigger] g@[l]).1 <= r,
            decreases g@.len() - j,
        {
            proof {
                assert(1 <= g@[j as int].1 <= EXPONENT_SANITY_LIMIT);
            }
            if g[j].1 > r {
                r = g[j].1;
            }
            j += 1;
        }
        i += 1;
    }
    proof {
        assert forall|m: Monomial, id: u32|
            #![trigger p@.dom().contains(m), mono_exp(m, id)]
            p@.dom().contains(m) implies mono_exp(m, id) <= r by {
            let k = choose|k: int| 0 <= k < es.len() && es[k].0 == m;
            assert(es[k] == entry(ts@[k]));
            assert(m == ts@[k].generators@);
            lemma_mono_exp_wf(m, id);
            if exists|l: int| 0 <= l < m.len() && m[l].0.0 == id {
                let l = choose|l: int| 0 <= l < m.len() && m[l].0.0 == id;
                assert(ts@[k].generators@[l].1 <= r);
            }
        }
    }
    r
}

/// Whether `a * b` certainly stays within the sanity limit: the largest
/// exponents of the two add up to at most the limit.
pub(crate) fn product_fits_all(a: &Poly, b: &Poly) -> (r: bool)
    ensures
        r ==> forall|ma: Monomial, mb: Monomial|
            #[trigger] a@.dom().contains(ma) && #[trigger] b@.dom().contains(mb) ==> product_fits(
                ma,
                mb,
            ),
{
    let ea = max_exponent(a);
    let eb = max_exponent(b);
    let r = (ea as u64) + (eb as u64) <= (EXPONENT_SANITY_LIMIT as u64);
    proof {
        if r {
            assert forall|ma: Monomial, mb: Monomial|
                #[trigger] a@.dom().contains(ma) && #[trigger] b@.dom().contains(mb) implies product_fits(
                ma,
                mb,
            ) by {
                assert forall|id: u32| mono_exp(ma, id) + mono_exp(mb, id) <= EXPONENT_SANITY_LIMIT by {
                    assert(mono_exp(ma, id) <= ea);
                    assert(mono_exp(mb, id) <= eb);
                }
            }
        }
    }
    r
}

/// Whether `a` and `b` are the same polynomial.
pub fn same_poly(a: &Poly, b: &Poly) -> (r: bool)
    ensures
        r ==> a@ == b@,
{
    let d = a.sub(b);
    let r = d.is_zero();
    proof {
        if r {
            use_type_invariant(a);
            use_type_invariant(b);
            a.lemma_coef_canonical();
            b.lemma_coef_canonical();
            lemma_integer_canonical(0);
            assert forall|m: Monomial| #[trigger] coef_at(a@, m) == coef_at(b@, m) by {
                let x = coef_at(a@, m);
                let y = coef_at(b@, m);
                assert(canonical(x) && canonical(y));
                assert(coef_at(d@, m) == (0int, 1int));
                let s = rat_add(x, rat_neg(y));
                assert(canon(s) == (0int, 1int));
                assert(s.1 > 0) by (nonlinear_arith)
                    requires
                        s.1 == x.1 * y.1,
                        x.1 > 0,
                        y.1 > 0,
                ;
                crate::rational::lemma_canon_exists(s);
                assert(same_value((0int, 1int), s));
                assert(x.0 * y.1 == y.0 * x.1) by (nonlinear_arith)
                    requires
                        0 * s.1 == s.0 * 1,
                        s.0 == x.0 * y.1 + (-y.0) * x.1,
                ;
                lemma_canonical_unique(x, y);
            }
            crate::poly::lemma_map_by_coefs(a@, b@);
        }
    }
    r
}

/// Whether `a` comes after `b` in the lexicographic order of exponent
/// vectors over ascending generators (a generator missing counts as
/// exponent zero).
fn lex_after(a: &Vec<(AtomId, u32)>, b: &Vec<(AtomId, u32)>) -> bool {
    let mut i: usize = 0;
    let mut j: usize = 0;
    while i < a.len() && j < b.len()
        decreases a@.len() - i + b@.len() - j,
    {
        let (ga, ea) = a[i];
        let (gb, eb) = b[j];
        if ga.0 < gb.0 {
            return true;
        } else if gb.0 < ga.0 {
            return false;
        } else if ea != eb {
            return ea > eb;
        }
        i += 1;
        j += 1;
    }
    i < a.len()
}

/// The index of the term whose monomial comes last in [`lex_after`]'s
/// order.
fn leading_index(ts: &Vec<Term>) -> (k: usize)
    requires
        ts@.len() > 0,
    ensures
        k < ts@.len(),
{
    let mut best: usize = 0;
    let mut i: usize = 1;
    while i < ts.len()
        invariant
            best < ts@.len(),
            1 <= i <= ts@.len(),
        decreases ts@.len() - i,
    {
        if lex_after(&ts[i].generators, &ts[best].generators) {
            best = i;
        }
        i += 1;
    }
    best
}

/// The exponent of `id` in the monomial `m` (`0` where it is absent).
fn exponent_of(m: &Vec<(AtomId, u32)>, id: AtomId) -> (e: u32) {
    let mut i: usize = 0;
    while i < m.len()
        decreases m@.len() - i,
    {
        if m[i].0.0 == id.0 {
            return m[i].1;
        }
        i += 1;
    }
    0
}

/// `num / den` for monomials, where `den` divides `num`: each generator's
/// exponent in `num` less its exponent in `den`, generators reaching
/// zero dropped. `None` where some generator of `den` has a higher
/// exponent than in `num`.
fn monomial_quotient(num: &Vec<(AtomId, u32)>, den: &Vec<(AtomId, u32)>) -> (r: Option<
    Vec<(AtomId, u32)>,
>)
    requires
        monomial_wf(num@),
    ensures
        r matches Some(q) ==> monomial_wf(q@),
{
    let mut i: usize = 0;
    while i < den.len()
        decreases den@.len() - i,
    {
        if exponent_of(num, den[i].0) < den[i].1 {
            return None;
        }
        i += 1;
    }
    let mut out: Vec<(AtomId, u32)> = Vec::new();
    let mut j: usize = 0;
    let ghost mut last: int = -1;
    while j < num.len()
        invariant
            0 <= j <= num@.len(),
            monomial_wf(num@),
            monomial_wf(out@),
            -1 <= last < j,
            out@.len() == 0 <==> last == -1,
            out@.len() > 0 ==> out@.last().0 == num@[last].0,
        decreases num@.len() - j,
    {
        let (g, e) = num[j];
        let d = exponent_of(den, g);
        if d < e {
            let ghost before = out@;
            out.push((g, e - d));
            proof {
                assert forall|a: int, b: int| 0 <= a < b < out@.len() implies (
                #[trigger] out@[a]).0.0 < (#[trigger] out@[b]).0.0 by {
                    if b == out@.len() - 1 && a < b {
                        if a < before.len() - 1 {
                            assert(before[a].0.0 < before.last().0.0);
                        }
                        assert(num@[last].0.0 < num@[j as int].0.0);
                    } else {
                        assert(out@[a] == before[a] && out@[b] == before[b]);
                    }
                }
                assert forall|a: int| 0 <= a < out@.len() implies 1 <= (#[trigger] out@[a]).1
                    <= EXPONENT_SANITY_LIMIT by {
                    if a < before.len() {
                        assert(out@[a] == before[a]);
                    } else {
                        assert(1 <= num@[j as int].1 <= EXPONENT_SANITY_LIMIT);
                    }
                }
                last = j as int;
            }
        }
        j += 1;
    }
    Some(out)
}

/// The product of a zero polynomial with anything is zero.
proof fn lemma_zero_times(d: Map<Monomial, (int, int)>)
    ensures
        poly_mul(Map::<Monomial, (int, int)>::empty(), d) == Map::<Monomial, (int, int)>::empty(),
{
    let z = Map::<Monomial, (int, int)>::empty();
    assert(z.dom() =~= Set::<Monomial>::empty());
    lemma_integer_canonical(0);
    lemma_canon((0int, 1int), (0int, 1int));
    assert forall|m: Monomial| #![auto] !poly_mul(z, d).dom().contains(m) by {
        vstd::set::fold::lemma_fold_empty((0int, 1int), crate::poly::col_step(z, d, m));
        assert(product_sum(z, d, m, z.dom()) == (0int, 1int));
    }
    assert(poly_mul(z, d) =~= z);
}

/// An upper bound on the number of terms a quotient `q` with
/// `q * d == p` can have: the monomials whose exponents stay within the
/// largest one of `p`, over the generators of `p` (`u64::MAX` where that
/// count does not fit).
fn quotient_terms_bound(p: &Poly) -> u64 {
    let e = max_exponent(p) as u64 + 1;
    let ts = p.terms();
    let mut ids: Vec<u32> = Vec::new();
    let mut i: usize = 0;
    while i < ts.len()
        decreases ts@.len() - i,
    {
        let g = &ts[i].generators;
        let mut j: usize = 0;
        while j < g.len()
            decreases g@.len() - j,
        {
            let id = g[j].0.0;
            let mut seen = false;
            let mut k: usize = 0;
            while k < ids.len()
                decreases ids@.len() - k,
            {
                if ids[k] == id {
                    seen = true;
                }
                k += 1;
            }
            if !seen {
                ids.push(id);
            }
            j += 1;
        }
        i += 1;
    }
    let mut bound: u64 = 1;
    let mut k: usize = 0;
    while k < ids.len()
        decreases ids@.len() - k,
    {
        bound = match bound.checked_mul(e) {
            Some(b) => b,
            None => u64::MAX,
        };
        k += 1;
    }
    bound
}

impl Poly {
    /// `self / divisor` where the division is exact, by long division
    /// against the leading term in the lexicographic order of exponent
    /// vectors: `None` for a zero divisor, for a leading term of the
    /// remainder that the divisor's does not divide, once more steps were
    /// taken than the quotient can have terms (an exact quotient's
    /// exponents stay within those of `self`), or where a product would
    /// pass the exponent sanity limit. A quotient is returned only once
    /// its product with `divisor` has been found to equal `self`.
    pub fn exact_div(&self, divisor: &Poly) -> (r: Option<Poly>)
        ensures
            divisor@ == Map::<Monomial, (int, int)>::empty() ==> r is None,
            (self@ == Map::<Monomial, (int, int)>::empty() && divisor@ != Map::<
                Monomial,
                (int, int),
            >::empty()) ==> (r matches Some(q) && q@ == Map::<Monomial, (int, int)>::empty()),
            r matches Some(q) ==> poly_mul(q@, divisor@) == self@,
    {
        if divisor.is_zero() {
            return None;
        }
        if self.is_zero() {
            proof {
                lemma_zero_times(divisor@);
            }
            return Some(Poly::zero());
        }
        let dts = divisor.terms();
        proof {
            lemma_entries_len(dts@);
            if dts@.len() == 0 {
                assert(entries(dts@) =~= Seq::empty());
            }
        }
        let lead_div = &dts[leading_index(dts)];
        let inv = match lead_div.coeff.recip() {
            Some(v) => v,
            None => return None,
        };
        let fuel = quotient_terms_bound(self);
        let mut steps: u64 = 0;
        let mut rem = self.add(&Poly::zero());
        let mut quot = Poly::zero();
        while !rem.is_zero()
            invariant
                self@ != Map::<Monomial, (int, int)>::empty(),
            decreases fuel - steps,
        {
            if steps >= fuel {
                return None;
            }
            let rts = rem.terms();
            proof {
                lemma_entries_len(rts@);
                if rts@.len() == 0 {
                    assert(entries(rts@) =~= Seq::empty());
                }
            }
            let lead_rem = &rts[leading_index(rts)];
            proof {
                let k = choose|k: int| 0 <= k < rts@.len() && rts@[k] == *lead_rem;
                assert(entries(rts@)[k] == entry(rts@[k]));
                assert(crate::poly::entries_wf(entries(rts@)));
            }
            let mono = match monomial_quotient(&lead_rem.generators, &lead_div.generators) {
                Some(m) => m,
                None => return None,
            };
            let c = lead_rem.coeff.clone() * inv.clone();
            if c.is_zero() {
                return None;
            }
            let term_poly = Poly::single(c, mono);
            quot = quot.add(&term_poly);
            if !product_fits_all(&term_poly, divisor) {
                return None;
            }
            let subtrahend = term_poly.product(divisor);
            rem = rem.sub(&subtrahend);
            steps += 1;
        }
        if !product_fits_all(&quot, divisor) {
            return None;
        }
        let check = quot.product(divisor);
        if same_poly(&check, self) {
            Some(quot)
        } else {
            None
        }
    }
}

} // verus!
