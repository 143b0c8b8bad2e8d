//! Sparse multivariate polynomials with exact rational coefficients over
//! interned generators (variables and known functions, by [`AtomId`]).
//!
//! A [`Poly`] is a list of terms with pairwise distinct monomials and no
//! zero coefficient; its model is the map from each monomial to its
//! coefficient. A monomial lists its generators in ascending `AtomId`
//! order, each with a positive exponent, so equal monomials are equal
//! lists. The order of the terms themselves carries no meaning.
use vstd::prelude::*;
use crate::big_scalar::BigScalar;
use vstd::arithmetic::mul::{
    lemma_mul_is_associative, lemma_mul_is_commutative, lemma_mul_is_distributive_add_other_way,
};
use crate::rational::{
    canon, canonical, lemma_canon, lemma_integer_canonical, lemma_zero_canonical, rat_add,
    rat_mul, rat_neg, same_value,
};

verus! {

/// An exponent above this is a fault, never a real degree.
pub const EXPONENT_SANITY_LIMIT: u32 = 1000000;

/// The index of an interned generator.
#[derive(Clone, Copy, PartialEq, Eq, Structural, Debug)]
pub struct AtomId(pub u32);

/// Generators with their exponents.
pub type Monomial = Seq<(AtomId, u32)>;

/// Ascending generators, each with an exponent in `1..=EXPONENT_SANITY_LIMIT`.
pub open spec fn monomial_wf(m: Monomial) -> bool {
    &&& forall|i: int, j: int| 0 <= i < j < m.len() ==> (#[trigger] m[i]).0.0 < (#[trigger] m[j]).0.0
    &&& forall|i: int| 0 <= i < m.len() ==> 1 <= (#[trigger] m[i]).1 <= EXPONENT_SANITY_LIMIT
}

/// A rational coefficient times a monomial.
#[derive(Debug)]
pub struct Term {
    pub coeff: BigScalar,
    pub generators: Vec<(AtomId, u32)>,
}

/// A term as a monomial and its coefficient.
pub open spec fn entry(t: Term) -> (Monomial, (int, int)) {
    (t.generators@, t.coeff@)
}

/// The terms of the constant polynomial `c`: none for `0`.
pub open spec fn constant_terms(c: (int, int)) -> Seq<(Monomial, (int, int))> {
    if c.0 == 0 {
        Seq::empty()
    } else {
        seq![(Seq::<(AtomId, u32)>::empty(), c)]
    }
}

/// The entries of a list of terms.
pub open spec fn entries(ts: Seq<Term>) -> Seq<(Monomial, (int, int))> {
    ts.map_values(|t: Term| entry(t))
}

/// No monomial occurs twice.
pub open spec fn distinct_monomials(es: Seq<(Monomial, (int, int))>) -> bool {
    forall|i: int, j: int| 0 <= i < j < es.len() ==> (#[trigger] es[i]).0 != (#[trigger] es[j]).0
}

/// Well-formed monomials and lowest-terms coefficients.
pub open spec fn entries_wf(es: Seq<(Monomial, (int, int))>) -> bool {
    forall|i: int| 0 <= i < es.len() ==> monomial_wf((#[trigger] es[i]).0) && canonical(es[i].1)
}

/// The coefficient of each monomial that occurs.
pub open spec fn coeffs(es: Seq<(Monomial, (int, int))>) -> Map<Monomial, (int, int)>
    decreases es.len(),
{
    if es.len() == 0 {
        Map::empty()
    } else {
        coeffs(es.drop_last()).insert(es.last().0, es.last().1)
    }
}

/// The coefficient of `m` in the polynomial `p` (`0` where it is absent).
pub open spec fn coef_at(p: Map<Monomial, (int, int)>, m: Monomial) -> (int, int) {
    if p.dom().contains(m) {
        p[m]
    } else {
        (0, 1)
    }
}

/// The sum of two rationals in lowest terms.
pub open spec fn qadd(a: (int, int), b: (int, int)) -> (int, int) {
    canon(rat_add(a, b))
}

/// The product of two rationals in lowest terms.
pub open spec fn qmul(a: (int, int), b: (int, int)) -> (int, int) {
    canon(rat_mul(a, b))
}

/// A polynomial in canonical form.
pub struct Poly {
    terms: Vec<Term>,
}

impl Poly {
    /// Distinct well-formed monomials, lowest-terms nonzero coefficients.
    #[verifier::type_invariant]
    pub(crate) closed spec fn inv(self) -> bool {
        &&& distinct_monomials(entries(self.terms@))
        &&& entries_wf(entries(self.terms@))
        &&& forall|i: int| 0 <= i < self.terms@.len() ==> (#[trigger] self.terms@[i]).coeff@.0 != 0
    }
}

impl Poly {
    /// Every coefficient of a polynomial, present or not, is in lowest
    /// terms.
    pub(crate) proof fn lemma_coef_canonical(self)
        requires
            self.inv(),
        ensures
            forall|m: Monomial| #[trigger] canonical(coef_at(self@, m)),
            forall|m: Monomial| #[trigger] self@.dom().contains(m) ==> self@[m].0 != 0,
    {
        lemma_entries_len(self.terms@);
        lemma_coeffs_distinct(entries(self.terms@));
        lemma_integer_canonical(0);
        assert forall|m: Monomial| #[trigger] canonical(coef_at(self@, m)) by {
            if self@.dom().contains(m) {
                let k = choose|k: int|
                    0 <= k < entries(self.terms@).len() && entries(self.terms@)[k].0 == m;
                assert(entries(self.terms@)[k] == entry(self.terms@[k]));
            }
        }
        assert forall|m: Monomial| #[trigger] self@.dom().contains(m) implies self@[m].0 != 0 by {
            let k = choose|k: int|
                0 <= k < entries(self.terms@).len() && entries(self.terms@)[k].0 == m;
            assert(entries(self.terms@)[k] == entry(self.terms@[k]));
        }
    }
}

impl View for Poly {
    type V = Map<Monomial, (int, int)>;

    /// Each monomial's coefficient.
    closed spec fn view(&self) -> Map<Monomial, (int, int)> {
        coeffs(entries(self.terms@))
    }
}

/// Two polynomial models with the same coefficient everywhere are equal
/// when neither stores a zero coefficient.
pub(crate) proof fn lemma_map_by_coefs(p: Map<Monomial, (int, int)>, q: Map<Monomial, (int, int)>)
    requires
        forall|m: Monomial| #[trigger] coef_at(p, m) == coef_at(q, m),
        forall|m: Monomial| #[trigger] p.dom().contains(m) ==> p[m].0 != 0,
        forall|m: Monomial| #[trigger] q.dom().contains(m) ==> q[m].0 != 0,
    ensures
        p == q,
{
    assert forall|m: Monomial| #[trigger] p.dom().contains(m) == q.dom().contains(m) by {
        assert(coef_at(p, m) == coef_at(q, m));
    }
    assert(p.dom() =~= q.dom());
    assert forall|m: Monomial| #[trigger] p.dom().contains(m) implies p[m] == q[m] by {
        assert(coef_at(p, m) == coef_at(q, m));
    }
    assert(p =~= q);
}

/// The model of a list of terms with distinct well-formed monomials and
/// nonzero lowest-terms coefficients: finitely many well-formed
/// monomials, each with a nonzero coefficient in lowest terms.
pub(crate) proof fn lemma_terms_model(ts: Seq<Term>)
    requires
        distinct_monomials(entries(ts)),
        entries_wf(entries(ts)),
        forall|i: int| 0 <= i < ts.len() ==> (#[trigger] ts[i]).coeff@.0 != 0,
    ensures
        forall|m: Monomial| #[trigger] canonical(coef_at(coeffs(entries(ts)), m)),
        forall|m: Monomial|
            #[trigger] coeffs(entries(ts)).dom().contains(m) ==> coeffs(entries(ts))[m].0 != 0
                && monomial_wf(m),
        coeffs(entries(ts)).dom().finite(),
{
    let es = entries(ts);
    lemma_entries_len(ts);
    lemma_coeffs_distinct(es);
    lemma_coeffs_finite(es);
    lemma_integer_canonical(0);
    assert forall|m: Monomial| #[trigger] canonical(coef_at(coeffs(es), m)) by {
        if coeffs(es).dom().contains(m) {
            let k = choose|k: int| 0 <= k < es.len() && es[k].0 == m;
            assert(es[k] == entry(ts[k]));
        }
    }
    assert forall|m: Monomial| #[trigger] coeffs(es).dom().contains(m) implies coeffs(es)[m].0 != 0
        && monomial_wf(m) by {
        let k = choose|k: int| 0 <= k < es.len() && es[k].0 == m;
        assert(es[k] == entry(ts[k]));
    }
}

// ---------------------------------------------------------------------
// Lemmas on entry lists
// ---------------------------------------------------------------------

pub proof fn lemma_entries_len(ts: Seq<Term>)
    ensures
        entries(ts).len() == ts.len(),
        forall|i: int| 0 <= i < ts.len() ==> #[trigger] entries(ts)[i] == entry(ts[i]),
{
}

pub(crate) proof fn lemma_entries_push(ts: Seq<Term>, t: Term)
    ensures
        entries(ts.push(t)) == entries(ts).push(entry(t)),
{
    assert(entries(ts.push(t)) =~= entries(ts).push(entry(t)));
}

proof fn lemma_entries_update(ts: Seq<Term>, i: int, t: Term)
    requires
        0 <= i < ts.len(),
    ensures
        entries(ts.update(i, t)) == entries(ts).update(i, entry(t)),
{
    assert(entries(ts.update(i, t)) =~= entries(ts).update(i, entry(t)));
}

/// With distinct monomials, `coeffs` reads each entry, and nothing else.
pub proof fn lemma_coeffs_distinct(es: Seq<(Monomial, (int, int))>)
    requires
        distinct_monomials(es),
    ensures
        forall|i: int|
            0 <= i < es.len() ==> #[trigger] coeffs(es).dom().contains(es[i].0) && coeffs(es)[es[i].0]
                == es[i].1,
        forall|m: Monomial|
            #[trigger] coeffs(es).dom().contains(m) ==> exists|i: int|
                0 <= i < es.len() && es[i].0 == m,
    decreases es.len(),
{
    if es.len() > 0 {
        let t = es.drop_last();
        assert(distinct_monomials(t)) by {
            assert forall|i: int, j: int| 0 <= i < j < t.len() implies (#[trigger] t[i]).0 != (
            #[trigger] t[j]).0 by {
                assert(t[i] == es[i] && t[j] == es[j]);
            }
        }
        lemma_coeffs_distinct(t);
        assert forall|i: int| 0 <= i < es.len() implies #[trigger] coeffs(es).dom().contains(
            es[i].0,
        ) && coeffs(es)[es[i].0] == es[i].1 by {
            if i < es.len() - 1 {
                assert(t[i] == es[i]);
                assert(coeffs(t).dom().contains(t[i].0));
                assert(es[i].0 != es[es.len() - 1].0);
            }
        }
        assert forall|m: Monomial| #[trigger] coeffs(es).dom().contains(m) implies exists|i: int|
            0 <= i < es.len() && es[i].0 == m by {
            if m != es.last().0 {
                assert(coeffs(t).dom().contains(m));
                let i = choose|i: int| 0 <= i < t.len() && t[i].0 == m;
                assert(es[i] == t[i]);
            } else {
                assert(es[es.len() - 1].0 == m);
            }
        }
    }
}

/// Replacing the coefficient of a monomial that occurs once.
proof fn lemma_coeffs_update(es: Seq<(Monomial, (int, int))>, i: int, c: (int, int))
    requires
        distinct_monomials(es),
        0 <= i < es.len(),
    ensures
        coeffs(es.update(i, (es[i].0, c))) == coeffs(es).insert(es[i].0, c),
    decreases es.len(),
{
    let u = es.update(i, (es[i].0, c));
    if i == es.len() - 1 {
        assert(u.drop_last() =~= es.drop_last());
        lemma_coeffs_distinct(es);
        assert(coeffs(es).insert(es[i].0, c) =~= coeffs(es.drop_last()).insert(es[i].0, c));
    } else {
        let t = es.drop_last();
        assert(distinct_monomials(t)) by {
            assert forall|a: int, b: int| 0 <= a < b < t.len() implies (#[trigger] t[a]).0 != (
            #[trigger] t[b]).0 by {
                assert(t[a] == es[a] && t[b] == es[b]);
            }
        }
        lemma_coeffs_update(t, i, c);
        assert(u.drop_last() =~= t.update(i, (t[i].0, c)));
        assert(es[i].0 != es.last().0);
        assert(coeffs(u) =~= coeffs(es).insert(es[i].0, c));
    }
}

/// Adding `0/1` changes nothing, even unreduced.
pub(crate) proof fn lemma_rat_add_zero(c: (int, int))
    ensures
        rat_add((0, 1), c) == c,
        rat_add(c, (0, 1)) == c,
{
    assert(0 * c.1 + c.0 * 1 == c.0 && 1 * c.1 == c.1) by (nonlinear_arith);
    assert(c.0 * 1 + 0 * c.1 == c.0 && c.1 * 1 == c.1) by (nonlinear_arith);
}

/// `0 + c == c` and `c + 0 == c` in lowest terms.
pub(crate) proof fn lemma_qadd_zero(c: (int, int))
    requires
        canonical(c),
    ensures
        qadd((0, 1), c) == c,
        qadd(c, (0, 1)) == c,
{
    lemma_canon(c, rat_add((0, 1), c));
    lemma_canon(c, rat_add(c, (0, 1)));
}

/// `x * 0 == 0` in lowest terms.
pub(crate) proof fn lemma_qmul_zero(x: (int, int))
    requires
        x.1 > 0,
    ensures
        qmul(x, (0, 1)) == (0int, 1int),
        qmul((0, 1), x) == (0int, 1int),
{
    lemma_integer_canonical(0);
    lemma_canon((0, 1), rat_mul(x, (0, 1)));
    lemma_canon((0, 1), rat_mul((0, 1), x));
}

/// Sums and products of fractions with positive denominators have
/// positive denominators.
pub(crate) proof fn lemma_denominators(a: (int, int), b: (int, int))
    requires
        a.1 > 0,
        b.1 > 0,
    ensures
        rat_add(a, b).1 > 0,
        rat_mul(a, b).1 > 0,
{
    assert(a.1 * b.1 > 0) by (nonlinear_arith)
        requires
            a.1 > 0,
            b.1 > 0,
    ;
}

// ---------------------------------------------------------------------
// Term helpers
// ---------------------------------------------------------------------

/// A copy of a monomial.
pub fn copy_monomial(m: &Vec<(AtomId, u32)>) -> (r: Vec<(AtomId, u32)>)
    ensures
        r@ == m@,
{
    let mut r: Vec<(AtomId, u32)> = Vec::new();
    let mut i: usize = 0;
    while i < m.len()
        invariant
            i <= m@.len(),
            r@ == m@.take(i as int),
        decreases m@.len() - i,
    {
        let (g, e) = m[i];
        r.push((AtomId(g.0), e));
        proof {
            assert(m@.take(i + 1) =~= m@.take(i as int).push(m@[i as int]));
        }
        i += 1;
    }
    assert(m@.take(m@.len() as int) =~= m@);
    r
}

/// Equality of two monomials.
pub fn monomials_equal(a: &Vec<(AtomId, u32)>, b: &Vec<(AtomId, u32)>) -> (r: bool)
    ensures
        r == (a@ == b@),
{
    if a.len() != b.len() {
        return false;
    }
    let mut i: usize = 0;
    while i < a.len()
        invariant
            i <= a@.len(),
            a@.len() == b@.len(),
            forall|j: int| 0 <= j < i ==> a@[j] == b@[j],
        decreases a@.len() - i,
    {
        if a[i].0.0 != b[i].0.0 || a[i].1 != b[i].1 {
            return false;
        }
        i += 1;
    }
    assert(a@ =~= b@);
    true
}

/// A copy of a term.
pub fn clone_term(t: &Term) -> (r: Term)
    ensures
        entry(r) == entry(*t),
        canonical(r.coeff@),
{
    Term { coeff: t.coeff.clone(), generators: copy_monomial(&t.generators) }
}

/// Where `m` is the monomial of a term of `ts`.
fn position_of_monomial(ts: &Vec<Term>, m: &Vec<(AtomId, u32)>) -> (r: Option<usize>)
    ensures
        match r {
            Some(i) => i < ts@.len() && ts@[i as int].generators@ == m@,
            None => forall|i: int| 0 <= i < ts@.len() ==> (#[trigger] ts@[i]).generators@ != m@,
        },
{
    let mut i: usize = 0;
    while i < ts.len()
        invariant
            i <= ts@.len(),
            forall|k: int| 0 <= k < i ==> (#[trigger] ts@[k]).generators@ != m@,
        decreases ts@.len() - i,
    {
        if monomials_equal(&ts[i].generators, m) {
            return Some(i);
        }
        i += 1;
    }
    None
}

/// The terms of `acc` with a nonzero coefficient, as a polynomial.
fn drop_zero_terms(acc: &Vec<Term>) -> (r: Poly)
    requires
        distinct_monomials(entries(acc@)),
        entries_wf(entries(acc@)),
    ensures
        forall|m: Monomial| #[trigger] coef_at(r@, m) == coef_at(coeffs(entries(acc@)), m),
{
    let mut res: Vec<Term> = Vec::new();
    let mut k: usize = 0;
    proof {
        lemma_entries_len(acc@);
    }
    while k < acc.len()
        invariant
            k <= acc@.len(),
            distinct_monomials(entries(acc@)),
            entries_wf(entries(acc@)),
            entries(acc@).len() == acc@.len(),
            forall|i: int| 0 <= i < acc@.len() ==> #[trigger] entries(acc@)[i] == entry(acc@[i]),
            distinct_monomials(entries(res@)),
            entries_wf(entries(res@)),
            forall|i: int| 0 <= i < res@.len() ==> (#[trigger] res@[i]).coeff@.0 != 0,
            forall|m: Monomial|
                #[trigger] coeffs(entries(res@)).dom().contains(m) ==> coeffs(
                    entries(acc@.take(k as int)),
                ).dom().contains(m),
            forall|m: Monomial|
                #[trigger] coef_at(coeffs(entries(res@)), m) == coef_at(
                    coeffs(entries(acc@.take(k as int))),
                    m,
                ),
        decreases acc@.len() - k,
    {
        let ghost before = res@;
        let ghost m = acc@[k as int].generators@;
        let ghost c = acc@[k as int].coeff@;
        proof {
            assert(acc@.take(k + 1) =~= acc@.take(k as int).push(acc@[k as int]));
            lemma_entries_push(acc@.take(k as int), acc@[k as int]);
            assert(entries(acc@.take(k + 1)).drop_last() == entries(acc@.take(k as int)));
            assert(entries(acc@)[k as int] == entry(acc@[k as int]));
            assert(!coeffs(entries(acc@.take(k as int))).dom().contains(m)) by {
                let tk = entries(acc@.take(k as int));
                assert(distinct_monomials(tk)) by {
                    assert forall|a: int, b: int| 0 <= a < b < tk.len() implies (
                    #[trigger] tk[a]).0 != (#[trigger] tk[b]).0 by {
                        assert(tk[a] == entries(acc@)[a] && tk[b] == entries(acc@)[b]);
                    }
                }
                lemma_coeffs_distinct(tk);
                if coeffs(tk).dom().contains(m) {
                    let j = choose|j: int| 0 <= j < tk.len() && tk[j].0 == m;
                    assert(tk[j] == entries(acc@)[j]);
                }
            }
        }
        let ghost ek = entries(acc@.take(k as int));
        proof {
            assert(entries(acc@.take(k + 1)) == ek.push((m, c)));
            assert(ek.push((m, c)).drop_last() =~= ek);
            assert(coeffs(entries(acc@.take(k + 1))) == coeffs(ek).insert(m, c));
        }
        if !acc[k].coeff.is_zero() {
            let t = clone_term(&acc[k]);
            res.push(t);
            proof {
                lemma_entries_push(before, t);
                assert(entries(res@).drop_last() =~= entries(before));
                assert(coeffs(entries(res@)) == coeffs(entries(before)).insert(m, c));
                assert forall|m2: Monomial| #[trigger] coef_at(coeffs(entries(res@)), m2) == coef_at(
                    coeffs(entries(acc@.take(k + 1))),
                    m2,
                ) by {
                    if m2 != m {
                        assert(coef_at(coeffs(entries(res@)), m2) == coef_at(
                            coeffs(entries(before)),
                            m2,
                        ));
                        assert(coef_at(coeffs(entries(acc@.take(k + 1))), m2) == coef_at(
                            coeffs(ek),
                            m2,
                        ));
                    }
                }
                assert(distinct_monomials(entries(res@))) by {
                    let e = entries(res@);
                    assert forall|a: int, b: int| 0 <= a < b < e.len() implies (
                    #[trigger] e[a]).0 != (#[trigger] e[b]).0 by {
                        if b == e.len() - 1 {
                            lemma_coeffs_distinct(entries(before));
                            assert(e[a] == entries(before)[a]);
                            assert(coeffs(entries(before)).dom().contains(e[a].0));
                        } else {
                            assert(e[a] == entries(before)[a] && e[b] == entries(before)[b]);
                        }
                    }
                }
                assert forall|i: int| 0 <= i < res@.len() implies (#[trigger] res@[i]).coeff@.0
                    != 0 by {
                    if i < before.len() {
                        assert(res@[i] == before[i]);
                    }
                }
                assert(entries_wf(entries(res@))) by {
                    let e = entries(res@);
                    assert forall|i: int| 0 <= i < e.len() implies monomial_wf(
                        (#[trigger] e[i]).0,
                    ) && canonical(e[i].1) by {
                        if i < before.len() {
                            assert(e[i] == entries(before)[i]);
                        } else {
                            assert(e[i] == entries(acc@)[k as int]);
                        }
                    }
                }
            }
        } else {
            proof {
                assert(canonical(entries(acc@)[k as int].1));
                lemma_zero_canonical(c.1);
                assert(!coeffs(entries(res@)).dom().contains(m));
                assert forall|m2: Monomial| #[trigger] coef_at(coeffs(entries(res@)), m2) == coef_at(
                    coeffs(entries(acc@.take(k + 1))),
                    m2,
                ) by {
                    if m2 != m {
                        assert(coef_at(coeffs(entries(res@)), m2) == coef_at(coeffs(ek), m2));
                    }
                }
            }
        }
        k += 1;
    }
    proof {
        assert(acc@.take(acc@.len() as int) =~= acc@);
    }
    Poly { terms: res }
}

// ---------------------------------------------------------------------
// Polynomial operations
// ---------------------------------------------------------------------

impl Poly {
    /// The terms as stored, in no particular order.
    pub closed spec fn terms_spec(&self) -> Seq<Term> {
        self.terms@
    }

    /// The model is the coefficient map of the stored terms.
    pub proof fn lemma_view_of_terms(&self)
        ensures
            self@ == coeffs(entries(self.terms_spec())),
    {
    }

    /// The terms, in no particular order.
    pub fn terms(&self) -> (r: &Vec<Term>)
        ensures
            r@ == self.terms_spec(),
            coeffs(entries(r@)) == self@,
            distinct_monomials(entries(r@)),
            entries_wf(entries(r@)),
            forall|i: int| 0 <= i < r@.len() ==> (#[trigger] r@[i]).coeff@.0 != 0,
    {
        proof {
            use_type_invariant(self);
        }
        &self.terms
    }

    pub fn zero() -> (r: Poly)
        ensures
            r@ == Map::<Monomial, (int, int)>::empty(),
            r.terms_spec() == Seq::<Term>::empty(),
    {
        let r = Poly { terms: Vec::new() };
        assert(entries(r.terms@) =~= Seq::empty());
        r
    }

    /// The constant polynomial `c`.
    pub fn constant(c: BigScalar) -> (r: Poly)
        ensures
            forall|m: Monomial|
                #[trigger] coef_at(r@, m) == if m.len() == 0 {
                    c@
                } else {
                    (0int, 1int)
                },
            entries(r.terms_spec()) == constant_terms(c@),
            c@.0 == 0 ==> c@ == (0int, 1int),
    {
        if c.is_zero() {
            proof {
                lemma_zero_canonical(c@.1);
            }
            let r = Poly::zero();
            assert(entries(r.terms_spec()) =~= constant_terms(c@));
            return r;
        }
        let t = Term { coeff: c, generators: Vec::new() };
        let mut terms: Vec<Term> = Vec::new();
        terms.push(t);
        proof {
            lemma_entries_push(Seq::empty(), t);
            assert(terms@ =~= Seq::empty().push(t));
            assert(entries(Seq::<Term>::empty()) =~= Seq::empty());
            assert(entries(terms@).drop_last() =~= Seq::empty());
            let e = entries(terms@);
            assert(e[0] == entry(t));
            assert(coeffs(e.drop_last()) == Map::<Monomial, (int, int)>::empty());
            assert(coeffs(e) =~= Map::<Monomial, (int, int)>::empty().insert(Seq::empty(), c@));
            assert forall|m: Monomial| m.len() == 0 implies m == Seq::<(AtomId, u32)>::empty() by {
                assert(m =~= Seq::<(AtomId, u32)>::empty());
            }
            assert(e =~= constant_terms(c@));
        }
        Poly { terms }
    }

    /// The generator `id` to the first power.
    pub fn generator(id: AtomId) -> (r: Poly)
        ensures
            forall|m: Monomial|
                #[trigger] coef_at(r@, m) == if m == seq![(id, 1u32)] {
                    (1int, 1int)
                } else {
                    (0int, 1int)
                },
            entries(r.terms_spec()) == seq![(seq![(id, 1u32)], (1int, 1int))],
    {
        let mut g: Vec<(AtomId, u32)> = Vec::new();
        g.push((id, 1));
        let t = Term { coeff: BigScalar::one(), generators: g };
        let mut terms: Vec<Term> = Vec::new();
        terms.push(t);
        proof {
            lemma_integer_canonical(1);
            lemma_entries_push(Seq::empty(), t);
            assert(terms@ =~= Seq::empty().push(t));
            assert(entries(Seq::<Term>::empty()) =~= Seq::empty());
            assert(entries(terms@).drop_last() =~= Seq::empty());
            assert(g@ =~= seq![(id, 1u32)]);
            let e = entries(terms@);
            assert(e[0] == entry(t));
            assert(coeffs(e.drop_last()) == Map::<Monomial, (int, int)>::empty());
            assert(coeffs(e) =~= Map::<Monomial, (int, int)>::empty().insert(
                seq![(id, 1u32)],
                (1int, 1int),
            ));
            assert(e =~= seq![(seq![(id, 1u32)], (1int, 1int))]);
        }
        Poly { terms }
    }

    /// The single term `c` times the monomial `generators`.
    pub(crate) fn single(c: BigScalar, generators: Vec<(AtomId, u32)>) -> (r: Poly)
        requires
            monomial_wf(generators@),
            canonical(c@),
            c@.0 != 0,
        ensures
            r@ == map![generators@ => c@],
    {
        let ghost g = generators@;
        let t = Term { coeff: c, generators };
        let mut terms: Vec<Term> = Vec::new();
        terms.push(t);
        proof {
            lemma_entries_push(Seq::empty(), t);
            assert(terms@ =~= Seq::empty().push(t));
            assert(entries(Seq::<Term>::empty()) =~= Seq::empty());
            assert(entries(terms@).drop_last() =~= Seq::empty());
            let e = entries(terms@);
            assert(e[0] == entry(t));
            assert(coeffs(e.drop_last()) == Map::<Monomial, (int, int)>::empty());
            assert(coeffs(e) =~= map![g => c@]);
        }
        Poly { terms }
    }

    /// Whether `self` is the zero polynomial.
    pub fn is_zero(&self) -> (r: bool)
        ensures
            r == (self@ == Map::<Monomial, (int, int)>::empty()),
    {
        proof {
            use_type_invariant(self);
            lemma_entries_len(self.terms@);
            lemma_coeffs_distinct(entries(self.terms@));
            if self.terms@.len() == 0 {
                assert(entries(self.terms@) =~= Seq::empty());
                assert(self@ =~= Map::<Monomial, (int, int)>::empty());
            } else {
                assert(self@.dom().contains(entries(self.terms@)[0].0));
            }
        }
        self.terms.len() == 0
    }

    /// Whether `self` is exactly the constant `1`.
    pub fn is_literal_one(&self) -> (r: bool)
        ensures
            r == (self@ == map![Seq::<(AtomId, u32)>::empty() => (1int, 1int)]),
    {
        proof {
            use_type_invariant(self);
            lemma_entries_len(self.terms@);
            lemma_coeffs_distinct(entries(self.terms@));
        }
        let ghost one_map = map![Seq::<(AtomId, u32)>::empty() => (1int, 1int)];
        if self.terms.len() != 1 {
            proof {
                if self@ == one_map {
                    if self.terms@.len() == 0 {
                        assert(entries(self.terms@) =~= Seq::empty());
                        assert(!self@.dom().contains(Seq::<(AtomId, u32)>::empty()));
                    } else {
                        let e = entries(self.terms@);
                        assert(self@.dom().contains(e[0].0));
                        assert(self@.dom().contains(e[1].0));
                        assert(e[0].0 != e[1].0);
                    }
                }
            }
            return false;
        }
        let r = self.terms[0].generators.len() == 0 && self.terms[0].coeff.equals(&BigScalar::one());
        proof {
            let e = entries(self.terms@);
            assert(e.drop_last() =~= Seq::empty());
            assert(self@ == Map::<Monomial, (int, int)>::empty().insert(e[0].0, e[0].1));
            if r {
                assert(e[0].0 =~= Seq::<(AtomId, u32)>::empty());
                assert(self@ =~= one_map);
            }
            if self@ == one_map {
                assert(self@.dom().contains(e[0].0));
                assert(e[0].0 == Seq::<(AtomId, u32)>::empty());
            }
        }
        r
    }

    /// `-self`.
    pub fn neg(&self) -> (r: Poly)
        ensures
            forall|m: Monomial| #[trigger] coef_at(r@, m) == rat_neg(coef_at(self@, m)),
    {
        proof {
            use_type_invariant(self);
            lemma_entries_len(self.terms@);
        }
        let mut out: Vec<Term> = Vec::new();
        let mut i: usize = 0;
        while i < self.terms.len()
            invariant
                i <= self.terms@.len(),
                out@.len() == i,
                distinct_monomials(entries(self.terms@)),
                entries_wf(entries(self.terms@)),
                forall|k: int|
                    0 <= k < self.terms@.len() ==> (#[trigger] self.terms@[k]).coeff@.0 != 0,
                forall|k: int|
                    0 <= k < self.terms@.len() ==> #[trigger] entries(self.terms@)[k] == entry(
                        self.terms@[k],
                    ),
                forall|k: int|
                    0 <= k < i ==> (#[trigger] out@[k]).generators@ == self.terms@[k].generators@
                        && out@[k].coeff@ == rat_neg(self.terms@[k].coeff@) && canonical(
                        out@[k].coeff@,
                    ),
            decreases self.terms@.len() - i,
        {
            let t = &self.terms[i];
            out.push(Term { coeff: core::ops::Neg::neg(t.coeff.clone()), generators: copy_monomial(&t.generators) });
            i += 1;
        }
        let ghost es = entries(self.terms@);
        let ghost os = entries(out@);
        proof {
            lemma_entries_len(out@);
            assert(os == es.map_values(|e: (Monomial, (int, int))| (e.0, rat_neg(e.1)))) by {
                assert(os =~= es.map_values(|e: (Monomial, (int, int))| (e.0, rat_neg(e.1))));
            }
            assert(distinct_monomials(os)) by {
                assert forall|a: int, b: int| 0 <= a < b < os.len() implies (#[trigger] os[a]).0
                    != (#[trigger] os[b]).0 by {
                    assert(os[a].0 == es[a].0 && os[b].0 == es[b].0);
                }
            }
            lemma_coeffs_distinct(es);
            lemma_coeffs_distinct(os);
            assert forall|m: Monomial| #[trigger] coef_at(coeffs(os), m) == rat_neg(
                coef_at(coeffs(es), m),
            ) by {
                if coeffs(es).dom().contains(m) {
                    let k = choose|k: int| 0 <= k < es.len() && es[k].0 == m;
                    assert(os[k].0 == m);
                } else if coeffs(os).dom().contains(m) {
                    let k = choose|k: int| 0 <= k < os.len() && os[k].0 == m;
                    assert(es[k].0 == m);
                }
            }
            assert(entries_wf(os)) by {
                assert forall|k: int| 0 <= k < os.len() implies monomial_wf((#[trigger] os[k]).0)
                    && canonical(os[k].1) by {
                    assert(os[k] == entry(out@[k]));
                    assert(es[k] == entry(self.terms@[k]));
                }
            }
            assert forall|k: int| 0 <= k < out@.len() implies (#[trigger] out@[k]).coeff@.0
                != 0 by {
                assert(self.terms@[k].coeff@.0 != 0);
            }
        }
        Poly { terms: out }
    }

    /// `c * self`.
    pub fn scale(&self, c: BigScalar) -> (r: Poly)
        ensures
            forall|m: Monomial| #[trigger] coef_at(r@, m) == qmul(coef_at(self@, m), c@),
    {
        proof {
            use_type_invariant(self);
            lemma_entries_len(self.terms@);
            lemma_coeffs_distinct(entries(self.terms@));
        }
        if c.is_zero() {
            let r = Poly::zero();
            proof {
                lemma_zero_canonical(c@.1);
                assert forall|m: Monomial| #[trigger] coef_at(r@, m) == qmul(
                    coef_at(self@, m),
                    c@,
                ) by {
                    if self@.dom().contains(m) {
                        let k = choose|k: int|
                            0 <= k < entries(self.terms@).len() && entries(self.terms@)[k].0 == m;
                        assert(entries(self.terms@)[k] == entry(self.terms@[k]));
                    }
                    lemma_qmul_zero(coef_at(self@, m));
                }
            }
            return r;
        }
        proof {
            assert forall|k: int| 0 <= k < self.terms@.len() implies canonical(
                (#[trigger] self.terms@[k]).coeff@,
            ) by {
                assert(entries(self.terms@)[k] == entry(self.terms@[k]));
            }
        }
        let mut out: Vec<Term> = Vec::new();
        let mut i: usize = 0;
        while i < self.terms.len()
            invariant
                i <= self.terms@.len(),
                out@.len() == i,
                c@.0 != 0,
                canonical(c@),
                forall|k: int|
                    0 <= k < self.terms@.len() ==> (#[trigger] self.terms@[k]).coeff@.0 != 0
                        && canonical(self.terms@[k].coeff@),
                forall|k: int|
                    0 <= k < i ==> (#[trigger] out@[k]).generators@ == self.terms@[k].generators@
                        && out@[k].coeff@ == qmul(self.terms@[k].coeff@, c@) && canonical(
                        out@[k].coeff@,
                    ) && out@[k].coeff@.0 != 0,
            decreases self.terms@.len() - i,
        {
            let t = &self.terms[i];
            let p = t.coeff.clone() * c.clone();
            proof {
                lemma_denominators(t.coeff@, c@);
                lemma_canon(p@, rat_mul(t.coeff@, c@));
                assert(p@.0 != 0) by (nonlinear_arith)
                    requires
                        p@.0 * (t.coeff@.1 * c@.1) == (t.coeff@.0 * c@.0) * p@.1,
                        p@.1 > 0,
                        t.coeff@.0 != 0,
                        c@.0 != 0,
                ;
            }
            out.push(Term { coeff: p, generators: copy_monomial(&t.generators) });
            i += 1;
        }
        let ghost es = entries(self.terms@);
        let ghost os = entries(out@);
        proof {
            lemma_entries_len(out@);
            assert(distinct_monomials(os)) by {
                assert forall|a: int, b: int| 0 <= a < b < os.len() implies (#[trigger] os[a]).0
                    != (#[trigger] os[b]).0 by {
                    assert(os[a] == entry(out@[a]) && os[b] == entry(out@[b]));
                    assert(es[a] == entry(self.terms@[a]) && es[b] == entry(self.terms@[b]));
                }
            }
            lemma_coeffs_distinct(os);
            assert forall|m: Monomial| #[trigger] coef_at(coeffs(os), m) == qmul(
                coef_at(coeffs(es), m),
                c@,
            ) by {
                if coeffs(es).dom().contains(m) {
                    let k = choose|k: int| 0 <= k < es.len() && es[k].0 == m;
                    assert(es[k] == entry(self.terms@[k]));
                    assert(os[k] == entry(out@[k]));
                } else {
                    if coeffs(os).dom().contains(m) {
                        let k = choose|k: int| 0 <= k < os.len() && os[k].0 == m;
                        assert(os[k] == entry(out@[k]));
                        assert(es[k] == entry(self.terms@[k]));
                        assert(coeffs(es).dom().contains(es[k].0));
                    }
                    lemma_integer_canonical(0);
                    lemma_canon((0, 1), rat_mul((0, 1), c@));
                }
            }
            assert(entries_wf(os)) by {
                assert forall|k: int| 0 <= k < os.len() implies monomial_wf((#[trigger] os[k]).0)
                    && canonical(os[k].1) by {
                    assert(os[k] == entry(out@[k]));
                    assert(es[k] == entry(self.terms@[k]));
                }
            }
        }
        Poly { terms: out }
    }

    /// `self + other`, like terms collected and zero terms dropped.
    pub fn add(&self, other: &Poly) -> (r: Poly)
        ensures
            forall|m: Monomial|
                #[trigger] coef_at(r@, m) == qadd(coef_at(self@, m), coef_at(other@, m)),
            forall|m: Monomial|
                same_value(
                    #[trigger] coef_at(r@, m),
                    rat_add(coef_at(self@, m), coef_at(other@, m)),
                ),
            self@ == Map::<Monomial, (int, int)>::empty() ==> r@ == other@,
    {
        proof {
            use_type_invariant(self);
            use_type_invariant(other);
            lemma_entries_len(self.terms@);
            lemma_entries_len(other.terms@);
            lemma_coeffs_distinct(entries(other.terms@));
        }
        let ghost se = entries(self.terms@);
        let ghost oe = entries(other.terms@);
        let mut acc: Vec<Term> = Vec::new();
        let mut i: usize = 0;
        while i < self.terms.len()
            invariant
                i <= self.terms@.len(),
                acc@.len() == i,
                se == entries(self.terms@),
                se.len() == self.terms@.len(),
                forall|k: int| 0 <= k < self.terms@.len() ==> #[trigger] se[k] == entry(self.terms@[k]),
                forall|k: int| 0 <= k < i ==> entry(#[trigger] acc@[k]) == se[k],
            decreases self.terms@.len() - i,
        {
            acc.push(clone_term(&self.terms[i]));
            i += 1;
        }
        proof {
            lemma_entries_len(acc@);
            assert(entries(acc@) =~= se);
            assert(other.terms@.take(0) =~= Seq::<Term>::empty());
            assert(entries(Seq::<Term>::empty()) =~= Seq::empty());
            assert forall|m: Monomial| #[trigger] coef_at(coeffs(entries(acc@)), m) == if coeffs(
                entries(other.terms@.take(0)),
            ).dom().contains(m) {
                qadd(coef_at(self@, m), coef_at(other@, m))
            } else {
                coef_at(self@, m)
            } by {}
            assert(coeffs(entries(acc@)).dom() =~= self@.dom() + coeffs(
                entries(other.terms@.take(0)),
            ).dom());
        }
        let mut j: usize = 0;
        while j < other.terms.len()
            invariant
                j <= other.terms@.len(),
                oe == entries(other.terms@),
                oe.len() == other.terms@.len(),
                forall|k: int| 0 <= k < other.terms@.len() ==> #[trigger] oe[k] == entry(other.terms@[k]),
                distinct_monomials(oe),
                entries_wf(oe),
                forall|k: int|
                    0 <= k < oe.len() ==> #[trigger] coeffs(oe).dom().contains(oe[k].0) && coeffs(
                        oe,
                    )[oe[k].0] == oe[k].1,
                coeffs(oe) == other@,
                self@ == coeffs(se),
                entries_wf(se),
                distinct_monomials(entries(acc@)),
                entries_wf(entries(acc@)),
                coeffs(entries(acc@)).dom() == self@.dom() + coeffs(
                    entries(other.terms@.take(j as int)),
                ).dom(),
                forall|m: Monomial|
                    #[trigger] coef_at(coeffs(entries(acc@)), m) == if coeffs(
                        entries(other.terms@.take(j as int)),
                    ).dom().contains(m) {
                        qadd(coef_at(self@, m), coef_at(other@, m))
                    } else {
                        coef_at(self@, m)
                    },
                forall|m: Monomial|
                    coeffs(entries(other.terms@.take(j as int))).dom().contains(m) ==> same_value(
                        #[trigger] coef_at(coeffs(entries(acc@)), m),
                        rat_add(coef_at(self@, m), coef_at(other@, m)),
                    ),
            decreases other.terms@.len() - j,
        {
            let t = &other.terms[j];
            let ghost m = t.generators@;
            let ghost before = acc@;
            let ghost tj = other.terms@.take(j as int);
            proof {
                assert(other.terms@.take(j + 1) =~= tj.push(other.terms@[j as int]));
                lemma_entries_push(tj, other.terms@[j as int]);
                assert(entries(other.terms@.take(j + 1)).drop_last() == entries(tj));
                assert(oe[j as int] == entry(other.terms@[j as int]));
                assert(entries(other.terms@.take(j + 1)) == entries(tj).push(oe[j as int]));
                assert(coeffs(entries(other.terms@.take(j + 1))) == coeffs(entries(tj)).insert(
                    m,
                    t.coeff@,
                ));
                assert(!coeffs(entries(tj)).dom().contains(m)) by {
                    let e = entries(tj);
                    lemma_entries_len(tj);
                    assert(distinct_monomials(e)) by {
                        assert forall|a: int, b: int| 0 <= a < b < e.len() implies (
                        #[trigger] e[a]).0 != (#[trigger] e[b]).0 by {
                            assert(e[a] == oe[a] && e[b] == oe[b]);
                        }
                    }
                    lemma_coeffs_distinct(e);
                    if coeffs(e).dom().contains(m) {
                        let k = choose|k: int| 0 <= k < e.len() && e[k].0 == m;
                        assert(e[k] == oe[k]);
                    }
                }
                assert(coef_at(other@, m) == t.coeff@);
                assert(coef_at(coeffs(entries(before)), m) == coef_at(self@, m));
                lemma_entries_len(before);
                lemma_coeffs_distinct(entries(before));
            }
            match position_of_monomial(&acc, &t.generators) {
                Some(p) => {
                    let sum = acc[p].coeff.clone() + t.coeff.clone();
                    proof {
                        assert(entries(before)[p as int] == entry(before[p as int]));
                        assert(coef_at(coeffs(entries(before)), m) == before[p as int].coeff@);
                        assert(canonical(entries(before)[p as int].1));
                        assert(canonical(oe[j as int].1));
                        lemma_denominators(before[p as int].coeff@, t.coeff@);
                        lemma_canon(sum@, rat_add(before[p as int].coeff@, t.coeff@));
                    }
                    let nt = Term { coeff: sum, generators: copy_monomial(&t.generators) };
                    acc.set(p, nt);
                    proof {
                        lemma_entries_update(before, p as int, nt);
                        lemma_coeffs_update(entries(before), p as int, sum@);
                        assert(entries(acc@) == entries(before).update(
                            p as int,
                            (entries(before)[p as int].0, sum@),
                        ));
                        let e = entries(acc@);
                        lemma_entries_len(acc@);
                        assert(distinct_monomials(e)) by {
                            assert forall|a: int, b: int| 0 <= a < b < e.len() implies (
                            #[trigger] e[a]).0 != (#[trigger] e[b]).0 by {
                                assert(e[a].0 == entries(before)[a].0);
                                assert(e[b].0 == entries(before)[b].0);
                            }
                        }
                        assert(entries_wf(e)) by {
                            assert forall|k: int| 0 <= k < e.len() implies monomial_wf(
                                (#[trigger] e[k]).0,
                            ) && canonical(e[k].1) by {
                                if k != p {
                                    assert(e[k] == entries(before)[k]);
                                }
                            }
                        }
                        assert(coeffs(e).dom() =~= self@.dom() + coeffs(
                            entries(other.terms@.take(j + 1)),
                        ).dom());
                        assert forall|m2: Monomial| #[trigger] coef_at(coeffs(e), m2) == if coeffs(
                            entries(other.terms@.take(j + 1)),
                        ).dom().contains(m2) {
                            qadd(coef_at(self@, m2), coef_at(other@, m2))
                        } else {
                            coef_at(self@, m2)
                        } by {
                            if m2 != m {
                                assert(coef_at(coeffs(e), m2) == coef_at(
                                    coeffs(entries(before)),
                                    m2,
                                ));
                            }
                        }
                        assert forall|m2: Monomial|
                            coeffs(entries(other.terms@.take(j + 1))).dom().contains(
                                m2,
                            ) implies same_value(
                            #[trigger] coef_at(coeffs(e), m2),
                            rat_add(coef_at(self@, m2), coef_at(other@, m2)),
                        ) by {
                            if m2 != m {
                                assert(coef_at(coeffs(e), m2) == coef_at(
                                    coeffs(entries(before)),
                                    m2,
                                ));
                            }
                        }
                    }
                },
                None => {
                    let nt = clone_term(t);
                    acc.push(nt);
                    proof {
                        assert(!coeffs(entries(before)).dom().contains(m)) by {
                            if coeffs(entries(before)).dom().contains(m) {
                                let k = choose|k: int|
                                    0 <= k < entries(before).len() && entries(before)[k].0 == m;
                                assert(entries(before)[k] == entry(before[k]));
                            }
                        }
                        assert(!self@.dom().contains(m));
                        assert(canonical(oe[j as int].1));
                        lemma_qadd_zero(t.coeff@);
                        lemma_entries_push(before, nt);
                        let e = entries(acc@);
                        assert(e.drop_last() =~= entries(before));
                        lemma_entries_len(acc@);
                        assert(distinct_monomials(e)) by {
                            assert forall|a: int, b: int| 0 <= a < b < e.len() implies (
                            #[trigger] e[a]).0 != (#[trigger] e[b]).0 by {
                                if b == e.len() - 1 {
                                    assert(e[a] == entries(before)[a]);
                                    assert(coeffs(entries(before)).dom().contains(e[a].0));
                                } else {
                                    assert(e[a] == entries(before)[a]);
                                    assert(e[b] == entries(before)[b]);
                                }
                            }
                        }
                        assert(entries_wf(e)) by {
                            assert forall|k: int| 0 <= k < e.len() implies monomial_wf(
                                (#[trigger] e[k]).0,
                            ) && canonical(e[k].1) by {
                                if k < before.len() {
                                    assert(e[k] == entries(before)[k]);
                                } else {
                                    assert(e[k] == oe[j as int]);
                                }
                            }
                        }
                        assert(coeffs(e) == coeffs(entries(before)).insert(m, t.coeff@));
                        assert(coeffs(e).dom() =~= self@.dom() + coeffs(
                            entries(other.terms@.take(j + 1)),
                        ).dom());
                        assert forall|m2: Monomial| #[trigger] coef_at(coeffs(e), m2) == if coeffs(
                            entries(other.terms@.take(j + 1)),
                        ).dom().contains(m2) {
                            qadd(coef_at(self@, m2), coef_at(other@, m2))
                        } else {
                            coef_at(self@, m2)
                        } by {
                            if m2 != m {
                                assert(coef_at(coeffs(e), m2) == coef_at(
                                    coeffs(entries(before)),
                                    m2,
                                ));
                            }
                        }
                        assert forall|m2: Monomial|
                            coeffs(entries(other.terms@.take(j + 1))).dom().contains(
                                m2,
                            ) implies same_value(
                            #[trigger] coef_at(coeffs(e), m2),
                            rat_add(coef_at(self@, m2), coef_at(other@, m2)),
                        ) by {
                            if m2 == m {
                                lemma_rat_add_zero(t.coeff@);
                            }
                            if m2 != m {
                                assert(coef_at(coeffs(e), m2) == coef_at(
                                    coeffs(entries(before)),
                                    m2,
                                ));
                            }
                        }
                    }
                },
            }
            j += 1;
        }
        proof {
            assert(other.terms@.take(other.terms@.len() as int) =~= other.terms@);
            assert forall|m: Monomial| #[trigger] coef_at(coeffs(entries(acc@)), m) == qadd(
                coef_at(self@, m),
                coef_at(other@, m),
            ) by {
                if !other@.dom().contains(m) {
                    if self@.dom().contains(m) {
                        lemma_coeffs_distinct(se);
                        let k = choose|k: int| 0 <= k < se.len() && se[k].0 == m;
                        lemma_qadd_zero(se[k].1);
                    } else {
                        lemma_integer_canonical(0);
                        lemma_qadd_zero((0, 1));
                    }
                }
            }
            assert forall|m: Monomial| same_value(
                #[trigger] coef_at(coeffs(entries(acc@)), m),
                rat_add(coef_at(self@, m), coef_at(other@, m)),
            ) by {
                lemma_rat_add_zero(coef_at(self@, m));
            }
        }
        let r = drop_zero_terms(&acc);
        assert forall|m: Monomial| same_value(
            #[trigger] coef_at(r@, m),
            rat_add(coef_at(self@, m), coef_at(other@, m)),
        ) by {
            assert(coef_at(r@, m) == coef_at(coeffs(entries(acc@)), m));
        }
        proof {
            if self@ == Map::<Monomial, (int, int)>::empty() {
                use_type_invariant(&r);
                lemma_terms_model(r.terms@);
                lemma_terms_model(other.terms@);
                assert forall|m: Monomial| #[trigger] coef_at(r@, m) == coef_at(other@, m) by {
                    assert(coef_at(r@, m) == coef_at(coeffs(entries(acc@)), m));
                    lemma_qadd_zero(coef_at(other@, m));
                }
                lemma_map_by_coefs(r@, other@);
            }
        }
        r
    }

    /// `self - other`.
    pub fn sub(&self, other: &Poly) -> (r: Poly)
        ensures
            forall|m: Monomial|
                #[trigger] coef_at(r@, m) == qadd(coef_at(self@, m), rat_neg(coef_at(other@, m))),
    {
        let n = other.neg();
        let r = self.add(&n);
        assert forall|m: Monomial| #[trigger] coef_at(r@, m) == qadd(
            coef_at(self@, m),
            rat_neg(coef_at(other@, m)),
        ) by {
            assert(coef_at(n@, m) == rat_neg(coef_at(other@, m)));
        }
        r
    }
}

// ---------------------------------------------------------------------
// Monomial products
// ---------------------------------------------------------------------

/// The exponent of generator `id` in `m` (`0` where it does not occur).
pub open spec fn mono_exp(m: Monomial, id: u32) -> int
    decreases m.len(),
{
    if m.len() == 0 {
        0
    } else {
        mono_exp(m.drop_last(), id) + if m.last().0.0 == id {
            m.last().1 as int
        } else {
            0
        }
    }
}

/// `r` is the product of the monomials `a` and `b`: well-formed, with
/// each generator's exponents added.
pub open spec fn is_mono_product(a: Monomial, b: Monomial, r: Monomial) -> bool {
    &&& monomial_wf(r)
    &&& forall|id: u32| #[trigger] mono_exp(r, id) == mono_exp(a, id) + mono_exp(b, id)
}

/// The product of two monomials.
pub open spec fn mono_mul(a: Monomial, b: Monomial) -> Monomial {
    choose|r: Monomial| is_mono_product(a, b, r)
}

pub(crate) proof fn lemma_mono_exp_push(m: Monomial, x: (AtomId, u32), id: u32)
    ensures
        mono_exp(m.push(x), id) == mono_exp(m, id) + if x.0.0 == id {
            x.1 as int
        } else {
            0
        },
{
    assert(m.push(x).drop_last() =~= m);
}

/// In a well-formed monomial, a generator's exponent is that of its one
/// entry, and every entry's generator is at most the last one's.
pub(crate) proof fn lemma_mono_exp_wf(m: Monomial, id: u32)
    requires
        monomial_wf(m),
    ensures
        forall|i: int| 0 <= i < m.len() && (#[trigger] m[i]).0.0 == id ==> mono_exp(m, id) == m[i].1,
        (forall|i: int| 0 <= i < m.len() ==> (#[trigger] m[i]).0.0 != id) ==> mono_exp(m, id) == 0,
        mono_exp(m, id) >= 0,
    decreases m.len(),
{
    if m.len() > 0 {
        let t = m.drop_last();
        assert(monomial_wf(t)) by {
            assert forall|i: int, j: int| 0 <= i < j < t.len() implies (#[trigger] t[i]).0.0 < (
            #[trigger] t[j]).0.0 by {
                assert(t[i] == m[i] && t[j] == m[j]);
            }
            assert forall|i: int| 0 <= i < t.len() implies 1 <= (#[trigger] t[i]).1
                <= EXPONENT_SANITY_LIMIT by {
                assert(t[i] == m[i]);
            }
        }
        lemma_mono_exp_wf(t, id);
        assert forall|i: int| 0 <= i < m.len() && (#[trigger] m[i]).0.0 == id implies mono_exp(
            m,
            id,
        ) == m[i].1 by {
            if i < m.len() - 1 {
                assert(t[i] == m[i]);
                assert(m[i].0.0 < m[m.len() - 1].0.0);
            } else {
                if exists|k: int| 0 <= k < t.len() && t[k].0.0 == id {
                    let k = choose|k: int| 0 <= k < t.len() && t[k].0.0 == id;
                    assert(t[k] == m[k]);
                    assert(m[k].0.0 < m[m.len() - 1].0.0);
                }
            }
        }
        if forall|i: int| 0 <= i < m.len() ==> (#[trigger] m[i]).0.0 != id {
            assert forall|i: int| 0 <= i < t.len() implies (#[trigger] t[i]).0.0 != id by {
                assert(t[i] == m[i]);
            }
            assert(m[m.len() - 1].0.0 != id);
        }
    }
}

/// Two well-formed monomials with the same exponents are equal.
pub proof fn lemma_mono_unique(a: Monomial, b: Monomial)
    requires
        monomial_wf(a),
        monomial_wf(b),
        forall|id: u32| #[trigger] mono_exp(a, id) == mono_exp(b, id),
    ensures
        a == b,
    decreases a.len() + b.len(),
{
    if a.len() == 0 && b.len() == 0 {
        assert(a =~= b);
    } else if a.len() == 0 {
        lemma_mono_exp_wf(b, b[0].0.0);
        lemma_mono_exp_wf(a, b[0].0.0);
    } else if b.len() == 0 {
        lemma_mono_exp_wf(a, a[0].0.0);
        lemma_mono_exp_wf(b, a[0].0.0);
    } else {
        let x = a.last();
        let y = b.last();
        lemma_mono_exp_wf(a, x.0.0);
        lemma_mono_exp_wf(b, x.0.0);
        lemma_mono_exp_wf(a, y.0.0);
        lemma_mono_exp_wf(b, y.0.0);
        if x.0.0 < y.0.0 {
            assert forall|i: int| 0 <= i < a.len() implies (#[trigger] a[i]).0.0 != y.0.0 by {
                if i < a.len() - 1 {
                    assert(a[i].0.0 < a[a.len() - 1].0.0);
                }
            }
            assert(b[b.len() - 1].0.0 == y.0.0);
            assert(false);
        } else if y.0.0 < x.0.0 {
            assert forall|i: int| 0 <= i < b.len() implies (#[trigger] b[i]).0.0 != x.0.0 by {
                if i < b.len() - 1 {
                    assert(b[i].0.0 < b[b.len() - 1].0.0);
                }
            }
            assert(a[a.len() - 1].0.0 == x.0.0);
            assert(false);
        }
        assert(a[a.len() - 1].0.0 == x.0.0);
        assert(b[b.len() - 1].0.0 == y.0.0);
        assert(x.1 == y.1);
        assert(x.0 == y.0);
        let ta = a.drop_last();
        let tb = b.drop_last();
        assert(monomial_wf(ta)) by {
            assert forall|i: int, j: int| 0 <= i < j < ta.len() implies (#[trigger] ta[i]).0.0 < (
            #[trigger] ta[j]).0.0 by {
                assert(ta[i] == a[i] && ta[j] == a[j]);
            }
            assert forall|i: int| 0 <= i < ta.len() implies 1 <= (#[trigger] ta[i]).1
                <= EXPONENT_SANITY_LIMIT by {
                assert(ta[i] == a[i]);
            }
        }
        assert(monomial_wf(tb)) by {
            assert forall|i: int, j: int| 0 <= i < j < tb.len() implies (#[trigger] tb[i]).0.0 < (
            #[trigger] tb[j]).0.0 by {
                assert(tb[i] == b[i] && tb[j] == b[j]);
            }
            assert forall|i: int| 0 <= i < tb.len() implies 1 <= (#[trigger] tb[i]).1
                <= EXPONENT_SANITY_LIMIT by {
                assert(tb[i] == b[i]);
            }
        }
        assert forall|id: u32| #[trigger] mono_exp(ta, id) == mono_exp(tb, id) by {
            assert(mono_exp(a, id) == mono_exp(b, id));
        }
        lemma_mono_unique(ta, tb);
        assert(a =~= ta.push(x));
        assert(b =~= tb.push(y));
    }
}

/// A witness of `is_mono_product` is `mono_mul`.
pub(crate) proof fn lemma_mono_mul(a: Monomial, b: Monomial, r: Monomial)
    requires
        is_mono_product(a, b, r),
    ensures
        mono_mul(a, b) == r,
{
    let q = mono_mul(a, b);
    assert(is_mono_product(a, b, q));
    assert forall|id: u32| #[trigger] mono_exp(q, id) == mono_exp(r, id) by {
        assert(mono_exp(q, id) == mono_exp(a, id) + mono_exp(b, id));
        assert(mono_exp(r, id) == mono_exp(a, id) + mono_exp(b, id));
    }
    lemma_mono_unique(q, r);
}

/// The product's exponents stay within the sanity limit.
pub open spec fn product_fits(a: Monomial, b: Monomial) -> bool {
    forall|id: u32| mono_exp(a, id) + mono_exp(b, id) <= EXPONENT_SANITY_LIMIT
}

/// The product of two well-formed monomials, merging their ascending
/// generator lists and adding the exponents of shared generators.
pub fn mono_product(a: &Vec<(AtomId, u32)>, b: &Vec<(AtomId, u32)>) -> (r: Vec<(AtomId, u32)>)
    requires
        monomial_wf(a@),
        monomial_wf(b@),
        product_fits(a@, b@),
    ensures
        is_mono_product(a@, b@, r@),
        r@ == mono_mul(a@, b@),
{
    let mut r: Vec<(AtomId, u32)> = Vec::new();
    let mut i: usize = 0;
    let mut j: usize = 0;
    while i < a.len() || j < b.len()
        invariant
            i <= a@.len(),
            j <= b@.len(),
            monomial_wf(a@),
            monomial_wf(b@),
            product_fits(a@, b@),
            monomial_wf(r@),
            forall|id: u32|
                #[trigger] mono_exp(r@, id) == mono_exp(a@.take(i as int), id) + mono_exp(
                    b@.take(j as int),
                    id,
                ),
            r@.len() > 0 && i < a@.len() ==> r@.last().0.0 < a@[i as int].0.0,
            r@.len() > 0 && j < b@.len() ==> r@.last().0.0 < b@[j as int].0.0,
        decreases a@.len() + b@.len() - i - j,
    {
        let ghost before = r@;
        let ghost ta = a@.take(i as int);
        let ghost tb = b@.take(j as int);
        let take_a = j == b.len() || (i < a.len() && a[i].0.0 < b[j].0.0);
        let take_b = !take_a && (i == a.len() || b[j].0.0 < a[i].0.0);
        if take_a {
            let (g, e) = a[i];
            r.push((AtomId(g.0), e));
            proof {
                assert(a@.take(i + 1) =~= ta.push(a@[i as int]));
                assert forall|id: u32| #[trigger] mono_exp(r@, id) == mono_exp(a@.take(i + 1), id)
                    + mono_exp(tb, id) by {
                    lemma_mono_exp_push(before, (AtomId(g.0), e), id);
                    lemma_mono_exp_push(ta, a@[i as int], id);
                }
            }
            i += 1;
        } else if take_b {
            let (g, e) = b[j];
            r.push((AtomId(g.0), e));
            proof {
                assert(b@.take(j + 1) =~= tb.push(b@[j as int]));
                assert forall|id: u32| #[trigger] mono_exp(r@, id) == mono_exp(ta, id) + mono_exp(
                    b@.take(j + 1),
                    id,
                ) by {
                    lemma_mono_exp_push(before, (AtomId(g.0), e), id);
                    lemma_mono_exp_push(tb, b@[j as int], id);
                }
            }
            j += 1;
        } else {
            let (g, e) = a[i];
            let f = b[j].1;
            proof {
                let id = g.0;
                lemma_mono_exp_wf(a@, id);
                lemma_mono_exp_wf(b@, id);
                assert(mono_exp(a@, id) + mono_exp(b@, id) <= EXPONENT_SANITY_LIMIT);
            }
            r.push((AtomId(g.0), e + f));
            proof {
                assert(a@.take(i + 1) =~= ta.push(a@[i as int]));
                assert(b@.take(j + 1) =~= tb.push(b@[j as int]));
                assert forall|id: u32| #[trigger] mono_exp(r@, id) == mono_exp(a@.take(i + 1), id)
                    + mono_exp(b@.take(j + 1), id) by {
                    lemma_mono_exp_push(before, (AtomId(g.0), (e + f) as u32), id);
                    lemma_mono_exp_push(ta, a@[i as int], id);
                    lemma_mono_exp_push(tb, b@[j as int], id);
                }
            }
            i += 1;
            j += 1;
        }
        proof {
            assert(monomial_wf(r@)) by {
                assert forall|x: int, y: int| 0 <= x < y < r@.len() implies (#[trigger] r@[x]).0.0
                    < (#[trigger] r@[y]).0.0 by {
                    if y < before.len() {
                        assert(r@[x] == before[x] && r@[y] == before[y]);
                    } else if x < before.len() - 1 {
                        assert(r@[x] == before[x]);
                        assert(before[x].0.0 < before[before.len() - 1].0.0);
                    } else if x == before.len() - 1 {
                        assert(r@[x] == before[x]);
                    }
                }
            }
            if i < a@.len() {
                assert(a@[i - 1].0.0 < a@[i as int].0.0 || r@.last().0.0 < a@[i as int].0.0);
            }
        }
    }
    proof {
        assert(a@.take(a@.len() as int) =~= a@);
        assert(b@.take(b@.len() as int) =~= b@);
        lemma_mono_mul(a@, b@, r@);
    }
    r
}

// ---------------------------------------------------------------------
// Products of polynomials
// ---------------------------------------------------------------------

/// One step of a row of the product: adds `a[ma] * b[mb]` where
/// `ma * mb == m`.
pub open spec fn row_step(
    a: Map<Monomial, (int, int)>,
    b: Map<Monomial, (int, int)>,
    ma: Monomial,
    m: Monomial,
) -> spec_fn((int, int), Monomial) -> (int, int) {
    |acc: (int, int), mb: Monomial|
        if mono_mul(ma, mb) == m {
            rat_add(acc, rat_mul(a[ma], b[mb]))
        } else {
            acc
        }
}

/// The coefficient of `m` contributed by `a`'s monomial `ma` times the
/// monomials `mbs` of `b`, unreduced.
pub open spec fn row_sum(
    a: Map<Monomial, (int, int)>,
    b: Map<Monomial, (int, int)>,
    ma: Monomial,
    m: Monomial,
    mbs: Set<Monomial>,
) -> (int, int) {
    mbs.fold((0int, 1int), row_step(a, b, ma, m))
}

/// One step of the product: adds the row of `ma`.
pub open spec fn col_step(
    a: Map<Monomial, (int, int)>,
    b: Map<Monomial, (int, int)>,
    m: Monomial,
) -> spec_fn((int, int), Monomial) -> (int, int) {
    |acc: (int, int), ma: Monomial| rat_add(acc, row_sum(a, b, ma, m, b.dom()))
}

/// The coefficient of `m` in the product of `a`'s monomials `mas` with
/// all of `b`, unreduced: the sum of `a[ma] * b[mb]` over the pairs
/// with `ma * mb == m`.
pub open spec fn product_sum(
    a: Map<Monomial, (int, int)>,
    b: Map<Monomial, (int, int)>,
    m: Monomial,
    mas: Set<Monomial>,
) -> (int, int) {
    mas.fold((0int, 1int), col_step(a, b, m))
}

/// The product of two polynomials as a map from monomials to coefficients.
pub open spec fn poly_mul(a: Map<Monomial, (int, int)>, b: Map<Monomial, (int, int)>) -> Map<
    Monomial,
    (int, int),
> {
    Map::new(
        |m: Monomial| canon(product_sum(a, b, m, a.dom())).0 != 0,
        |m: Monomial| canon(product_sum(a, b, m, a.dom())),
    )
}

/// Unreduced addition is commutative and associative on the nose.
pub(crate) proof fn lemma_rat_add_ac(b: (int, int), x: (int, int), y: (int, int))
    ensures
        rat_add(rat_add(b, x), y) == rat_add(rat_add(b, y), x),
        rat_add(rat_add(b, x), y) == rat_add(b, rat_add(x, y)),
{
    lemma_ac_ints(b.0, b.1, x.0, x.1, y.0, y.1);
}

proof fn lemma_ac_ints(b0: int, b1: int, x0: int, x1: int, y0: int, y1: int)
    ensures
        (b0 * x1 + x0 * b1) * y1 + y0 * (b1 * x1) == (b0 * y1 + y0 * b1) * x1 + x0 * (b1 * y1),
        (b1 * x1) * y1 == (b1 * y1) * x1,
        (b0 * x1 + x0 * b1) * y1 + y0 * (b1 * x1) == b0 * (x1 * y1) + (x0 * y1 + y0 * x1) * b1,
        (b1 * x1) * y1 == b1 * (x1 * y1),
{
    lemma_mul_is_distributive_add_other_way(y1, b0 * x1, x0 * b1);
    lemma_mul_is_distributive_add_other_way(x1, b0 * y1, y0 * b1);
    lemma_mul_is_distributive_add_other_way(b1, x0 * y1, y0 * x1);
    lemma_mul_is_associative(b0, x1, y1);
    lemma_mul_is_associative(b0, y1, x1);
    lemma_mul_is_commutative(x1, y1);
    lemma_mul_is_associative(x0, b1, y1);
    lemma_mul_is_associative(y0, b1, x1);
    lemma_mul_is_associative(x0, y1, b1);
    lemma_mul_is_commutative(b1, y1);
    lemma_mul_is_associative(y0, x1, b1);
    lemma_mul_is_commutative(b1, x1);
    lemma_mul_is_associative(b1, x1, y1);
    lemma_mul_is_associative(b1, y1, x1);
}

/// Unreduced addition respects equal values.
pub(crate) proof fn lemma_rat_add_same_value(a: (int, int), a2: (int, int), b: (int, int), b2: (int, int))
    requires
        same_value(a, a2),
        same_value(b, b2),
    ensures
        same_value(rat_add(a, b), rat_add(a2, b2)),
{
    lemma_sv_ints(a.0, a.1, a2.0, a2.1, b.0, b.1, b2.0, b2.1);
}

proof fn lemma_sv_ints(p: int, q: int, p2: int, q2: int, r: int, s: int, r2: int, s2: int)
    requires
        p * q2 == p2 * q,
        r * s2 == r2 * s,
    ensures
        (p * s + r * q) * (q2 * s2) == (p2 * s2 + r2 * q2) * (q * s),
{
    // (p s + r q)(q2 s2) = (p q2)(s s2) + (r s2)(q q2)
    lemma_mul_is_distributive_add_other_way(q2 * s2, p * s, r * q);
    lemma_mul_is_distributive_add_other_way(q * s, p2 * s2, r2 * q2);
    assert((p * s) * (q2 * s2) == (p * q2) * (s * s2)) by (nonlinear_arith);
    assert((r * q) * (q2 * s2) == (r * s2) * (q * q2)) by (nonlinear_arith);
    assert((p2 * s2) * (q * s) == (p2 * q) * (s * s2)) by (nonlinear_arith);
    assert((r2 * q2) * (q * s) == (r2 * s) * (q * q2)) by (nonlinear_arith);
}

pub(crate) proof fn lemma_row_step_commutative(
    a: Map<Monomial, (int, int)>,
    b: Map<Monomial, (int, int)>,
    ma: Monomial,
    m: Monomial,
)
    ensures
        vstd::set::fold::is_fun_commutative(row_step(a, b, ma, m)),
{
    let f = row_step(a, b, ma, m);
    assert forall|x1: Monomial, x2: Monomial, acc: (int, int)|
        #[trigger] f(f(acc, x2), x1) == f(f(acc, x1), x2) by {
        lemma_rat_add_ac(acc, rat_mul(a[ma], b[x1]), rat_mul(a[ma], b[x2]));
    }
}

pub(crate) proof fn lemma_col_step_commutative(
    a: Map<Monomial, (int, int)>,
    b: Map<Monomial, (int, int)>,
    m: Monomial,
)
    ensures
        vstd::set::fold::is_fun_commutative(col_step(a, b, m)),
{
    let f = col_step(a, b, m);
    assert forall|x1: Monomial, x2: Monomial, acc: (int, int)|
        #[trigger] f(f(acc, x2), x1) == f(f(acc, x1), x2) by {
        lemma_rat_add_ac(acc, row_sum(a, b, x1, m, b.dom()), row_sum(a, b, x2, m, b.dom()));
    }
}

/// The monomials of a list of entries form a finite set, one more with
/// each entry.
pub(crate) proof fn lemma_coeffs_take(es: Seq<(Monomial, (int, int))>, i: int)
    requires
        0 <= i < es.len(),
    ensures
        coeffs(es.take(i + 1)) == coeffs(es.take(i)).insert(es[i].0, es[i].1),
{
    assert(es.take(i + 1).drop_last() =~= es.take(i));
}

pub(crate) proof fn lemma_coeffs_finite(es: Seq<(Monomial, (int, int))>)
    ensures
        coeffs(es).dom().finite(),
    decreases es.len(),
{
    if es.len() > 0 {
        lemma_coeffs_finite(es.drop_last());
    }
}

/// A monomial of a prefix of distinct entries is not the next entry's.
pub(crate) proof fn lemma_prefix_excludes_next(es: Seq<(Monomial, (int, int))>, i: int)
    requires
        distinct_monomials(es),
        0 <= i < es.len(),
    ensures
        !coeffs(es.take(i)).dom().contains(es[i].0),
{
    let t = es.take(i);
    assert(distinct_monomials(t)) by {
        assert forall|a: int, b: int| 0 <= a < b < t.len() implies (#[trigger] t[a]).0 != (
        #[trigger] t[b]).0 by {
            assert(t[a] == es[a] && t[b] == es[b]);
        }
    }
    lemma_coeffs_distinct(t);
    if coeffs(t).dom().contains(es[i].0) {
        let k = choose|k: int| 0 <= k < t.len() && t[k].0 == es[i].0;
        assert(t[k] == es[k]);
    }
}

/// Every monomial of `p` is the product of a monomial of `a` and one of
/// `b`.
#[verifier::opaque]
pub open spec fn products_of(
    a: Map<Monomial, (int, int)>,
    b: Map<Monomial, (int, int)>,
    p: Map<Monomial, (int, int)>,
) -> bool {
    forall|m: Monomial|
        #[trigger] p.dom().contains(m) ==> exists|ma: Monomial, mb: Monomial|
            a.dom().contains(ma) && b.dom().contains(mb) && is_mono_product(ma, mb, m)
}

impl Poly {
    /// The product of two terms.
    fn mul_term(a: &Term, b: &Term) -> (r: Poly)
        requires
            canonical(a.coeff@),
            canonical(b.coeff@),
            monomial_wf(a.generators@),
            monomial_wf(b.generators@),
            product_fits(a.generators@, b.generators@),
        ensures
            forall|m: Monomial|
                #[trigger] coef_at(r@, m) == if m == mono_mul(a.generators@, b.generators@) {
                    qmul(a.coeff@, b.coeff@)
                } else {
                    (0int, 1int)
                },
            same_value(
                coef_at(r@, mono_mul(a.generators@, b.generators@)),
                rat_mul(a.coeff@, b.coeff@),
            ),
            is_mono_product(a.generators@, b.generators@, mono_mul(a.generators@, b.generators@)),
    {
        let coeff = a.coeff.clone() * b.coeff.clone();
        let generators = mono_product(&a.generators, &b.generators);
        proof {
            lemma_mono_mul(a.generators@, b.generators@, generators@);
            lemma_denominators(a.coeff@, b.coeff@);
            lemma_canon(coeff@, rat_mul(a.coeff@, b.coeff@));
        }
        if coeff.is_zero() {
            proof {
                lemma_zero_canonical(coeff@.1);
                assert(same_value((0int, 1int), rat_mul(a.coeff@, b.coeff@)));
            }
            return Poly::zero();
        }
        let t = Term { coeff, generators };
        let mut terms: Vec<Term> = Vec::new();
        terms.push(t);
        proof {
            lemma_entries_push(Seq::empty(), t);
            assert(terms@ =~= Seq::empty().push(t));
            assert(entries(Seq::<Term>::empty()) =~= Seq::empty());
            let e = entries(terms@);
            assert(e.drop_last() =~= Seq::empty());
            assert(e[0] == entry(t));
            assert(coeffs(e.drop_last()) == Map::<Monomial, (int, int)>::empty());
            assert(coeffs(e) =~= Map::<Monomial, (int, int)>::empty().insert(
                t.generators@,
                coeff@,
            ));
        }
        Poly { terms }
    }

    /// `self * other` with the identities between generators suppressed:
    /// the plain product, summing the products of every pair of terms, a
    /// `cos` or `cosh` left at whatever power it reaches (see
    /// [`Poly::mul`] for the product that applies them, and
    /// [`Poly::normalize_trig`] to apply them afterwards). Every product's
    /// exponents must stay within the sanity limit.
    pub fn product(&self, other: &Poly) -> (r: Poly)
        requires
            forall|ma: Monomial, mb: Monomial|
                #[trigger] self@.dom().contains(ma) && #[trigger] other@.dom().contains(mb)
                    ==> product_fits(ma, mb),
        ensures
            forall|m: Monomial|
                #[trigger] coef_at(r@, m) == canon(product_sum(self@, other@, m, self@.dom())),
            r@ == poly_mul(self@, other@),
            products_of(self@, other@, r@),
    {
        proof {
            use_type_invariant(self);
            use_type_invariant(other);
            lemma_entries_len(self.terms@);
            lemma_entries_len(other.terms@);
            lemma_coeffs_distinct(entries(self.terms@));
            lemma_coeffs_distinct(entries(other.terms@));
            lemma_coeffs_finite(entries(self.terms@));
            lemma_coeffs_finite(entries(other.terms@));
            lemma_integer_canonical(0);
        }
        let ghost se = entries(self.terms@);
        let ghost oe = entries(other.terms@);
        let ghost a = self@;
        let ghost b = other@;
        let mut acc = Poly::zero();
        let mut i: usize = 0;
        proof {
            reveal(products_of);
            assert(se.take(0) =~= Seq::empty());
            assert forall|m: Monomial| #[trigger] same_value(coef_at(acc@, m), product_sum(
                a,
                b,
                m,
                coeffs(se.take(0)).dom(),
            )) && product_sum(a, b, m, coeffs(se.take(0)).dom()).1 > 0 by {
                assert(coeffs(se.take(0)).dom() == Set::<Monomial>::empty());
                vstd::set::fold::lemma_fold_empty((0int, 1int), col_step(a, b, m));
            }
        }
        while i < self.terms.len()
            invariant
                i <= self.terms@.len(),
                se == entries(self.terms@),
                oe == entries(other.terms@),
                a == self@,
                b == other@,
                a == coeffs(se),
                b == coeffs(oe),
                se.len() == self.terms@.len(),
                oe.len() == other.terms@.len(),
                forall|k: int| 0 <= k < self.terms@.len() ==> #[trigger] se[k] == entry(self.terms@[k]),
                forall|k: int|
                    0 <= k < other.terms@.len() ==> #[trigger] oe[k] == entry(other.terms@[k]),
                distinct_monomials(se),
                distinct_monomials(oe),
                entries_wf(se),
                entries_wf(oe),
                forall|k: int|
                    0 <= k < se.len() ==> #[trigger] a.dom().contains(se[k].0) && a[se[k].0] == se[k].1,
                forall|k: int|
                    0 <= k < oe.len() ==> #[trigger] b.dom().contains(oe[k].0) && b[oe[k].0] == oe[k].1,
                forall|ma: Monomial, mb: Monomial|
                    #[trigger] a.dom().contains(ma) && #[trigger] b.dom().contains(mb)
                        ==> product_fits(ma, mb),
                forall|m: Monomial|
                    #[trigger] same_value(
                        coef_at(acc@, m),
                        product_sum(a, b, m, coeffs(se.take(i as int)).dom()),
                    ) && product_sum(a, b, m, coeffs(se.take(i as int)).dom()).1 > 0,
                products_of(a, b, acc@),
            decreases self.terms@.len() - i,
        {
            let ghost ma = se[i as int].0;
            let ghost di = coeffs(se.take(i as int)).dom();
            proof {
                assert(a.dom().contains(se[i as int].0) && a[se[i as int].0] == se[i as int].1);
                assert(se[i as int] == entry(self.terms@[i as int]));
            }
            let mut j: usize = 0;
            proof {
                assert forall|m: Monomial| #[trigger] product_sum(a, b, m, di).1 > 0 by {
                    assert(same_value(coef_at(acc@, m), product_sum(a, b, m, di)));
                }
                assert(oe.take(0) =~= Seq::empty());
                assert forall|m: Monomial| #[trigger] same_value(
                    coef_at(acc@, m),
                    rat_add(
                        product_sum(a, b, m, di),
                        row_sum(a, b, ma, m, coeffs(oe.take(0)).dom()),
                    ),
                ) && row_sum(a, b, ma, m, coeffs(oe.take(0)).dom()).1 > 0 by {
                    assert(coeffs(oe.take(0)).dom() == Set::<Monomial>::empty());
                    vstd::set::fold::lemma_fold_empty((0int, 1int), row_step(a, b, ma, m));
                    lemma_rat_add_zero(product_sum(a, b, m, di));
                }
            }
            while j < other.terms.len()
                invariant
                    i < self.terms@.len(),
                    j <= other.terms@.len(),
                    se == entries(self.terms@),
                    oe == entries(other.terms@),
                    a == self@,
                    b == other@,
                    a == coeffs(se),
                    b == coeffs(oe),
                    se.len() == self.terms@.len(),
                    oe.len() == other.terms@.len(),
                    ma == se[i as int].0,
                    di == coeffs(se.take(i as int)).dom(),
                    forall|k: int|
                        0 <= k < self.terms@.len() ==> #[trigger] se[k] == entry(self.terms@[k]),
                    forall|k: int|
                        0 <= k < other.terms@.len() ==> #[trigger] oe[k] == entry(
                            other.terms@[k],
                        ),
                    distinct_monomials(oe),
                    entries_wf(se),
                    entries_wf(oe),
                    a.dom().contains(ma),
                    a[ma] == self.terms@[i as int].coeff@,
                    forall|k: int|
                        0 <= k < oe.len() ==> #[trigger] b.dom().contains(oe[k].0) && b[oe[k].0]
                            == oe[k].1,
                    forall|ma2: Monomial, mb: Monomial|
                        #[trigger] a.dom().contains(ma2) && #[trigger] b.dom().contains(mb)
                            ==> product_fits(ma2, mb),
                    forall|m: Monomial| #[trigger] product_sum(a, b, m, di).1 > 0,
                    forall|m: Monomial|
                        #[trigger] same_value(
                            coef_at(acc@, m),
                            rat_add(
                                product_sum(a, b, m, di),
                                row_sum(a, b, ma, m, coeffs(oe.take(j as int)).dom()),
                            ),
                        ) && row_sum(a, b, ma, m, coeffs(oe.take(j as int)).dom()).1 > 0,
                    products_of(a, b, acc@),
                decreases other.terms@.len() - j,
            {
                let ghost mb = oe[j as int].0;
                let ghost ej = coeffs(oe.take(j as int)).dom();
                proof {
                    assert(a.dom().contains(se[i as int].0));
                    assert(b.dom().contains(oe[j as int].0));
                    assert(se[i as int] == entry(self.terms@[i as int]));
                    assert(oe[j as int] == entry(other.terms@[j as int]));
                }
                let t = Poly::mul_term(&self.terms[i], &other.terms[j]);
                proof {
                    use_type_invariant(&acc);
                    acc.lemma_coef_canonical();
                    use_type_invariant(&t);
                    t.lemma_coef_canonical();
                }
                let ghost before = acc;
                acc = acc.add(&t);
                proof {
                    lemma_coeffs_take(oe, j as int);
                    lemma_prefix_excludes_next(oe, j as int);
                    lemma_coeffs_finite(oe.take(j as int));
                    assert(coeffs(oe.take(j + 1)).dom() == ej.insert(mb));
                    assert forall|m: Monomial| #[trigger] same_value(
                        coef_at(acc@, m),
                        rat_add(
                            product_sum(a, b, m, di),
                            row_sum(a, b, ma, m, coeffs(oe.take(j + 1)).dom()),
                        ),
                    ) && row_sum(a, b, ma, m, coeffs(oe.take(j + 1)).dom()).1 > 0 by {
                        lemma_row_step_commutative(a, b, ma, m);
                        vstd::set::fold::lemma_fold_insert(ej, (0int, 1int), row_step(a, b, ma, m), mb);
                        let p = product_sum(a, b, m, di);
                        let rj = row_sum(a, b, ma, m, ej);
                        let ca = coef_at(before@, m);
                        let ct = coef_at(t@, m);
                        assert(same_value(ca, rat_add(p, rj)));
                        assert(same_value(coef_at(acc@, m), rat_add(ca, ct)));
                        assert(canonical(ca) && canonical(ct));
                        if mono_mul(ma, mb) == m {
                            let x = rat_mul(a[ma], b[mb]);
                            assert(a[ma] == self.terms@[i as int].coeff@);
                            assert(b[mb] == other.terms@[j as int].coeff@);
                            assert(same_value(ct, x));
                            lemma_denominators(a[ma], b[mb]);
                            lemma_denominators(rj, x);
                            lemma_rat_add_same_value(ca, rat_add(p, rj), ct, x);
                            lemma_rat_add_ac(p, rj, x);
                            lemma_denominators(p, rj);
                            lemma_denominators(ca, ct);
                            lemma_same_value_chain(
                                coef_at(acc@, m),
                                rat_add(ca, ct),
                                rat_add(rat_add(p, rj), x),
                            );
                            assert(row_sum(a, b, ma, m, ej.insert(mb)) == rat_add(rj, x));
                            assert(rat_add(rat_add(p, rj), x) == rat_add(p, rat_add(rj, x)));
                        } else {
                            assert(ct == (0int, 1int));
                            lemma_rat_add_zero(ca);
                            lemma_denominators(p, rj);
                            lemma_same_value_chain(coef_at(acc@, m), ca, rat_add(p, rj));
                            assert(row_sum(a, b, ma, m, ej.insert(mb)) == rj);
                        }
                    }
                }
                proof {
                    use_type_invariant(&acc);
                    reveal(products_of);
                    assert forall|m: Monomial| #[trigger] acc@.dom().contains(m) implies exists|
                        ma2: Monomial,
                        mb2: Monomial,
                    |
                        a.dom().contains(ma2) && b.dom().contains(mb2) && is_mono_product(
                            ma2,
                            mb2,
                            m,
                        ) by {
                        acc.lemma_coef_canonical();
                        if !before@.dom().contains(m) {
                            lemma_integer_canonical(0);
                            if coef_at(t@, m) == (0int, 1int) {
                                lemma_qadd_zero((0int, 1int));
                                assert(coef_at(acc@, m) == qadd(coef_at(before@, m), coef_at(t@, m)));
                                assert(false);
                            }
                            assert(m == mono_mul(
                                self.terms@[i as int].generators@,
                                other.terms@[j as int].generators@,
                            ));
                            assert(ma == self.terms@[i as int].generators@);
                            assert(mb == other.terms@[j as int].generators@);
                            assert(a.dom().contains(ma) && b.dom().contains(mb) && is_mono_product(ma, mb, m));
                        }
                    }
                }
                j += 1;
            }
            proof {
                assert(oe.take(oe.len() as int) =~= oe);
                lemma_coeffs_take(se, i as int);
                lemma_prefix_excludes_next(se, i as int);
                lemma_coeffs_finite(se.take(i as int));
                assert(coeffs(se.take(i + 1)).dom() == di.insert(ma));
                assert forall|m: Monomial| #[trigger] same_value(
                    coef_at(acc@, m),
                    product_sum(a, b, m, coeffs(se.take(i + 1)).dom()),
                ) && product_sum(a, b, m, coeffs(se.take(i + 1)).dom()).1 > 0 by {
                    lemma_col_step_commutative(a, b, m);
                    vstd::set::fold::lemma_fold_insert(di, (0int, 1int), col_step(a, b, m), ma);
                    assert(same_value(
                        coef_at(acc@, m),
                        rat_add(product_sum(a, b, m, di), row_sum(a, b, ma, m, b.dom())),
                    ));
                    lemma_denominators(product_sum(a, b, m, di), row_sum(a, b, ma, m, b.dom()));
                }
            }
            i += 1;
        }
        proof {
            assert(se.take(se.len() as int) =~= se);
            use_type_invariant(&acc);
            lemma_entries_len(acc.terms@);
            lemma_coeffs_distinct(entries(acc.terms@));
            assert forall|m: Monomial| #[trigger] coef_at(acc@, m) == canon(
                product_sum(a, b, m, a.dom()),
            ) by {
                assert(same_value(coef_at(acc@, m), product_sum(a, b, m, a.dom())));
                if acc@.dom().contains(m) {
                    let k = choose|k: int|
                        0 <= k < entries(acc.terms@).len() && entries(acc.terms@)[k].0 == m;
                    assert(entries(acc.terms@)[k] == entry(acc.terms@[k]));
                } else {
                    lemma_integer_canonical(0);
                }
                lemma_canon(coef_at(acc@, m), product_sum(a, b, m, a.dom()));
            }
            acc.lemma_coef_canonical();
            assert forall|m: Monomial| #[trigger] acc@.dom().contains(m) == poly_mul(
                a,
                b,
            ).dom().contains(m) by {
                assert(coef_at(acc@, m) == canon(product_sum(a, b, m, a.dom())));
            }
            assert(acc@.dom() =~= poly_mul(a, b).dom());
            assert forall|m: Monomial| #[trigger] acc@.dom().contains(m) implies acc@[m] == poly_mul(
                a,
                b,
            )[m] by {
                assert(coef_at(acc@, m) == canon(product_sum(a, b, m, a.dom())));
            }
            assert(acc@ =~= poly_mul(a, b));
        }
        acc
    }
}

/// `p^n`: `1`, then `n` products by `p`.
pub open spec fn poly_pow(p: Map<Monomial, (int, int)>, n: nat) -> Map<Monomial, (int, int)>
    decreases n,
{
    if n == 0 {
        map![Seq::<(AtomId, u32)>::empty() => (1int, 1int)]
    } else {
        poly_mul(poly_pow(p, (n - 1) as nat), p)
    }
}

// ---------------------------------------------------------------------
// Laws
// ---------------------------------------------------------------------

/// Adding polynomials does not depend on the order of the operands:
/// every coefficient of `a + b` is that of `b + a`.
pub proof fn lemma_add_commutative(a: Map<Monomial, (int, int)>, b: Map<Monomial, (int, int)>)
    ensures
        forall|m: Monomial|
            #[trigger] qadd(coef_at(a, m), coef_at(b, m)) == qadd(coef_at(b, m), coef_at(a, m)),
{
    assert forall|m: Monomial|
        #[trigger] qadd(coef_at(a, m), coef_at(b, m)) == qadd(coef_at(b, m), coef_at(a, m)) by {
        let x = coef_at(a, m);
        let y = coef_at(b, m);
        assert(x.0 * y.1 + y.0 * x.1 == y.0 * x.1 + x.0 * y.1);
        assert(x.1 * y.1 == y.1 * x.1) by (nonlinear_arith);
        assert(rat_add(x, y) == rat_add(y, x));
    }
}

/// A polynomial minus itself is zero: every coefficient of `p - p` is
/// `0`, for every polynomial `p` (its coefficients in lowest terms).
pub proof fn lemma_sub_self(p: Map<Monomial, (int, int)>)
    requires
        forall|m: Monomial| #[trigger] p.dom().contains(m) ==> canonical(p[m]),
    ensures
        forall|m: Monomial| #[trigger] qadd(coef_at(p, m), rat_neg(coef_at(p, m))) == (0int, 1int),
{
    lemma_integer_canonical(0);
    assert forall|m: Monomial| #[trigger] qadd(coef_at(p, m), rat_neg(coef_at(p, m))) == (
        0int,
        1int,
    ) by {
        let x = coef_at(p, m);
        assert(canonical(x));
        let s = rat_add(x, rat_neg(x));
        assert(s.0 == 0) by (nonlinear_arith)
            requires
                s.0 == x.0 * x.1 + (-x.0) * x.1,
        ;
        assert(s.1 > 0) by (nonlinear_arith)
            requires
                s.1 == x.1 * x.1,
                x.1 > 0,
        ;
        lemma_canon((0, 1), s);
    }
}

/// `same_value` passed along a chain whose middle has a nonzero
/// denominator.
pub(crate) proof fn lemma_same_value_chain(x: (int, int), y: (int, int), z: (int, int))
    requires
        same_value(x, y),
        same_value(y, z),
        y.1 != 0,
    ensures
        same_value(x, z),
{
    crate::rational::lemma_same_value_transitive(x, y, z);
}

} // verus!
