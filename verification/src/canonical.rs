//! Turning a polynomial back into an expression in one canonical shape:
//! terms ordered by their generators' expressions (not by interning
//! order, which depends on the order generators were first met), and
//! each term's generators in that same order.
use vstd::prelude::*;
use vstd::relations::sorted_by;
use crate::atoms::{AtomKeyV, AtomTable, atom_expr};
use crate::big_scalar::BigScalar;
use crate::expr::{Expr, ExprV, clone_expr, expr_equal, expr_view, exprs_view, lemma_exprs_view};
use crate::order::{
    key_compare, key_order, lemma_key_order, lemma_pair_le_total_ordering, pair_le, pair_view,
    pairs_view, sort_pairs, sorted_pairs,
};
use crate::poly::{
    Monomial, Poly, Term, coeffs, entries, entry, lemma_entries_len, monomial_wf,
    EXPONENT_SANITY_LIMIT,
};

verus! {

/// Every generator of `m` is interned in a table of `n` generators.
pub open spec fn atoms_below(m: Monomial, n: int) -> bool {
    forall|i: int| 0 <= i < m.len() ==> (#[trigger] m[i]).0.0 < n
}

/// Each generator's expression with its exponent, in the monomial's
/// order.
pub open spec fn gen_pairs(t: Seq<AtomKeyV>, m: Monomial) -> Seq<(ExprV, u32)> {
    m.map_values(|g: (crate::poly::AtomId, u32)| (atom_expr(t[g.0.0 as int]), g.1))
}

/// `k` lists the generators of `m` in order of their expressions.
pub open spec fn is_content_key(t: Seq<AtomKeyV>, m: Monomial, k: Seq<(ExprV, u32)>) -> bool {
    sorted_pairs(k) && k.to_multiset() == gen_pairs(t, m).to_multiset()
}

/// The generators of `m` in order of their expressions.
pub open spec fn content_key(t: Seq<AtomKeyV>, m: Monomial) -> Seq<(ExprV, u32)> {
    choose|k: Seq<(ExprV, u32)>| is_content_key(t, m, k)
}

/// The sorted arrangement is unique, so it is the one `content_key`
/// names.
proof fn lemma_content_key(t: Seq<AtomKeyV>, m: Monomial, k: Seq<(ExprV, u32)>)
    requires
        is_content_key(t, m, k),
    ensures
        content_key(t, m) == k,
{
    let c = content_key(t, m);
    assert(is_content_key(t, m, c));
    let le = |a: (ExprV, u32), b: (ExprV, u32)| pair_le(a, b);
    lemma_pair_le_total_ordering();
    assert(sorted_by(c, le));
    assert(sorted_by(k, le));
    vstd::seq_lib::lemma_sorted_unique(c, k, le);
}

/// Every monomial has an ordered arrangement of its generators.
proof fn lemma_content_key_exists(t: Seq<AtomKeyV>, m: Monomial)
    ensures
        is_content_key(t, m, content_key(t, m)),
{
    let le = |a: (ExprV, u32), b: (ExprV, u32)| pair_le(a, b);
    lemma_pair_le_total_ordering();
    let g = gen_pairs(t, m);
    g.lemma_sort_by_ensures(le);
    let k = g.sort_by(le);
    assert(sorted_pairs(k)) by {
        assert forall|i: int, j: int| 0 <= i < j < k.len() implies crate::order::pair_order(
            #[trigger] k[i],
            #[trigger] k[j],
        ) <= 0 by {
            assert(le(k[i], k[j]));
        }
    }
    assert(is_content_key(t, m, k));
}

/// Different keys name different expressions.
proof fn lemma_atom_expr_injective(a: AtomKeyV, b: AtomKeyV)
    requires
        atom_expr(a) == atom_expr(b),
    ensures
        a == b,
{
}

/// Two monomials whose generators are listed in strictly ascending order
/// and which hold the same generators are the same.
proof fn lemma_ascending_unique(m1: Monomial, m2: Monomial)
    requires
        monomial_wf(m1),
        monomial_wf(m2),
        forall|i: int| 0 <= i < m1.len() ==> m2.contains(#[trigger] m1[i]),
        forall|i: int| 0 <= i < m2.len() ==> m1.contains(#[trigger] m2[i]),
    ensures
        m1 == m2,
    decreases m1.len(),
{
    if m1.len() == 0 {
        if m2.len() > 0 {
            assert(m1.contains(m2[0]));
        }
        assert(m1 =~= m2);
    } else {
        assert(m2.contains(m1[0]));
        let j = choose|j: int| 0 <= j < m2.len() && m2[j] == m1[0];
        assert(m1.contains(m2[0]));
        let i = choose|i: int| 0 <= i < m1.len() && m1[i] == m2[0];
        if i > 0 {
            assert(m1[0].0.0 < m1[i].0.0);
            if j > 0 {
                assert(m2[0].0.0 < m2[j].0.0);
            }
            assert(false);
        }
        assert(m1[0] == m2[0]);
        let r1 = m1.drop_first();
        let r2 = m2.drop_first();
        assert forall|a: int| 0 <= a < r1.len() implies r2.contains(#[trigger] r1[a]) by {
            assert(r1[a] == m1[a + 1]);
            assert(m2.contains(m1[a + 1]));
            let b = choose|b: int| 0 <= b < m2.len() && m2[b] == m1[a + 1];
            assert(m1[0].0.0 < m1[a + 1].0.0);
            if b == 0 {
                assert(false);
            }
            assert(r2[b - 1] == m2[b]);
        }
        assert forall|a: int| 0 <= a < r2.len() implies r1.contains(#[trigger] r2[a]) by {
            assert(r2[a] == m2[a + 1]);
            assert(m1.contains(m2[a + 1]));
            let b = choose|b: int| 0 <= b < m1.len() && m1[b] == m2[a + 1];
            assert(m2[0].0.0 < m2[a + 1].0.0);
            if b == 0 {
                assert(false);
            }
            assert(r1[b - 1] == m1[b]);
        }
        lemma_ascending_unique(r1, r2);
        assert(m1 =~= seq![m1[0]] + r1);
        assert(m2 =~= seq![m2[0]] + r2);
    }
}

/// In a table where no generator is interned twice, the ordered
/// generators of a monomial determine the monomial.
proof fn lemma_content_key_injective(t: Seq<AtomKeyV>, m1: Monomial, m2: Monomial)
    requires
        crate::atoms::distinct_keys(t),
        monomial_wf(m1),
        monomial_wf(m2),
        atoms_below(m1, t.len() as int),
        atoms_below(m2, t.len() as int),
        content_key(t, m1) == content_key(t, m2),
    ensures
        m1 == m2,
{
    lemma_content_key_exists(t, m1);
    lemma_content_key_exists(t, m2);
    let g1 = gen_pairs(t, m1);
    let g2 = gen_pairs(t, m2);
    assert(g1.to_multiset() == g2.to_multiset());
    assert forall|i: int| 0 <= i < m1.len() implies m2.contains(#[trigger] m1[i]) by {
        vstd::seq_lib::to_multiset_contains(g1, g1[i]);
        vstd::seq_lib::to_multiset_contains(g2, g1[i]);
        let j = choose|j: int| 0 <= j < g2.len() && g2[j] == g1[i];
        lemma_atom_expr_injective(t[m2[j].0.0 as int], t[m1[i].0.0 as int]);
        assert(m2[j].0.0 == m1[i].0.0);
        assert(m2[j] == m1[i]);
    }
    assert forall|i: int| 0 <= i < m2.len() implies m1.contains(#[trigger] m2[i]) by {
        vstd::seq_lib::to_multiset_contains(g2, g2[i]);
        vstd::seq_lib::to_multiset_contains(g1, g2[i]);
        let j = choose|j: int| 0 <= j < g1.len() && g1[j] == g2[i];
        lemma_atom_expr_injective(t[m1[j].0.0 as int], t[m2[i].0.0 as int]);
        assert(m1[j].0.0 == m2[i].0.0);
        assert(m1[j] == m2[i]);
    }
    lemma_ascending_unique(m1, m2);
}

/// Entries in ascending order of their generators.
pub open spec fn entries_sorted(t: Seq<AtomKeyV>, x: Seq<(Monomial, (int, int))>) -> bool {
    forall|i: int, j: int|
        0 <= i < j < x.len() ==> key_order(
            content_key(t, (#[trigger] x[i]).0),
            content_key(t, (#[trigger] x[j]).0),
        ) <= 0
}

/// A rearrangement of entries with distinct monomials has distinct
/// monomials.
proof fn lemma_distinct_rearranged(a: Seq<(Monomial, (int, int))>, b: Seq<(Monomial, (int, int))>)
    requires
        a.to_multiset() == b.to_multiset(),
        crate::poly::distinct_monomials(a),
    ensures
        crate::poly::distinct_monomials(b),
{
    assert(a.no_duplicates()) by {
        assert forall|i: int, j: int| 0 <= i < a.len() && 0 <= j < a.len() && i != j implies a[i]
            != a[j] by {
            if i < j {
                assert(a[i].0 != a[j].0);
            } else {
                assert(a[j].0 != a[i].0);
            }
        }
    }
    a.lemma_multiset_has_no_duplicates();
    b.lemma_multiset_has_no_duplicates_conv();
    assert forall|i: int, j: int| 0 <= i < j < b.len() implies (#[trigger] b[i]).0 != (
    #[trigger] b[j]).0 by {
        vstd::seq_lib::to_multiset_contains(b, b[i]);
        vstd::seq_lib::to_multiset_contains(b, b[j]);
        vstd::seq_lib::to_multiset_contains(a, b[i]);
        vstd::seq_lib::to_multiset_contains(a, b[j]);
        let p = choose|p: int| 0 <= p < a.len() && a[p] == b[i];
        let q = choose|q: int| 0 <= q < a.len() && a[q] == b[j];
        if b[i].0 == b[j].0 {
            if p < q {
                assert(a[p].0 != a[q].0);
            } else if q < p {
                assert(a[q].0 != a[p].0);
            }
            assert(b[i] != b[j]);
        }
    }
}

/// Two arrangements of the same entries, each in ascending order of
/// their generators, are the same arrangement when no two entries share
/// a monomial.
proof fn lemma_entries_sorted_unique(
    t: Seq<AtomKeyV>,
    x: Seq<(Monomial, (int, int))>,
    y: Seq<(Monomial, (int, int))>,
)
    requires
        crate::atoms::distinct_keys(t),
        x.to_multiset() == y.to_multiset(),
        crate::poly::distinct_monomials(x),
        forall|i: int|
            0 <= i < x.len() ==> monomial_wf((#[trigger] x[i]).0) && atoms_below(
                x[i].0,
                t.len() as int,
            ),
        entries_sorted(t, x),
        entries_sorted(t, y),
    ensures
        x == y,
    decreases x.len(),
{
    broadcast use vstd::multiset::group_multiset_axioms;

    if x.len() == 0 || y.len() == 0 {
        if x.len() > 0 {
            vstd::seq_lib::to_multiset_contains(x, x[0]);
            vstd::seq_lib::to_multiset_contains(y, x[0]);
        }
        if y.len() > 0 {
            vstd::seq_lib::to_multiset_contains(y, y[0]);
            vstd::seq_lib::to_multiset_contains(x, y[0]);
        }
        assert(x =~= y);
    } else {
        vstd::seq_lib::to_multiset_contains(x, x[0]);
        vstd::seq_lib::to_multiset_contains(y, x[0]);
        vstd::seq_lib::to_multiset_contains(y, y[0]);
        vstd::seq_lib::to_multiset_contains(x, y[0]);
        let i = choose|i: int| 0 <= i < x.len() && x[i] == y[0];
        let j = choose|j: int| 0 <= j < y.len() && y[j] == x[0];
        let k0 = content_key(t, x[0].0);
        let ki = content_key(t, x[i].0);
        if i > 0 {
            assert(key_order(k0, ki) <= 0);
        }
        if j > 0 {
            assert(key_order(content_key(t, y[0].0), content_key(t, y[j].0)) <= 0);
        }
        lemma_key_order(k0, ki, k0);
        assert(k0 == ki);
        lemma_content_key_injective(t, x[0].0, x[i].0);
        if i > 0 {
            assert(x[0].0 != x[i].0);
        }
        assert(x[0] == y[0]);
        vstd::seq_lib::to_multiset_remove(x, 0);
        vstd::seq_lib::to_multiset_remove(y, 0);
        assert(x.remove(0) =~= x.drop_first());
        assert(y.remove(0) =~= y.drop_first());
        let rx = x.drop_first();
        let ry = y.drop_first();
        assert(entries_sorted(t, rx)) by {
            assert forall|a: int, b: int| 0 <= a < b < rx.len() implies key_order(
                content_key(t, (#[trigger] rx[a]).0),
                content_key(t, (#[trigger] rx[b]).0),
            ) <= 0 by {
                assert(rx[a] == x[a + 1] && rx[b] == x[b + 1]);
            }
        }
        assert(entries_sorted(t, ry)) by {
            assert forall|a: int, b: int| 0 <= a < b < ry.len() implies key_order(
                content_key(t, (#[trigger] ry[a]).0),
                content_key(t, (#[trigger] ry[b]).0),
            ) <= 0 by {
                assert(ry[a] == y[a + 1] && ry[b] == y[b + 1]);
            }
        }
        assert(crate::poly::distinct_monomials(rx)) by {
            assert forall|a: int, b: int| 0 <= a < b < rx.len() implies (#[trigger] rx[a]).0 != (
            #[trigger] rx[b]).0 by {
                assert(rx[a] == x[a + 1] && rx[b] == x[b + 1]);
            }
        }
        assert forall|a: int| 0 <= a < rx.len() implies monomial_wf((#[trigger] rx[a]).0)
            && atoms_below(rx[a].0, t.len() as int) by {
            assert(rx[a] == x[a + 1]);
        }
        lemma_entries_sorted_unique(t, rx, ry);
        assert(x =~= seq![x[0]] + rx);
        assert(y =~= seq![y[0]] + ry);
    }
}

/// The generators of `gens`, each as its expression with its exponent,
/// in order of their expressions.
pub fn content_key_of(table: &AtomTable, gens: &Vec<(crate::poly::AtomId, u32)>) -> (k: Vec<(Expr, u32)>)
    requires
        atoms_below(gens@, table@.len() as int),
    ensures
        pairs_view(k@) == content_key(table@, gens@),
        is_content_key(table@, gens@, pairs_view(k@)),
{
    let mut v: Vec<(Expr, u32)> = Vec::new();
    let mut i: usize = 0;
    while i < gens.len()
        invariant
            i <= gens@.len(),
            atoms_below(gens@, table@.len() as int),
            pairs_view(v@) == gen_pairs(table@, gens@.take(i as int)),
        decreases gens@.len() - i,
    {
        let (id, e) = gens[i];
        let x = table.to_expr(id);
        let ghost before = v@;
        let ghost xv = x@;
        v.push((x, e));
        proof {
            assert(gens@.take(i + 1) =~= gens@.take(i as int).push(gens@[i as int]));
            assert(pairs_view(v@) =~= pairs_view(before).push((xv, e)));
            assert(gen_pairs(table@, gens@.take(i + 1)) =~= gen_pairs(table@, gens@.take(i as int)).push(
                (atom_expr(table@[id.0 as int]), e),
            ));
        }
        i += 1;
    }
    proof {
        assert(gens@.take(gens@.len() as int) =~= gens@);
    }
    sort_pairs(&mut v);
    proof {
        lemma_content_key(table@, gens@, pairs_view(v@));
    }
    v
}

/// The expression of one term: its coefficient (left out when it is `1`
/// and there are generators), then each generator, raised to its
/// exponent where that is not `1`; a product when there is more than one
/// factor.
pub open spec fn term_expr(c: (int, int), k: Seq<(ExprV, u32)>) -> ExprV {
    let fs = (if c != (1int, 1int) || k.len() == 0 {
        seq![ExprV::Rational(c.0, c.1)]
    } else {
        Seq::empty()
    }) + k.map_values(
        |p: (ExprV, u32)|
            if p.1 == 1 {
                p.0
            } else {
                ExprV::Pow(Box::new(p.0), p.1 as int)
            },
    );
    if fs.len() == 1 {
        fs[0]
    } else {
        ExprV::Mul(fs)
    }
}

/// The expression of a term.
pub fn term_to_expr(term: &Term, table: &AtomTable) -> (r: Expr)
    requires
        monomial_wf(term.generators@),
        atoms_below(term.generators@, table@.len() as int),
    ensures
        r@ == term_expr(term.coeff@, content_key(table@, term.generators@)),
{
    let k = content_key_of(table, &term.generators);
    let ghost kv = pairs_view(k@);
    proof {
        // The exponents are those of the monomial, hence below the limit.
        assert forall|j: int| 0 <= j < k@.len() implies k@[j].1 <= EXPONENT_SANITY_LIMIT by {
            let g = gen_pairs(table@, term.generators@);
            assert(kv.to_multiset() == g.to_multiset());
            assert(kv[j] == pair_view(k@[j]));
            vstd::seq_lib::to_multiset_contains(kv, kv[j]);
            vstd::seq_lib::to_multiset_contains(g, kv[j]);
            let q = choose|q: int| 0 <= q < g.len() && g[q] == kv[j];
            assert(g[q].1 == term.generators@[q].1);
        }
    }
    let one = BigScalar::one();
    let is_one = term.coeff.equals(&one);
    let mut factors: Vec<Expr> = Vec::new();
    let ghost lead: Seq<ExprV> = if !is_one || k@.len() == 0 {
        seq![ExprV::Rational(term.coeff@.0, term.coeff@.1)]
    } else {
        Seq::empty()
    };
    if !is_one || k.len() == 0 {
        factors.push(Expr::Rational(term.coeff.clone()));
    }
    proof {
        lemma_exprs_view(factors@);
        assert(exprs_view(factors@) =~= lead);
    }
    let ghost tail = kv.map_values(
        |p: (ExprV, u32)|
            if p.1 == 1 {
                p.0
            } else {
                ExprV::Pow(Box::new(p.0), p.1 as int)
            },
    );
    let mut i: usize = 0;
    while i < k.len()
        invariant
            i <= k@.len(),
            kv == pairs_view(k@),
            tail == kv.map_values(
                |p: (ExprV, u32)|
                    if p.1 == 1 {
                        p.0
                    } else {
                        ExprV::Pow(Box::new(p.0), p.1 as int)
                    },
            ),
            forall|j: int| 0 <= j < k@.len() ==> k@[j].1 <= EXPONENT_SANITY_LIMIT,
            exprs_view(factors@) == lead + tail.take(i as int),
        decreases k@.len() - i,
    {
        proof {
            assert(kv.len() == k@.len());
            assert(kv[i as int] == pair_view(k@[i as int]));
        }
        let base = clone_expr(&k[i].0);
        let e = k[i].1;
        let f = if e == 1 {
            base
        } else {
            Expr::Pow(Box::new(base), e as i32)
        };
        let ghost before = factors@;
        let ghost fv = f@;
        factors.push(f);
        proof {
            lemma_exprs_view(before);
            lemma_exprs_view(factors@);
            assert(tail[i as int] == fv);
            let target = lead + tail.take(i + 1);
            assert(exprs_view(before) == lead + tail.take(i as int));
            assert(before.len() == lead.len() + i);
            assert forall|j: int| 0 <= j < factors@.len() implies exprs_view(factors@)[j]
                == target[j] by {
                if j < before.len() {
                    assert(factors@[j] == before[j]);
                    assert(exprs_view(before)[j] == expr_view(before[j]));
                } else {
                    assert(factors@[j]@ == fv);
                }
            }
            assert(exprs_view(factors@) =~= target);
        }
        i += 1;
    }
    proof {
        assert(tail.take(k@.len() as int) =~= tail);
        lemma_exprs_view(factors@);
    }
    if factors.len() == 1 {
        proof {
            assert(exprs_view(factors@)[0] == factors@[0]@);
        }
        let f = factors.remove(0);
        f
    } else {
        Expr::Mul(factors)
    }
}

/// `s` lists the terms in ascending order of their generators.
pub open spec fn terms_sorted(t: Seq<AtomKeyV>, s: Seq<Term>) -> bool {
    forall|i: int, j: int|
        0 <= i < j < s.len() ==> key_order(
            content_key(t, (#[trigger] s[i]).generators@),
            content_key(t, (#[trigger] s[j]).generators@),
        ) <= 0
}

/// Every monomial of `p` is interned in a table of `n` generators.
pub open spec fn poly_atoms_below(p: Map<Monomial, (int, int)>, n: int) -> bool {
    forall|m: Monomial| #[trigger] p.dom().contains(m) ==> atoms_below(m, n)
}

impl Poly {
    /// The terms, ordered by their generators' expressions (the order
    /// in which the generators were interned plays no part).
    pub fn sorted_terms(&self, table: &AtomTable) -> (r: Vec<Term>)
        requires
            table.wf(),
            poly_atoms_below(self@, table@.len() as int),
        ensures
            entries(r@).to_multiset() == entries(self.terms_spec()).to_multiset(),
            terms_sorted(table@, r@),
            forall|x: Seq<(Monomial, (int, int))>|
                x.to_multiset() == entries(self.terms_spec()).to_multiset() && #[trigger] entries_sorted(
                    table@,
                    x,
                ) ==> x == entries(r@),
            forall|i: int| 0 <= i < r@.len() ==> monomial_wf((#[trigger] r@[i]).generators@),
            forall|i: int|
                0 <= i < r@.len() ==> atoms_below(
                    (#[trigger] r@[i]).generators@,
                    table@.len() as int,
                ),
    {
        let ts = self.terms();
        proof {
            crate::poly::lemma_entries_len(ts@);
            crate::poly::lemma_coeffs_distinct(entries(ts@));
            assert forall|j: int| 0 <= j < ts@.len() implies monomial_wf(
                (#[trigger] ts@[j]).generators@,
            ) && self@.dom().contains(ts@[j].generators@) by {
                assert(entries(ts@)[j] == entry(ts@[j]));
            }
        }
        let mut keyed: Vec<(Vec<(Expr, u32)>, Term)> = Vec::new();
        let mut i: usize = 0;
        while i < ts.len()
            invariant
                i <= ts@.len(),
                ts@ == self.terms_spec(),
                poly_atoms_below(self@, table@.len() as int),
                coeffs(entries(ts@)) == self@,
                forall|j: int| 0 <= j < ts@.len() ==> monomial_wf((#[trigger] ts@[j]).generators@),
                forall|j: int|
                    0 <= j < ts@.len() ==> #[trigger] self@.dom().contains(ts@[j].generators@),
                keyed@.len() == i,
                forall|j: int|
                    0 <= j < i ==> entry((#[trigger] keyed@[j]).1) == entry(ts@[j]) && pairs_view(keyed@[j].0@) == content_key(table@, keyed@[j].1.generators@),
            decreases ts@.len() - i,
        {
            proof {
                assert(self@.dom().contains(ts@[i as int].generators@));
            }
            let k = content_key_of(table, &ts[i].generators);
            let t = crate::poly::clone_term(&ts[i]);
            keyed.push((k, t));
            i += 1;
        }
        proof {
            assert(key_entries(keyed@) =~= entries(ts@));
        }
        sort_keyed(&mut keyed, Ghost(table@));
        let mut r: Vec<Term> = Vec::new();
        let ghost sorted = keyed@;
        while keyed.len() > 0
            invariant
                keyed@ == sorted.skip(r@.len() as int),
                r@.len() <= sorted.len(),
                forall|j: int| 0 <= j < r@.len() ==> #[trigger] r@[j] == sorted[j].1,
            decreases keyed@.len(),
        {
            let (_, t) = keyed.remove(0);
            proof {
                assert(sorted.skip(r@.len() as int)[0] == sorted[r@.len() as int]);
            }
            r.push(t);
            proof {
                assert(keyed@ =~= sorted.skip(r@.len() as int));
            }
        }
        proof {
            assert(r@.len() == sorted.len());
            assert(entries(r@) =~= key_entries(sorted));
            assert forall|a: int, b: int| 0 <= a < b < r@.len() implies key_order(
                content_key(table@, (#[trigger] r@[a]).generators@),
                content_key(table@, (#[trigger] r@[b]).generators@),
            ) <= 0 by {
                assert(r@[a] == sorted[a].1 && r@[b] == sorted[b].1);
            }
            assert forall|j: int| 0 <= j < r@.len() implies monomial_wf(
                (#[trigger] r@[j]).generators@,
            ) && atoms_below(r@[j].generators@, table@.len() as int) by {
                assert(r@[j] == sorted[j].1);
                let e = entries(r@)[j];
                assert(e == entry(r@[j]));
                assert(entries(r@).to_multiset().count(e) > 0) by {
                    vstd::seq_lib::to_multiset_contains(entries(r@), e);
                }
                vstd::seq_lib::to_multiset_contains(entries(ts@), e);
                let q = choose|q: int| 0 <= q < entries(ts@).len() && entries(ts@)[q] == e;
                assert(entries(ts@)[q] == entry(ts@[q]));
                assert(self@.dom().contains(ts@[q].generators@));
            }
            let er = entries(r@);
            lemma_distinct_rearranged(entries(ts@), er);
            assert(entries_sorted(table@, er)) by {
                assert forall|a: int, b: int| 0 <= a < b < er.len() implies key_order(
                    content_key(table@, (#[trigger] er[a]).0),
                    content_key(table@, (#[trigger] er[b]).0),
                ) <= 0 by {
                    assert(er[a] == entry(r@[a]) && er[b] == entry(r@[b]));
                }
            }
            assert forall|a: int| 0 <= a < er.len() implies monomial_wf((#[trigger] er[a]).0)
                && atoms_below(er[a].0, table@.len() as int) by {
                assert(er[a] == entry(r@[a]));
            }
            assert forall|x: Seq<(Monomial, (int, int))>|
                x.to_multiset() == entries(self.terms_spec()).to_multiset()
                    && #[trigger] entries_sorted(table@, x) implies x == er by {
                lemma_entries_sorted_unique(table@, er, x);
            }
        }
        r
    }
}

/// The entries of keyed terms.
pub open spec fn key_entries(s: Seq<(Vec<(Expr, u32)>, Term)>) -> Seq<(Monomial, (int, int))> {
    s.map_values(|p: (Vec<(Expr, u32)>, Term)| entry(p.1))
}

/// Sorts terms carrying their keys by those keys.
fn sort_keyed(v: &mut Vec<(Vec<(Expr, u32)>, Term)>, Ghost(t): Ghost<Seq<AtomKeyV>>)
    requires
        forall|j: int|
            0 <= j < old(v)@.len() ==> pairs_view((#[trigger] old(v)@[j]).0@) == content_key(
                t,
                old(v)@[j].1.generators@,
            ),
    ensures
        key_entries(final(v)@).to_multiset() == key_entries(old(v)@).to_multiset(),
        forall|j: int|
            0 <= j < final(v)@.len() ==> pairs_view((#[trigger] final(v)@[j]).0@) == content_key(
                t,
                final(v)@[j].1.generators@,
            ),
        forall|a: int, b: int|
            0 <= a < b < final(v)@.len() ==> key_order(
                pairs_view((#[trigger] final(v)@[a]).0@),
                pairs_view((#[trigger] final(v)@[b]).0@),
            ) <= 0,
{
    let n = v.len();
    if n == 0 {
        return;
    }
    let mut i: usize = 1;
    while i < n
        invariant
            1 <= i <= n,
            v@.len() == n,
            forall|j: int|
                0 <= j < v@.len() ==> pairs_view((#[trigger] v@[j]).0@) == content_key(
                    t,
                    v@[j].1.generators@,
                ),
            forall|a: int, b: int|
                0 <= a < b < i ==> key_order(
                    pairs_view((#[trigger] v@[a]).0@),
                    pairs_view((#[trigger] v@[b]).0@),
                ) <= 0,
            key_entries(v@).to_multiset() == key_entries(old(v)@).to_multiset(),
        decreases n - i,
    {
        let ghost before = v@;
        let x = v.remove(i);
        let ghost removed = v@;
        let mut p: usize = i;
        while p > 0 && key_compare(&x.0, &v[p - 1].0) < 0
            invariant
                0 <= p <= i,
                i < n,
                v@ == removed,
                removed.len() == n - 1,
                forall|q: int|
                    p <= q < i ==> key_order(pairs_view(x.0@), #[trigger] pairs_view(removed[q].0@))
                        < 0,
            decreases p,
        {
            p -= 1;
        }
        let ghost xk = pairs_view(x.0@);
        let ghost xe = entry(x.1);
        v.insert(p, x);
        proof {
            broadcast use vstd::multiset::group_multiset_axioms, vstd::seq_lib::to_multiset_contains;

            let bv = key_entries(before);
            let rv = key_entries(removed);
            let w = key_entries(v@);
            assert(removed == before.remove(i as int));
            assert(rv =~= bv.remove(i as int));
            assert(w =~= rv.insert(p as int, xe));
            assert(bv[i as int] == xe);
            assert(bv.contains(xe));
            vstd::seq_lib::to_multiset_remove(bv, i as int);
            vstd::seq_lib::to_multiset_insert(rv, p as int, xe);
            assert(w.to_multiset() =~= bv.to_multiset());
            assert forall|j: int| 0 <= j < v@.len() implies pairs_view((#[trigger] v@[j]).0@)
                == content_key(t, v@[j].1.generators@) by {
                if j < p {
                    assert(v@[j] == before[j]);
                } else if j > p {
                    assert(v@[j] == before[j] || v@[j] == removed[j - 1]);
                    assert(v@[j] == removed[j - 1]);
                    assert(removed[j - 1] == before[if j - 1 < i { j - 1 } else { j }]);
                } else {
                    assert(v@[j] == before[i as int]);
                }
            }
            assert forall|a: int, b: int| 0 <= a < b < i + 1 implies key_order(
                pairs_view((#[trigger] v@[a]).0@),
                pairs_view((#[trigger] v@[b]).0@),
            ) <= 0 by {
                let ka = pairs_view(v@[a].0@);
                let kb = pairs_view(v@[b].0@);
                if b < p {
                    assert(v@[a] == before[a] && v@[b] == before[b]);
                } else if a > p {
                    assert(v@[a] == removed[a - 1] && v@[b] == removed[b - 1]);
                    assert(removed[a - 1] == before[a - 1] && removed[b - 1] == before[b - 1]);
                } else if a == p {
                    assert(ka == xk);
                    assert(v@[b] == removed[b - 1]);
                } else {
                    assert(v@[a] == before[a]);
                    let prev = pairs_view(removed[p - 1].0@);
                    assert(!(key_order(xk, prev) < 0));
                    assert(removed[p - 1] == before[p - 1]);
                    lemma_key_order(xk, prev, ka);
                    if a < p - 1 {
                        assert(key_order(ka, prev) <= 0);
                        lemma_key_order(ka, prev, xk);
                        lemma_key_order(prev, xk, ka);
                        lemma_key_order(ka, xk, prev);
                    }
                    if b != p {
                        assert(v@[b] == removed[b - 1]);
                        lemma_key_order(xk, kb, ka);
                        lemma_key_order(ka, xk, kb);
                        lemma_key_order(ka, kb, xk);
                    } else {
                        assert(kb == xk);
                    }
                }
            }
        }
        i += 1;
    }
}

/// Any two arrangements of the same terms in ascending order of their
/// generators give the same expression, when no two terms share a
/// monomial and no generator is interned twice.
pub proof fn lemma_poly_expr_determined(t: Seq<AtomKeyV>, s1: Seq<Term>, s2: Seq<Term>)
    requires
        crate::atoms::distinct_keys(t),
        entries(s1).to_multiset() == entries(s2).to_multiset(),
        crate::poly::distinct_monomials(entries(s1)),
        forall|i: int|
            0 <= i < s1.len() ==> monomial_wf((#[trigger] s1[i]).generators@) && atoms_below(
                s1[i].generators@,
                t.len() as int,
            ),
        terms_sorted(t, s1),
        terms_sorted(t, s2),
    ensures
        poly_expr(t, s1) == poly_expr(t, s2),
{
    let x = entries(s1);
    let y = entries(s2);
    assert(entries_sorted(t, x)) by {
        assert forall|i: int, j: int| 0 <= i < j < x.len() implies key_order(
            content_key(t, (#[trigger] x[i]).0),
            content_key(t, (#[trigger] x[j]).0),
        ) <= 0 by {
            assert(x[i] == entry(s1[i]) && x[j] == entry(s1[j]));
        }
    }
    assert(entries_sorted(t, y)) by {
        assert forall|i: int, j: int| 0 <= i < j < y.len() implies key_order(
            content_key(t, (#[trigger] y[i]).0),
            content_key(t, (#[trigger] y[j]).0),
        ) <= 0 by {
            assert(y[i] == entry(s2[i]) && y[j] == entry(s2[j]));
        }
    }
    assert forall|i: int| 0 <= i < x.len() implies monomial_wf((#[trigger] x[i]).0) && atoms_below(
        x[i].0,
        t.len() as int,
    ) by {
        assert(x[i] == entry(s1[i]));
    }
    lemma_entries_sorted_unique(t, x, y);
    let es1 = s1.map_values(|z: Term| term_expr(z.coeff@, content_key(t, z.generators@)));
    let es2 = s2.map_values(|z: Term| term_expr(z.coeff@, content_key(t, z.generators@)));
    assert(s1.len() == x.len() && s2.len() == y.len());
    assert forall|i: int| 0 <= i < es1.len() implies es1[i] == es2[i] by {
        assert(x[i] == entry(s1[i]) && y[i] == entry(s2[i]));
    }
    assert(es1 =~= es2);
}

/// Each term as its generators' expressions, in order, with its
/// coefficient: the term as the canonical order sees it.
pub open spec fn keyed_terms(t: Seq<AtomKeyV>, s: Seq<Term>) -> Seq<(Seq<(ExprV, u32)>, (int, int))> {
    s.map_values(|x: Term| (content_key(t, x.generators@), x.coeff@))
}

/// Two lists of keyed terms, each in ascending order of keys with no key
/// twice, holding the same keyed terms, are the same list.
proof fn lemma_keyed_sorted_unique(
    x: Seq<(Seq<(ExprV, u32)>, (int, int))>,
    y: Seq<(Seq<(ExprV, u32)>, (int, int))>,
)
    requires
        x.to_multiset() == y.to_multiset(),
        forall|i: int, j: int| 0 <= i < j < x.len() ==> key_order((#[trigger] x[i]).0, (#[trigger] x[j]).0) < 0,
        forall|i: int, j: int| 0 <= i < j < y.len() ==> key_order((#[trigger] y[i]).0, (#[trigger] y[j]).0) < 0,
    ensures
        x == y,
    decreases x.len(),
{
    broadcast use vstd::multiset::group_multiset_axioms;

    if x.len() == 0 || y.len() == 0 {
        if x.len() > 0 {
            vstd::seq_lib::to_multiset_contains(x, x[0]);
            vstd::seq_lib::to_multiset_contains(y, x[0]);
        }
        if y.len() > 0 {
            vstd::seq_lib::to_multiset_contains(y, y[0]);
            vstd::seq_lib::to_multiset_contains(x, y[0]);
        }
        assert(x =~= y);
    } else {
        vstd::seq_lib::to_multiset_contains(x, x[0]);
        vstd::seq_lib::to_multiset_contains(y, x[0]);
        vstd::seq_lib::to_multiset_contains(y, y[0]);
        vstd::seq_lib::to_multiset_contains(x, y[0]);
        let i = choose|i: int| 0 <= i < x.len() && x[i] == y[0];
        let j = choose|j: int| 0 <= j < y.len() && y[j] == x[0];
        if i > 0 {
            if j > 0 {
                assert(key_order(x[0].0, x[i].0) < 0);
                assert(key_order(y[0].0, y[j].0) < 0);
                lemma_key_order(x[0].0, y[0].0, x[0].0);
                lemma_key_order(y[0].0, x[0].0, y[0].0);
                assert(false);
            } else {
                assert(x[0] == y[0]);
            }
        }
        assert(x[0] == y[0]);
        vstd::seq_lib::to_multiset_remove(x, 0);
        vstd::seq_lib::to_multiset_remove(y, 0);
        assert(x.remove(0) =~= x.drop_first());
        assert(y.remove(0) =~= y.drop_first());
        let rx = x.drop_first();
        let ry = y.drop_first();
        assert forall|a: int, b: int| 0 <= a < b < rx.len() implies key_order(
            (#[trigger] rx[a]).0,
            (#[trigger] rx[b]).0,
        ) < 0 by {
            assert(rx[a] == x[a + 1] && rx[b] == x[b + 1]);
        }
        assert forall|a: int, b: int| 0 <= a < b < ry.len() implies key_order(
            (#[trigger] ry[a]).0,
            (#[trigger] ry[b]).0,
        ) < 0 by {
            assert(ry[a] == y[a + 1] && ry[b] == y[b + 1]);
        }
        lemma_keyed_sorted_unique(rx, ry);
        assert(x =~= seq![x[0]] + rx);
        assert(y =~= seq![y[0]] + ry);
    }
}

/// The canonical order does not depend on the order in which the
/// generators were interned: two polynomials, each over its own table in
/// which no generator is interned twice, whose terms are the same once
/// each generator is read as the expression it stands for, list them in
/// the same order.
pub proof fn lemma_canonical_order_independent(
    t1: Seq<AtomKeyV>,
    s1: Seq<Term>,
    t2: Seq<AtomKeyV>,
    s2: Seq<Term>,
)
    requires
        crate::atoms::distinct_keys(t1),
        crate::atoms::distinct_keys(t2),
        crate::poly::distinct_monomials(entries(s1)),
        crate::poly::distinct_monomials(entries(s2)),
        forall|i: int|
            0 <= i < s1.len() ==> monomial_wf((#[trigger] s1[i]).generators@) && atoms_below(
                s1[i].generators@,
                t1.len() as int,
            ),
        forall|i: int|
            0 <= i < s2.len() ==> monomial_wf((#[trigger] s2[i]).generators@) && atoms_below(
                s2[i].generators@,
                t2.len() as int,
            ),
        terms_sorted(t1, s1),
        terms_sorted(t2, s2),
        keyed_terms(t1, s1).to_multiset() == keyed_terms(t2, s2).to_multiset(),
    ensures
        keyed_terms(t1, s1) == keyed_terms(t2, s2),
{
    let x = keyed_terms(t1, s1);
    let y = keyed_terms(t2, s2);
    assert forall|i: int, j: int| 0 <= i < j < x.len() implies key_order(
        (#[trigger] x[i]).0,
        (#[trigger] x[j]).0,
    ) < 0 by {
        assert(x[i].0 == content_key(t1, s1[i].generators@));
        assert(x[j].0 == content_key(t1, s1[j].generators@));
        assert(entries(s1)[i] == crate::poly::entry(s1[i]));
        assert(entries(s1)[j] == crate::poly::entry(s1[j]));
        if key_order(x[i].0, x[j].0) == 0 {
            lemma_key_order(x[i].0, x[j].0, x[i].0);
            lemma_content_key_injective(t1, s1[i].generators@, s1[j].generators@);
        }
    }
    assert forall|i: int, j: int| 0 <= i < j < y.len() implies key_order(
        (#[trigger] y[i]).0,
        (#[trigger] y[j]).0,
    ) < 0 by {
        assert(y[i].0 == content_key(t2, s2[i].generators@));
        assert(y[j].0 == content_key(t2, s2[j].generators@));
        assert(entries(s2)[i] == crate::poly::entry(s2[i]));
        assert(entries(s2)[j] == crate::poly::entry(s2[j]));
        if key_order(y[i].0, y[j].0) == 0 {
            lemma_key_order(y[i].0, y[j].0, y[i].0);
            lemma_content_key_injective(t2, s2[i].generators@, s2[j].generators@);
        }
    }
    lemma_keyed_sorted_unique(x, y);
}

/// The expression of a polynomial given its terms in canonical order: `0`
/// when there is none, the term's own expression when there is one, a
/// sum otherwise.
pub open spec fn poly_expr(t: Seq<AtomKeyV>, s: Seq<Term>) -> ExprV {
    let es = s.map_values(|x: Term| term_expr(x.coeff@, content_key(t, x.generators@)));
    if es.len() == 0 {
        ExprV::Rational(0, 1)
    } else if es.len() == 1 {
        es[0]
    } else {
        ExprV::Add(es)
    }
}

/// The expression of a polynomial: its terms in canonical order (see
/// [`Poly::sorted_terms`]), each as [`term_to_expr`] gives it.
pub fn poly_to_expr(p: &Poly, table: &AtomTable) -> (r: Expr)
    requires
        table.wf(),
        poly_atoms_below(p@, table@.len() as int),
    ensures
        exists|s: Seq<Term>|
            entries(s).to_multiset() == entries(p.terms_spec()).to_multiset() && terms_sorted(
                table@,
                s,
            ) && r@ == poly_expr(table@, s),
        forall|s: Seq<Term>|
            entries(s).to_multiset() == entries(p.terms_spec()).to_multiset() && terms_sorted(
                table@,
                s,
            ) ==> r@ == #[trigger] poly_expr(table@, s),
{
    let terms = p.sorted_terms(table);
    let ghost s = terms@;
    let ts = p.terms();
    proof {
        lemma_distinct_rearranged(entries(ts@), entries(s));
        assert forall|s2: Seq<Term>|
            entries(s2).to_multiset() == entries(p.terms_spec()).to_multiset() && terms_sorted(
                table@,
                s2,
            ) implies poly_expr(table@, s) == #[trigger] poly_expr(table@, s2) by {
            lemma_poly_expr_determined(table@, s, s2);
        }
    }
    if terms.len() == 0 {
        let r = Expr::zero();
        assert(r@ == poly_expr(table@, s));
        return r;
    }
    let mut exprs: Vec<Expr> = Vec::new();
    let ghost es = s.map_values(|x: Term| term_expr(x.coeff@, content_key(table@, x.generators@)));
    let mut i: usize = 0;
    while i < terms.len()
        invariant
            i <= terms@.len(),
            s == terms@,
            es == s.map_values(|x: Term| term_expr(x.coeff@, content_key(table@, x.generators@))),
            forall|j: int| 0 <= j < s.len() ==> monomial_wf((#[trigger] s[j]).generators@),
            forall|j: int| 0 <= j < s.len() ==> atoms_below((#[trigger] s[j]).generators@, table@.len() as int),
            exprs@.len() == i,
            forall|j: int| 0 <= j < i ==> (#[trigger] exprs@[j])@ == es[j],
        decreases terms@.len() - i,
    {
        let e = term_to_expr(&terms[i], table);
        exprs.push(e);
        i += 1;
    }
    proof {
        lemma_exprs_view(exprs@);
        assert(exprs_view(exprs@) =~= es);
    }
    if exprs.len() == 1 {
        let e = exprs.remove(0);
        assert(e@ == poly_expr(table@, s));
        e
    } else {
        let r = Expr::Add(exprs);
        assert(r@ == poly_expr(table@, s));
        r
    }
}

/// A quotient of two polynomials over one table of generators.
pub struct RationalFunction {
    pub num: Poly,
    pub den: Poly,
}

impl RationalFunction {
    /// `p / 1`.
    pub fn from_poly(p: Poly) -> (r: RationalFunction)
        ensures
            r.num == p,
            r.num@ == p@,
            r.den@ == map![Seq::<(crate::poly::AtomId, u32)>::empty() => (1int, 1int)],
    {
        let den = Poly::constant(BigScalar::one());
        proof {
            crate::rational::lemma_integer_canonical(1);
        }
        let ts = den.terms();
        proof {
            crate::poly::lemma_terms_model(ts@);
            let one = map![Seq::<(crate::poly::AtomId, u32)>::empty() => (1int, 1int)];
            assert forall|m: Monomial| #[trigger] crate::poly::coef_at(den@, m) == crate::poly::coef_at(
                one,
                m,
            ) by {
                if m.len() == 0 {
                    assert(m =~= Seq::<(crate::poly::AtomId, u32)>::empty());
                }
            }
            crate::poly::lemma_map_by_coefs(den@, one);
        }
        RationalFunction { num: p, den }
    }
}

/// The expression of `num / den` given the expressions of its numerator
/// and denominator: the numerator alone over `1`; otherwise the
/// numerator times the denominator to the power `-1` (a division by `0`
/// kept as `0^-1`), the factor `1` left out.
pub open spec fn quotient_expr(n: ExprV, den: Map<Monomial, (int, int)>, d: ExprV) -> ExprV {
    if den == Map::<Monomial, (int, int)>::empty() {
        let z = ExprV::Pow(Box::new(ExprV::Rational(0, 1)), -1);
        if n == ExprV::Rational(1, 1) {
            z
        } else {
            ExprV::Mul(seq![n, z])
        }
    } else if den == map![Seq::<(crate::poly::AtomId, u32)>::empty() => (1int, 1int)] {
        n
    } else {
        let p = ExprV::Pow(Box::new(d), -1);
        if n == ExprV::Rational(1, 1) {
            p
        } else {
            ExprV::Mul(seq![n, p])
        }
    }
}

/// The expression of a quotient of polynomials (see [`quotient_expr`]),
/// numerator and denominator each in canonical order.
pub fn rational_to_expr(rf: &RationalFunction, table: &AtomTable) -> (r: Expr)
    requires
        table.wf(),
        poly_atoms_below(rf.num@, table@.len() as int),
        poly_atoms_below(rf.den@, table@.len() as int),
    ensures
        forall|sn: Seq<Term>, sd: Seq<Term>|
            entries(sn).to_multiset() == entries(rf.num.terms_spec()).to_multiset() && terms_sorted(
                table@,
                sn,
            ) && entries(sd).to_multiset() == entries(rf.den.terms_spec()).to_multiset()
                && terms_sorted(table@, sd) ==> r@ == quotient_expr(
                #[trigger] poly_expr(table@, sn),
                rf.den@,
                #[trigger] poly_expr(table@, sd),
            ),
        exists|sn: Seq<Term>, sd: Seq<Term>|
            entries(sn).to_multiset() == entries(rf.num.terms_spec()).to_multiset() && terms_sorted(
                table@,
                sn,
            ) && terms_sorted(table@, sd) && r@ == quotient_expr(
                #[trigger] poly_expr(table@, sn),
                rf.den@,
                #[trigger] poly_expr(table@, sd),
            ),
{
    let num = poly_to_expr(&rf.num, table);
    let ghost sn = choose|sn: Seq<Term>|
        entries(sn).to_multiset() == entries(rf.num.terms_spec()).to_multiset() && terms_sorted(
            table@,
            sn,
        ) && num@ == poly_expr(table@, sn);
    let ghost sd0 = Seq::<Term>::empty();
    let one = Expr::one();
    if rf.den.is_zero() {
        let zero_pow = Expr::Pow(Box::new(Expr::zero()), -1);
        if expr_equal(&num, &one) {
            assert(zero_pow@ == quotient_expr(poly_expr(table@, sn), rf.den@, poly_expr(table@, sd0)));
            return zero_pow;
        } else {
            let r = num * zero_pow;
            assert(r@ == quotient_expr(poly_expr(table@, sn), rf.den@, poly_expr(table@, sd0)));
            return r;
        }
    }
    if rf.den.is_literal_one() {
        assert(num@ == quotient_expr(poly_expr(table@, sn), rf.den@, poly_expr(table@, sd0)));
        num
    } else {
        let den = poly_to_expr(&rf.den, table);
        let ghost sd = choose|sd: Seq<Term>|
            entries(sd).to_multiset() == entries(rf.den.terms_spec()).to_multiset() && terms_sorted(
                table@,
                sd,
            ) && den@ == poly_expr(table@, sd);
        let den_pow = Expr::Pow(Box::new(den), -1);
        if expr_equal(&num, &one) {
            assert(den_pow@ == quotient_expr(poly_expr(table@, sn), rf.den@, poly_expr(table@, sd)));
            den_pow
        } else {
            let r = num * den_pow;
            assert(r@ == quotient_expr(poly_expr(table@, sn), rf.den@, poly_expr(table@, sd)));
            r
        }
    }
}

/// `x` is the expression of a quotient of polynomials as
/// [`rational_to_expr`] writes one: numerator and denominator each a
/// sum of terms in canonical order over some table of generators.
pub open spec fn is_normal_form(x: ExprV) -> bool {
    exists|t: Seq<AtomKeyV>, sn: Seq<Term>, sd: Seq<Term>, den: Map<Monomial, (int, int)>|
        terms_sorted(t, sn) && terms_sorted(t, sd) && x == #[trigger] quotient_expr(
            poly_expr(t, sn),
            den,
            poly_expr(t, sd),
        )
}

/// A constant polynomial is written as its number: `0` where it has no
/// term.
pub proof fn lemma_constant_expr(t: Seq<AtomKeyV>, sn: Seq<Term>, c: (int, int))
    requires
        entries(sn).to_multiset() == crate::poly::constant_terms(c).to_multiset(),
    ensures
        poly_expr(t, sn) == (if c.0 == 0 {
            ExprV::Rational(0, 1)
        } else {
            ExprV::Rational(c.0, c.1)
        }),
{
    broadcast use vstd::multiset::group_multiset_axioms, vstd::seq_lib::to_multiset_contains, vstd::seq_lib::to_multiset_len;
    lemma_entries_len(sn);
    let cs = crate::poly::constant_terms(c);
    assert(cs.to_multiset().len() == cs.len());
    if c.0 == 0 {
        assert(sn.len() == 0);
    } else {
        let m = Seq::<(crate::poly::AtomId, u32)>::empty();
        let x = (m, c);
        assert(cs == seq![x]);
        assert(entries(sn).len() == 1);
        assert(seq![x].to_multiset().count(entries(sn)[0]) > 0) by {
            assert(entries(sn).contains(entries(sn)[0]));
        }
        assert(seq![x].contains(entries(sn)[0]));
        assert(entry(sn[0]) == x);
        let k = Seq::<(ExprV, u32)>::empty();
        assert(gen_pairs(t, m) =~= k);
        lemma_content_key(t, m, k);
        assert(sn[0].generators@ == m);
        let es = sn.map_values(|x: Term| term_expr(x.coeff@, content_key(t, x.generators@)));
        assert(es[0] == term_expr(c, k));
        let fs = seq![ExprV::Rational(c.0, c.1)] + k.map_values(
            |p: (ExprV, u32)|
                if p.1 == 1 {
                    p.0
                } else {
                    ExprV::Pow(Box::new(p.0), p.1 as int)
                },
        );
        assert(fs =~= seq![ExprV::Rational(c.0, c.1)]);
    }
}

/// A polynomial whose one term is the generator `id` to the first power
/// is written as that generator's expression.
pub proof fn lemma_single_generator_expr(t: Seq<AtomKeyV>, sn: Seq<Term>, id: u32)
    requires
        id < t.len(),
        entries(sn).to_multiset() == seq![(seq![(crate::poly::AtomId(id), 1u32)], (1int, 1int))].to_multiset(),
    ensures
        poly_expr(t, sn) == atom_expr(t[id as int]),
{
    let m = seq![(crate::poly::AtomId(id), 1u32)];
    let x = (m, (1int, 1int));
    lemma_entries_len(sn);
    broadcast use vstd::multiset::group_multiset_axioms, vstd::seq_lib::to_multiset_contains, vstd::seq_lib::to_multiset_len;
    assert(seq![x].to_multiset().len() == 1);
    assert(entries(sn).len() == 1);
    assert(seq![x].to_multiset().count(entries(sn)[0]) > 0) by {
        assert(entries(sn).contains(entries(sn)[0]));
    }
    assert(seq![x].contains(entries(sn)[0]));
    assert(entry(sn[0]) == x);
    let k = seq![(atom_expr(t[id as int]), 1u32)];
    assert(gen_pairs(t, m) =~= k);
    assert(sorted_pairs(k));
    lemma_content_key(t, m, k);
    assert(sn[0].generators@ == m);
    let es = sn.map_values(|x: Term| term_expr(x.coeff@, content_key(t, x.generators@)));
    assert(es[0] == term_expr((1int, 1int), k));
    let fs = Seq::<ExprV>::empty() + k.map_values(
        |p: (ExprV, u32)|
            if p.1 == 1 {
                p.0
            } else {
                ExprV::Pow(Box::new(p.0), p.1 as int)
            },
    );
    assert(fs =~= seq![atom_expr(t[id as int])]);
}

} // verus!
