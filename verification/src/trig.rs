//! The identities `cos(x)^2 = 1 - sin(x)^2` and `cosh(x)^2 = 1 + sinh(x)^2`
//! kept as an invariant of products: whenever a product of two terms
//! raises a `cos` or `cosh` generator to a power of two or more, each pair
//! of factors is replaced by its identity, so that every `cos` and `cosh`
//! is left with degree at most one. The paired `sin` or `sinh` generator
//! is interned on first use.
use vstd::prelude::*;
use vstd::set_lib::{lemma_int_range, lemma_len_subset, lemma_map_size, set_int_range};
use crate::atoms::{AtomKey, AtomKeyV, AtomTable, clone_key, distinct_keys};
use crate::big_scalar::BigScalar;
use crate::expr::clone_expr;
use crate::poly::{
    AtomId, EXPONENT_SANITY_LIMIT, Monomial, Poly, Term, coef_at, is_mono_product,
    lemma_denominators, lemma_map_by_coefs, lemma_mono_exp_wf, lemma_mono_mul, lemma_qadd_zero,
    lemma_terms_model, mono_exp, mono_mul, mono_product, monomial_wf, poly_mul, poly_pow,
    product_fits, products_of, qadd, qmul, coeffs, entries, entry, lemma_coeffs_distinct,
    lemma_entries_len, lemma_coeffs_finite, lemma_coeffs_take, lemma_prefix_excludes_next,
    lemma_rat_add_same_value, lemma_rat_add_ac, lemma_rat_add_zero, lemma_same_value_chain,
    distinct_monomials, entries_wf, lemma_qmul_zero, row_step, row_sum, col_step, product_sum,
    lemma_row_step_commutative, lemma_col_step_commutative,
};
use crate::rational::{
    canon, canonical, lemma_canon, lemma_canon_exists, lemma_canon_same_value,
    lemma_integer_canonical, rat_add, rat_mul, same_value,
};

verus! {

/// Whether the generator `g` is a `cos` or `cosh` raised to at least the
/// second power.
pub open spec fn reducible(t: Seq<AtomKeyV>, g: (AtomId, u32)) -> bool {
    &&& g.1 >= 2
    &&& g.0.0 < t.len()
    &&& (t[g.0.0 as int] is Cos || t[g.0.0 as int] is Cosh)
}

/// The key of the `sin` paired with a `cos`, or of the `sinh` paired with
/// a `cosh`.
pub open spec fn partner_key(k: AtomKeyV) -> AtomKeyV {
    match k {
        AtomKeyV::Cos(x) => AtomKeyV::Sin(x),
        AtomKeyV::Cosh(x) => AtomKeyV::Sinh(x),
        _ => k,
    }
}

/// The generator paired with `id` is interned in `t`.
pub open spec fn has_partner(t: Seq<AtomKeyV>, id: AtomId) -> bool {
    exists|j: int| 0 <= j < t.len() && j <= u32::MAX && #[trigger] t[j] == partner_key(t[id.0 as int])
}

/// The generator paired with `id`.
pub open spec fn partner(t: Seq<AtomKeyV>, id: AtomId) -> AtomId {
    AtomId(
        (choose|j: int| 0 <= j < t.len() && j <= u32::MAX && #[trigger] t[j] == partner_key(t[id.0 as int])) as u32,
    )
}

/// Where no key occurs twice, the paired generator is the one holding its
/// key.
proof fn lemma_partner_is(t: Seq<AtomKeyV>, id: AtomId, j: u32)
    requires
        distinct_keys(t),
        j < t.len(),
        t[j as int] == partner_key(t[id.0 as int]),
    ensures
        has_partner(t, id),
        partner(t, id) == AtomId(j),
{
    assert(t[j as int] == partner_key(t[id.0 as int]));
    let p = partner(t, id).0;
    assert(p < t.len() && t[p as int] == partner_key(t[id.0 as int]));
    if p != j {
        if p < j {
            assert(t[p as int] != t[j as int]);
        } else {
            assert(t[j as int] != t[p as int]);
        }
    }
}

/// Interning more generators keeps each generator's partner.
proof fn lemma_partner_kept(t1: Seq<AtomKeyV>, t2: Seq<AtomKeyV>, id: AtomId)
    requires
        distinct_keys(t2),
        t1.len() <= t2.len(),
        t2.subrange(0, t1.len() as int) == t1,
        id.0 < t1.len(),
        has_partner(t1, id),
    ensures
        has_partner(t2, id),
        partner(t2, id) == partner(t1, id),
{
    let p = partner(t1, id).0;
    assert(t2[p as int] == t1[p as int]);
    assert(t2[id.0 as int] == t1[id.0 as int]);
    lemma_partner_is(t2, id, p);
}

/// Every generator of `t` beyond the first `t0.len()` is the partner of a
/// `cos` or `cosh` generator of `t0`, which `t` extends.
pub open spec fn partners_only(t0: Seq<AtomKeyV>, t: Seq<AtomKeyV>) -> bool {
    &&& t0.len() <= t.len()
    &&& t.subrange(0, t0.len() as int) == t0
    &&& forall|j: int|
        t0.len() <= j < t.len() ==> exists|i: int|
            0 <= i < t0.len() && (t0[i] is Cos || t0[i] is Cosh) && #[trigger] t[j]
                == partner_key(t0[i])
}

/// A table that only adds partners to `t0` is at most twice as long.
proof fn lemma_partners_only_len(t0: Seq<AtomKeyV>, t: Seq<AtomKeyV>)
    requires
        distinct_keys(t),
        partners_only(t0, t),
    ensures
        t.len() <= 2 * t0.len(),
{
    let n0 = t0.len() as int;
    let n = t.len() as int;
    let f = |j: int|
        choose|i: int| 0 <= i < n0 && (t0[i] is Cos || t0[i] is Cosh) && t[j] == partner_key(t0[i]);
    let s = set_int_range(n0, n);
    lemma_int_range(n0, n);
    lemma_int_range(0, n0);
    assert forall|j1: int, j2: int| s.contains(j1) && s.contains(j2) && #[trigger] f(j1) == #[trigger] f(
        j2,
    ) implies j1 == j2 by {
        assert(t[j1] == partner_key(t0[f(j1)]));
        assert(t[j2] == partner_key(t0[f(j2)]));
        if j1 < j2 {
            assert(t[j1] != t[j2]);
        } else if j2 < j1 {
            assert(t[j2] != t[j1]);
        }
    }
    assert(vstd::relations::injective_on(f, s));
    let y = s.map(f);
    lemma_map_size(s, y, f);
    assert(y.subset_of(set_int_range(0, n0))) by {
        assert forall|i: int| y.contains(i) implies set_int_range(0, n0).contains(i) by {
            let j = choose|j: int| s.contains(j) && f(j) == i;
            assert(t[j] == t[j]);
        }
    }
    lemma_len_subset(y, set_int_range(0, n0));
}

/// Adding only partners is transitive when the partners themselves are
/// neither `cos` nor `cosh`.
proof fn lemma_partners_only_trans(t0: Seq<AtomKeyV>, t1: Seq<AtomKeyV>, t2: Seq<AtomKeyV>)
    requires
        partners_only(t0, t1),
        partners_only(t1, t2),
    ensures
        partners_only(t0, t2),
{
    assert(t2.subrange(0, t0.len() as int) =~= t0) by {
        assert forall|k: int| 0 <= k < t0.len() implies t2[k] == t0[k] by {
            assert(t2[k] == t2.subrange(0, t1.len() as int)[k]);
            assert(t1[k] == t1.subrange(0, t0.len() as int)[k]);
        }
    }
    assert forall|j: int| t0.len() <= j < t2.len() implies exists|i: int|
        0 <= i < t0.len() && (t0[i] is Cos || t0[i] is Cosh) && #[trigger] t2[j] == partner_key(
            t0[i],
        ) by {
        if j < t1.len() {
            assert(t2[j] == t2.subrange(0, t1.len() as int)[j]);
            assert(t2[j] == t1[j]);
        } else {
            let i1 = choose|i: int|
                0 <= i < t1.len() && (t1[i] is Cos || t1[i] is Cosh) && t2[j] == partner_key(t1[i]);
            if i1 >= t0.len() {
                let i0 = choose|i: int|
                    0 <= i < t0.len() && (t0[i] is Cos || t0[i] is Cosh) && t1[i1] == partner_key(
                        t0[i],
                    );
                assert(false);
            }
            assert(t1[i1] == t1.subrange(0, t0.len() as int)[i1]);
        }
    }
}

/// The constant polynomial `1`.
pub open spec fn unit_poly() -> Map<Monomial, (int, int)> {
    map![Seq::<(AtomId, u32)>::empty() => (1int, 1int)]
}

/// `1 - s^2` for a `cos` generator `id`, `1 + s^2` for a `cosh`, `s` the
/// generator paired with it.
pub open spec fn identity_base(t: Seq<AtomKeyV>, id: AtomId) -> Map<Monomial, (int, int)> {
    map![
        Seq::<(AtomId, u32)>::empty() => (1int, 1int),
        seq![(partner(t, id), 2u32)] => (if t[id.0 as int] is Cos { -1int } else { 1int }, 1int)
    ]
}

/// What the generator `g` of a product becomes: itself; or, where it is
/// reducible, `cos` (or `cosh`) to the parity of its exponent times its
/// identity raised to half the exponent.
pub open spec fn factor(t: Seq<AtomKeyV>, g: (AtomId, u32)) -> Map<Monomial, (int, int)> {
    if reducible(t, g) {
        let p = poly_pow(identity_base(t, g.0), (g.1 / 2) as nat);
        if g.1 % 2 == 1 {
            poly_mul(map![seq![(g.0, 1u32)] => (1int, 1int)], p)
        } else {
            p
        }
    } else {
        map![seq![g] => (1int, 1int)]
    }
}

/// The monomial `m` with every reducible generator replaced through its
/// identity: the product of the factors of its generators.
pub open spec fn expansion(t: Seq<AtomKeyV>, m: Monomial) -> Map<Monomial, (int, int)>
    decreases m.len(),
{
    if m.len() == 0 {
        unit_poly()
    } else {
        poly_mul(expansion(t, m.drop_last()), factor(t, m.last()))
    }
}

/// The highest exponent of generator `id` in the factor of `g`.
pub open spec fn share(t: Seq<AtomKeyV>, g: (AtomId, u32), id: u32) -> int {
    if reducible(t, g) {
        (if g.0.0 == id {
            (g.1 % 2) as int
        } else {
            0int
        }) + (if partner(t, g.0).0 == id {
            2 * (g.1 / 2) as int
        } else {
            0int
        })
    } else if g.0.0 == id {
        g.1 as int
    } else {
        0int
    }
}

/// The highest exponent of generator `id` in the expansion of `m`.
pub open spec fn share_sum(t: Seq<AtomKeyV>, m: Monomial, id: u32) -> int
    decreases m.len(),
{
    if m.len() == 0 {
        0
    } else {
        share_sum(t, m.drop_last(), id) + share(t, m.last(), id)
    }
}

/// Each generator paired with a reducible generator of `m`, where it is
/// interned already, keeps its exponent in `m` plus the one its identity
/// adds within the sanity limit.
pub open spec fn reduce_fits(t: Seq<AtomKeyV>, m: Monomial) -> bool {
    forall|i: int|
        0 <= i < m.len() && reducible(t, #[trigger] m[i]) && has_partner(t, m[i].0) ==> mono_exp(
            m,
            partner(t, m[i].0).0,
        ) + 2 * (m[i].1 / 2) as int <= EXPONENT_SANITY_LIMIT
}

/// No monomial of `p` holds a `cos` or `cosh` generator of `t` to a
/// power above the first.
pub open spec fn trig_reduced(t: Seq<AtomKeyV>, p: Map<Monomial, (int, int)>) -> bool {
    forall|x: Monomial, id: u32|
        #[trigger] p.dom().contains(x) && id < t.len() && (t[id as int] is Cos || t[id as int] is Cosh)
            ==> #[trigger] mono_exp(x, id) <= 1
}

/// Every reducible generator of `m` has its partner interned.
pub open spec fn partners_present(t: Seq<AtomKeyV>, m: Monomial) -> bool {
    forall|i: int| 0 <= i < m.len() && reducible(t, #[trigger] m[i]) ==> has_partner(t, m[i].0)
}

/// Every generator of `m` is interned in `t`.
pub open spec fn gens_below(t: Seq<AtomKeyV>, m: Monomial) -> bool {
    forall|i: int| 0 <= i < m.len() ==> (#[trigger] m[i]).0.0 < t.len()
}

/// The partner of a reducible generator is neither `cos` nor `cosh`, and
/// two reducible generators with one partner are the same.
proof fn lemma_partner_facts(t: Seq<AtomKeyV>, g1: (AtomId, u32), g2: (AtomId, u32))
    requires
        distinct_keys(t),
        reducible(t, g1),
        has_partner(t, g1.0),
    ensures
        partner(t, g1.0).0 < t.len(),
        !(t[partner(t, g1.0).0 as int] is Cos),
        !(t[partner(t, g1.0).0 as int] is Cosh),
        partner(t, g1.0) != g1.0,
        reducible(t, g2) && has_partner(t, g2.0) && partner(t, g2.0) == partner(t, g1.0) ==> g2.0
            == g1.0,
{
    let p = partner(t, g1.0).0;
    assert(p < t.len() && t[p as int] == partner_key(t[g1.0.0 as int]));
    if reducible(t, g2) && has_partner(t, g2.0) && partner(t, g2.0) == partner(t, g1.0) {
        assert(t[p as int] == partner_key(t[g2.0.0 as int]));
        assert(t[g1.0.0 as int] == t[g2.0.0 as int]);
        if g1.0.0 < g2.0.0 {
            assert(t[g1.0.0 as int] != t[g2.0.0 as int]);
        } else if g2.0.0 < g1.0.0 {
            assert(t[g2.0.0 as int] != t[g1.0.0 as int]);
        }
    }
}

/// Shares are never negative, so a prefix has no more
/// than the whole.
proof fn lemma_share_sum_prefix(t: Seq<AtomKeyV>, m: Monomial, i: int, id: u32)
    requires
        0 <= i <= m.len(),
    ensures
        0 <= share_sum(t, m.take(i), id) <= share_sum(t, m, id),
    decreases m.len(),
{
    if m.len() > 0 {
        if i == m.len() {
            assert(m.take(i) =~= m);
            lemma_share_sum_prefix(t, m.drop_last(), m.len() - 1, id);
            assert(m.drop_last().take(m.len() - 1) =~= m.drop_last());
        } else {
            lemma_share_sum_prefix(t, m.drop_last(), i, id);
            assert(m.drop_last().take(i) =~= m.take(i));
            lemma_share_sum_prefix(t, m.drop_last(), m.len() - 1, id);
            assert(m.drop_last().take(m.len() - 1) =~= m.drop_last());
        }
    }
}

/// The share of `id` coming from the generator `id` itself.
spec fn own_share(t: Seq<AtomKeyV>, m: Monomial, id: u32) -> int {
    if exists|i: int| 0 <= i < m.len() && (#[trigger] m[i]).0.0 == id {
        let i = choose|i: int| 0 <= i < m.len() && (#[trigger] m[i]).0.0 == id;
        if reducible(t, m[i]) {
            (m[i].1 % 2) as int
        } else {
            m[i].1 as int
        }
    } else {
        0
    }
}

/// The share of `id` coming from the identity of the reducible generator
/// it is paired with.
spec fn paired_share(t: Seq<AtomKeyV>, m: Monomial, id: u32) -> int {
    if exists|i: int| 0 <= i < m.len() && reducible(t, #[trigger] m[i]) && partner(t, m[i].0).0 == id {
        let i = choose|i: int|
            0 <= i < m.len() && reducible(t, #[trigger] m[i]) && partner(t, m[i].0).0 == id;
        2 * (m[i].1 / 2) as int
    } else {
        0
    }
}

/// The exponent of `id` in the expansion of `m` splits into its own share
/// and the one its identity adds.
proof fn lemma_share_split(t: Seq<AtomKeyV>, m: Monomial, id: u32)
    requires
        distinct_keys(t),
        monomial_wf(m),
        gens_below(t, m),
        partners_present(t, m),
    ensures
        share_sum(t, m, id) == own_share(t, m, id) + paired_share(t, m, id),
    decreases m.len(),
{
    if m.len() > 0 {
        let r = m.drop_last();
        let g = m.last();
        assert(monomial_wf(r)) by {
            assert forall|i: int, j: int| 0 <= i < j < r.len() implies (#[trigger] r[i]).0.0 < (
            #[trigger] r[j]).0.0 by {
                assert(r[i] == m[i] && r[j] == m[j]);
            }
            assert forall|i: int| 0 <= i < r.len() implies 1 <= (#[trigger] r[i]).1
                <= EXPONENT_SANITY_LIMIT by {
                assert(r[i] == m[i]);
            }
        }
        assert(gens_below(t, r)) by {
            assert forall|i: int| 0 <= i < r.len() implies (#[trigger] r[i]).0.0 < t.len() by {
                assert(r[i] == m[i]);
            }
        }
        assert(partners_present(t, r)) by {
            assert forall|i: int| 0 <= i < r.len() && reducible(t, #[trigger] r[i]) implies has_partner(
                t,
                r[i].0,
            ) by {
                assert(r[i] == m[i]);
            }
        }
        lemma_share_split(t, r, id);
        let last = m.len() - 1;
        assert(m[last] == g);
        // The generator's own share.
        if g.0.0 == id {
            assert(own_share(t, m, id) == if reducible(t, g) {
                (g.1 % 2) as int
            } else {
                g.1 as int
            }) by {
                let i = choose|i: int| 0 <= i < m.len() && (#[trigger] m[i]).0.0 == id;
                if i != last {
                    assert(m[i].0.0 < m[last].0.0);
                }
            }
            assert(own_share(t, r, id) == 0) by {
                if exists|i: int| 0 <= i < r.len() && (#[trigger] r[i]).0.0 == id {
                    let i = choose|i: int| 0 <= i < r.len() && (#[trigger] r[i]).0.0 == id;
                    assert(r[i] == m[i]);
                    assert(m[i].0.0 < m[last].0.0);
                }
            }
        } else {
            assert(own_share(t, m, id) == own_share(t, r, id)) by {
                if exists|i: int| 0 <= i < m.len() && (#[trigger] m[i]).0.0 == id {
                    let i = choose|i: int| 0 <= i < m.len() && (#[trigger] m[i]).0.0 == id;
                    assert(i != last);
                    assert(r[i] == m[i]);
                    let i2 = choose|i: int| 0 <= i < r.len() && (#[trigger] r[i]).0.0 == id;
                    assert(r[i2] == m[i2]);
                    if i2 != i {
                        if i2 < i {
                            assert(m[i2].0.0 < m[i].0.0);
                        } else {
                            assert(m[i].0.0 < m[i2].0.0);
                        }
                    }
                } else {
                    if exists|i: int| 0 <= i < r.len() && (#[trigger] r[i]).0.0 == id {
                        let i = choose|i: int| 0 <= i < r.len() && (#[trigger] r[i]).0.0 == id;
                        assert(r[i] == m[i]);
                    }
                }
            }
        }
        // The share its identity adds.
        if reducible(t, g) && partner(t, g.0).0 == id {
            assert(has_partner(t, g.0));
            assert(paired_share(t, m, id) == 2 * (g.1 / 2) as int) by {
                let i = choose|i: int|
                    0 <= i < m.len() && reducible(t, #[trigger] m[i]) && partner(t, m[i].0).0 == id;
                assert(has_partner(t, m[i].0));
                lemma_partner_facts(t, g, m[i]);
                if i != last {
                    assert(m[i].0.0 < m[last].0.0);
                }
            }
            assert(paired_share(t, r, id) == 0) by {
                if exists|i: int|
                    0 <= i < r.len() && reducible(t, #[trigger] r[i]) && partner(t, r[i].0).0 == id {
                    let i = choose|i: int|
                        0 <= i < r.len() && reducible(t, #[trigger] r[i]) && partner(t, r[i].0).0
                            == id;
                    assert(r[i] == m[i]);
                    assert(has_partner(t, m[i].0));
                    lemma_partner_facts(t, g, m[i]);
                    assert(m[i].0.0 < m[last].0.0);
                }
            }
        } else {
            assert(paired_share(t, m, id) == paired_share(t, r, id)) by {
                if exists|i: int|
                    0 <= i < m.len() && reducible(t, #[trigger] m[i]) && partner(t, m[i].0).0 == id {
                    let i = choose|i: int|
                        0 <= i < m.len() && reducible(t, #[trigger] m[i]) && partner(t, m[i].0).0
                            == id;
                    assert(i != last);
                    assert(r[i] == m[i]);
                    let i2 = choose|i: int|
                        0 <= i < r.len() && reducible(t, #[trigger] r[i]) && partner(t, r[i].0).0
                            == id;
                    assert(r[i2] == m[i2]);
                    assert(has_partner(t, m[i].0));
                    assert(has_partner(t, m[i2].0));
                    lemma_partner_facts(t, m[i], m[i2]);
                    if i2 != i {
                        if i2 < i {
                            assert(m[i2].0.0 < m[i].0.0);
                        } else {
                            assert(m[i].0.0 < m[i2].0.0);
                        }
                    }
                } else {
                    if exists|i: int|
                        0 <= i < r.len() && reducible(t, #[trigger] r[i]) && partner(t, r[i].0).0
                            == id {
                        let i = choose|i: int|
                            0 <= i < r.len() && reducible(t, #[trigger] r[i]) && partner(t, r[i].0).0
                                == id;
                        assert(r[i] == m[i]);
                    }
                }
            }
        }
    } else {
        assert(!exists|i: int| 0 <= i < m.len() && (#[trigger] m[i]).0.0 == id);
    }
}

/// Where the identities keep every exponent within the limit, so does
/// every prefix of the expansion.
proof fn lemma_share_sum_bound(t: Seq<AtomKeyV>, m: Monomial, i: int, id: u32)
    requires
        distinct_keys(t),
        monomial_wf(m),
        gens_below(t, m),
        partners_present(t, m),
        reduce_fits(t, m),
        0 <= i <= m.len(),
    ensures
        0 <= share_sum(t, m.take(i), id) <= EXPONENT_SANITY_LIMIT,
{
    lemma_share_sum_prefix(t, m, i, id);
    lemma_share_split(t, m, id);
    crate::poly::lemma_mono_exp_wf(m, id);
    if exists|p: int| 0 <= p < m.len() && reducible(t, #[trigger] m[p]) && partner(t, m[p].0).0 == id {
        let p = choose|p: int|
            0 <= p < m.len() && reducible(t, #[trigger] m[p]) && partner(t, m[p].0).0 == id;
        assert(has_partner(t, m[p].0));
        lemma_partner_facts(t, m[p], m[p]);
        if exists|q: int| 0 <= q < m.len() && (#[trigger] m[q]).0.0 == id {
            let q = choose|q: int| 0 <= q < m.len() && (#[trigger] m[q]).0.0 == id;
            assert(!reducible(t, m[q]));
            assert(mono_exp(m, id) == m[q].1);
        }
    } else {
        if exists|q: int| 0 <= q < m.len() && (#[trigger] m[q]).0.0 == id {
            let q = choose|q: int| 0 <= q < m.len() && (#[trigger] m[q]).0.0 == id;
            assert(1 <= m[q].1 <= EXPONENT_SANITY_LIMIT);
        }
    }
}

/// The model of a polynomial: finitely many well-formed monomials, each
/// with a nonzero coefficient in lowest terms.
fn model_facts(p: &Poly)
    ensures
        forall|m: Monomial| #[trigger] crate::rational::canonical(coef_at(p@, m)),
        forall|m: Monomial| #[trigger] p@.dom().contains(m) ==> p@[m].0 != 0 && monomial_wf(m),
        p@.dom().finite(),
{
    let ts = p.terms();
    proof {
        lemma_terms_model(ts@);
    }
}

/// The exponents of the empty monomial and of one generator alone.
proof fn lemma_exp_small(s: AtomId, e: u32)
    ensures
        forall|id: u32| #[trigger] mono_exp(Seq::<(AtomId, u32)>::empty(), id) == 0,
        forall|id: u32|
            #[trigger] mono_exp(seq![(s, e)], id) == if s.0 == id {
                e as int
            } else {
                0
            },
{
    assert forall|id: u32| #[trigger] mono_exp(seq![(s, e)], id) == if s.0 == id {
        e as int
    } else {
        0
    } by {
        assert(seq![(s, e)].drop_last() =~= Seq::<(AtomId, u32)>::empty());
        assert(mono_exp(Seq::<(AtomId, u32)>::empty(), id) == 0);
        assert(seq![(s, e)].last() == (s, e));
    }
}

/// The generator paired with `id`, already interned.
fn partner_in(table: &AtomTable, id: AtomId) -> (r: AtomId)
    requires
        table.wf(),
        id.0 < table@.len(),
        table@[id.0 as int] is Cos || table@[id.0 as int] is Cosh,
        has_partner(table@, id),
    ensures
        r == partner(table@, id),
        r.0 < table@.len(),
{
    let key = match table.key(id) {
        AtomKey::Cos(x) => AtomKey::Sin(clone_expr(x)),
        AtomKey::Cosh(x) => AtomKey::Sinh(clone_expr(x)),
        // Never taken: `id` is a `cos` or `cosh` generator.
        other => clone_key(other),
    };
    proof {
        assert(key@ == partner_key(table@[id.0 as int]));
    }
    match table.find(&key) {
        Some(j) => {
            proof {
                lemma_partner_is(table@, id, j.0);
            }
            j
        },
        // Never taken: the partner is interned.
        None => {
            proof {
                let j = choose|j: int|
                    0 <= j < table@.len() && j <= u32::MAX && #[trigger] table@[j] == partner_key(
                        table@[id.0 as int],
                    );
                assert(table@.contains(key@));
            }
            id
        },
    }
}

/// The polynomial `1`.
pub(crate) fn one_poly() -> (r: Poly)
    ensures
        r@ == unit_poly(),
{
    let r = Poly::constant(BigScalar::one());
    model_facts(&r);
    proof {
        assert forall|m: Monomial| #[trigger] coef_at(r@, m) == coef_at(unit_poly(), m) by {
            if m.len() == 0 {
                assert(m =~= Seq::<(AtomId, u32)>::empty());
            }
        }
        lemma_map_by_coefs(r@, unit_poly());
    }
    r
}

/// The identity of the `cos` or `cosh` generator `id` with partner `s`:
/// `1 - s^2` or `1 + s^2`.
fn identity_poly(table: &AtomTable, id: AtomId, s: AtomId) -> (r: Poly)
    requires
        table.wf(),
        id.0 < table@.len(),
        table@[id.0 as int] is Cos || table@[id.0 as int] is Cosh,
        has_partner(table@, id),
        s == partner(table@, id),
    ensures
        r@ == identity_base(table@, id),
{
    let sign = if table.is_cos(id) {
        BigScalar::from_i64(-1)
    } else {
        BigScalar::one()
    };
    let mut g: Vec<(AtomId, u32)> = Vec::new();
    g.push((s, 2));
    proof {
        lemma_integer_canonical(-1);
        lemma_integer_canonical(1);
        assert(g@ =~= seq![(s, 2u32)]);
    }
    let sq = Poly::single(sign, g);
    let one = one_poly();
    let r = one.add(&sq);
    model_facts(&r);
    proof {
        let ib = identity_base(table@, id);
        let e = Seq::<(AtomId, u32)>::empty();
        let q = seq![(s, 2u32)];
        lemma_integer_canonical(0);
        assert(e != q) by {
            assert(e.len() != q.len());
        }
        assert forall|m: Monomial| #[trigger] coef_at(r@, m) == coef_at(ib, m) by {
            assert(coef_at(r@, m) == qadd(coef_at(one@, m), coef_at(sq@, m)));
            if m == e {
                lemma_qadd_zero((1int, 1int));
            } else if m == q {
                lemma_qadd_zero(sign@);
            } else {
                lemma_qadd_zero((0int, 1int));
            }
        }
        lemma_map_by_coefs(r@, ib);
    }
    r
}

/// The factor of the generator `g` of a product (see [`factor`]).
fn factor_poly(table: &AtomTable, g: (AtomId, u32)) -> (r: Poly)
    requires
        table.wf(),
        g.0.0 < table@.len(),
        1 <= g.1 <= EXPONENT_SANITY_LIMIT,
        reducible(table@, g) ==> has_partner(table@, g.0),
    ensures
        r@ == factor(table@, g),
        forall|x: Monomial|
            #[trigger] r@.dom().contains(x) ==> monomial_wf(x) && forall|id: u32|
                #![trigger mono_exp(x, id)]
                mono_exp(x, id) <= share(table@, g, id),
{
    let (gid, e) = g;
    if e >= 2 && (table.is_cos(gid) || table.is_cosh(gid)) {
        proof {
            assert(reducible(table@, g));
        }
        let s = partner_in(table, gid);
        proof {
            lemma_partner_facts(table@, g, g);
            lemma_exp_small(s, 2);
        }
        let base = identity_poly(table, gid, s);
        let k = e / 2;
        let mut p = one_poly();
        let mut i: u32 = 0;
        proof {
            assert forall|x: Monomial| #[trigger] p@.dom().contains(x) implies monomial_wf(x)
                && mono_exp(x, s.0) <= 2 * i && forall|id: u32|
                #![trigger mono_exp(x, id)]
                id != s.0 ==> mono_exp(x, id) == 0 by {
                assert(x == Seq::<(AtomId, u32)>::empty());
            }
        }
        while i < k
            invariant
                i <= k,
                k == e / 2,
                e <= EXPONENT_SANITY_LIMIT,
                base@ == identity_base(table@, gid),
                s == partner(table@, gid),
                forall|id: u32|
                    #[trigger] mono_exp(seq![(s, 2u32)], id) == if s.0 == id {
                        2int
                    } else {
                        0
                    },
                forall|id: u32| #[trigger] mono_exp(Seq::<(AtomId, u32)>::empty(), id) == 0,
                p@ == poly_pow(base@, i as nat),
                forall|x: Monomial|
                    #[trigger] p@.dom().contains(x) ==> monomial_wf(x) && mono_exp(x, s.0) <= 2 * i
                        && forall|id: u32| #![trigger mono_exp(x, id)] id != s.0 ==> mono_exp(x, id) == 0,
            decreases k - i,
        {
            proof {
                assert forall|ma: Monomial, mb: Monomial|
                    #[trigger] p@.dom().contains(ma) && #[trigger] base@.dom().contains(
                        mb,
                    ) implies product_fits(ma, mb) by {
                    assert(mb == Seq::<(AtomId, u32)>::empty() || mb == seq![(s, 2u32)]);
                    assert forall|id: u32|
                        mono_exp(ma, id) + mono_exp(mb, id) <= EXPONENT_SANITY_LIMIT by {
                        assert(mono_exp(ma, id) <= 2 * i || id != s.0);
                    }
                }
            }
            let ghost before = p@;
            p = p.product(&base);
            proof {
                reveal(products_of);
                assert forall|x: Monomial| #[trigger] p@.dom().contains(x) implies monomial_wf(x)
                    && mono_exp(x, s.0) <= 2 * (i + 1) && forall|id: u32|
                    #![trigger mono_exp(x, id)]
                    id != s.0 ==> mono_exp(x, id) == 0 by {
                    let (ma, mb) = choose|ma: Monomial, mb: Monomial|
                        before.dom().contains(ma) && base@.dom().contains(mb) && is_mono_product(
                            ma,
                            mb,
                            x,
                        );
                    assert(mb == Seq::<(AtomId, u32)>::empty() || mb == seq![(s, 2u32)]);
                    assert(mono_exp(x, s.0) == mono_exp(ma, s.0) + mono_exp(mb, s.0));
                    assert forall|id: u32| id != s.0 implies #[trigger] mono_exp(x, id) == 0 by {
                        assert(mono_exp(x, id) == mono_exp(ma, id) + mono_exp(mb, id));
                    }
                }
            }
            i += 1;
        }
        if e % 2 == 1 {
            let mut v: Vec<(AtomId, u32)> = Vec::new();
            v.push((gid, 1));
            proof {
                lemma_integer_canonical(1);
                assert(v@ =~= seq![(gid, 1u32)]);
                lemma_exp_small(gid, 1);
            }
            let c = Poly::single(BigScalar::one(), v);
            proof {
                assert forall|ma: Monomial, mb: Monomial|
                    #[trigger] c@.dom().contains(ma) && #[trigger] p@.dom().contains(
                        mb,
                    ) implies product_fits(ma, mb) by {
                    assert(ma == seq![(gid, 1u32)]);
                    assert forall|id: u32|
                        mono_exp(ma, id) + mono_exp(mb, id) <= EXPONENT_SANITY_LIMIT by {
                        assert(mono_exp(mb, id) <= 2 * k || id != s.0);
                    }
                }
            }
            let r = c.product(&p);
            proof {
                reveal(products_of);
                assert forall|x: Monomial| #[trigger] r@.dom().contains(x) implies monomial_wf(x)
                    && forall|id: u32|
                    #![trigger mono_exp(x, id)]
                    mono_exp(x, id) <= share(table@, g, id) by {
                    let (ma, mb) = choose|ma: Monomial, mb: Monomial|
                        c@.dom().contains(ma) && p@.dom().contains(mb) && is_mono_product(ma, mb, x);
                    assert(ma == seq![(gid, 1u32)]);
                    assert forall|id: u32| #[trigger] mono_exp(x, id) <= share(table@, g, id) by {
                        assert(mono_exp(x, id) == mono_exp(ma, id) + mono_exp(mb, id));
                        assert(mono_exp(mb, id) <= 2 * k || id != s.0);
                    }
                }
            }
            r
        } else {
            proof {
                assert forall|x: Monomial| #[trigger] p@.dom().contains(x) implies monomial_wf(x)
                    && forall|id: u32|
                    #![trigger mono_exp(x, id)]
                    mono_exp(x, id) <= share(table@, g, id) by {
                    assert forall|id: u32| #[trigger] mono_exp(x, id) <= share(table@, g, id) by {
                        assert(mono_exp(x, id) <= 2 * k || id != s.0);
                    }
                }
            }
            p
        }
    } else {
        proof {
            assert(!reducible(table@, g));
        }
        let mut v: Vec<(AtomId, u32)> = Vec::new();
        v.push((gid, e));
        proof {
            lemma_integer_canonical(1);
            assert(v@ =~= seq![(gid, e)]);
            lemma_exp_small(gid, e);
        }
        let r = Poly::single(BigScalar::one(), v);
        proof {
            assert(seq![(gid, e)] == seq![g]);
        }
        r
    }
}

/// The expansion of the monomial `m` (see [`expansion`]).
fn expand(table: &AtomTable, m: &Vec<(AtomId, u32)>) -> (r: Poly)
    requires
        table.wf(),
        monomial_wf(m@),
        gens_below(table@, m@),
        partners_present(table@, m@),
        reduce_fits(table@, m@),
    ensures
        r@ == expansion(table@, m@),
        forall|x: Monomial|
            #[trigger] r@.dom().contains(x) ==> forall|id: u32|
                #![trigger mono_exp(x, id)]
                mono_exp(x, id) <= share_sum(table@, m@, id),
{
    let ghost t = table@;
    let mut acc = one_poly();
    let mut i: usize = 0;
    proof {
        assert(m@.take(0) =~= Seq::<(AtomId, u32)>::empty());
        lemma_exp_small(AtomId(0), 0);
    }
    while i < m.len()
        invariant
            i <= m@.len(),
            t == table@,
            table.wf(),
            monomial_wf(m@),
            gens_below(t, m@),
            partners_present(t, m@),
            reduce_fits(t, m@),
            acc@ == expansion(t, m@.take(i as int)),
            forall|x: Monomial|
                #[trigger] acc@.dom().contains(x) ==> monomial_wf(x) && forall|id: u32|
                    #![trigger mono_exp(x, id)]
                    mono_exp(x, id) <= share_sum(t, m@.take(i as int), id),
        decreases m@.len() - i,
    {
        let g = m[i];
        proof {
            assert(m@[i as int] == g);
            assert(g.0.0 < t.len());
            assert(1 <= g.1 <= EXPONENT_SANITY_LIMIT);
        }
        let f = factor_poly(table, g);
        let ghost pre = m@.take(i as int);
        let ghost post = m@.take(i + 1);
        proof {
            assert(post.drop_last() =~= pre);
            assert(post.last() == g);
            assert forall|ma: Monomial, mb: Monomial|
                #[trigger] acc@.dom().contains(ma) && #[trigger] f@.dom().contains(mb) implies product_fits(
                ma,
                mb,
            ) by {
                assert forall|id: u32| mono_exp(ma, id) + mono_exp(mb, id) <= EXPONENT_SANITY_LIMIT by {
                    lemma_share_sum_bound(t, m@, i + 1, id);
                    assert(mono_exp(ma, id) <= share_sum(t, pre, id));
                    assert(mono_exp(mb, id) <= share(t, g, id));
                }
            }
        }
        let ghost before = acc@;
        acc = acc.product(&f);
        proof {
            reveal(products_of);
            assert forall|x: Monomial| #[trigger] acc@.dom().contains(x) implies monomial_wf(x)
                && forall|id: u32|
                #![trigger mono_exp(x, id)]
                mono_exp(x, id) <= share_sum(t, post, id) by {
                let (ma, mb) = choose|ma: Monomial, mb: Monomial|
                    before.dom().contains(ma) && f@.dom().contains(mb) && is_mono_product(ma, mb, x);
                assert forall|id: u32| #[trigger] mono_exp(x, id) <= share_sum(t, post, id) by {
                    assert(mono_exp(x, id) == mono_exp(ma, id) + mono_exp(mb, id));
                    assert(mono_exp(ma, id) <= share_sum(t, pre, id));
                    assert(mono_exp(mb, id) <= share(t, g, id));
                }
            }
        }
        i += 1;
    }
    proof {
        assert(m@.take(m@.len() as int) =~= m@);
    }
    acc
}

/// The generators of a product of monomials interned in `t` are interned
/// in `t`.
proof fn lemma_product_below(t: Seq<AtomKeyV>, a: Monomial, b: Monomial, r: Monomial)
    requires
        monomial_wf(a),
        monomial_wf(b),
        gens_below(t, a),
        gens_below(t, b),
        is_mono_product(a, b, r),
    ensures
        gens_below(t, r),
{
    assert forall|i: int| 0 <= i < r.len() implies (#[trigger] r[i]).0.0 < t.len() by {
        let id = r[i].0.0;
        lemma_mono_exp_wf(r, id);
        lemma_mono_exp_wf(a, id);
        lemma_mono_exp_wf(b, id);
        assert(mono_exp(r, id) == r[i].1);
        assert(mono_exp(r, id) == mono_exp(a, id) + mono_exp(b, id));
        if mono_exp(a, id) > 0 {
            let j = choose|j: int| 0 <= j < a.len() && (#[trigger] a[j]).0.0 == id;
        } else {
            let j = choose|j: int| 0 <= j < b.len() && (#[trigger] b[j]).0.0 == id;
        }
    }
}

/// The product of the terms `a` and `b`, each reducible generator of the
/// product replaced through its identity.
fn reduce_term(a: &Term, b: &Term, table: &AtomTable) -> (r: Poly)
    requires
        table.wf(),
        canonical(a.coeff@),
        canonical(b.coeff@),
        monomial_wf(a.generators@),
        monomial_wf(b.generators@),
        gens_below(table@, a.generators@),
        gens_below(table@, b.generators@),
        product_fits(a.generators@, b.generators@),
        partners_present(table@, mono_mul(a.generators@, b.generators@)),
        reduce_fits(table@, mono_mul(a.generators@, b.generators@)),
    ensures
        forall|m: Monomial|
            #[trigger] coef_at(r@, m) == qmul(
                coef_at(expansion(table@, mono_mul(a.generators@, b.generators@)), m),
                qmul(a.coeff@, b.coeff@),
            ),
        trig_reduced(table@, r@),
{
    let coeff = a.coeff.clone() * b.coeff.clone();
    let gens = mono_product(&a.generators, &b.generators);
    proof {
        lemma_mono_mul(a.generators@, b.generators@, gens@);
        lemma_product_below(table@, a.generators@, b.generators@, gens@);
        lemma_denominators(a.coeff@, b.coeff@);
        lemma_canon(coeff@, rat_mul(a.coeff@, b.coeff@));
    }
    let e = expand(table, &gens);
    let r = e.scale(coeff);
    model_facts(&r);
    proof {
        assert forall|x: Monomial, id: u32|
            #[trigger] r@.dom().contains(x) && id < table@.len() && (table@[id as int] is Cos
                || table@[id as int] is Cosh) implies #[trigger] mono_exp(x, id) <= 1 by {
            if !e@.dom().contains(x) {
                lemma_qmul_zero(coeff@);
                assert(coef_at(r@, x) == qmul(coef_at(e@, x), coeff@));
                assert(false);
            }
            lemma_share_split(table@, gens@, id);
            assert(mono_exp(x, id) <= share_sum(table@, gens@, id));
            if exists|i: int|
                0 <= i < gens@.len() && reducible(table@, #[trigger] gens@[i]) && partner(
                    table@,
                    gens@[i].0,
                ).0 == id {
                let i = choose|i: int|
                    0 <= i < gens@.len() && reducible(table@, #[trigger] gens@[i]) && partner(
                        table@,
                        gens@[i].0,
                    ).0 == id;
                lemma_partner_facts(table@, gens@[i], gens@[i]);
            }
            if exists|i: int| 0 <= i < gens@.len() && (#[trigger] gens@[i]).0.0 == id {
                let i = choose|i: int| 0 <= i < gens@.len() && (#[trigger] gens@[i]).0.0 == id;
                assert(gens@[i].1 < 2 || reducible(table@, gens@[i]));
            }
        }
    }
    r
}

// ---------------------------------------------------------------------
// Products with the identities applied
// ---------------------------------------------------------------------

/// The coefficient of `m` in the product of `a`'s term at `ma` and `b`'s
/// term at `mb`, the identities applied.
pub open spec fn term_share(
    t: Seq<AtomKeyV>,
    a: Map<Monomial, (int, int)>,
    b: Map<Monomial, (int, int)>,
    ma: Monomial,
    mb: Monomial,
    m: Monomial,
) -> (int, int) {
    qmul(coef_at(expansion(t, mono_mul(ma, mb)), m), qmul(a[ma], b[mb]))
}

/// One step of a row of the product: adds the share of `a`'s term at
/// `ma` times `b`'s term at `mb`.
pub open spec fn row_step_reduced(
    t: Seq<AtomKeyV>,
    a: Map<Monomial, (int, int)>,
    b: Map<Monomial, (int, int)>,
    ma: Monomial,
    m: Monomial,
) -> spec_fn((int, int), Monomial) -> (int, int) {
    |acc: (int, int), mb: Monomial| rat_add(acc, term_share(t, a, b, ma, mb, m))
}

/// The coefficient of `m` contributed by `a`'s term at `ma` times the
/// terms `mbs` of `b`, unreduced.
pub open spec fn row_sum_reduced(
    t: Seq<AtomKeyV>,
    a: Map<Monomial, (int, int)>,
    b: Map<Monomial, (int, int)>,
    ma: Monomial,
    m: Monomial,
    mbs: Set<Monomial>,
) -> (int, int) {
    mbs.fold((0int, 1int), row_step_reduced(t, a, b, ma, m))
}

/// One step of the product: adds the row of `ma`.
pub open spec fn col_step_reduced(
    t: Seq<AtomKeyV>,
    a: Map<Monomial, (int, int)>,
    b: Map<Monomial, (int, int)>,
    m: Monomial,
) -> spec_fn((int, int), Monomial) -> (int, int) {
    |acc: (int, int), ma: Monomial| rat_add(acc, row_sum_reduced(t, a, b, ma, m, b.dom()))
}

/// The coefficient of `m` in the product of `a`'s terms at `mas` with all
/// of `b`, the identities applied, unreduced.
pub open spec fn product_sum_reduced(
    t: Seq<AtomKeyV>,
    a: Map<Monomial, (int, int)>,
    b: Map<Monomial, (int, int)>,
    m: Monomial,
    mas: Set<Monomial>,
) -> (int, int) {
    mas.fold((0int, 1int), col_step_reduced(t, a, b, m))
}

/// The product of `a` and `b` with the identities applied to the product
/// of every pair of terms.
pub open spec fn reduced_mul(
    t: Seq<AtomKeyV>,
    a: Map<Monomial, (int, int)>,
    b: Map<Monomial, (int, int)>,
) -> Map<Monomial, (int, int)> {
    Map::new(
        |m: Monomial| canon(product_sum_reduced(t, a, b, m, a.dom())).0 != 0,
        |m: Monomial| canon(product_sum_reduced(t, a, b, m, a.dom())),
    )
}

/// Every product of a term of `a` with a term of `b` keeps its exponents,
/// and those the identities add, within the sanity limit.
pub open spec fn mul_fits(
    t: Seq<AtomKeyV>,
    a: Map<Monomial, (int, int)>,
    b: Map<Monomial, (int, int)>,
) -> bool {
    forall|ma: Monomial, mb: Monomial|
        #[trigger] a.dom().contains(ma) && #[trigger] b.dom().contains(mb) ==> product_fits(ma, mb)
            && reduce_fits(t, mono_mul(ma, mb))
}

/// Every generator of every monomial of `p` is interned in `t`.
pub open spec fn poly_gens_below(t: Seq<AtomKeyV>, p: Map<Monomial, (int, int)>) -> bool {
    forall|m: Monomial| #[trigger] p.dom().contains(m) ==> gens_below(t, m)
}

/// The table can take the partners of all its `cos` and `cosh` generators
/// without running out of ids.
pub open spec fn room_for_partners(t: Seq<AtomKeyV>) -> bool {
    exists|t0: Seq<AtomKeyV>| partners_only(t0, t) && 2 * t0.len() < u32::MAX
}

proof fn lemma_row_step_reduced_commutative(
    t: Seq<AtomKeyV>,
    a: Map<Monomial, (int, int)>,
    b: Map<Monomial, (int, int)>,
    ma: Monomial,
    m: Monomial,
)
    ensures
        vstd::set::fold::is_fun_commutative(row_step_reduced(t, a, b, ma, m)),
{
    let f = row_step_reduced(t, a, b, ma, m);
    assert forall|x1: Monomial, x2: Monomial, acc: (int, int)|
        #[trigger] f(f(acc, x2), x1) == f(f(acc, x1), x2) by {
        crate::poly::lemma_rat_add_ac(
            acc,
            term_share(t, a, b, ma, x1, m),
            term_share(t, a, b, ma, x2, m),
        );
    }
}

proof fn lemma_col_step_reduced_commutative(
    t: Seq<AtomKeyV>,
    a: Map<Monomial, (int, int)>,
    b: Map<Monomial, (int, int)>,
    m: Monomial,
)
    ensures
        vstd::set::fold::is_fun_commutative(col_step_reduced(t, a, b, m)),
{
    let f = col_step_reduced(t, a, b, m);
    assert forall|x1: Monomial, x2: Monomial, acc: (int, int)|
        #[trigger] f(f(acc, x2), x1) == f(f(acc, x1), x2) by {
        crate::poly::lemma_rat_add_ac(
            acc,
            row_sum_reduced(t, a, b, x1, m, b.dom()),
            row_sum_reduced(t, a, b, x2, m, b.dom()),
        );
    }
}

/// Interning more generators keeps the partners a monomial has.
proof fn lemma_present_kept(t1: Seq<AtomKeyV>, t2: Seq<AtomKeyV>, m: Monomial)
    requires
        distinct_keys(t2),
        t1.len() <= t2.len(),
        t2.subrange(0, t1.len() as int) == t1,
        gens_below(t1, m),
        partners_present(t1, m),
    ensures
        partners_present(t2, m),
        forall|i: int| 0 <= i < m.len() ==> reducible(t2, #[trigger] m[i]) == reducible(t1, m[i]),
{
    assert forall|i: int| 0 <= i < m.len() implies reducible(t2, #[trigger] m[i]) == reducible(
        t1,
        m[i],
    ) by {
        assert(t2[m[i].0.0 as int] == t2.subrange(0, t1.len() as int)[m[i].0.0 as int]);
    }
    assert forall|i: int| 0 <= i < m.len() && reducible(t2, #[trigger] m[i]) implies has_partner(
        t2,
        m[i].0,
    ) by {
        lemma_partner_kept(t1, t2, m[i].0);
    }
}

/// Once the partners are interned, the identities of a product that fit
/// before still fit: a partner interned since is a new generator, absent
/// from the product.
proof fn lemma_fits_kept(t1: Seq<AtomKeyV>, t2: Seq<AtomKeyV>, m: Monomial)
    requires
        distinct_keys(t2),
        t1.len() <= t2.len(),
        t2.subrange(0, t1.len() as int) == t1,
        monomial_wf(m),
        gens_below(t1, m),
        reduce_fits(t1, m),
    ensures
        reduce_fits(t2, m),
{
    assert forall|i: int|
        0 <= i < m.len() && reducible(t2, #[trigger] m[i]) && has_partner(t2, m[i].0) implies mono_exp(
        m,
        partner(t2, m[i].0).0,
    ) + 2 * (m[i].1 / 2) as int <= EXPONENT_SANITY_LIMIT by {
        let g = m[i];
        assert(t2[g.0.0 as int] == t2.subrange(0, t1.len() as int)[g.0.0 as int]);
        assert(reducible(t1, g));
        if has_partner(t1, g.0) {
            lemma_partner_kept(t1, t2, g.0);
        } else {
            let p = partner(t2, g.0).0;
            assert(p < t2.len() && t2[p as int] == partner_key(t2[g.0.0 as int]));
            if p < t1.len() {
                assert(t2[p as int] == t2.subrange(0, t1.len() as int)[p as int]);
                assert(t1[p as int] == partner_key(t1[g.0.0 as int]));
                assert(has_partner(t1, g.0));
            }
            lemma_mono_exp_wf(m, p);
            assert forall|k: int| 0 <= k < m.len() implies (#[trigger] m[k]).0.0 != p by {
                assert(m[k].0.0 < t1.len());
            }
            assert(1 <= g.1 <= EXPONENT_SANITY_LIMIT);
        }
    }
}

/// Interning the partner of a `cos` or `cosh` generator keeps a table
/// made of partners of another.
proof fn lemma_push_partner(t0: Seq<AtomKeyV>, t: Seq<AtomKeyV>, gid: int)
    requires
        partners_only(t0, t),
        0 <= gid < t.len(),
        t[gid] is Cos || t[gid] is Cosh,
    ensures
        partners_only(t0, t.push(partner_key(t[gid]))),
        gid < t0.len(),
{
    if gid >= t0.len() {
        let i = choose|i: int|
            0 <= i < t0.len() && (t0[i] is Cos || t0[i] is Cosh) && #[trigger] t[gid] == partner_key(
                t0[i],
            );
        assert(false);
    }
    assert(t[gid] == t.subrange(0, t0.len() as int)[gid]);
    let t2 = t.push(partner_key(t[gid]));
    assert(t2.subrange(0, t0.len() as int) =~= t0) by {
        assert forall|k: int| 0 <= k < t0.len() implies t2[k] == t0[k] by {
            assert(t[k] == t.subrange(0, t0.len() as int)[k]);
        }
    }
    assert forall|j: int| t0.len() <= j < t2.len() implies exists|i: int|
        0 <= i < t0.len() && (t0[i] is Cos || t0[i] is Cosh) && #[trigger] t2[j] == partner_key(
            t0[i],
        ) by {
        if j < t.len() {
            assert(t2[j] == t[j]);
        } else {
            assert(t2[j] == partner_key(t0[gid]));
        }
    }
}

/// The terms of a polynomial: well-formed monomials with lowest-terms
/// coefficients, one for each monomial of its model.
#[verifier::spinoff_prover]
proof fn lemma_terms_cover(ts: Seq<Term>, p: Map<Monomial, (int, int)>)
    requires
        coeffs(entries(ts)) == p,
        crate::poly::distinct_monomials(entries(ts)),
        crate::poly::entries_wf(entries(ts)),
    ensures
        forall|k: int|
            0 <= k < ts.len() ==> p.dom().contains((#[trigger] ts[k]).generators@) && p[ts[k].generators@]
                == ts[k].coeff@ && monomial_wf(ts[k].generators@) && canonical(ts[k].coeff@),
        forall|m: Monomial| #[trigger] p.dom().contains(m) ==> exists|k: int|
            0 <= k < ts.len() && ts[k].generators@ == m,
{
    lemma_entries_len(ts);
    lemma_coeffs_distinct(entries(ts));
    assert forall|k: int| 0 <= k < ts.len() implies p.dom().contains(
        (#[trigger] ts[k]).generators@,
    ) && p[ts[k].generators@] == ts[k].coeff@ && monomial_wf(ts[k].generators@) && canonical(
        ts[k].coeff@,
    ) by {
        let es = entries(ts);
        assert(es[k] == entry(ts[k]));
        assert(monomial_wf(es[k].0) && canonical(es[k].1));
        assert(coeffs(es).dom().contains(es[k].0) && coeffs(es)[es[k].0] == es[k].1);
    }
    assert forall|m: Monomial| #[trigger] p.dom().contains(m) implies exists|k: int|
        0 <= k < ts.len() && ts[k].generators@ == m by {
        let k = choose|k: int| 0 <= k < entries(ts).len() && entries(ts)[k].0 == m;
        assert(entries(ts)[k] == entry(ts[k]));
    }
}

/// The product of `ma` and `mb` has its generators in the first `n` of
/// `t` and the partners of its reducible ones in `t`.
spec fn pair_done(n: int, t: Seq<AtomKeyV>, ma: Monomial, mb: Monomial) -> bool {
    &&& n <= t.len()
    &&& (forall|i: int| 0 <= i < mono_mul(ma, mb).len() ==> (#[trigger] mono_mul(ma, mb)[i]).0.0 < n)
    &&& partners_present(t, mono_mul(ma, mb))
    &&& monomial_wf(mono_mul(ma, mb))
    &&& is_mono_product(ma, mb, mono_mul(ma, mb))
}

proof fn lemma_pair_done_kept(n: int, t1: Seq<AtomKeyV>, t2: Seq<AtomKeyV>, ma: Monomial, mb: Monomial)
    requires
        pair_done(n, t1, ma, mb),
        distinct_keys(t2),
        t1.len() <= t2.len(),
        t2.subrange(0, t1.len() as int) == t1,
    ensures
        pair_done(n, t2, ma, mb),
{
    let m = mono_mul(ma, mb);
    assert(gens_below(t1, m));
    lemma_present_kept(t1, t2, m);
}

/// Interns the partner of every reducible generator of every product of
/// a term of `a` with a term of `b`.
fn intern_partners(a: &Poly, b: &Poly, table: &mut AtomTable)
    requires
        old(table).wf(),
        room_for_partners(old(table)@),
        poly_gens_below(old(table)@, a@),
        poly_gens_below(old(table)@, b@),
        forall|ma: Monomial, mb: Monomial|
            #[trigger] a@.dom().contains(ma) && #[trigger] b@.dom().contains(mb) ==> product_fits(
                ma,
                mb,
            ),
    ensures
        final(table).wf(),
        partners_only(old(table)@, final(table)@),
        forall|ma: Monomial, mb: Monomial|
            #[trigger] a@.dom().contains(ma) && #[trigger] b@.dom().contains(mb) ==> partners_present(
                final(table)@,
                mono_mul(ma, mb),
            ) && gens_below(old(table)@, mono_mul(ma, mb)) && monomial_wf(mono_mul(ma, mb))
                && is_mono_product(ma, mb, mono_mul(ma, mb)),
{
    let ghost t0 = table@;
    let ghost tb = choose|tb: Seq<AtomKeyV>| partners_only(tb, t0) && 2 * tb.len() < u32::MAX;
    let sts = a.terms();
    let ots = b.terms();
    proof {
        lemma_terms_cover(sts@, a@);
        lemma_terms_cover(ots@, b@);
        assert(t0.subrange(0, t0.len() as int) =~= t0);
    }
    let mut i: usize = 0;
    while i < sts.len()
        invariant
            i <= sts@.len(),
            table.wf(),
            partners_only(t0, table@),
            partners_only(tb, table@),
            2 * tb.len() < u32::MAX,
            forall|k: int|
                0 <= k < sts@.len() ==> a@.dom().contains((#[trigger] sts@[k]).generators@)
                    && monomial_wf(sts@[k].generators@) && gens_below(t0, sts@[k].generators@),
            forall|k: int|
                0 <= k < ots@.len() ==> b@.dom().contains((#[trigger] ots@[k]).generators@)
                    && monomial_wf(ots@[k].generators@) && gens_below(t0, ots@[k].generators@),
            forall|m: Monomial| #[trigger] a@.dom().contains(m) ==> exists|k: int|
                0 <= k < sts@.len() && sts@[k].generators@ == m,
            forall|m: Monomial| #[trigger] b@.dom().contains(m) ==> exists|k: int|
                0 <= k < ots@.len() && ots@[k].generators@ == m,
            forall|ma: Monomial, mb: Monomial|
                #[trigger] a@.dom().contains(ma) && #[trigger] b@.dom().contains(mb) ==> product_fits(
                    ma,
                    mb,
                ),
            forall|i2: int, j2: int|
                0 <= i2 < i && 0 <= j2 < ots@.len() ==> pair_done(
                    t0.len() as int,
                    table@,
                    #[trigger] sts@[i2].generators@,
                    #[trigger] ots@[j2].generators@,
                ),
        decreases sts@.len() - i,
    {
        let mut j: usize = 0;
        while j < ots.len()
            invariant
                i < sts@.len(),
                j <= ots@.len(),
                table.wf(),
                partners_only(t0, table@),
                partners_only(tb, table@),
                2 * tb.len() < u32::MAX,
                forall|k: int|
                    0 <= k < sts@.len() ==> a@.dom().contains((#[trigger] sts@[k]).generators@)
                        && monomial_wf(sts@[k].generators@) && gens_below(t0, sts@[k].generators@),
                forall|k: int|
                    0 <= k < ots@.len() ==> b@.dom().contains((#[trigger] ots@[k]).generators@)
                        && monomial_wf(ots@[k].generators@) && gens_below(t0, ots@[k].generators@),
                forall|ma: Monomial, mb: Monomial|
                    #[trigger] a@.dom().contains(ma) && #[trigger] b@.dom().contains(mb)
                        ==> product_fits(ma, mb),
                forall|i2: int, j2: int|
                    (0 <= i2 < i && 0 <= j2 < ots@.len()) || (i2 == i && 0 <= j2 < j) ==> pair_done(
                        t0.len() as int,
                        table@,
                        #[trigger] sts@[i2].generators@,
                        #[trigger] ots@[j2].generators@,
                    ),
            decreases ots@.len() - j,
        {
            let ga = &sts[i].generators;
            let gb = &ots[j].generators;
            proof {
                assert(product_fits(ga@, gb@)) by {
                    assert(a@.dom().contains(sts@[i as int].generators@));
                    assert(b@.dom().contains(ots@[j as int].generators@));
                }
            }
            let gens = mono_product(ga, gb);
            proof {
                lemma_mono_mul(ga@, gb@, gens@);
                lemma_product_below(t0, ga@, gb@, gens@);
            }
            let mut k: usize = 0;
            while k < gens.len()
                invariant
                    i < sts@.len(),
                    j < ots@.len(),
                    k <= gens@.len(),
                    gens@ == mono_mul(sts@[i as int].generators@, ots@[j as int].generators@),
                    gens_below(t0, gens@),
                    monomial_wf(gens@),
                    table.wf(),
                    partners_only(t0, table@),
                    partners_only(tb, table@),
                    2 * tb.len() < u32::MAX,
                    forall|k2: int|
                        0 <= k2 < k && reducible(table@, #[trigger] gens@[k2]) ==> has_partner(
                            table@,
                            gens@[k2].0,
                        ),
                    forall|k3: int|
                        0 <= k3 < sts@.len() ==> gens_below(t0, (#[trigger] sts@[k3]).generators@),
                    forall|k3: int|
                        0 <= k3 < ots@.len() ==> gens_below(t0, (#[trigger] ots@[k3]).generators@),
                    forall|i2: int, j2: int|
                        (0 <= i2 < i && 0 <= j2 < ots@.len()) || (i2 == i && 0 <= j2 < j)
                            ==> pair_done(
                            t0.len() as int,
                            table@,
                            #[trigger] sts@[i2].generators@,
                            #[trigger] ots@[j2].generators@,
                        ),
                decreases gens@.len() - k,
            {
                let (gid, e) = gens[k];
                let ghost before = table@;
                proof {
                    assert(gens@[k as int] == (gid, e));
                    assert(gid.0 < t0.len());
                    assert(t0.len() <= before.len());
                    lemma_partners_only_len(tb, before);
                }
                if e >= 2 && table.is_cos(gid) {
                    table.sin_for_cos(gid);
                } else if e >= 2 && table.is_cosh(gid) {
                    table.sinh_for_cosh(gid);
                }
                proof {
                    let after = table@;
                    if after != before {
                        assert(before[gid.0 as int] is Cos || before[gid.0 as int] is Cosh);
                        assert(after == before.push(partner_key(before[gid.0 as int])));
                        lemma_push_partner(t0, before, gid.0 as int);
                        lemma_push_partner(tb, before, gid.0 as int);
                    }
                    assert(after.len() >= before.len());
                    assert(after.subrange(0, before.len() as int) =~= before);
                    if e >= 2 && (before[gid.0 as int] is Cos || before[gid.0 as int] is Cosh) {
                        let j2 = choose|j2: int|
                            0 <= j2 < after.len() && j2 <= u32::MAX && #[trigger] after[j2]
                                == partner_key(after[gid.0 as int]);
                        assert(after[gid.0 as int] == after.subrange(0, before.len() as int)[gid.0 as int]);
                        assert(has_partner(after, gid));
                    }
                    assert forall|k2: int|
                        0 <= k2 < k + 1 && reducible(after, #[trigger] gens@[k2]) implies has_partner(
                        after,
                        gens@[k2].0,
                    ) by {
                        let g2 = gens@[k2];
                        assert(g2.0.0 < t0.len());
                        assert(after[g2.0.0 as int] == after.subrange(0, before.len() as int)[g2.0.0 as int]);
                        if k2 < k {
                            assert(reducible(before, g2));
                            lemma_partner_kept(before, after, g2.0);
                        }
                    }
                    assert forall|i2: int, j2: int|
                        (0 <= i2 < i && 0 <= j2 < ots@.len()) || (i2 == i && 0 <= j2 < j)
                            implies pair_done(
                            t0.len() as int,
                            after,
                            #[trigger] sts@[i2].generators@,
                            #[trigger] ots@[j2].generators@,
                        ) by {
                        lemma_pair_done_kept(
                            t0.len() as int,
                            before,
                            after,
                            sts@[i2].generators@,
                            ots@[j2].generators@,
                        );
                    }
                }
                k += 1;
            }
            proof {
                assert(pair_done(
                    t0.len() as int,
                    table@,
                    sts@[i as int].generators@,
                    ots@[j as int].generators@,
                )) by {
                    assert forall|k2: int| 0 <= k2 < gens@.len() implies (#[trigger] gens@[k2]).0.0
                        < t0.len() by {}
                }
            }
            j += 1;
        }
        i += 1;
    }
    proof {
        assert forall|ma: Monomial, mb: Monomial|
            #[trigger] a@.dom().contains(ma) && #[trigger] b@.dom().contains(mb) implies partners_present(
            table@,
            mono_mul(ma, mb),
        ) && gens_below(t0, mono_mul(ma, mb)) && monomial_wf(mono_mul(ma, mb)) && is_mono_product(
            ma,
            mb,
            mono_mul(ma, mb),
        ) by {
            let ka = choose|k: int| 0 <= k < sts@.len() && sts@[k].generators@ == ma;
            let kb = choose|k: int| 0 <= k < ots@.len() && ots@[k].generators@ == mb;
            assert(pair_done(t0.len() as int, table@, sts@[ka].generators@, ots@[kb].generators@));
        }
    }
}

impl Poly {
    /// `self * other`: the product of every pair of terms, in which each
    /// `cos` raised to a power of two or more has every pair of its
    /// factors replaced by `1 - sin^2`, and each such `cosh` by
    /// `1 + sinh^2`, summed with like terms collected. The `sin` or `sinh`
    /// paired with such a generator is interned on first use.
    pub fn mul(&self, other: &Poly, table: &mut AtomTable) -> (r: Poly)
        requires
            old(table).wf(),
            room_for_partners(old(table)@),
            poly_gens_below(old(table)@, self@),
            poly_gens_below(old(table)@, other@),
            mul_fits(old(table)@, self@, other@),
        ensures
            final(table).wf(),
            partners_only(old(table)@, final(table)@),
            room_for_partners(final(table)@),
            r@ == reduced_mul(final(table)@, self@, other@),
            trig_reduced(final(table)@, r@),
            forall|ma: Monomial, mb: Monomial|
                #[trigger] self@.dom().contains(ma) && #[trigger] other@.dom().contains(mb)
                    ==> partners_present(final(table)@, mono_mul(ma, mb)) && is_mono_product(
                    ma,
                    mb,
                    mono_mul(ma, mb),
                ),
    {
        let ghost t0 = table@;
        intern_partners(self, other, table);
        let ghost t = table@;
        proof {
            let tb = choose|tb: Seq<AtomKeyV>| partners_only(tb, t0) && 2 * tb.len() < u32::MAX;
            lemma_partners_only_trans(tb, t0, t);
        }
        let sts = self.terms();
        let ots = other.terms();
        proof {
            lemma_terms_cover(sts@, self@);
            lemma_terms_cover(ots@, other@);
            lemma_entries_len(sts@);
            lemma_entries_len(ots@);
            lemma_coeffs_distinct(entries(sts@));
            lemma_coeffs_distinct(entries(ots@));
            lemma_coeffs_finite(entries(sts@));
            lemma_coeffs_finite(entries(ots@));
            lemma_integer_canonical(0);
            assert forall|ma: Monomial, mb: Monomial|
                #[trigger] self@.dom().contains(ma) && #[trigger] other@.dom().contains(mb) implies reduce_fits(
                t,
                mono_mul(ma, mb),
            ) by {
                lemma_fits_kept(t0, t, mono_mul(ma, mb));
            }
        }
        let ghost se = entries(sts@);
        let ghost oe = entries(ots@);
        let ghost a = self@;
        let ghost b = other@;
        let mut acc = Poly::zero();
        let mut i: usize = 0;
        proof {
            assert(se.take(0) =~= Seq::empty());
            assert forall|m: Monomial| #[trigger] same_value(
                coef_at(acc@, m),
                product_sum_reduced(t, a, b, m, coeffs(se.take(0)).dom()),
            ) && product_sum_reduced(t, a, b, m, coeffs(se.take(0)).dom()).1 > 0 by {
                assert(coeffs(se.take(0)).dom() == Set::<Monomial>::empty());
                vstd::set::fold::lemma_fold_empty((0int, 1int), col_step_reduced(t, a, b, m));
            }
        }
        while i < sts.len()
            invariant
                i <= sts@.len(),
                t == table@,
                table.wf(),
                se == entries(sts@),
                oe == entries(ots@),
                a == self@,
                b == other@,
                a == coeffs(se),
                b == coeffs(oe),
                se.len() == sts@.len(),
                oe.len() == ots@.len(),
                forall|k: int| 0 <= k < sts@.len() ==> #[trigger] se[k] == entry(sts@[k]),
                forall|k: int| 0 <= k < ots@.len() ==> #[trigger] oe[k] == entry(ots@[k]),
                distinct_monomials(se),
                distinct_monomials(oe),
                forall|k: int|
                    0 <= k < sts@.len() ==> a.dom().contains((#[trigger] sts@[k]).generators@)
                        && a[sts@[k].generators@] == sts@[k].coeff@ && monomial_wf(
                        sts@[k].generators@,
                    ) && canonical(sts@[k].coeff@),
                forall|k: int|
                    0 <= k < ots@.len() ==> b.dom().contains((#[trigger] ots@[k]).generators@)
                        && b[ots@[k].generators@] == ots@[k].coeff@ && monomial_wf(
                        ots@[k].generators@,
                    ) && canonical(ots@[k].coeff@),
                poly_gens_below(t0, a),
                poly_gens_below(t0, b),
                t0.len() <= t.len(),
                mul_fits(t, a, b),
                forall|ma: Monomial, mb: Monomial|
                    #[trigger] a.dom().contains(ma) && #[trigger] b.dom().contains(mb)
                        ==> partners_present(t, mono_mul(ma, mb)),
                forall|m: Monomial|
                    #[trigger] same_value(
                        coef_at(acc@, m),
                        product_sum_reduced(t, a, b, m, coeffs(se.take(i as int)).dom()),
                    ) && product_sum_reduced(t, a, b, m, coeffs(se.take(i as int)).dom()).1 > 0,
                trig_reduced(t, acc@),
            decreases sts@.len() - i,
        {
            let ghost ma = se[i as int].0;
            let ghost di = coeffs(se.take(i as int)).dom();
            proof {
                assert(se[i as int] == entry(sts@[i as int]));
            }
            let mut j: usize = 0;
            proof {
                assert forall|m: Monomial| #[trigger] product_sum_reduced(t, a, b, m, di).1 > 0 by {
                    assert(same_value(coef_at(acc@, m), product_sum_reduced(t, a, b, m, di)));
                }
                assert(oe.take(0) =~= Seq::empty());
                assert forall|m: Monomial| #[trigger] same_value(
                    coef_at(acc@, m),
                    rat_add(
                        product_sum_reduced(t, a, b, m, di),
                        row_sum_reduced(t, a, b, ma, m, coeffs(oe.take(0)).dom()),
                    ),
                ) && row_sum_reduced(t, a, b, ma, m, coeffs(oe.take(0)).dom()).1 > 0 by {
                    assert(coeffs(oe.take(0)).dom() == Set::<Monomial>::empty());
                    vstd::set::fold::lemma_fold_empty((0int, 1int), row_step_reduced(t, a, b, ma, m));
                    lemma_rat_add_zero(product_sum_reduced(t, a, b, m, di));
                }
            }
            while j < ots.len()
                invariant
                    i < sts@.len(),
                    j <= ots@.len(),
                    t == table@,
                    table.wf(),
                    se == entries(sts@),
                    oe == entries(ots@),
                    a == self@,
                    b == other@,
                    a == coeffs(se),
                    b == coeffs(oe),
                    se.len() == sts@.len(),
                    oe.len() == ots@.len(),
                    ma == se[i as int].0,
                    ma == sts@[i as int].generators@,
                    di == coeffs(se.take(i as int)).dom(),
                    forall|k: int| 0 <= k < ots@.len() ==> #[trigger] oe[k] == entry(ots@[k]),
                    distinct_monomials(oe),
                    forall|k: int|
                        0 <= k < sts@.len() ==> a.dom().contains((#[trigger] sts@[k]).generators@)
                            && a[sts@[k].generators@] == sts@[k].coeff@ && monomial_wf(
                            sts@[k].generators@,
                        ) && canonical(sts@[k].coeff@),
                    forall|k: int|
                        0 <= k < ots@.len() ==> b.dom().contains((#[trigger] ots@[k]).generators@)
                            && b[ots@[k].generators@] == ots@[k].coeff@ && monomial_wf(
                            ots@[k].generators@,
                        ) && canonical(ots@[k].coeff@),
                    poly_gens_below(t0, a),
                    poly_gens_below(t0, b),
                    t0.len() <= t.len(),
                    mul_fits(t, a, b),
                    forall|ma2: Monomial, mb: Monomial|
                        #[trigger] a.dom().contains(ma2) && #[trigger] b.dom().contains(mb)
                            ==> partners_present(t, mono_mul(ma2, mb)),
                    forall|m: Monomial| #[trigger] product_sum_reduced(t, a, b, m, di).1 > 0,
                    forall|m: Monomial|
                        #[trigger] same_value(
                            coef_at(acc@, m),
                            rat_add(
                                product_sum_reduced(t, a, b, m, di),
                                row_sum_reduced(t, a, b, ma, m, coeffs(oe.take(j as int)).dom()),
                            ),
                        ) && row_sum_reduced(t, a, b, ma, m, coeffs(oe.take(j as int)).dom()).1 > 0,
                    trig_reduced(t, acc@),
                decreases ots@.len() - j,
            {
                let ghost mb = oe[j as int].0;
                let ghost ej = coeffs(oe.take(j as int)).dom();
                proof {
                    assert(oe[j as int] == entry(ots@[j as int]));
                    assert(a.dom().contains(ma) && b.dom().contains(mb));
                    assert(gens_below(t, ma)) by {
                        assert(gens_below(t0, ma));
                    }
                    assert(gens_below(t, mb)) by {
                        assert(gens_below(t0, mb));
                    }
                }
                let tm = reduce_term(&sts[i], &ots[j], table);
                model_facts(&acc);
                model_facts(&tm);
                let ghost before = acc;
                acc = acc.add(&tm);
                model_facts(&acc);
                proof {
                    assert forall|x: Monomial, id: u32|
                        #[trigger] acc@.dom().contains(x) && id < t.len() && (t[id as int] is Cos
                            || t[id as int] is Cosh) implies #[trigger] mono_exp(x, id) <= 1 by {
                        if !before@.dom().contains(x) && !tm@.dom().contains(x) {
                            lemma_integer_canonical(0);
                            lemma_qadd_zero((0int, 1int));
                            assert(coef_at(acc@, x) == qadd(coef_at(before@, x), coef_at(tm@, x)));
                            assert(false);
                        }
                    }
                    lemma_coeffs_take(oe, j as int);
                    lemma_prefix_excludes_next(oe, j as int);
                    lemma_coeffs_finite(oe.take(j as int));
                    assert(coeffs(oe.take(j + 1)).dom() == ej.insert(mb));
                    assert forall|m: Monomial| #[trigger] same_value(
                        coef_at(acc@, m),
                        rat_add(
                            product_sum_reduced(t, a, b, m, di),
                            row_sum_reduced(t, a, b, ma, m, coeffs(oe.take(j + 1)).dom()),
                        ),
                    ) && row_sum_reduced(t, a, b, ma, m, coeffs(oe.take(j + 1)).dom()).1 > 0 by {
                        lemma_row_step_reduced_commutative(t, a, b, ma, m);
                        vstd::set::fold::lemma_fold_insert(
                            ej,
                            (0int, 1int),
                            row_step_reduced(t, a, b, ma, m),
                            mb,
                        );
                        let p = product_sum_reduced(t, a, b, m, di);
                        let rj = row_sum_reduced(t, a, b, ma, m, ej);
                        let ca = coef_at(before@, m);
                        let x = coef_at(tm@, m);
                        assert(x == term_share(t, a, b, ma, mb, m));
                        assert(same_value(ca, rat_add(p, rj)));
                        assert(same_value(coef_at(acc@, m), rat_add(ca, x)));
                        assert(canonical(ca) && canonical(x));
                        lemma_rat_add_same_value(ca, rat_add(p, rj), x, x);
                        lemma_rat_add_ac(p, rj, x);
                        crate::poly::lemma_denominators(p, rj);
                        crate::poly::lemma_denominators(ca, x);
                        crate::poly::lemma_denominators(rj, x);
                        lemma_same_value_chain(
                            coef_at(acc@, m),
                            rat_add(ca, x),
                            rat_add(rat_add(p, rj), x),
                        );
                        assert(row_sum_reduced(t, a, b, ma, m, ej.insert(mb)) == rat_add(rj, x));
                    }
                }
                j += 1;
            }
            proof {
                assert(oe.take(oe.len() as int) =~= oe);
                lemma_coeffs_take(se, i as int);
                lemma_prefix_excludes_next(se, i as int);
                lemma_coeffs_finite(se.take(i as int));
                assert(coeffs(se.take(i + 1)).dom() == di.insert(ma));
                assert forall|m: Monomial| #[trigger] same_value(
                    coef_at(acc@, m),
                    product_sum_reduced(t, a, b, m, coeffs(se.take(i + 1)).dom()),
                ) && product_sum_reduced(t, a, b, m, coeffs(se.take(i + 1)).dom()).1 > 0 by {
                    lemma_col_step_reduced_commutative(t, a, b, m);
                    vstd::set::fold::lemma_fold_insert(di, (0int, 1int), col_step_reduced(t, a, b, m), ma);
                    assert(same_value(
                        coef_at(acc@, m),
                        rat_add(
                            product_sum_reduced(t, a, b, m, di),
                            row_sum_reduced(t, a, b, ma, m, b.dom()),
                        ),
                    ));
                    crate::poly::lemma_denominators(
                        product_sum_reduced(t, a, b, m, di),
                        row_sum_reduced(t, a, b, ma, m, b.dom()),
                    );
                }
            }
            i += 1;
        }
        model_facts(&acc);
        proof {
            assert(se.take(se.len() as int) =~= se);
            let rm = reduced_mul(t, a, b);
            assert forall|m: Monomial| #[trigger] coef_at(acc@, m) == coef_at(rm, m) by {
                let q = product_sum_reduced(t, a, b, m, a.dom());
                assert(same_value(coef_at(acc@, m), q));
                lemma_canon(coef_at(acc@, m), q);
                if canon(q).0 == 0 {
                    assert(!rm.dom().contains(m));
                    assert(canonical(coef_at(acc@, m)));
                    if acc@.dom().contains(m) {
                        assert(acc@[m].0 != 0);
                    }
                }
            }
            lemma_map_by_coefs(acc@, rm);
        }
        acc
    }
}

impl Poly {
    /// `self` with every `cos` and `cosh` brought back to degree at most
    /// one through their identities, term by term: what a product gives
    /// with the constant `1`.
    pub fn normalize_trig(&self, table: &mut AtomTable) -> (r: Poly)
        requires
            old(table).wf(),
            room_for_partners(old(table)@),
            poly_gens_below(old(table)@, self@),
            forall|m: Monomial| #[trigger] self@.dom().contains(m) ==> reduce_fits(old(table)@, m),
        ensures
            final(table).wf(),
            partners_only(old(table)@, final(table)@),
            r@ == reduced_mul(final(table)@, self@, unit_poly()),
            trig_reduced(final(table)@, r@),
    {
        let one = one_poly();
        let ts = self.terms();
        proof {
            lemma_terms_cover(ts@, self@);
            lemma_exp_small(AtomId(0), 0);
            let e = Seq::<(AtomId, u32)>::empty();
            assert(one@.dom() == set![e]) by {
                assert(one@.dom() =~= set![e]);
            }
            assert forall|ma: Monomial, mb: Monomial|
                #[trigger] self@.dom().contains(ma) && #[trigger] one@.dom().contains(mb) implies product_fits(ma, mb)
                && reduce_fits(table@, mono_mul(ma, mb)) by {
                assert(mb == e);
                let k = choose|k: int| 0 <= k < ts@.len() && ts@[k].generators@ == ma;
                assert(monomial_wf(ma));
                assert(forall|id: u32| #[trigger] mono_exp(ma, id) + mono_exp(mb, id) == mono_exp(ma, id));
                assert(is_mono_product(ma, mb, ma));
                lemma_mono_mul(ma, mb, ma);
                assert forall|id: u32| mono_exp(ma, id) + mono_exp(mb, id) <= EXPONENT_SANITY_LIMIT by {
                    lemma_mono_exp_wf(ma, id);
                    if exists|i: int| 0 <= i < ma.len() && (#[trigger] ma[i]).0.0 == id {
                        let i = choose|i: int| 0 <= i < ma.len() && (#[trigger] ma[i]).0.0 == id;
                        assert(ma[i].1 <= EXPONENT_SANITY_LIMIT);
                    }
                }
            }
            assert forall|mb: Monomial| #[trigger] one@.dom().contains(mb) implies gens_below(table@, mb) by {
                assert(mb == e);
            }
        }
        self.mul(&one, table)
    }
}

// ---------------------------------------------------------------------
// Products without any identity to apply
// ---------------------------------------------------------------------

/// The plain product of two monomials with coefficient `1` is their
/// product with coefficient `1`.
proof fn lemma_poly_mul_units(ma: Monomial, mb: Monomial, mm: Monomial)
    requires
        is_mono_product(ma, mb, mm),
    ensures
        poly_mul(map![ma => (1int, 1int)], map![mb => (1int, 1int)]) == map![mm => (1int, 1int)],
{
    let a = map![ma => (1int, 1int)];
    let b = map![mb => (1int, 1int)];
    lemma_mono_mul(ma, mb, mm);
    lemma_integer_canonical(1);
    lemma_integer_canonical(0);
    assert(a.dom() =~= Set::<Monomial>::empty().insert(ma));
    assert(b.dom() =~= Set::<Monomial>::empty().insert(mb));
    assert forall|x: Monomial| #[trigger] product_sum(a, b, x, a.dom()) == if x == mm {
        (1int, 1int)
    } else {
        (0int, 1int)
    } by {
        lemma_row_step_commutative(a, b, ma, x);
        lemma_col_step_commutative(a, b, x);
        vstd::set::fold::lemma_fold_insert(Set::<Monomial>::empty(), (0int, 1int), row_step(a, b, ma, x), mb);
        vstd::set::fold::lemma_fold_empty((0int, 1int), row_step(a, b, ma, x));
        vstd::set::fold::lemma_fold_insert(Set::<Monomial>::empty(), (0int, 1int), col_step(a, b, x), ma);
        vstd::set::fold::lemma_fold_empty((0int, 1int), col_step(a, b, x));
        lemma_rat_add_zero(rat_mul((1int, 1int), (1int, 1int)));
        lemma_rat_add_zero((1int, 1int));
        lemma_rat_add_zero((0int, 1int));
        assert(rat_mul((1int, 1int), (1int, 1int)) == (1int, 1int));
    }
    assert forall|x: Monomial| #[trigger] canon(product_sum(a, b, x, a.dom())) == if x == mm {
        (1int, 1int)
    } else {
        (0int, 1int)
    } by {
        if x == mm {
            lemma_canon((1int, 1int), (1int, 1int));
        } else {
            lemma_canon((0int, 1int), (0int, 1int));
        }
    }
    assert(poly_mul(a, b) =~= map![mm => (1int, 1int)]);
}

/// A monomial with no reducible generator expands to itself.
proof fn lemma_expansion_plain(t: Seq<AtomKeyV>, m: Monomial)
    requires
        monomial_wf(m),
        forall|i: int| 0 <= i < m.len() ==> !reducible(t, #[trigger] m[i]),
    ensures
        expansion(t, m) == map![m => (1int, 1int)],
    decreases m.len(),
{
    if m.len() == 0 {
        assert(m =~= Seq::<(AtomId, u32)>::empty());
    } else {
        let r = m.drop_last();
        let g = m.last();
        assert(monomial_wf(r)) by {
            assert forall|i: int, j: int| 0 <= i < j < r.len() implies (#[trigger] r[i]).0.0 < (
            #[trigger] r[j]).0.0 by {
                assert(r[i] == m[i] && r[j] == m[j]);
            }
            assert forall|i: int| 0 <= i < r.len() implies 1 <= (#[trigger] r[i]).1
                <= EXPONENT_SANITY_LIMIT by {
                assert(r[i] == m[i]);
            }
        }
        assert forall|i: int| 0 <= i < r.len() implies !reducible(t, #[trigger] r[i]) by {
            assert(r[i] == m[i]);
        }
        lemma_expansion_plain(t, r);
        assert(m[m.len() - 1] == g);
        assert(factor(t, g) == map![seq![g] => (1int, 1int)]);
        lemma_exp_small(g.0, g.1);
        assert(seq![(g.0, g.1)] == seq![g]);
        assert(is_mono_product(r, seq![g], m)) by {
            assert forall|id: u32| #[trigger] mono_exp(m, id) == mono_exp(r, id) + mono_exp(
                seq![g],
                id,
            ) by {
                assert(mono_exp(seq![(g.0, g.1)], id) == mono_exp(seq![g], id));
            }
        }
        lemma_poly_mul_units(r, seq![g], m);
    }
}

/// The share of `a`'s term at `ma` times `b`'s term at `mb` in a product
/// without any identity to apply has the value of the plain product's.
proof fn lemma_share_plain(
    t: Seq<AtomKeyV>,
    a: Map<Monomial, (int, int)>,
    b: Map<Monomial, (int, int)>,
    ma: Monomial,
    mb: Monomial,
    x: Monomial,
    a1: (int, int),
    a2: (int, int),
)
    requires
        a[ma].1 > 0,
        b[mb].1 > 0,
        monomial_wf(mono_mul(ma, mb)),
        forall|i: int|
            0 <= i < mono_mul(ma, mb).len() ==> !reducible(t, #[trigger] mono_mul(ma, mb)[i]),
        a1.1 > 0,
        a2.1 > 0,
        same_value(a1, a2),
    ensures
        row_step_reduced(t, a, b, ma, x)(a1, mb).1 > 0,
        row_step(a, b, ma, x)(a2, mb).1 > 0,
        same_value(row_step_reduced(t, a, b, ma, x)(a1, mb), row_step(a, b, ma, x)(a2, mb)),
{
    let mm = mono_mul(ma, mb);
    lemma_expansion_plain(t, mm);
    let p = rat_mul(a[ma], b[mb]);
    crate::poly::lemma_denominators(a[ma], b[mb]);
    lemma_canon_exists(p);
    let q = qmul(a[ma], b[mb]);
    assert(q == canon(p));
    lemma_integer_canonical(0);
    if x == mm {
        assert(coef_at(expansion(t, mm), x) == (1int, 1int));
        assert(1 * q.0 == q.0 && 1 * q.1 == q.1) by (nonlinear_arith);
        assert(rat_mul((1int, 1int), q) == (q.0, q.1));
        lemma_canon((q.0, q.1), rat_mul((1int, 1int), q));
        assert(term_share(t, a, b, ma, mb, x) == q);
        crate::poly::lemma_rat_add_same_value(a1, a2, q, p);
        crate::poly::lemma_denominators(a1, q);
        crate::poly::lemma_denominators(a2, p);
    } else {
        assert(coef_at(expansion(t, mm), x) == (0int, 1int));
        lemma_qmul_zero(q);
        assert(term_share(t, a, b, ma, mb, x) == (0int, 1int));
        lemma_rat_add_zero(a1);
    }
}

/// A row of a product without any identity to apply has the value of the
/// plain product's row.
proof fn lemma_row_plain(
    t: Seq<AtomKeyV>,
    a: Map<Monomial, (int, int)>,
    b: Map<Monomial, (int, int)>,
    ma: Monomial,
    x: Monomial,
    s: Set<Monomial>,
)
    requires
        s.finite(),
        s.subset_of(b.dom()),
        a[ma].1 > 0,
        forall|m: Monomial| #[trigger] b.dom().contains(m) ==> b[m].1 > 0,
        forall|mb: Monomial|
            #[trigger] b.dom().contains(mb) ==> monomial_wf(mono_mul(ma, mb)) && forall|i: int|
                0 <= i < mono_mul(ma, mb).len() ==> !reducible(t, #[trigger] mono_mul(ma, mb)[i]),
    ensures
        row_sum_reduced(t, a, b, ma, x, s).1 > 0,
        row_sum(a, b, ma, x, s).1 > 0,
        same_value(row_sum_reduced(t, a, b, ma, x, s), row_sum(a, b, ma, x, s)),
    decreases s.len(),
{
    lemma_row_step_reduced_commutative(t, a, b, ma, x);
    lemma_row_step_commutative(a, b, ma, x);
    if s.len() == 0 {
        assert(s =~= Set::<Monomial>::empty());
        vstd::set::fold::lemma_fold_empty((0int, 1int), row_step_reduced(t, a, b, ma, x));
        vstd::set::fold::lemma_fold_empty((0int, 1int), row_step(a, b, ma, x));
    } else {
        let y = s.choose();
        let r = s.remove(y);
        assert(s =~= r.insert(y));
        lemma_row_plain(t, a, b, ma, x, r);
        vstd::set::fold::lemma_fold_insert(r, (0int, 1int), row_step_reduced(t, a, b, ma, x), y);
        vstd::set::fold::lemma_fold_insert(r, (0int, 1int), row_step(a, b, ma, x), y);
        assert(b.dom().contains(y));
        lemma_share_plain(
            t,
            a,
            b,
            ma,
            y,
            x,
            row_sum_reduced(t, a, b, ma, x, r),
            row_sum(a, b, ma, x, r),
        );
    }
}

/// The columns of a product without any identity to apply add up to the
/// value of the plain product's.
proof fn lemma_cols_plain(
    t: Seq<AtomKeyV>,
    a: Map<Monomial, (int, int)>,
    b: Map<Monomial, (int, int)>,
    x: Monomial,
    s: Set<Monomial>,
)
    requires
        s.finite(),
        s.subset_of(a.dom()),
        b.dom().finite(),
        forall|m: Monomial| #[trigger] a.dom().contains(m) ==> a[m].1 > 0,
        forall|m: Monomial| #[trigger] b.dom().contains(m) ==> b[m].1 > 0,
        forall|ma: Monomial, mb: Monomial|
            #[trigger] a.dom().contains(ma) && #[trigger] b.dom().contains(mb) ==> monomial_wf(
                mono_mul(ma, mb),
            ) && forall|i: int|
                0 <= i < mono_mul(ma, mb).len() ==> !reducible(t, #[trigger] mono_mul(ma, mb)[i]),
    ensures
        product_sum_reduced(t, a, b, x, s).1 > 0,
        product_sum(a, b, x, s).1 > 0,
        same_value(product_sum_reduced(t, a, b, x, s), product_sum(a, b, x, s)),
    decreases s.len(),
{
    lemma_col_step_reduced_commutative(t, a, b, x);
    lemma_col_step_commutative(a, b, x);
    if s.len() == 0 {
        assert(s =~= Set::<Monomial>::empty());
        vstd::set::fold::lemma_fold_empty((0int, 1int), col_step_reduced(t, a, b, x));
        vstd::set::fold::lemma_fold_empty((0int, 1int), col_step(a, b, x));
    } else {
        let y = s.choose();
        let r = s.remove(y);
        assert(s =~= r.insert(y));
        lemma_cols_plain(t, a, b, x, r);
        vstd::set::fold::lemma_fold_insert(r, (0int, 1int), col_step_reduced(t, a, b, x), y);
        vstd::set::fold::lemma_fold_insert(r, (0int, 1int), col_step(a, b, x), y);
        assert(a.dom().contains(y));
        assert forall|mb: Monomial| #[trigger] b.dom().contains(mb) implies monomial_wf(
            mono_mul(y, mb),
        ) && forall|i: int|
            0 <= i < mono_mul(y, mb).len() ==> !reducible(t, #[trigger] mono_mul(y, mb)[i]) by {
            assert(a.dom().contains(y) && b.dom().contains(mb));
        }
        lemma_row_plain(t, a, b, y, x, b.dom());
        let p1 = product_sum_reduced(t, a, b, x, r);
        let p2 = product_sum(a, b, x, r);
        let r1 = row_sum_reduced(t, a, b, y, x, b.dom());
        let r2 = row_sum(a, b, y, x, b.dom());
        crate::poly::lemma_rat_add_same_value(p1, p2, r1, r2);
        crate::poly::lemma_denominators(p1, r1);
        crate::poly::lemma_denominators(p2, r2);
    }
}

/// A product in which no `cos` or `cosh` reaches the second power is the
/// plain product: every other generator (a variable, `sin`, `exp`,
/// `sinh`, an indeterminate function) only ever has its exponents added,
/// never merged with another generator or rewritten.
pub proof fn lemma_mul_without_identities(
    t: Seq<AtomKeyV>,
    a: Map<Monomial, (int, int)>,
    b: Map<Monomial, (int, int)>,
)
    requires
        a.dom().finite(),
        b.dom().finite(),
        forall|m: Monomial| #[trigger] a.dom().contains(m) ==> a[m].1 > 0,
        forall|m: Monomial| #[trigger] b.dom().contains(m) ==> b[m].1 > 0,
        forall|ma: Monomial, mb: Monomial|
            #[trigger] a.dom().contains(ma) && #[trigger] b.dom().contains(mb) ==> monomial_wf(
                mono_mul(ma, mb),
            ) && forall|i: int|
                0 <= i < mono_mul(ma, mb).len() ==> !reducible(t, #[trigger] mono_mul(ma, mb)[i]),
    ensures
        reduced_mul(t, a, b) == poly_mul(a, b),
{
    assert forall|x: Monomial| #[trigger] canon(product_sum_reduced(t, a, b, x, a.dom())) == canon(
        product_sum(a, b, x, a.dom()),
    ) by {
        lemma_cols_plain(t, a, b, x, a.dom());
        lemma_canon_same_value(product_sum_reduced(t, a, b, x, a.dom()), product_sum(a, b, x, a.dom()));
    }
    assert(reduced_mul(t, a, b) =~= poly_mul(a, b));
}

// ---------------------------------------------------------------------
// Products checked against the limits
// ---------------------------------------------------------------------

/// The sum of the exponents of `m`.
pub open spec fn total_degree(m: Monomial) -> int
    decreases m.len(),
{
    if m.len() == 0 {
        0
    } else {
        total_degree(m.drop_last()) + m.last().1
    }
}

/// Two distinct generators' exponents together stay within the total
/// degree, and so does one alone.
proof fn lemma_exps_within_degree(m: Monomial, p: u32, g: u32)
    ensures
        mono_exp(m, p) >= 0,
        mono_exp(m, p) <= total_degree(m),
        p != g ==> mono_exp(m, p) + mono_exp(m, g) <= total_degree(m),
    decreases m.len(),
{
    if m.len() > 0 {
        lemma_exps_within_degree(m.drop_last(), p, g);
    }
}

/// A table that adds nothing only adds partners.
proof fn lemma_partners_only_refl(t: Seq<AtomKeyV>)
    ensures
        partners_only(t, t),
{
    assert(t.subrange(0, t.len() as int) =~= t);
}

/// Whether every monomial of `p` has total degree at most `limit`, and
/// every generator an index below `n`.
fn degrees_and_generators_within(p: &Poly, limit: u64, n: usize) -> (r: bool)
    requires
        limit <= EXPONENT_SANITY_LIMIT,
    ensures
        r ==> forall|m: Monomial| #[trigger] p@.dom().contains(m) ==> total_degree(m) <= limit
            && forall|i: int| 0 <= i < m.len() ==> (#[trigger] m[i]).0.0 < n,
{
    let ts = p.terms();
    proof {
        lemma_entries_len(ts@);
        lemma_coeffs_distinct(entries(ts@));
    }
    let mut k: usize = 0;
    while k < ts.len()
        invariant
            0 <= k <= ts@.len(),
            limit <= EXPONENT_SANITY_LIMIT,
            entries(ts@).len() == ts@.len(),
            forall|x: int| 0 <= x < ts@.len() ==> #[trigger] entries(ts@)[x] == entry(ts@[x]),
            forall|x: int| 0 <= x < k ==> total_degree((#[trigger] ts@[x]).generators@) <= limit
                && forall|i: int| 0 <= i < ts@[x].generators@.len() ==> (
                #[trigger] ts@[x].generators@[i]).0.0 < n,
        decreases ts@.len() - k,
    {
        let g = &ts[k].generators;
        let mut d: u64 = 0;
        let mut j: usize = 0;
        while j < g.len()
            invariant
                0 <= j <= g@.len(),
                d <= limit,
                limit <= EXPONENT_SANITY_LIMIT,
                d == total_degree(g@.take(j as int)),
                forall|i: int| 0 <= i < j ==> (#[trigger] g@[i]).0.0 < n,
            decreases g@.len() - j,
        {
            proof {
                assert(g@.take(j + 1).drop_last() =~= g@.take(j as int));
            }
            if g[j].0.0 as usize >= n {
                return false;
            }
            d = d + g[j].1 as u64;
            if d > limit {
                return false;
            }
            j += 1;
        }
        proof {
            assert(g@.take(g@.len() as int) =~= g@);
        }
        k += 1;
    }
    proof {
        assert forall|m: Monomial| #[trigger] p@.dom().contains(m) implies total_degree(m) <= limit
            && forall|i: int| 0 <= i < m.len() ==> (#[trigger] m[i]).0.0 < n by {
            let x = choose|x: int| 0 <= x < entries(ts@).len() && entries(ts@)[x].0 == m;
            assert(entries(ts@)[x] == entry(ts@[x]));
        }
    }
    true
}

/// Whether every pair of monomials of `a` and `b` has a product, and
/// each such product is the one [`mono_mul`] names.
fn products_exist(a: &Poly, b: &Poly) -> (r: bool)
    requires
        forall|ma: Monomial, mb: Monomial|
            #[trigger] a@.dom().contains(ma) && #[trigger] b@.dom().contains(mb) ==> total_degree(ma)
                + total_degree(mb) <= EXPONENT_SANITY_LIMIT,
    ensures
        r ==> forall|ma: Monomial, mb: Monomial|
            #[trigger] a@.dom().contains(ma) && #[trigger] b@.dom().contains(mb) ==> is_mono_product(
                ma,
                mb,
                mono_mul(ma, mb),
            ),
{
    let ta = a.terms();
    let tb = b.terms();
    proof {
        lemma_entries_len(ta@);
        lemma_entries_len(tb@);
        lemma_coeffs_distinct(entries(ta@));
        lemma_coeffs_distinct(entries(tb@));
    }
    proof {
        assert forall|x: int| 0 <= x < ta@.len() implies a@.dom().contains(
            #[trigger] ta@[x].generators@,
        ) by {
            assert(entries(ta@)[x] == entry(ta@[x]));
        }
        assert forall|y: int| 0 <= y < tb@.len() implies b@.dom().contains(
            #[trigger] tb@[y].generators@,
        ) by {
            assert(entries(tb@)[y] == entry(tb@[y]));
        }
    }
    let mut i: usize = 0;
    while i < ta.len()
        invariant
            0 <= i <= ta@.len(),
            forall|x: int| 0 <= x < ta@.len() ==> a@.dom().contains(#[trigger] ta@[x].generators@),
            forall|y: int| 0 <= y < tb@.len() ==> b@.dom().contains(#[trigger] tb@[y].generators@),
            forall|x: int| 0 <= x < ta@.len() ==> #[trigger] entries(ta@)[x] == entry(ta@[x]),
            forall|x: int| 0 <= x < tb@.len() ==> #[trigger] entries(tb@)[x] == entry(tb@[x]),
            entries(ta@).len() == ta@.len(),
            entries(tb@).len() == tb@.len(),
            coeffs(entries(ta@)) == a@,
            coeffs(entries(tb@)) == b@,
            entries_wf(entries(ta@)),
            entries_wf(entries(tb@)),
            forall|ma: Monomial, mb: Monomial|
                #[trigger] a@.dom().contains(ma) && #[trigger] b@.dom().contains(mb) ==> total_degree(
                    ma,
                ) + total_degree(mb) <= EXPONENT_SANITY_LIMIT,
            forall|x: int, y: int|
                0 <= x < i && 0 <= y < tb@.len() ==> is_mono_product(
                    #[trigger] ta@[x].generators@,
                    #[trigger] tb@[y].generators@,
                    mono_mul(ta@[x].generators@, tb@[y].generators@),
                ),
        decreases ta@.len() - i,
    {
        let mut j: usize = 0;
        while j < tb.len()
            invariant
                0 <= i < ta@.len(),
                0 <= j <= tb@.len(),
                forall|x: int| 0 <= x < ta@.len() ==> a@.dom().contains(#[trigger] ta@[x].generators@),
                forall|y: int| 0 <= y < tb@.len() ==> b@.dom().contains(#[trigger] tb@[y].generators@),
                forall|x: int| 0 <= x < ta@.len() ==> #[trigger] entries(ta@)[x] == entry(ta@[x]),
                forall|x: int| 0 <= x < tb@.len() ==> #[trigger] entries(tb@)[x] == entry(tb@[x]),
                entries(ta@).len() == ta@.len(),
                entries(tb@).len() == tb@.len(),
                coeffs(entries(ta@)) == a@,
                coeffs(entries(tb@)) == b@,
                entries_wf(entries(ta@)),
                entries_wf(entries(tb@)),
                forall|ma: Monomial, mb: Monomial|
                    #[trigger] a@.dom().contains(ma) && #[trigger] b@.dom().contains(mb)
                        ==> total_degree(ma) + total_degree(mb) <= EXPONENT_SANITY_LIMIT,
                forall|x: int, y: int|
                    0 <= x < i && 0 <= y < tb@.len() ==> is_mono_product(
                        #[trigger] ta@[x].generators@,
                        #[trigger] tb@[y].generators@,
                        mono_mul(ta@[x].generators@, tb@[y].generators@),
                    ),
                forall|y: int|
                    0 <= y < j ==> is_mono_product(
                        ta@[i as int].generators@,
                        #[trigger] tb@[y].generators@,
                        mono_mul(ta@[i as int].generators@, tb@[y].generators@),
                    ),
            decreases tb@.len() - j,
        {
            let ga = &ta[i].generators;
            let gb = &tb[j].generators;
            proof {
                assert(entries(ta@)[i as int] == entry(ta@[i as int]));
                assert(entries(tb@)[j as int] == entry(tb@[j as int]));
                assert(a@.dom().contains(ga@));
                assert(b@.dom().contains(gb@));
                assert forall|id: u32| mono_exp(ga@, id) + mono_exp(gb@, id)
                    <= EXPONENT_SANITY_LIMIT by {
                    lemma_exps_within_degree(ga@, id, id);
                    lemma_exps_within_degree(gb@, id, id);
                }
            }
            let _witness = mono_product(ga, gb);
            j += 1;
        }
        i += 1;
    }
    proof {
        assert forall|ma: Monomial, mb: Monomial|
            #[trigger] a@.dom().contains(ma) && #[trigger] b@.dom().contains(mb) implies is_mono_product(
            ma,
            mb,
            mono_mul(ma, mb),
        ) by {
            let x = choose|x: int| 0 <= x < entries(ta@).len() && entries(ta@)[x].0 == ma;
            let y = choose|y: int| 0 <= y < entries(tb@).len() && entries(tb@)[y].0 == mb;
            assert(entries(ta@)[x] == entry(ta@[x]));
            assert(entries(tb@)[y] == entry(tb@[y]));
        }
    }
    true
}

impl Poly {
    /// [`Poly::mul`] where its limits are seen to hold: the table has
    /// room for the partners, every generator is interned, and the total
    /// degrees of any two monomials add up to at most the exponent sanity
    /// limit. `None` otherwise, with the table unchanged.
    pub fn try_mul(&self, other: &Poly, table: &mut AtomTable) -> (r: Option<Poly>)
        requires
            old(table).wf(),
        ensures
            final(table).wf(),
            partners_only(old(table)@, final(table)@),
            r matches Some(p) ==> p@ == reduced_mul(final(table)@, self@, other@) && trig_reduced(
                final(table)@,
                p@,
            ),
            r is None ==> final(table)@ == old(table)@,
    {
        proof {
            lemma_partners_only_refl(table@);
        }
        let n = table.len();
        if n >= 2147483647 {
            return None;
        }
        if !degrees_and_generators_within(self, EXPONENT_SANITY_LIMIT as u64, n) {
            return None;
        }
        let da = max_degree(self);
        if !degrees_and_generators_within(other, (EXPONENT_SANITY_LIMIT - da) as u64, n) {
            return None;
        }
        if !products_exist(self, other) {
            return None;
        }
        proof {
            assert(2 * table@.len() < u32::MAX);
            assert(room_for_partners(table@));
            assert forall|m: Monomial| #[trigger] self@.dom().contains(m) implies gens_below(table@, m) by {}
            assert forall|m: Monomial| #[trigger] other@.dom().contains(m) implies gens_below(table@, m) by {}
            let t = table@;
            assert forall|ma: Monomial, mb: Monomial|
                #[trigger] self@.dom().contains(ma) && #[trigger] other@.dom().contains(mb) implies product_fits(
                ma,
                mb,
            ) && reduce_fits(t, mono_mul(ma, mb)) by {
                assert forall|id: u32| mono_exp(ma, id) + mono_exp(mb, id) <= EXPONENT_SANITY_LIMIT by {
                    lemma_exps_within_degree(ma, id, id);
                    lemma_exps_within_degree(mb, id, id);
                }
                let m = mono_mul(ma, mb);
                assert forall|i: int|
                    0 <= i < m.len() && reducible(t, #[trigger] m[i]) && has_partner(t, m[i].0) implies mono_exp(
                    m,
                    partner(t, m[i].0).0,
                ) + 2 * (m[i].1 / 2) as int <= EXPONENT_SANITY_LIMIT by {
                    let g = m[i].0.0;
                    let p = partner(t, m[i].0).0;
                    lemma_partner_facts(t, m[i], m[i]);
                    lemma_mono_exp_wf(m, g);
                    assert(mono_exp(m, g) == m[i].1);
                    lemma_exps_within_degree(ma, p, g);
                    lemma_exps_within_degree(mb, p, g);
                }
            }
        }
        Some(self.mul(other, table))
    }
}

/// A prefix of a monomial has no larger total degree.
proof fn lemma_take_degree(g: Monomial, l: int)
    requires
        0 <= l <= g.len(),
    ensures
        total_degree(g.take(l)) <= total_degree(g),
    decreases g.len(),
{
    if l < g.len() {
        let h = g.drop_last();
        assert(g.take(l) =~= h.take(l));
        lemma_take_degree(h, l);
    } else {
        assert(g.take(l) =~= g);
    }
}

/// The largest total degree of a monomial of `p` (`0` for a constant),
/// once all of them are known to stay within the limit.
fn max_degree(p: &Poly) -> (r: u32)
    requires
        forall|m: Monomial| #[trigger] p@.dom().contains(m) ==> total_degree(m) <= EXPONENT_SANITY_LIMIT,
    ensures
        r <= EXPONENT_SANITY_LIMIT,
        forall|m: Monomial| #[trigger] p@.dom().contains(m) ==> total_degree(m) <= r,
{
    let ts = p.terms();
    proof {
        lemma_entries_len(ts@);
        lemma_coeffs_distinct(entries(ts@));
    }
    proof {
        assert forall|x: int| 0 <= x < ts@.len() implies p@.dom().contains(
            #[trigger] ts@[x].generators@,
        ) by {
            assert(entries(ts@)[x] == entry(ts@[x]));
        }
    }
    let mut best: u32 = 0;
    let mut k: usize = 0;
    while k < ts.len()
        invariant
            0 <= k <= ts@.len(),
            forall|x: int| 0 <= x < ts@.len() ==> p@.dom().contains(#[trigger] ts@[x].generators@),
            best <= EXPONENT_SANITY_LIMIT,
            entries(ts@).len() == ts@.len(),
            forall|x: int| 0 <= x < ts@.len() ==> #[trigger] entries(ts@)[x] == entry(ts@[x]),
            coeffs(entries(ts@)) == p@,
            forall|m: Monomial| #[trigger] p@.dom().contains(m) ==> total_degree(m) <= EXPONENT_SANITY_LIMIT,
            forall|x: int| 0 <= x < k ==> total_degree((#[trigger] ts@[x]).generators@) <= best,
        decreases ts@.len() - k,
    {
        let g = &ts[k].generators;
        proof {
            assert(entries(ts@)[k as int] == entry(ts@[k as int]));
            assert(p@.dom().contains(g@));
            assert forall|l: int| 0 <= l <= g@.len() implies total_degree(#[trigger] g@.take(l))
                <= total_degree(g@) by {
                lemma_take_degree(g@, l);
            }
        }
        let mut d: u64 = 0;
        let mut j: usize = 0;
        while j < g.len()
            invariant
                0 <= j <= g@.len(),
                d == total_degree(g@.take(j as int)),
                total_degree(g@) <= EXPONENT_SANITY_LIMIT,
                forall|l: int| 0 <= l <= g@.len() ==> total_degree(#[trigger] g@.take(l)) <= total_degree(g@),
            decreases g@.len() - j,
        {
            proof {
                assert(g@.take(j + 1).drop_last() =~= g@.take(j as int));
            }
            d = d + g[j].1 as u64;
            j += 1;
        }
        proof {
            assert(g@.take(g@.len() as int) =~= g@);
        }
        if d as u32 > best {
            best = d as u32;
        }
        k += 1;
    }
    proof {
        assert forall|m: Monomial| #[trigger] p@.dom().contains(m) implies total_degree(m) <= best by {
            let x = choose|x: int| 0 <= x < entries(ts@).len() && entries(ts@)[x].0 == m;
            assert(entries(ts@)[x] == entry(ts@[x]));
        }
    }
    best
}

impl Poly {
    /// [`Poly::normalize_trig`] where its limits are seen to hold: room
    /// for the partners, every generator interned, and every monomial of
    /// total degree at most the exponent sanity limit. `None` otherwise,
    /// with the table unchanged.
    pub fn try_normalize_trig(&self, table: &mut AtomTable) -> (r: Option<Poly>)
        requires
            old(table).wf(),
        ensures
            final(table).wf(),
            partners_only(old(table)@, final(table)@),
            r matches Some(p) ==> p@ == reduced_mul(final(table)@, self@, unit_poly())
                && trig_reduced(final(table)@, p@),
            r is None ==> final(table)@ == old(table)@,
    {
        proof {
            lemma_partners_only_refl(table@);
        }
        let n = table.len();
        if n >= 2147483647 {
            return None;
        }
        if !degrees_and_generators_within(self, EXPONENT_SANITY_LIMIT as u64, n) {
            return None;
        }
        let ts = self.terms();
        proof {
            lemma_terms_model(ts@);
            let t = table@;
            assert(room_for_partners(t));
            assert forall|m: Monomial| #[trigger] self@.dom().contains(m) implies gens_below(t, m) by {}
            assert forall|m: Monomial| #[trigger] self@.dom().contains(m) implies reduce_fits(t, m) by {
                assert forall|i: int|
                    0 <= i < m.len() && reducible(t, #[trigger] m[i]) && has_partner(t, m[i].0) implies mono_exp(
                    m,
                    partner(t, m[i].0).0,
                ) + 2 * (m[i].1 / 2) as int <= EXPONENT_SANITY_LIMIT by {
                    let g = m[i].0.0;
                    let p = partner(t, m[i].0).0;
                    lemma_partner_facts(t, m[i], m[i]);
                    lemma_mono_exp_wf(m, g);
                    lemma_exps_within_degree(m, p, g);
                }
            }
        }
        Some(self.normalize_trig(table))
    }
}

} // verus!
