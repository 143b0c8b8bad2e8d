//! Denominators held as products of known generators: a list of
//! `(generator index, exponent)` pairs, each generator at most once, and
//! the two ways two such products are combined.
use vstd::prelude::*;

verus! {

/// A product `g_i ^ e` of generators, one pair per factor.
pub type Factors = Seq<(usize, u32)>;

/// No generator occurs twice.
pub open spec fn distinct_generators(s: Factors) -> bool {
    forall|i: int, j: int| 0 <= i < j < s.len() ==> (#[trigger] s[i]).0 != (#[trigger] s[j]).0
}

/// The exponent of each generator that occurs.
pub open spec fn exponents(s: Factors) -> Map<usize, u32>
    decreases s.len(),
{
    if s.len() == 0 {
        Map::empty()
    } else {
        exponents(s.drop_last()).insert(s.last().0, s.last().1)
    }
}

/// The generators of `s`, in order, that `present` does not hold.
pub open spec fn new_generators(s: Factors, present: Set<usize>) -> Seq<usize>
    decreases s.len(),
{
    if s.len() == 0 {
        Seq::empty()
    } else if present.contains(s.last().0) {
        new_generators(s.drop_last(), present)
    } else {
        new_generators(s.drop_last(), present).push(s.last().0)
    }
}

/// The exponent of `g` in `s` (`0` where it does not occur).
pub open spec fn exponent_in(s: Factors, g: usize) -> int {
    if exponents(s).dom().contains(g) {
        exponents(s)[g] as int
    } else {
        0
    }
}

/// With distinct generators, `exponents` reads each pair.
pub proof fn lemma_exponents_of_distinct(s: Factors)
    requires
        distinct_generators(s),
    ensures
        forall|i: int|
            0 <= i < s.len() ==> #[trigger] exponents(s).dom().contains(s[i].0) && exponents(
                s,
            )[s[i].0] == s[i].1,
        forall|g: usize|
            #[trigger] exponents(s).dom().contains(g) ==> exists|i: int|
                0 <= i < s.len() && s[i].0 == g,
    decreases s.len(),
{
    if s.len() > 0 {
        let t = s.drop_last();
        assert(distinct_generators(t)) by {
            assert forall|i: int, j: int| 0 <= i < j < t.len() implies (#[trigger] t[i]).0 != (
            #[trigger] t[j]).0 by {
                assert(t[i] == s[i] && t[j] == s[j]);
            }
        }
        lemma_exponents_of_distinct(t);
        assert forall|i: int| 0 <= i < s.len() implies #[trigger] exponents(s).dom().contains(
            s[i].0,
        ) && exponents(s)[s[i].0] == s[i].1 by {
            if i < s.len() - 1 {
                assert(t[i] == s[i]);
                assert(exponents(t).dom().contains(t[i].0));
                assert(s[i].0 != s[s.len() - 1].0);
            }
        }
        assert forall|g: usize| #[trigger] exponents(s).dom().contains(g) implies exists|i: int|
            0 <= i < s.len() && s[i].0 == g by {
            if g != s.last().0 {
                assert(exponents(t).dom().contains(g));
                let i = choose|i: int| 0 <= i < t.len() && t[i].0 == g;
                assert(s[i] == t[i]);
            } else {
                assert(s[s.len() - 1].0 == g);
            }
        }
    }
}

/// Replacing the exponent of a generator that occurs once.
proof fn lemma_exponents_update(s: Factors, i: int, v: u32)
    requires
        distinct_generators(s),
        0 <= i < s.len(),
    ensures
        exponents(s.update(i, (s[i].0, v))) == exponents(s).insert(s[i].0, v),
    decreases s.len(),
{
    let u = s.update(i, (s[i].0, v));
    if i == s.len() - 1 {
        assert(u.drop_last() =~= s.drop_last());
        lemma_exponents_of_distinct(s);
        assert(exponents(s).insert(s[i].0, v) =~= exponents(s.drop_last()).insert(s[i].0, v));
    } else {
        let t = s.drop_last();
        assert(distinct_generators(t)) by {
            assert forall|a: int, b: int| 0 <= a < b < t.len() implies (#[trigger] t[a]).0 != (
            #[trigger] t[b]).0 by {
                assert(t[a] == s[a] && t[b] == s[b]);
            }
        }
        lemma_exponents_update(t, i, v);
        assert(u.drop_last() =~= t.update(i, (t[i].0, v)));
        assert(s[i].0 != s.last().0);
        assert(exponents(u) =~= exponents(s).insert(s[i].0, v));
    }
}

/// The exponent of each generator of `den` or `other`, combined.
pub open spec fn merged(den: Factors, other: Factors, sum: bool) -> Map<usize, u32> {
    Map::new(
        |g: usize| exponents(den).dom().contains(g) || exponents(other).dom().contains(g),
        |g: usize| combine(exponent_in(den, g), exponent_in(other, g), sum) as u32,
    )
}

/// How a generator present on both sides is combined.
pub open spec fn combine(a: int, b: int, sum: bool) -> int {
    if sum {
        a + b
    } else if a >= b {
        a
    } else {
        b
    }
}

/// The generators that `merge_add` and `merge_max` append.
pub open spec fn appended(den: Factors, other: Factors) -> Seq<usize> {
    new_generators(other, exponents(den).dom())
}

/// `den`'s pairs keep their place, the generators of `other` that `den`
/// lacks follow in `other`'s order, and no generator occurs twice.
pub open spec fn merged_shape(den: Factors, other: Factors, r: Factors) -> bool {
    &&& distinct_generators(r)
    &&& r.len() == den.len() + appended(den, other).len()
    &&& forall|i: int| 0 <= i < den.len() ==> (#[trigger] r[i]).0 == den[i].0
    &&& forall|i: int|
        0 <= i < appended(den, other).len() ==> (#[trigger] r[den.len() + i]).0 == appended(
            den,
            other,
        )[i]
}

proof fn lemma_take_step(s: Factors, present: Set<usize>, k: int)
    requires
        0 <= k < s.len(),
    ensures
        new_generators(s.take(k + 1), present) == if present.contains(s[k].0) {
            new_generators(s.take(k), present)
        } else {
            new_generators(s.take(k), present).push(s[k].0)
        },
        exponents(s.take(k + 1)) == exponents(s.take(k)).insert(s[k].0, s[k].1),
{
    assert(s.take(k + 1).drop_last() =~= s.take(k));
}

/// Multiplies the product `den` by the product `other`: exponents of a
/// generator in both are added.
pub fn merge_add(den: &mut Vec<(usize, u32)>, other: &[(usize, u32)])
    requires
        distinct_generators(old(den)@),
        distinct_generators(other@),
        forall|g: usize| exponent_in(old(den)@, g) + exponent_in(other@, g) <= u32::MAX,
    ensures
        merged_shape(old(den)@, other@, final(den)@),
        exponents(final(den)@) == merged(old(den)@, other@, true),
{
    merge_with(den, other, true);
}

/// The least common multiple of the products `den` and `other`: the
/// larger exponent of a generator in both is kept.
pub fn merge_max(den: &mut Vec<(usize, u32)>, other: &[(usize, u32)])
    requires
        distinct_generators(old(den)@),
        distinct_generators(other@),
    ensures
        merged_shape(old(den)@, other@, final(den)@),
        exponents(final(den)@) == merged(old(den)@, other@, false),
{
    merge_with(den, other, false);
}

/// Where `g` occurs in `den`.
fn position_of(den: &Vec<(usize, u32)>, g: usize) -> (r: Option<usize>)
    ensures
        match r {
            Some(i) => i < den@.len() && den@[i as int].0 == g,
            None => forall|i: int| 0 <= i < den@.len() ==> (#[trigger] den@[i]).0 != g,
        },
{
    let mut i: usize = 0;
    while i < den.len()
        invariant
            0 <= i <= den@.len(),
            forall|m: int| 0 <= m < i ==> (#[trigger] den@[m]).0 != g,
        decreases den@.len() - i,
    {
        if den[i].0 == g {
            return Some(i);
        }
        i += 1;
    }
    None
}

fn merge_with(den: &mut Vec<(usize, u32)>, other: &[(usize, u32)], sum: bool)
    requires
        distinct_generators(old(den)@),
        distinct_generators(other@),
        sum ==> forall|g: usize| exponent_in(old(den)@, g) + exponent_in(other@, g) <= u32::MAX,
    ensures
        merged_shape(old(den)@, other@, final(den)@),
        exponents(final(den)@) == merged(old(den)@, other@, sum),
{
    let ghost d0 = den@;
    proof {
        lemma_exponents_of_distinct(other@);
        assert(other@.take(0) =~= Seq::<(usize, u32)>::empty());
        assert(exponents(den@) =~= merged(d0, other@.take(0), sum));
    }
    let mut k: usize = 0;
    while k < other.len()
        invariant
            0 <= k <= other@.len(),
            distinct_generators(d0),
            distinct_generators(other@),
            sum ==> forall|g: usize| exponent_in(d0, g) + exponent_in(other@, g) <= u32::MAX,
            forall|i: int|
                0 <= i < other@.len() ==> #[trigger] exponents(other@).dom().contains(other@[i].0)
                    && exponents(other@)[other@[i].0] == other@[i].1,
            merged_shape(d0, other@.take(k as int), den@),
            exponents(den@) == merged(d0, other@.take(k as int), sum),
        decreases other@.len() - k,
    {
        let (g, e) = other[k];
        let ghost before = den@;
        let ghost tk = other@.take(k as int);
        proof {
            lemma_take_step(other@, exponents(d0).dom(), k as int);
            lemma_exponents_of_distinct(before);
            assert(!exponents(tk).dom().contains(g)) by {
                assert(distinct_generators(tk)) by {
                    assert forall|a: int, b: int| 0 <= a < b < tk.len() implies (
                    #[trigger] tk[a]).0 != (#[trigger] tk[b]).0 by {
                        assert(tk[a] == other@[a] && tk[b] == other@[b]);
                    }
                }
                lemma_exponents_of_distinct(tk);
                if exponents(tk).dom().contains(g) {
                    let j = choose|j: int| 0 <= j < tk.len() && tk[j].0 == g;
                    assert(tk[j] == other@[j]);
                }
            }
            assert(exponent_in(other@, g) == e);
        }
        match position_of(den, g) {
            Some(found) => {
                proof {
                    assert(exponents(before).dom().contains(g));
                    assert(exponents(d0).dom().contains(g));
                    assert(before[found as int].1 == exponents(before)[g]);
                    if sum {
                        assert(exponent_in(d0, g) + exponent_in(other@, g) <= u32::MAX);
                    }
                }
                let old_e = den[found].1;
                let new_e = if sum {
                    old_e + e
                } else if old_e >= e {
                    old_e
                } else {
                    e
                };
                den.set(found, (g, new_e));
                proof {
                    lemma_exponents_update(before, found as int, new_e);
                    assert(exponents(den@) =~= merged(d0, other@.take(k + 1), sum));
                    assert(distinct_generators(den@)) by {
                        assert forall|a: int, b: int| 0 <= a < b < den@.len() implies (
                        #[trigger] den@[a]).0 != (#[trigger] den@[b]).0 by {
                            assert(den@[a].0 == before[a].0);
                            assert(den@[b].0 == before[b].0);
                        }
                    }
                    assert(merged_shape(d0, other@.take(k + 1), den@)) by {
                        assert forall|i: int| 0 <= i < den@.len() implies (#[trigger] den@[i]).0
                            == before[i].0 by {}
                    }
                }
            },
            None => {
                proof {
                    assert(!exponents(before).dom().contains(g)) by {
                        if exponents(before).dom().contains(g) {
                            let i = choose|i: int| 0 <= i < before.len() && before[i].0 == g;
                            assert(before[i].0 != g);
                        }
                    }
                    assert(!exponents(d0).dom().contains(g));
                }
                den.push((g, e));
                proof {
                    assert(den@.drop_last() =~= before);
                    assert(exponents(den@) =~= merged(d0, other@.take(k + 1), sum));
                    assert(distinct_generators(den@)) by {
                        assert forall|a: int, b: int| 0 <= a < b < den@.len() implies (
                        #[trigger] den@[a]).0 != (#[trigger] den@[b]).0 by {
                            assert(den@[a] == before[a]);
                            if b < before.len() {
                                assert(den@[b] == before[b]);
                            }
                        }
                    }
                    assert(merged_shape(d0, other@.take(k + 1), den@)) by {
                        assert forall|i: int| 0 <= i < before.len() implies (#[trigger] den@[i])
                            == before[i] by {}
                    }
                }
            },
        }
        k += 1;
    }
    proof {
        assert(other@.take(other@.len() as int) =~= other@);
    }
}

} // verus!
