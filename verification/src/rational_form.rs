//! The rational normal form of an expression: a numerator and a
//! denominator polynomial over one table of generators, kept free of
//! common factors by their polynomial GCD, and turned back into an
//! expression in canonical order.
use vstd::prelude::*;
use crate::atoms::AtomTable;
use crate::big_scalar::BigScalar;
use crate::atoms::{AtomKeyV, atom_expr};
use crate::canonical::{
    atoms_below, is_normal_form, lemma_constant_expr, lemma_single_generator_expr, poly_atoms_below, poly_expr,
    quotient_expr, rational_to_expr, terms_sorted, RationalFunction,
};
use crate::expr::{Expr, ExprV, exprs_view, lemma_exprs_view};
use crate::poly::{
    AtomId, Monomial, Poly, Term, coeffs, constant_terms, entries, entry, lemma_coeffs_distinct, lemma_entries_len,
};
use crate::poly_gcd::poly_gcd_bounded;
use crate::trig::{col_step_reduced, reduced_mul, unit_poly};

verus! {

/// The terms of the generator `id` to the first power.
pub open spec fn lone_generator(id: u32) -> Seq<(Monomial, (int, int))> {
    seq![(seq![(AtomId(id), 1u32)], (1int, 1int))]
}

/// `e` is a sum whose every term is the number `0`.
pub open spec fn zero_sum(e: ExprV) -> bool {
    &&& e is Add
    &&& forall|i: int| 0 <= i < e->Add_0.len() ==> #[trigger] e->Add_0[i] == ExprV::Rational(0, 1)
}

/// A product with the zero polynomial on the left is zero.
proof fn lemma_reduced_mul_zero(t: Seq<AtomKeyV>, b: Map<Monomial, (int, int)>)
    ensures
        reduced_mul(t, Map::<Monomial, (int, int)>::empty(), b) == Map::<Monomial, (int, int)>::empty(),
{
    let a = Map::<Monomial, (int, int)>::empty();
    assert(a.dom() =~= Set::<Monomial>::empty());
    crate::rational::lemma_integer_canonical(0);
    crate::rational::lemma_canon((0, 1), (0, 1));
    assert forall|m: Monomial| !#[trigger] reduced_mul(t, a, b).dom().contains(m) by {
        vstd::set::fold::lemma_fold_empty((0int, 1int), col_step_reduced(t, a, b, m));
    }
    assert(reduced_mul(t, a, b) =~= a);
}

/// `e` becomes a single generator: a variable, or a call of a known
/// function (`sin`, `cos`, `exp`, `sinh`, `cosh`) or of an indeterminate
/// one.
pub open spec fn becomes_generator(e: ExprV) -> bool {
    ||| e is Var
    ||| e is Sin
    ||| e is Cos
    ||| e is Exp
    ||| e is Sinh
    ||| e is Cosh
    ||| e is Func
}

/// `k` is the generator that `e` becomes: the same variable, or the same
/// function called with each argument in normal form (and, for an
/// indeterminate function, the same name and derivative orders).
pub open spec fn generator_of(e: ExprV, k: AtomKeyV) -> bool {
    match (e, k) {
        (ExprV::Var(a), AtomKeyV::Var(b)) => a == b,
        (ExprV::Sin(_), AtomKeyV::Sin(x)) => is_normal_form(x),
        (ExprV::Cos(_), AtomKeyV::Cos(x)) => is_normal_form(x),
        (ExprV::Exp(_), AtomKeyV::Exp(x)) => is_normal_form(x),
        (ExprV::Sinh(_), AtomKeyV::Sinh(x)) => is_normal_form(x),
        (ExprV::Cosh(_), AtomKeyV::Cosh(x)) => is_normal_form(x),
        (ExprV::Func(n1, a1, o1), AtomKeyV::Func(n2, a2, o2)) => {
            &&& n1 == n2
            &&& o1 == o2
            &&& a2.len() == a1.len()
            &&& forall|i: int| 0 <= i < a2.len() ==> is_normal_form(#[trigger] a2[i])
        },
        _ => false,
    }
}

/// The GCD of `a` and `b` with the `cos^2` and `cosh^2` identities held
/// back, then applied to the result; `None` where the GCD stops or a
/// limit of the identities would be passed.
pub fn poly_gcd(a: &Poly, b: &Poly, table: &mut AtomTable) -> (r: Option<Poly>)
    requires
        old(table).wf(),
    ensures
        final(table).wf(),
{
    let g = match poly_gcd_bounded(a, b, table, None) {
        Some(g) => g,
        None => return None,
    };
    g.try_normalize_trig(table)
}

/// Whether `p` is a constant (every term free of generators).
pub(crate) fn is_constant(p: &Poly) -> (r: bool) {
    let ts = p.terms();
    let mut i: usize = 0;
    while i < ts.len()
        decreases ts@.len() - i,
    {
        if ts[i].generators.len() != 0 {
            return false;
        }
        i += 1;
    }
    true
}

/// The first coefficient of `p` (`default` for zero).
fn first_coeff(p: &Poly, default: BigScalar) -> BigScalar {
    let ts = p.terms();
    if ts.len() == 0 {
        default
    } else {
        ts[0].coeff.clone()
    }
}

/// The constant polynomial `1`.
fn one() -> (r: Poly)
    ensures
        r@ == unit_poly(),
{
    crate::trig::one_poly()
}

/// The first reduction: a zero numerator over `1`; a zero denominator
/// kept; a constant denominator divided into the numerator; otherwise
/// both divided by their GCD.
fn reduce_candidate(num: Poly, den: Poly, table: &mut AtomTable) -> (r: Option<RationalFunction>)
    requires
        old(table).wf(),
    ensures
        final(table).wf(),
        num@ == Map::<Monomial, (int, int)>::empty() ==> (r matches Some(rf) && rf.num@ == num@
            && rf.den@ == unit_poly()),
{
    if num.is_zero() {
        return Some(RationalFunction { num, den: one() });
    }
    if den.is_zero() {
        return Some(RationalFunction { num, den });
    }
    if is_constant(&den) {
        let c = first_coeff(&den, BigScalar::one());
        return match c.recip() {
            Some(inv) => Some(RationalFunction { num: num.scale(inv), den: one() }),
            None => Some(RationalFunction { num, den }),
        };
    }
    let content = match poly_gcd(&num, &den, table) {
        Some(c) => c,
        None => return None,
    };
    if content.is_literal_one() {
        return Some(RationalFunction { num, den });
    }
    let final_num = match num.exact_div(&content) {
        Some(p) => p,
        None => return None,
    };
    let final_den = match den.exact_div(&content) {
        Some(p) => p,
        None => return None,
    };
    Some(RationalFunction { num: final_num, den: final_den })
}

/// `num / den` without common factors: the first reduction, then the GCD
/// of what is left divided out once more, and a constant denominator
/// divided into the numerator. `None` where a GCD stops or an exact
/// division it predicts fails.
pub fn reduce(num: Poly, den: Poly, table: &mut AtomTable) -> (r: Option<RationalFunction>)
    requires
        old(table).wf(),
    ensures
        final(table).wf(),
        num@ == Map::<Monomial, (int, int)>::empty() ==> (r matches Some(rf) && rf.num@ == num@
            && rf.den@ == unit_poly()),
{
    let rf = match reduce_candidate(num, den, table) {
        Some(rf) => rf,
        None => return None,
    };
    if rf.num.is_zero() {
        return Some(rf);
    }
    let content = match poly_gcd(&rf.num, &rf.den, table) {
        Some(c) => c,
        None => return None,
    };
    let (num, den) = if content.is_literal_one() {
        (rf.num, rf.den)
    } else {
        let n = match rf.num.exact_div(&content) {
            Some(p) => p,
            None => return None,
        };
        let d = match rf.den.exact_div(&content) {
            Some(p) => p,
            None => return None,
        };
        (n, d)
    };
    if !den.is_zero() && is_constant(&den) {
        let c = first_coeff(&den, BigScalar::one());
        match c.recip() {
            Some(inv) => {
                return Some(RationalFunction { num: num.scale(inv), den: one() });
            },
            None => {},
        }
    }
    Some(RationalFunction { num, den })
}

/// Rewrites `e` to normal form through the rational normal form (see
/// [`normalize_via_rational_form`]); `None` where the engine stops.
pub fn normalize(e: &Expr) -> (r: Option<Expr>)
    ensures
        r matches Some(x) ==> is_normal_form(x@),
        e@ is Var ==> (r matches Some(x) && x@ == e@),
        e@ is Rational ==> (r matches Some(x) && x@ == e@),
        zero_sum(e@) ==> (r matches Some(x) ==> x@ == ExprV::Rational(0, 1)),
        becomes_generator(e@) ==> (r matches Some(x) ==> exists|k: AtomKeyV|
            generator_of(e@, k) && x@ == #[trigger] atom_expr(k)),
{
    normalize_via_rational_form(e)
}

/// `p^n` by repeated products with the identities applied.
fn power(p: &Poly, n: u32, table: &mut AtomTable) -> (r: Option<Poly>)
    requires
        old(table).wf(),
    ensures
        final(table).wf(),
{
    let mut acc = one();
    let mut i: u32 = 0;
    while i < n
        invariant
            table.wf(),
        decreases n - i,
    {
        acc = match acc.try_mul(p, table) {
            Some(x) => x,
            None => return None,
        };
        i += 1;
    }
    Some(acc)
}

impl RationalFunction {
    /// The sum of two quotients over the product of their denominators,
    /// reduced.
    pub fn add(&self, other: &RationalFunction, table: &mut AtomTable) -> (r: Option<
        RationalFunction,
    >)
        requires
            old(table).wf(),
        ensures
            final(table).wf(),
    {
        let x = match self.num.try_mul(&other.den, table) {
            Some(p) => p,
            None => return None,
        };
        let y = match other.num.try_mul(&self.den, table) {
            Some(p) => p,
            None => return None,
        };
        let den = match self.den.try_mul(&other.den, table) {
            Some(p) => p,
            None => return None,
        };
        reduce(x.add(&y), den, table)
    }

    /// The product of two quotients, reduced.
    pub fn mul(&self, other: &RationalFunction, table: &mut AtomTable) -> (r: Option<
        RationalFunction,
    >)
        requires
            old(table).wf(),
        ensures
            final(table).wf(),
    {
        let num = match self.num.try_mul(&other.num, table) {
            Some(p) => p,
            None => return None,
        };
        let den = match self.den.try_mul(&other.den, table) {
            Some(p) => p,
            None => return None,
        };
        reduce(num, den, table)
    }

    /// A quotient to the integer power `n`, reduced: a negative power
    /// swaps numerator and denominator.
    pub fn pow(&self, n: i32, table: &mut AtomTable) -> (r: Option<RationalFunction>)
        requires
            old(table).wf(),
        ensures
            final(table).wf(),
    {
        let (base_num, base_den, m) = if n >= 0 {
            (&self.num, &self.den, n as u32)
        } else {
            (&self.den, &self.num, ((-(n + 1)) as u32) + 1)
        };
        let num = match power(base_num, m, table) {
            Some(p) => p,
            None => return None,
        };
        let den = match power(base_den, m, table) {
            Some(p) => p,
            None => return None,
        };
        reduce(num, den, table)
    }
}

/// `e` as a reduced quotient of polynomials over `table`: a number is a
/// constant; a variable, or a function of a normalized argument, is a
/// generator; sums go over a common denominator and are reduced once,
/// products and powers are reduced at each step. `None` where the engine
/// stops (a GCD, an exact division it predicts, a limit, or a table
/// too full to take another generator).
#[verifier::loop_isolation(false)]
pub fn expr_to_rational(e: &Expr, table: &mut AtomTable) -> (r: Option<RationalFunction>)
    requires
        old(table).wf(),
    ensures
        final(table).wf(),
        e@ is Var && old(table)@.len() < u32::MAX ==> r is Some,
        zero_sum(e@) ==> (r matches Some(rf) ==> rf.num@ == Map::<Monomial, (int, int)>::empty()
            && rf.den@ == unit_poly()),
        e@ matches ExprV::Rational(n, d) ==> (r matches Some(rf) && entries(rf.num.terms_spec())
            == constant_terms((n, d)) && rf.den@ == unit_poly() && (n == 0 ==> d == 1)),
        becomes_generator(e@) ==> (r matches Some(rf) ==> exists|id: u32|
            id < final(table)@.len() && generator_of(e@, final(table)@[id as int]) && entries(
                rf.num.terms_spec(),
            ) == #[trigger] lone_generator(id) && rf.den@ == unit_poly()),
    decreases e, 0nat,
{
    match e {
        Expr::Rational(s) => {
            let c = s.clone();
            assert(c@ == s@);
            Some(RationalFunction::from_poly(Poly::constant(c)))
        },
        Expr::Var(name) => {
            if table.len() >= 4294967295usize {
                return None;
            }
            let id = table.var(name.as_str());
            let rf = RationalFunction::from_poly(Poly::generator(id));
            proof {
                assert(entries(rf.num.terms_spec()) == lone_generator(id.0));
            }
            Some(rf)
        },
        Expr::Add(terms) => {
            let mut num_acc = Poly::zero();
            let mut den_acc = one();
            let mut i: usize = 0;
            proof {
                lemma_exprs_view(terms@);
            }
            while i < terms.len()
                invariant
                    table.wf(),
                    zero_sum(e@) ==> num_acc@ == Map::<Monomial, (int, int)>::empty(),
                decreases terms@.len() - i,
            {
                let rf = match expr_to_rational(&terms[i], table) {
                    Some(rf) => rf,
                    None => return None,
                };
                proof {
                    if zero_sum(e@) {
                        assert(e@->Add_0 == exprs_view(terms@));
                        assert(exprs_view(terms@)[i as int] == terms@[i as int]@);
                        assert(terms[i as int]@ == ExprV::Rational(0, 1));
                        rf.num.lemma_view_of_terms();
                        assert(entries(rf.num.terms_spec()) =~= Seq::empty());
                    }
                }
                let x = match num_acc.try_mul(&rf.den, table) {
                    Some(p) => p,
                    None => return None,
                };
                proof {
                    lemma_reduced_mul_zero(table@, rf.den@);
                }
                let y = match rf.num.try_mul(&den_acc, table) {
                    Some(p) => p,
                    None => return None,
                };
                proof {
                    lemma_reduced_mul_zero(table@, den_acc@);
                }
                let new_den = match den_acc.try_mul(&rf.den, table) {
                    Some(p) => p,
                    None => return None,
                };
                num_acc = x.add(&y);
                den_acc = new_den;
                i += 1;
            }
            reduce(num_acc, den_acc, table)
        },
        Expr::Mul(factors) => {
            let mut acc = RationalFunction::from_poly(one());
            let mut i: usize = 0;
            while i < factors.len()
                invariant
                    table.wf(),
                decreases factors@.len() - i,
            {
                let rf = match expr_to_rational(&factors[i], table) {
                    Some(rf) => rf,
                    None => return None,
                };
                acc = match acc.mul(&rf, table) {
                    Some(x) => x,
                    None => return None,
                };
                i += 1;
            }
            Some(acc)
        },
        Expr::Pow(base, n) => {
            let b = match expr_to_rational(base, table) {
                Some(rf) => rf,
                None => return None,
            };
            b.pow(*n, table)
        },
        Expr::Sin(arg) | Expr::Cos(arg) | Expr::Exp(arg) | Expr::Sinh(arg) | Expr::Cosh(arg) => {
            let canonical_arg = match normalize_via_rational_form(arg) {
                Some(x) => x,
                None => return None,
            };
            if table.len() >= 4294967295usize {
                return None;
            }
            let id = match e {
                Expr::Sin(_) => table.sin(canonical_arg),
                Expr::Cos(_) => table.cos(canonical_arg),
                Expr::Exp(_) => table.exp(canonical_arg),
                Expr::Sinh(_) => table.sinh(canonical_arg),
                _ => table.cosh(canonical_arg),
            };
            let rf = RationalFunction::from_poly(Poly::generator(id));
            proof {
                assert(AtomId(id.0) == id);
                assert(entries(rf.num.terms_spec()) == lone_generator(id.0));
            }
            Some(rf)
        },
        Expr::Func { name, args, order } => {
            let mut canonical_args: Vec<Expr> = Vec::new();
            let mut i: usize = 0;
            while i < args.len()
                invariant
                    i <= args@.len(),
                    canonical_args@.len() == i,
                    forall|j: int| 0 <= j < i ==> is_normal_form(#[trigger] canonical_args@[j]@),
                decreases args@.len() - i,
            {
                match normalize_via_rational_form(&args[i]) {
                    Some(x) => canonical_args.push(x),
                    None => return None,
                }
                i += 1;
            }
            if table.len() >= 4294967295usize {
                return None;
            }
            let ghost cv = canonical_args@;
            let id = table.func(name.clone(), canonical_args, crate::expr::copy_u32s(order));
            let rf = RationalFunction::from_poly(Poly::generator(id));
            proof {
                lemma_exprs_view(cv);
                lemma_exprs_view(args@);
                assert(AtomId(id.0) == id);
                assert(entries(rf.num.terms_spec()) == lone_generator(id.0));
                assert forall|j: int| 0 <= j < exprs_view(cv).len() implies is_normal_form(
                    #[trigger] exprs_view(cv)[j],
                ) by {
                    assert(exprs_view(cv)[j] == cv[j]@);
                }
                assert(table@[id.0 as int] == AtomKeyV::Func(name@, exprs_view(cv), order@));
                assert(exprs_view(cv).len() == args@.len());
                assert(exprs_view(args@).len() == args@.len());
                assert(generator_of(e@, table@[id.0 as int]));
            }
            Some(rf)
        },
    }
}

/// Whether every generator of `p` is below `n`.
#[verifier::loop_isolation(false)]
pub(crate) fn atoms_within(p: &Poly, n: usize) -> (r: bool)
    ensures
        r == poly_atoms_below(p@, n as int),
{
    let ts = p.terms();
    proof {
        lemma_entries_len(ts@);
        lemma_coeffs_distinct(entries(ts@));
    }
    let mut k: usize = 0;
    while k < ts.len()
        invariant
            0 <= k <= ts@.len(),
            entries(ts@).len() == ts@.len(),
            forall|x: int| 0 <= x < ts@.len() ==> #[trigger] entries(ts@)[x] == entry(ts@[x]),
            forall|x: int| 0 <= x < k ==> atoms_below((#[trigger] ts@[x]).generators@, n as int),
        decreases ts@.len() - k,
    {
        let g = &ts[k].generators;
        let mut j: usize = 0;
        while j < g.len()
            invariant
                0 <= j <= g@.len(),
                forall|i: int| 0 <= i < j ==> (#[trigger] g@[i]).0.0 < n,
            decreases g@.len() - j,
        {
            if g[j].0.0 as usize >= n {
                proof {
                    assert(entries(ts@)[k as int].0 == g@);
                    assert(p@.dom().contains(g@));
                    assert(!atoms_below(g@, n as int));
                }
                return false;
            }
            j += 1;
        }
        k += 1;
    }
    proof {
        assert forall|m: Monomial| #[trigger] p@.dom().contains(m) implies atoms_below(m, n as int) by {
            let x = choose|x: int| 0 <= x < entries(ts@).len() && entries(ts@)[x].0 == m;
            assert(entries(ts@)[x] == entry(ts@[x]));
        }
    }
    true
}

/// `e` in normal form: reduced to a quotient of polynomials over a fresh
/// table of generators (each function's argument normalized first), and
/// turned back into an expression with numerator and denominator each
/// in canonical order. `None` where the engine stops.
pub fn normalize_via_rational_form(e: &Expr) -> (r: Option<Expr>)
    ensures
        r matches Some(x) ==> is_normal_form(x@),
        e@ is Var ==> (r matches Some(x) && x@ == e@),
        e@ is Rational ==> (r matches Some(x) && x@ == e@),
        zero_sum(e@) ==> (r matches Some(x) ==> x@ == ExprV::Rational(0, 1)),
        becomes_generator(e@) ==> (r matches Some(x) ==> exists|k: AtomKeyV|
            generator_of(e@, k) && x@ == #[trigger] atom_expr(k)),
    decreases e, 1nat,
{
    let mut table = AtomTable::new();
    let rf = match expr_to_rational(e, &mut table) {
        Some(rf) => rf,
        None => return None,
    };
    proof {
        if e@ is Rational {
            rf.num.lemma_view_of_terms();
            assert forall|m: Monomial| #[trigger] rf.num@.dom().contains(m) implies atoms_below(
                m,
                table@.len() as int,
            ) by {
                let es = entries(rf.num.terms_spec());
                lemma_coeffs_distinct(es);
                assert(m == Seq::<(AtomId, u32)>::empty());
            }
            assert forall|m: Monomial| #[trigger] rf.den@.dom().contains(m) implies atoms_below(
                m,
                table@.len() as int,
            ) by {
                assert(m == Seq::<(AtomId, u32)>::empty());
            }
        }
        if e@ is Var {
            let id = choose|id: u32|
                id < table@.len() && generator_of(e@, table@[id as int]) && entries(
                    rf.num.terms_spec(),
                ) == #[trigger] lone_generator(id) && rf.den@ == unit_poly();
            rf.num.lemma_view_of_terms();
            let es = lone_generator(id);
            assert(coeffs(es.drop_last()) =~= Map::<Monomial, (int, int)>::empty());
            assert(rf.num@ =~= map![seq![(AtomId(id), 1u32)] => (1int, 1int)]);
            assert forall|m: Monomial| #[trigger] rf.den@.dom().contains(m) implies atoms_below(
                m,
                table@.len() as int,
            ) by {
                assert(m == Seq::<(AtomId, u32)>::empty());
            }
        }
    }
    if !atoms_within(&rf.num, table.len()) || !atoms_within(&rf.den, table.len()) {
        return None;
    }
    let x = rational_to_expr(&rf, &table);
    proof {
        let t = table@;
        let (sn, sd) = choose|sn: Seq<Term>, sd: Seq<Term>|
            entries(sn).to_multiset() == entries(rf.num.terms_spec()).to_multiset() && terms_sorted(
                t,
                sn,
            ) && terms_sorted(t, sd) && x@ == #[trigger] quotient_expr(
                poly_expr(t, sn),
                rf.den@,
                poly_expr(t, sd),
            );
        assert(is_normal_form(x@));
        if becomes_generator(e@) {
            let id = choose|id: u32|
                id < t.len() && generator_of(e@, t[id as int]) && entries(rf.num.terms_spec())
                    == #[trigger] lone_generator(id) && rf.den@ == unit_poly();
            assert(unit_poly().dom().contains(Seq::<(AtomId, u32)>::empty()));
            assert(rf.den@ != Map::<Monomial, (int, int)>::empty());
            lemma_single_generator_expr(t, sn, id);
            assert(x@ == atom_expr(t[id as int]));
        }
        if zero_sum(e@) {
            assert(unit_poly().dom().contains(Seq::<(AtomId, u32)>::empty()));
            assert(rf.den@ != Map::<Monomial, (int, int)>::empty());
            rf.num.lemma_view_of_terms();
            let es = entries(rf.num.terms_spec());
            if es.len() > 0 {
                assert(coeffs(es).dom().contains(es.last().0));
            }
            assert(es =~= constant_terms((0, 1)));
            lemma_constant_expr(t, sn, (0, 1));
        }
        if e@ is Rational {
            assert(unit_poly().dom().contains(Seq::<(AtomId, u32)>::empty()));
            assert(rf.den@ != Map::<Monomial, (int, int)>::empty());
            lemma_constant_expr(t, sn, (e@->Rational_0, e@->Rational_1));
        }
    }
    Some(x)
}

} // verus!
