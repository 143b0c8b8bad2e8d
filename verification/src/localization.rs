//! The localized rational form: denominators kept as products of known,
//! square-free, pairwise coprime generator polynomials (admitted as they
//! are met), so that sums and products never need a general polynomial
//! GCD; what cannot be put in that shape is carried in an overflow
//! denominator and handed to the general engine.
use vstd::prelude::*;
use crate::atoms::AtomTable;
use crate::big_scalar::BigScalar;
use crate::canonical::{poly_to_expr, RationalFunction};
use crate::expr::{Expr, ExprV, clone_expr, expr_equal};
use crate::localized::{distinct_generators, exponent_in, lemma_exponents_of_distinct, merge_add, merge_max};
use crate::poly::{AtomId, Monomial, Poly};
use crate::rational_form::{expr_to_rational, is_constant, normalize_via_rational_form, poly_gcd, reduce};
use crate::upoly::copy_poly;

verus! {

/// A denominator left the localized generators and the general engine
/// was not allowed to run: the denominator, and the generators known.
#[derive(Debug)]
pub struct LocalizationBudgetExceeded {
    pub denominator: Expr,
    pub generators: Vec<Expr>,
}

impl LocalizationBudgetExceeded {
    /// The diagnostic: the denominator that left the localized generators,
    /// and the generators known (an expression the text renderer cannot
    /// write shows as `?`).
    pub fn message(&self) -> (r: String) {
        let mut s = String::new();
        crate::text::push_str(&mut s, "denominador `");
        push_expr(&mut s, &self.denominator);
        crate::text::push_str(&mut s, "` saiu do conjunto de geradores localizados [");
        let mut i: usize = 0;
        while i < self.generators.len()
            decreases self.generators@.len() - i,
        {
            if i > 0 {
                crate::text::push_str(&mut s, ", ");
            }
            push_expr(&mut s, &self.generators[i]);
            i += 1;
        }
        crate::text::push_str(&mut s, "] e o motor geral não terminou dentro do orçamento");
        s
    }
}

/// Appends the plain text of `e`, or `?` where it cannot be rendered.
fn push_expr(s: &mut String, e: &Expr) {
    if crate::render::is_renderable(e) {
        let t = e.to_text();
        crate::text::push_str(s, t.as_str());
    } else {
        crate::text::push_str(s, "?");
    }
}

/// A localized generator: its polynomial and the expression it came from.
struct Generator {
    poly: Poly,
    source: Expr,
}

/// The generators admitted so far, over one table, and a log of every
/// factor folded into the general engine.
pub struct LocalizationContext {
    table: AtomTable,
    generators: Vec<Generator>,
    fallback_log: Vec<String>,
}

/// `num * den_gens^-1 * overflow^-1`: `den` pairs a generator index with
/// its exponent, each generator once.
pub struct LocalizedRational {
    num: Poly,
    den: Vec<(usize, u32)>,
    overflow: Poly,
}

impl LocalizationContext {
    /// The table is well formed.
    pub closed spec fn wf(&self) -> bool {
        self.table.wf()
    }

    /// The expressions the generators came from, in admission order.
    pub closed spec fn sources(&self) -> Seq<ExprV> {
        self.generators@.map_values(|g: Generator| g.source@)
    }

    /// The fallback messages so far.
    pub closed spec fn log(&self) -> Seq<Seq<char>> {
        self.fallback_log@.map_values(|m: String| m@)
    }

    /// A context seeded with `seed_generators`, each put through the same
    /// classification as a denominator met later (a seed is admitted, or
    /// decomposed into those before it). `None` where the engine stops.
    pub fn new(seed_generators: &Vec<Expr>) -> (r: Option<LocalizationContext>)
        ensures
            r matches Some(c) ==> c.wf(),
    {
        let mut ctx = LocalizationContext {
            table: AtomTable::new(),
            generators: Vec::new(),
            fallback_log: Vec::new(),
        };
        let mut i: usize = 0;
        while i < seed_generators.len()
            invariant
                ctx.wf(),
            decreases seed_generators@.len() - i,
        {
            let poly = match plain_poly_of(&seed_generators[i], &mut ctx.table) {
                Some(p) => p,
                None => return None,
            };
            match classify_or_admit(&poly, &mut ctx) {
                Some(_) => {},
                None => return None,
            }
            i += 1;
        }
        Some(ctx)
    }

    /// The messages of every fallback to the general engine.
    pub fn fallback_log(&self) -> (r: &Vec<String>)
        ensures
            r@.map_values(|m: String| m@) == self.log(),
    {
        &self.fallback_log
    }

    /// How many generators are known.
    pub fn generator_count(&self) -> (r: usize)
        ensures
            r == self.sources().len(),
    {
        self.generators.len()
    }

    /// The expressions the generators came from, in admission order.
    pub fn generator_sources(&self) -> (r: Vec<Expr>)
        ensures
            r@.map_values(|e: Expr| e@) == self.sources(),
    {
        let mut out: Vec<Expr> = Vec::new();
        let mut i: usize = 0;
        while i < self.generators.len()
            invariant
                0 <= i <= self.generators@.len(),
                out@.map_values(|e: Expr| e@) == self.sources().take(i as int),
            decreases self.generators@.len() - i,
        {
            let e = clone_expr(&self.generators[i].source);
            let ghost before = out@;
            out.push(e);
            proof {
                assert(out@.map_values(|e: Expr| e@) =~= before.map_values(|e: Expr| e@).push(e@));
                assert(self.sources().take(i + 1) =~= self.sources().take(i as int).push(
                    self.generators@[i as int].source@,
                ));
            }
            i += 1;
        }
        proof {
            assert(self.sources().take(self.generators@.len() as int) =~= self.sources());
        }
        out
    }
}

/// `e` as a plain polynomial; `None` where it has a denominator of its
/// own (a nested fraction, outside what a generator may be) or the
/// engine stops.
fn plain_poly_of(e: &Expr, table: &mut AtomTable) -> (r: Option<Poly>)
    requires
        old(table).wf(),
    ensures
        final(table).wf(),
{
    let rf = match expr_to_rational(e, table) {
        Some(rf) => rf,
        None => return None,
    };
    if !rf.den.is_literal_one() {
        return None;
    }
    Some(rf.num)
}

/// The expression of a polynomial, where its generators are interned.
fn render_poly(p: &Poly, table: &AtomTable) -> (r: Option<Expr>)
    requires
        table.wf(),
{
    if !crate::rational_form::atoms_within(p, table.len()) {
        return None;
    }
    Some(poly_to_expr(p, table))
}

/// Hands `num / den` to the general engine, unless the budget is spent:
/// then the budget error, naming the denominator and the generators.
fn fallback_to_general_engine(
    num: Poly,
    den: Poly,
    ctx: &mut LocalizationContext,
    budget_spent: bool,
) -> (r: Option<Result<RationalFunction, LocalizationBudgetExceeded>>)
    requires
        old(ctx).wf(),
    ensures
        final(ctx).wf(),
        budget_spent ==> (r matches Some(x) ==> x is Err),
        !budget_spent ==> (r matches Some(x) ==> x is Ok),
{
    if budget_spent {
        let denominator = match render_poly(&den, &ctx.table) {
            Some(e) => e,
            None => return None,
        };
        let generators = ctx.generator_sources();
        return Some(Err(LocalizationBudgetExceeded { denominator, generators }));
    }
    match reduce(num, den, &mut ctx.table) {
        Some(rf) => Some(Ok(rf)),
        None => None,
    }
}

/// `p^m` by repeated products with the identities applied.
fn power(p: &Poly, m: u32, table: &mut AtomTable) -> (r: Option<Poly>)
    requires
        old(table).wf(),
    ensures
        final(table).wf(),
{
    let mut acc = Poly::constant(BigScalar::one());
    let mut i: u32 = 0;
    while i < m
        invariant
            table.wf(),
        decreases m - i,
    {
        acc = match acc.try_mul(p, table) {
            Some(x) => x,
            None => return None,
        };
        i += 1;
    }
    Some(acc)
}

/// Whether two generator products can be merged: each has every
/// generator once, and exponents of a shared generator add up within
/// `u32`.
fn can_merge(a: &Vec<(usize, u32)>, b: &Vec<(usize, u32)>) -> (r: bool)
    ensures
        r ==> distinct_generators(a@) && distinct_generators(b@) && forall|g: usize|
            exponent_in(a@, g) + exponent_in(b@, g) <= u32::MAX,
{
    if !distinct(a) || !distinct(b) {
        return false;
    }
    let mut i: usize = 0;
    while i < a.len()
        invariant
            0 <= i <= a@.len(),
            forall|x: int, y: int|
                0 <= x < i && 0 <= y < b@.len() && (#[trigger] a@[x]).0 == (#[trigger] b@[y]).0
                    ==> a@[x].1 + b@[y].1 <= u32::MAX,
        decreases a@.len() - i,
    {
        let mut j: usize = 0;
        while j < b.len()
            invariant
                0 <= i < a@.len(),
                0 <= j <= b@.len(),
                forall|x: int, y: int|
                    0 <= x < i && 0 <= y < b@.len() && (#[trigger] a@[x]).0 == (#[trigger] b@[y]).0
                        ==> a@[x].1 + b@[y].1 <= u32::MAX,
                forall|y: int|
                    0 <= y < j && a@[i as int].0 == (#[trigger] b@[y]).0 ==> a@[i as int].1
                        + b@[y].1 <= u32::MAX,
            decreases b@.len() - j,
        {
            if a[i].0 == b[j].0 && a[i].1 as u64 + b[j].1 as u64 > 4294967295u64 {
                return false;
            }
            j += 1;
        }
        i += 1;
    }
    proof {
        lemma_exponents_of_distinct(a@);
        lemma_exponents_of_distinct(b@);
        assert forall|g: usize| exponent_in(a@, g) + exponent_in(b@, g) <= u32::MAX by {
            let ea = crate::localized::exponents(a@);
            let eb = crate::localized::exponents(b@);
            if ea.dom().contains(g) && eb.dom().contains(g) {
                let x = choose|x: int| 0 <= x < a@.len() && a@[x].0 == g;
                let y = choose|y: int| 0 <= y < b@.len() && b@[y].0 == g;
                assert(a@[x].0 == b@[y].0);
            }
        }
    }
    true
}

/// Whether no generator occurs twice in `a`.
fn distinct(a: &Vec<(usize, u32)>) -> (r: bool)
    ensures
        r ==> distinct_generators(a@),
{
    let mut i: usize = 0;
    while i < a.len()
        invariant
            0 <= i <= a@.len(),
            forall|x: int, y: int| 0 <= x < y < a@.len() && x < i ==> (#[trigger] a@[x]).0 != (
            #[trigger] a@[y]).0,
        decreases a@.len() - i,
    {
        let mut j: usize = i + 1;
        while j < a.len()
            invariant
                0 <= i < a@.len(),
                i + 1 <= j <= a@.len(),
                forall|x: int, y: int| 0 <= x < y < a@.len() && x < i ==> (#[trigger] a@[x]).0 != (
                #[trigger] a@[y]).0,
                forall|y: int| i < y < j ==> a@[i as int].0 != (#[trigger] a@[y]).0,
            decreases a@.len() - j,
        {
            if a[i].0 == a[j].0 {
                return false;
            }
            j += 1;
        }
        i += 1;
    }
    true
}

/// A copy of a generator product.
fn copy_factors(a: &Vec<(usize, u32)>) -> (r: Vec<(usize, u32)>)
    ensures
        r@ == a@,
{
    let mut r: Vec<(usize, u32)> = Vec::new();
    let mut i: usize = 0;
    while i < a.len()
        invariant
            0 <= i <= a@.len(),
            r@ == a@.take(i as int),
        decreases a@.len() - i,
    {
        r.push(a[i]);
        proof {
            assert(a@.take(i + 1) =~= a@.take(i as int).push(a@[i as int]));
        }
        i += 1;
    }
    proof {
        assert(a@.take(a@.len() as int) =~= a@);
    }
    r
}

/// The largest total degree of a monomial of `p`, held at `u64::MAX`.
fn total_degree_bound(p: &Poly) -> u64 {
    let ts = p.terms();
    let mut best: u64 = 0;
    let mut i: usize = 0;
    while i < ts.len()
        decreases ts@.len() - i,
    {
        let g = &ts[i].generators;
        let mut d: u64 = 0;
        let mut j: usize = 0;
        while j < g.len()
            decreases g@.len() - j,
        {
            d = d.saturating_add(g[j].1 as u64);
            j += 1;
        }
        if d > best {
            best = d;
        }
        i += 1;
    }
    best
}

/// The generators occurring in `p`, each once, in the order met.
fn generators_present(p: &Poly) -> (r: Vec<AtomId>) {
    let ts = p.terms();
    let mut ids: Vec<AtomId> = Vec::new();
    let mut i: usize = 0;
    while i < ts.len()
        decreases ts@.len() - i,
    {
        let g = &ts[i].generators;
        let mut j: usize = 0;
        while j < g.len()
            decreases g@.len() - j,
        {
            let id = g[j].0;
            let mut seen = false;
            let mut k: usize = 0;
            while k < ids.len()
                decreases ids@.len() - k,
            {
                if ids[k].0 == id.0 {
                    seen = true;
                }
                k += 1;
            }
            if !seen {
                ids.push(id);
            }
            j += 1;
        }
        i += 1;
    }
    ids
}

/// `dp / d(id)`, term by term: each term holding `id` to the power `e`
/// gives `e` times its coefficient with `id` one power lower.
fn formal_derivative(p: &Poly, id: AtomId) -> (r: Poly) {
    let ts = p.terms();
    proof {
        crate::poly::lemma_entries_len(ts@);
    }
    let mut acc = Poly::zero();
    let mut i: usize = 0;
    while i < ts.len()
        invariant
            0 <= i <= ts@.len(),
            crate::poly::entries(ts@).len() == ts@.len(),
            forall|k: int|
                0 <= k < ts@.len() ==> #[trigger] crate::poly::entries(ts@)[k]
                    == crate::poly::entry(ts@[k]),
            crate::poly::entries_wf(crate::poly::entries(ts@)),
        decreases ts@.len() - i,
    {
        let t = &ts[i];
        proof {
            assert(crate::poly::entries(ts@)[i as int] == crate::poly::entry(ts@[i as int]));
        }
        let g = &t.generators;
        let mut rest: Vec<(AtomId, u32)> = Vec::new();
        let mut e: u32 = 0;
        let mut j: usize = 0;
        let ghost mut last: int = -1;
        while j < g.len()
            invariant
                0 <= j <= g@.len(),
                crate::poly::monomial_wf(g@),
                crate::poly::monomial_wf(rest@),
                -1 <= last < j,
                rest@.len() == 0 <==> last == -1,
                rest@.len() > 0 ==> rest@.last().0 == g@[last].0,
            decreases g@.len() - j,
        {
            let (gid, ge) = g[j];
            let new_exp = if gid.0 == id.0 {
                e = ge;
                ge - 1
            } else {
                ge
            };
            if new_exp > 0 {
                let ghost before = rest@;
                rest.push((gid, new_exp));
                proof {
                    assert forall|a: int, b: int| 0 <= a < b < rest@.len() implies (
                    #[trigger] rest@[a]).0.0 < (#[trigger] rest@[b]).0.0 by {
                        if b == rest@.len() - 1 {
                            if a < before.len() - 1 {
                                assert(before[a].0.0 < before.last().0.0);
                            }
                            assert(g@[last].0.0 < g@[j as int].0.0);
                        } else {
                            assert(rest@[a] == before[a] && rest@[b] == before[b]);
                        }
                    }
                    assert forall|a: int| 0 <= a < rest@.len() implies 1 <= (
                    #[trigger] rest@[a]).1 <= crate::poly::EXPONENT_SANITY_LIMIT by {
                        if a < before.len() {
                            assert(rest@[a] == before[a]);
                        } else {
                            assert(1 <= g@[j as int].1 <= crate::poly::EXPONENT_SANITY_LIMIT);
                        }
                    }
                    last = j as int;
                }
            }
            j += 1;
        }
        if e > 0 {
            let c = t.coeff.clone() * BigScalar::from_i64(e as i64);
            if !c.is_zero() {
                acc = acc.add(&Poly::single(c, rest));
            }
        }
        i += 1;
    }
    acc
}

/// Whether `p` shares no factor with any of its partial derivatives: no
/// generator whose derivative is nonzero has a GCD with `p` other than
/// `1`. `None` where the engine stops.
fn is_square_free(p: &Poly, table: &mut AtomTable) -> (r: Option<bool>)
    requires
        old(table).wf(),
    ensures
        final(table).wf(),
{
    let ids = generators_present(p);
    let mut i: usize = 0;
    while i < ids.len()
        invariant
            table.wf(),
        decreases ids@.len() - i,
    {
        let d = formal_derivative(p, ids[i]);
        if !d.is_zero() {
            let g = match poly_gcd(p, &d, table) {
                Some(g) => g,
                None => return None,
            };
            if !g.is_literal_one() {
                return Some(false);
            }
        }
        i += 1;
    }
    Some(true)
}

/// Whether `p` has GCD `1` with every known generator.
fn is_coprime_to_all(p: &Poly, ctx: &mut LocalizationContext) -> (r: Option<bool>)
    requires
        old(ctx).wf(),
    ensures
        final(ctx).wf(),
{
    let mut i: usize = 0;
    while i < ctx.generators.len()
        invariant
            ctx.wf(),
        decreases ctx.generators@.len() - i,
    {
        let g = match poly_gcd(p, &ctx.generators[i].poly, &mut ctx.table) {
            Some(g) => g,
            None => return None,
        };
        if !g.is_literal_one() {
            return Some(false);
        }
        i += 1;
    }
    Some(true)
}

/// Divides every known generator out of `remainder` as often as it goes:
/// the generators found, with their multiplicities, and what is left.
/// Each division by a generator lowers the total degree, so the
/// divisions are bounded by the total degree of `remainder`.
fn decompose_against_known_generators(
    remainder: Poly,
    ctx: &mut LocalizationContext,
) -> (r: (Vec<(usize, u32)>, Poly))
    requires
        old(ctx).wf(),
    ensures
        final(ctx).wf(),
{
    let mut remainder = remainder;
    let mut decomposition: Vec<(usize, u32)> = Vec::new();
    let mut remaining: u64 = total_degree_bound(&remainder);
    loop
        invariant
            ctx.wf(),
        decreases remaining,
    {
        let ghost before = remaining;
        let mut progress = false;
        let mut i: usize = 0;
        while i < ctx.generators.len()
            invariant
                ctx.wf(),
                remaining <= before,
                progress ==> remaining < before,
            decreases ctx.generators@.len() - i, remaining,
        {
            if remaining == 0 {
                break;
            }
            match remainder.exact_div(&ctx.generators[i].poly) {
                Some(q) => {
                    remainder = q;
                    progress = true;
                    remaining -= 1;
                    let mut k: usize = 0;
                    let mut found = false;
                    while k < decomposition.len()
                        decreases decomposition@.len() - k,
                    {
                        if decomposition[k].0 == i && decomposition[k].1 < u32::MAX {
                            let (gi, ge) = decomposition[k];
                            decomposition.set(k, (gi, ge + 1));
                            found = true;
                            break;
                        }
                        k += 1;
                    }
                    if !found {
                        decomposition.push((i, 1));
                    }
                },
                None => {
                    i += 1;
                },
            }
        }
        if !progress || remaining == 0 {
            break;
        }
    }
    (decomposition, remainder)
}

/// `gcd(p, dp/d(id))` for the first generator `id` whose derivative is
/// nonzero and whose GCD with `p` is not `1`: a repeated factor of `p`.
fn find_repeated_factor(p: &Poly, ctx: &mut LocalizationContext) -> (r: Option<Option<Poly>>)
    requires
        old(ctx).wf(),
    ensures
        final(ctx).wf(),
{
    let ids = generators_present(p);
    let mut i: usize = 0;
    while i < ids.len()
        invariant
            ctx.wf(),
        decreases ids@.len() - i,
    {
        let d = formal_derivative(p, ids[i]);
        if !d.is_zero() {
            let g = match poly_gcd(p, &d, &mut ctx.table) {
                Some(g) => g,
                None => return None,
            };
            if !g.is_literal_one() {
                return Some(Some(g));
            }
        }
        i += 1;
    }
    Some(None)
}

/// Appends a note on a factor folded into the general engine.
fn log_fallback(ctx: &mut LocalizationContext, why: &str)
    requires
        old(ctx).wf(),
    ensures
        final(ctx).wf(),
{
    let mut s = String::new();
    crate::text::push_str(&mut s, "localized: ");
    crate::text::push_str(&mut s, why);
    ctx.fallback_log.push(s);
}

/// Decomposes `p` against the known generators; what is left, where it
/// holds a generator, is admitted as a new generator when square-free
/// and coprime to all known ones; otherwise a repeated factor of it is
/// admitted when it is, and the rest decomposed again; whatever is left
/// after that is logged as folded into the general engine.
fn classify_or_admit(p: &Poly, ctx: &mut LocalizationContext) -> (r: Option<
    (Vec<(usize, u32)>, Poly),
>)
    requires
        old(ctx).wf(),
    ensures
        final(ctx).wf(),
{
    let (decomposition, remainder) = decompose_against_known_generators(copy_poly(p), ctx);
    if is_constant(&remainder) {
        return Some((decomposition, remainder));
    }
    let sf = match is_square_free(&remainder, &mut ctx.table) {
        Some(b) => b,
        None => return None,
    };
    let cp = if sf {
        match is_coprime_to_all(&remainder, ctx) {
            Some(b) => b,
            None => return None,
        }
    } else {
        false
    };
    if sf && cp {
        let idx = ctx.generators.len();
        let source = match render_poly(&remainder, &ctx.table) {
            Some(e) => e,
            None => return None,
        };
        ctx.generators.push(Generator { poly: remainder, source });
        let mut decomposition = decomposition;
        decomposition.push((idx, 1));
        return Some((decomposition, Poly::constant(BigScalar::one())));
    }
    let repeated = match find_repeated_factor(&remainder, ctx) {
        Some(x) => x,
        None => return None,
    };
    match repeated {
        Some(factor) => {
            let fsf = match is_square_free(&factor, &mut ctx.table) {
                Some(b) => b,
                None => return None,
            };
            let fcp = if fsf {
                match is_coprime_to_all(&factor, ctx) {
                    Some(b) => b,
                    None => return None,
                }
            } else {
                false
            };
            if fsf && fcp {
                let source = match render_poly(&factor, &ctx.table) {
                    Some(e) => e,
                    None => return None,
                };
                ctx.generators.push(Generator { poly: factor, source });
                let (extra, new_remainder) = decompose_against_known_generators(remainder, ctx);
                let mut decomposition = decomposition;
                let mut k: usize = 0;
                while k < extra.len()
                    decreases extra@.len() - k,
                {
                    decomposition.push(extra[k]);
                    k += 1;
                }
                if is_constant(&new_remainder) {
                    return Some((decomposition, new_remainder));
                }
                log_fallback(
                    ctx,
                    "a factor left over after extracting a repeated factor -- folding into the general engine for this factor",
                );
                return Some((decomposition, new_remainder));
            }
        },
        None => {},
    }
    log_fallback(
        ctx,
        "a factor is not square-free and/or not coprime with an existing generator -- folding into the general engine for this factor",
    );
    Some((decomposition, remainder))
}

impl View for LocalizedRational {
    type V = (Map<Monomial, (int, int)>, Seq<(usize, u32)>, Map<Monomial, (int, int)>);

    /// The numerator, the tracked generators with their exponents, and the
    /// overflow denominator.
    closed spec fn view(&self) -> (Map<Monomial, (int, int)>, Seq<(usize, u32)>, Map<Monomial, (int, int)>) {
        (self.num@, self.den@, self.overflow@)
    }
}

impl LocalizedRational {
    /// The numerator.
    pub fn num(&self) -> (r: &Poly)
        ensures
            r@ == self@.0,
    {
        &self.num
    }

    /// The tracked generators of the denominator, with their exponents.
    pub fn den(&self) -> (r: &Vec<(usize, u32)>)
        ensures
            r@ == self@.1,
    {
        &self.den
    }

    /// The part of the denominator not made of tracked generators.
    pub fn overflow(&self) -> (r: &Poly)
        ensures
            r@ == self@.2,
    {
        &self.overflow
    }

    /// `p` over nothing.
    pub fn from_plain(p: Poly) -> (r: LocalizedRational)
        ensures
            r@ == (p@, Seq::<(usize, u32)>::empty(), crate::trig::unit_poly()),
    {
        let one = crate::trig::one_poly();
        let r = LocalizedRational { num: p, den: Vec::new(), overflow: one };
        assert(r.den@ =~= Seq::<(usize, u32)>::empty());
        r
    }

    /// Divides each tracked generator back out of the numerator as far as
    /// it goes, dropping the generators whose exponent reaches zero.
    fn reduce_against_own_generators(&mut self, ctx: &mut LocalizationContext)
        requires
            old(ctx).wf(),
        ensures
            final(ctx).wf(),
    {
        let mut kept: Vec<(usize, u32)> = Vec::new();
        let mut i: usize = 0;
        let ghost den0 = self.den@;
        while i < self.den.len()
            invariant
                ctx.wf(),
                self.den@ == den0,
            decreases den0.len() - i,
        {
            let (idx, e0) = self.den[i];
            let mut exp = e0;
            if idx < ctx.generators.len() {
                while exp > 0
                    invariant
                        ctx.wf(),
                        self.den@ == den0,
                        idx < ctx.generators@.len(),
                    decreases exp,
                {
                    match self.num.exact_div(&ctx.generators[idx].poly) {
                        Some(q) => {
                            self.num = q;
                            exp -= 1;
                        },
                        None => break,
                    }
                }
            }
            if exp != 0 {
                kept.push((idx, exp));
            }
            i += 1;
        }
        self.den = kept;
    }

    /// The product: numerators and overflows multiplied, generator
    /// exponents added, then reduced against the generators.
    fn mul(&self, other: &LocalizedRational, ctx: &mut LocalizationContext) -> (r: Option<
        LocalizedRational,
    >)
        requires
            old(ctx).wf(),
        ensures
            final(ctx).wf(),
    {
        let num = match self.num.try_mul(&other.num, &mut ctx.table) {
            Some(p) => p,
            None => return None,
        };
        if !can_merge(&self.den, &other.den) {
            return None;
        }
        let mut den = copy_factors(&self.den);
        merge_add(&mut den, other.den.as_slice());
        let overflow = match self.overflow.try_mul(&other.overflow, &mut ctx.table) {
            Some(p) => p,
            None => return None,
        };
        let mut result = LocalizedRational { num, den, overflow };
        result.reduce_against_own_generators(ctx);
        Some(result)
    }

    /// The `m`-th power: numerator and overflow raised, exponents scaled.
    fn pow(&self, m: u32, ctx: &mut LocalizationContext) -> (r: Option<LocalizedRational>)
        requires
            old(ctx).wf(),
        ensures
            final(ctx).wf(),
    {
        let num = match power(&self.num, m, &mut ctx.table) {
            Some(p) => p,
            None => return None,
        };
        let mut den: Vec<(usize, u32)> = Vec::new();
        let mut i: usize = 0;
        while i < self.den.len()
            invariant
                ctx.wf(),
            decreases self.den@.len() - i,
        {
            let (idx, e) = self.den[i];
            match e.checked_mul(m) {
                Some(x) => den.push((idx, x)),
                None => return None,
            }
            i += 1;
        }
        let overflow = match power(&self.overflow, m, &mut ctx.table) {
            Some(p) => p,
            None => return None,
        };
        Some(LocalizedRational { num, den, overflow })
    }

    /// The sum over the least common multiple of the two generator
    /// products; where either overflow is not `1`, the overflow part goes
    /// through the general engine (or stops on the budget).
    pub fn add(&self, other: &LocalizedRational, ctx: &mut LocalizationContext, budget_spent: bool) -> (r:
        Option<Result<LocalizedRational, LocalizationBudgetExceeded>>)
        requires
            old(ctx).wf(),
        ensures
            final(ctx).wf(),
    {
        if !can_merge(&self.den, &other.den) {
            return None;
        }
        let mut merged: Vec<(usize, u32)> = copy_factors(&self.den);
        merge_max(&mut merged, other.den.as_slice());
        let self_missing = match missing_factor(&self.den, &merged, ctx) {
            Some(p) => p,
            None => return None,
        };
        let other_missing = match missing_factor(&other.den, &merged, ctx) {
            Some(p) => p,
            None => return None,
        };
        let a = match self.num.try_mul(&self_missing, &mut ctx.table) {
            Some(p) => p,
            None => return None,
        };
        let b = match other.num.try_mul(&other_missing, &mut ctx.table) {
            Some(p) => p,
            None => return None,
        };
        let (num, overflow) = if self.overflow.is_literal_one() && other.overflow.is_literal_one() {
            (a.add(&b), Poly::constant(BigScalar::one()))
        } else {
            let x = match a.try_mul(&other.overflow, &mut ctx.table) {
                Some(p) => p,
                None => return None,
            };
            let y = match b.try_mul(&self.overflow, &mut ctx.table) {
                Some(p) => p,
                None => return None,
            };
            let d = match self.overflow.try_mul(&other.overflow, &mut ctx.table) {
                Some(p) => p,
                None => return None,
            };
            match fallback_to_general_engine(x.add(&y), d, ctx, budget_spent) {
                Some(Ok(rf)) => (rf.num, rf.den),
                Some(Err(e)) => return Some(Err(e)),
                None => return None,
            }
        };
        let mut result = LocalizedRational { num, den: merged, overflow };
        result.reduce_against_own_generators(ctx);
        Some(Ok(result))
    }
}

/// The product of the generators to the exponents `merged` lacks over
/// `own`.
fn missing_factor(own: &Vec<(usize, u32)>, merged: &Vec<(usize, u32)>, ctx: &mut LocalizationContext) -> (r:
    Option<Poly>)
    requires
        old(ctx).wf(),
    ensures
        final(ctx).wf(),
{
    let mut acc = Poly::constant(BigScalar::one());
    let mut i: usize = 0;
    while i < merged.len()
        invariant
            ctx.wf(),
        decreases merged@.len() - i,
    {
        let (idx, merged_exp) = merged[i];
        let mut own_exp: u32 = 0;
        let mut k: usize = 0;
        while k < own.len()
            decreases own@.len() - k,
        {
            if own[k].0 == idx {
                own_exp = own[k].1;
                break;
            }
            k += 1;
        }
        if merged_exp > own_exp {
            if idx >= ctx.generators.len() {
                return None;
            }
            let pw = match power(&ctx.generators[idx].poly, merged_exp - own_exp, &mut ctx.table) {
                Some(p) => p,
                None => return None,
            };
            acc = match acc.try_mul(&pw, &mut ctx.table) {
                Some(p) => p,
                None => return None,
            };
        }
        i += 1;
    }
    Some(acc)
}

/// The product of the tracked generators of `lr` to their exponents,
/// times its overflow.
fn full_denominator(lr: &LocalizedRational, ctx: &mut LocalizationContext) -> (r: Option<Poly>)
    requires
        old(ctx).wf(),
    ensures
        final(ctx).wf(),
{
    let mut acc = copy_poly(&lr.overflow);
    let mut i: usize = 0;
    while i < lr.den.len()
        invariant
            ctx.wf(),
        decreases lr.den@.len() - i,
    {
        let (idx, exp) = lr.den[i];
        if idx >= ctx.generators.len() {
            return None;
        }
        if exp > 0 {
            let pw = match power(&ctx.generators[idx].poly, exp, &mut ctx.table) {
                Some(p) => p,
                None => return None,
            };
            acc = match acc.try_mul(&pw, &mut ctx.table) {
                Some(p) => p,
                None => return None,
            };
        }
        i += 1;
    }
    Some(acc)
}

/// `base^-m`: a base with tracked generators of its own goes through the
/// general engine (a nested fraction); otherwise its numerator is
/// classified into generators, the rest (where it holds a generator)
/// becoming the overflow, a constant rest divided out.
fn reciprocal_pow(base: &LocalizedRational, m: u32, ctx: &mut LocalizationContext, budget_spent: bool) -> (r:
    Option<Result<LocalizedRational, LocalizationBudgetExceeded>>)
    requires
        old(ctx).wf(),
    ensures
        final(ctx).wf(),
{
    if base.den.len() != 0 {
        log_fallback(
            ctx,
            "reciprocal of an expression that itself already had a tracked denominator -- falling back to the general engine for this factor (nested fraction, outside this round's scope)",
        );
        let full_den = match full_denominator(base, ctx) {
            Some(p) => p,
            None => return None,
        };
        let rf = match fallback_to_general_engine(copy_poly(&base.num), full_den, ctx, budget_spent) {
            Some(Ok(rf)) => rf,
            Some(Err(e)) => return Some(Err(e)),
            None => return None,
        };
        if m > 2147483647 {
            return None;
        }
        let rf = match rf.pow(-(m as i32), &mut ctx.table) {
            Some(x) => x,
            None => return None,
        };
        return Some(Ok(LocalizedRational { num: rf.num, den: Vec::new(), overflow: rf.den }));
    }
    let overflow_num_part = match power(&base.overflow, m, &mut ctx.table) {
        Some(p) => p,
        None => return None,
    };
    let (decomposition, remainder) = match classify_or_admit(&base.num, ctx) {
        Some(x) => x,
        None => return None,
    };
    let mut den: Vec<(usize, u32)> = Vec::new();
    let mut i: usize = 0;
    while i < decomposition.len()
        invariant
            ctx.wf(),
        decreases decomposition@.len() - i,
    {
        let (idx, e) = decomposition[i];
        match e.checked_mul(m) {
            Some(x) => den.push((idx, x)),
            None => return None,
        }
        i += 1;
    }
    if is_constant(&remainder) {
        let ts = remainder.terms();
        let c = if ts.len() == 0 {
            BigScalar::one()
        } else {
            ts[0].coeff.clone()
        };
        let mut c_pow = BigScalar::one();
        let mut k: u32 = 0;
        while k < m
            decreases m - k,
        {
            c_pow = c_pow * c.clone();
            k += 1;
        }
        let inv = match c_pow.recip() {
            Some(v) => v,
            None => return None,
        };
        Some(Ok(LocalizedRational {
            num: overflow_num_part.scale(inv),
            den,
            overflow: Poly::constant(BigScalar::one()),
        }))
    } else {
        let remainder_pow = match power(&remainder, m, &mut ctx.table) {
            Some(p) => p,
            None => return None,
        };
        Some(Ok(LocalizedRational { num: overflow_num_part, den, overflow: remainder_pow }))
    }
}

/// `e` as a localized quotient: numbers and generators plain, sums and
/// products through the localized operations, negative powers through
/// [`reciprocal_pow`], each function's argument normalized by the
/// general engine first. The budget error where a fallback to the
/// general engine meets `budget_spent`; `None` where the engine stops.
#[verifier::loop_isolation(false)]
pub fn expr_to_localized(e: &Expr, ctx: &mut LocalizationContext, budget_spent: bool) -> (r: Option<
    Result<LocalizedRational, LocalizationBudgetExceeded>,
>)
    requires
        old(ctx).wf(),
    ensures
        final(ctx).wf(),
    decreases e,
{
    match e {
        Expr::Rational(s) => Some(Ok(LocalizedRational::from_plain(Poly::constant(s.clone())))),
        Expr::Var(name) => {
            if ctx.table.len() >= 4294967295usize {
                return None;
            }
            let id = ctx.table.var(name.as_str());
            Some(Ok(LocalizedRational::from_plain(Poly::generator(id))))
        },
        Expr::Add(terms) => {
            let mut acc = LocalizedRational::from_plain(Poly::zero());
            let mut i: usize = 0;
            while i < terms.len()
                invariant
                    ctx.wf(),
                decreases terms@.len() - i,
            {
                let lr = match expr_to_localized(&terms[i], ctx, budget_spent) {
                    Some(Ok(x)) => x,
                    other => return other,
                };
                acc = match acc.add(&lr, ctx, budget_spent) {
                    Some(Ok(x)) => x,
                    other => return other,
                };
                i += 1;
            }
            Some(Ok(acc))
        },
        Expr::Mul(factors) => {
            let mut acc = LocalizedRational::from_plain(Poly::constant(BigScalar::one()));
            let mut i: usize = 0;
            while i < factors.len()
                invariant
                    ctx.wf(),
                decreases factors@.len() - i,
            {
                let lr = match expr_to_localized(&factors[i], ctx, budget_spent) {
                    Some(Ok(x)) => x,
                    other => return other,
                };
                acc = match acc.mul(&lr, ctx) {
                    Some(x) => x,
                    None => return None,
                };
                i += 1;
            }
            Some(Ok(acc))
        },
        Expr::Pow(base, n) => {
            let b = match expr_to_localized(base, ctx, budget_spent) {
                Some(Ok(x)) => x,
                other => return other,
            };
            if *n >= 0 {
                match b.pow(*n as u32, ctx) {
                    Some(x) => Some(Ok(x)),
                    None => None,
                }
            } else {
                let m: u32 = ((-(*n + 1)) as u32) + 1;
                reciprocal_pow(&b, m, ctx, budget_spent)
            }
        },
        Expr::Sin(arg) | Expr::Cos(arg) | Expr::Exp(arg) | Expr::Sinh(arg) | Expr::Cosh(arg) => {
            let canonical_arg = match normalize_via_rational_form(arg) {
                Some(x) => x,
                None => return None,
            };
            if ctx.table.len() >= 4294967295usize {
                return None;
            }
            let id = match e {
                Expr::Sin(_) => ctx.table.sin(canonical_arg),
                Expr::Cos(_) => ctx.table.cos(canonical_arg),
                Expr::Exp(_) => ctx.table.exp(canonical_arg),
                Expr::Sinh(_) => ctx.table.sinh(canonical_arg),
                _ => ctx.table.cosh(canonical_arg),
            };
            Some(Ok(LocalizedRational::from_plain(Poly::generator(id))))
        },
        Expr::Func { name, args, order } => {
            let mut canonical_args: Vec<Expr> = Vec::new();
            let mut i: usize = 0;
            while i < args.len()
                decreases args@.len() - i,
            {
                match normalize_via_rational_form(&args[i]) {
                    Some(x) => canonical_args.push(x),
                    None => return None,
                }
                i += 1;
            }
            if ctx.table.len() >= 4294967295usize {
                return None;
            }
            let id = ctx.table.func(name.clone(), canonical_args, crate::expr::copy_u32s(order));
            Some(Ok(LocalizedRational::from_plain(Poly::generator(id))))
        },
    }
}

/// The expression of a localized quotient: the numerator over the
/// product of the tracked generators and the overflow, the sign moved to
/// the numerator where the denominator's first term in canonical order
/// is negative.
pub fn localized_to_expr(lr: &LocalizedRational, ctx: &mut LocalizationContext) -> (r: Option<Expr>)
    requires
        old(ctx).wf(),
    ensures
        final(ctx).wf(),
{
    let mut num = copy_poly(&lr.num);
    let mut combined_den = match full_denominator(lr, ctx) {
        Some(p) => p,
        None => return None,
    };
    if !crate::rational_form::atoms_within(&combined_den, ctx.table.len()) {
        return None;
    }
    let sorted = combined_den.sorted_terms(&ctx.table);
    if sorted.len() > 0 && sorted[0].coeff.is_negative() {
        combined_den = combined_den.neg();
        num = num.neg();
    }
    let num_expr = match render_poly(&num, &ctx.table) {
        Some(e) => e,
        None => return None,
    };
    if combined_den.is_literal_one() {
        return Some(num_expr);
    }
    let den_expr = match render_poly(&combined_den, &ctx.table) {
        Some(e) => e,
        None => return None,
    };
    let den_pow = Expr::Pow(Box::new(den_expr), -1);
    if expr_equal(&num_expr, &Expr::one()) {
        Some(den_pow)
    } else {
        Some(num_expr * den_pow)
    }
}

/// `e` in the localized normal form (see [`expr_to_localized`]).
pub fn normalize_localized(e: &Expr, ctx: &mut LocalizationContext, budget_spent: bool) -> (r:
    Option<Result<Expr, LocalizationBudgetExceeded>>)
    requires
        old(ctx).wf(),
    ensures
        final(ctx).wf(),
{
    let lr = match expr_to_localized(e, ctx, budget_spent) {
        Some(Ok(x)) => x,
        Some(Err(err)) => return Some(Err(err)),
        None => return None,
    };
    match localized_to_expr(&lr, ctx) {
        Some(x) => Some(Ok(x)),
        None => None,
    }
}

} // verus!
