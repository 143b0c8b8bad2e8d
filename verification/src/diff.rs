//! Symbolic differentiation: the textbook rules (sum, generalized
//! product, integer power, chain rule through the known functions and
//! through an indeterminate function). A direct structural recursion,
//! no simplification -- `normalize` afterwards folds the result.
use vstd::prelude::*;
use crate::text::same_text;
use crate::expr::{
    clone_expr, clone_exprs, copy_u32s, exprs_view, lemma_exprs_view, lemma_exprs_view_push,
    Expr, ExprV,
};

verus! {

/// Whether `e` can be differentiated without an integer overflow: no
/// `Pow` exponent is `i32::MIN` (its derivative needs exponent - 1) and
/// no indeterminate function is already differentiated `u32::MAX` times
/// in some argument.
pub open spec fn diffable(e: ExprV) -> bool
    decreases e,
{
    match e {
        ExprV::Rational(_, _) | ExprV::Var(_) => true,
        ExprV::Pow(b, n) => n > i32::MIN && diffable(*b),
        ExprV::Mul(fs) => forall|i: int| 0 <= i < fs.len() ==> diffable(#[trigger] fs[i]),
        ExprV::Add(ts) => forall|i: int| 0 <= i < ts.len() ==> diffable(#[trigger] ts[i]),
        ExprV::Sin(x) => diffable(*x),
        ExprV::Cos(x) => diffable(*x),
        ExprV::Exp(x) => diffable(*x),
        ExprV::Sinh(x) => diffable(*x),
        ExprV::Cosh(x) => diffable(*x),
        ExprV::Func(_, args, order) => (forall|i: int|
            0 <= i < args.len() ==> diffable(#[trigger] args[i])) && (forall|i: int|
            0 <= i < order.len() ==> #[trigger] order[i] < u32::MAX) && order.len() == args.len(),
    }
}

/// `d(e)/d(var)`, term by term, unsimplified.
pub open spec fn diff_spec(e: ExprV, var: Seq<char>) -> ExprV
    decreases e,
{
    match e {
        ExprV::Rational(_, _) => ExprV::Rational(0, 1),
        ExprV::Var(v) => if v == var {
            ExprV::Rational(1, 1)
        } else {
            ExprV::Rational(0, 1)
        },
        ExprV::Add(ts) => ExprV::Add(diff_terms(ts, var)),
        ExprV::Mul(fs) => ExprV::Add(product_rule(fs, diff_terms(fs, var))),
        ExprV::Pow(b, n) => if n == 0 {
            ExprV::Rational(0, 1)
        } else {
            ExprV::Mul(seq![ExprV::Rational(n, 1), ExprV::Pow(b, n - 1), diff_spec(*b, var)])
        },
        ExprV::Sin(x) => ExprV::Mul(seq![ExprV::Cos(x), diff_spec(*x, var)]),
        ExprV::Cos(x) => ExprV::Mul(seq![ExprV::Rational(-1, 1), ExprV::Sin(x), diff_spec(*x, var)]),
        ExprV::Exp(x) => ExprV::Mul(seq![ExprV::Exp(x), diff_spec(*x, var)]),
        ExprV::Sinh(x) => ExprV::Mul(seq![ExprV::Cosh(x), diff_spec(*x, var)]),
        ExprV::Cosh(x) => ExprV::Mul(seq![ExprV::Sinh(x), diff_spec(*x, var)]),
        ExprV::Func(name, args, order) => ExprV::Add(
            chain_rule(name, args, order, diff_terms(args, var)),
        ),
    }
}

/// The derivative of each element.
pub open spec fn diff_terms(ts: Seq<ExprV>, var: Seq<char>) -> Seq<ExprV>
    decreases ts,
{
    if ts.len() == 0 {
        Seq::empty()
    } else {
        seq![diff_spec(ts[0], var)] + diff_terms(ts.subrange(1, ts.len() as int), var)
    }
}

/// The generalized product rule: term `i` is `d(f_i)` times every other
/// factor, in order.
pub open spec fn product_rule(fs: Seq<ExprV>, ds: Seq<ExprV>) -> Seq<ExprV> {
    Seq::new(fs.len(), |i: int| ExprV::Mul(seq![ds[i]] + fs.remove(i)))
}

/// The multivariate chain rule for `name(args...)`: term `i` is the same
/// function one order higher in argument `i`, times `d(args[i])`.
pub open spec fn chain_rule(name: Seq<char>, args: Seq<ExprV>, order: Seq<u32>, ds: Seq<ExprV>) -> Seq<
    ExprV,
> {
    Seq::new(
        args.len(),
        |i: int|
            ExprV::Mul(
                seq![ExprV::Func(name, args, order.update(i, (order[i] + 1) as u32)), ds[i]],
            ),
    )
}

pub proof fn lemma_diff_terms(ts: Seq<ExprV>, var: Seq<char>)
    ensures
        diff_terms(ts, var).len() == ts.len(),
        forall|i: int|
            0 <= i < ts.len() ==> #[trigger] diff_terms(ts, var)[i] == diff_spec(ts[i], var),
    decreases ts.len(),
{
    if ts.len() > 0 {
        let rest = ts.subrange(1, ts.len() as int);
        lemma_diff_terms(rest, var);
        assert forall|i: int| 0 <= i < ts.len() implies #[trigger] diff_terms(ts, var)[i]
            == diff_spec(ts[i], var) by {
            if i > 0 {
                assert(rest[i - 1] == ts[i]);
            }
        }
    }
}

/// `d(expr)/d(var)`: the sum rule, the generalized product rule
/// `d(f1*..*fn) = sum_i d(fi) * prod_{j!=i} fj`, `d(b^n) = n*b^(n-1)*d(b)`,
/// the chain rule through `sin`/`cos`/`exp`/`sinh`/`cosh`, and the
/// multivariate chain rule through an indeterminate function (its
/// partial derivative is the same function one order higher). Nothing is
/// simplified.
pub fn diff(expr: &Expr, var: &str) -> (r: Expr)
    requires
        diffable(expr@),
    ensures
        r@ == diff_spec(expr@, var@),
    decreases expr, 0nat,
{
    match expr {
        Expr::Rational(_) => Expr::zero(),
        Expr::Var(v) => {
            if same_text(v.as_str(), var) {
                Expr::one()
            } else {
                Expr::zero()
            }
        },
        Expr::Add(terms) => Expr::Add(diff_all(terms, var)),
        Expr::Mul(factors) => {
            let ds = diff_all(factors, var);
            let n = factors.len();
            let mut terms: Vec<Expr> = Vec::new();
            let ghost fs = exprs_view(factors@);
            proof {
                lemma_exprs_view(factors@);
                lemma_exprs_view(ds@);
            }
            let mut i: usize = 0;
            while i < n
                invariant
                    n == factors@.len(),
                    i <= n,
                    fs == exprs_view(factors@),
                    fs.len() == n,
                    forall|k: int| 0 <= k < n ==> #[trigger] fs[k] == factors@[k]@,
                    exprs_view(ds@) == diff_terms(fs, var@),
                    exprs_view(ds@).len() == n,
                    ds@.len() == n,
                    forall|k: int| 0 <= k < n ==> #[trigger] exprs_view(ds@)[k] == ds@[k]@,
                    exprs_view(terms@) == product_rule(fs, diff_terms(fs, var@)).subrange(
                        0,
                        i as int,
                    ),
                decreases n - i,
            {
                let mut parts: Vec<Expr> = Vec::new();
                let d0 = clone_expr(&ds[i]);
                proof {
                    lemma_exprs_view_push(Seq::empty(), d0);
                    assert(exprs_view(Seq::<Expr>::empty()) =~= Seq::<ExprV>::empty());
                    assert(exprs_view(ds@)[i as int] == ds@[i as int]@);
                }
                parts.push(d0);
                proof {
                    assert(Seq::<Expr>::empty().push(d0) =~= parts@);
                }
                let mut j: usize = 0;
                while j < n
                    invariant
                        n == factors@.len(),
                        i < n,
                        j <= n,
                        fs.len() == n,
                        forall|k: int| 0 <= k < n ==> #[trigger] fs[k] == factors@[k]@,
                        exprs_view(parts@) == seq![diff_terms(fs, var@)[i as int]] + (if j <= i {
                            fs.subrange(0, j as int)
                        } else {
                            fs.remove(i as int).subrange(0, j - 1)
                        }),
                        exprs_view(ds@) == diff_terms(fs, var@),
                        forall|k: int| 0 <= k < n ==> #[trigger] exprs_view(ds@)[k] == ds@[k]@,
                    decreases n - j,
                {
                    if j != i {
                        let c = clone_expr(&factors[j]);
                        proof {
                            lemma_exprs_view_push(parts@, c);
                        }
                        parts.push(c);
                        proof {
                            if j < i {
                                assert(fs.subrange(0, j + 1) =~= fs.subrange(0, j as int).push(
                                    fs[j as int],
                                ));
                            } else {
                                assert(fs.remove(i as int).subrange(0, j as int) =~= fs.remove(
                                    i as int,
                                ).subrange(0, j - 1).push(fs[j as int]));
                            }
                        }
                    } else {
                        proof {
                            assert(fs.remove(i as int).subrange(0, 0) =~= fs.subrange(0, i as int)
                                .subrange(0, 0));
                            assert(fs.subrange(0, i as int) =~= fs.remove(i as int).subrange(
                                0,
                                i as int,
                            ));
                        }
                    }
                    j += 1;
                }
                proof {
                    assert(fs.remove(i as int).subrange(0, n - 1) =~= fs.remove(i as int));
                }
                let t = Expr::Mul(parts);
                proof {
                    lemma_exprs_view_push(terms@, t);
                    assert(product_rule(fs, diff_terms(fs, var@)).subrange(0, i + 1) =~= product_rule(
                        fs,
                        diff_terms(fs, var@),
                    ).subrange(0, i as int).push(t@));
                }
                terms.push(t);
                i += 1;
            }
            proof {
                assert(product_rule(fs, diff_terms(fs, var@)).subrange(0, n as int) =~= product_rule(
                    fs,
                    diff_terms(fs, var@),
                ));
            }
            Expr::Add(terms)
        },
        Expr::Pow(base, n) => {
            if *n == 0 {
                return Expr::zero();
            }
            let mut parts: Vec<Expr> = Vec::new();
            parts.push(Expr::integer(*n as i64));
            parts.push(Expr::Pow(Box::new(clone_expr(base)), *n - 1));
            parts.push(diff(base, var));
            proof {
                lemma_exprs_view(parts@);
                assert(exprs_view(parts@) =~= seq![
                    ExprV::Rational(*n as int, 1),
                    ExprV::Pow(Box::new(base@), *n - 1),
                    diff_spec(base@, var@),
                ]);
            }
            Expr::Mul(parts)
        },
        Expr::Sin(inner) => unary_chain(Expr::Cos(Box::new(clone_expr(inner))), None, inner, var),
        Expr::Cos(inner) => unary_chain(
            Expr::Sin(Box::new(clone_expr(inner))),
            Some(Expr::integer(-1)),
            inner,
            var,
        ),
        Expr::Exp(inner) => unary_chain(Expr::Exp(Box::new(clone_expr(inner))), None, inner, var),
        Expr::Sinh(inner) => unary_chain(Expr::Cosh(Box::new(clone_expr(inner))), None, inner, var),
        Expr::Cosh(inner) => unary_chain(Expr::Sinh(Box::new(clone_expr(inner))), None, inner, var),
        Expr::Func { name, args, order } => {
            let ds = diff_all(args, var);
            let n = args.len();
            let ghost av = exprs_view(args@);
            proof {
                lemma_exprs_view(args@);
                lemma_exprs_view(ds@);
            }
            let mut terms: Vec<Expr> = Vec::new();
            let mut i: usize = 0;
            while i < n
                invariant
                    n == args@.len(),
                    n == order@.len(),
                    i <= n,
                    av == exprs_view(args@),
                    av.len() == n,
                    forall|k: int| 0 <= k < n ==> #[trigger] order@[k] < u32::MAX,
                    exprs_view(ds@) == diff_terms(av, var@),
                    exprs_view(ds@).len() == n,
                    ds@.len() == n,
                    forall|k: int| 0 <= k < n ==> #[trigger] exprs_view(ds@)[k] == ds@[k]@,
                    exprs_view(terms@) == chain_rule(name@, av, order@, diff_terms(av, var@))
                        .subrange(0, i as int),
                decreases n - i,
            {
                let mut partial_order = copy_u32s(order);
                partial_order.set(i, order[i] + 1);
                let partial = Expr::Func {
                    name: name.clone(),
                    args: clone_exprs(args),
                    order: partial_order,
                };
                let mut parts: Vec<Expr> = Vec::new();
                parts.push(partial);
                parts.push(clone_expr(&ds[i]));
                proof {
                    lemma_exprs_view(parts@);
                    assert(partial_order@ =~= order@.update(i as int, (order@[i as int] + 1) as u32));
                    assert(exprs_view(parts@) =~= seq![partial@, ds@[i as int]@]);
                }
                let t = Expr::Mul(parts);
                proof {
                    assert(exprs_view(ds@)[i as int] == ds@[i as int]@);
                    assert(partial@ == ExprV::Func(
                        name@,
                        av,
                        order@.update(i as int, (order@[i as int] + 1) as u32),
                    ));
                    assert(t@ == chain_rule(name@, av, order@, diff_terms(av, var@))[i as int]);
                    lemma_exprs_view_push(terms@, t);
                    assert(chain_rule(name@, av, order@, diff_terms(av, var@)).subrange(0, i + 1)
                        =~= chain_rule(name@, av, order@, diff_terms(av, var@)).subrange(
                        0,
                        i as int,
                    ).push(t@));
                }
                terms.push(t);
                i += 1;
            }
            proof {
                assert(chain_rule(name@, av, order@, diff_terms(av, var@)).subrange(0, n as int)
                    =~= chain_rule(name@, av, order@, diff_terms(av, var@)));
            }
            Expr::Add(terms)
        },
    }
}

/// `[sign *] outer * d(inner)`, the shape of every one-argument chain
/// rule.
fn unary_chain(outer: Expr, sign: Option<Expr>, inner: &Expr, var: &str) -> (r: Expr)
    requires
        diffable(inner@),
    ensures
        r@ == match sign {
            Some(s) => ExprV::Mul(seq![s@, outer@, diff_spec(inner@, var@)]),
            None => ExprV::Mul(seq![outer@, diff_spec(inner@, var@)]),
        },
    decreases inner, 1nat,
{
    let mut parts: Vec<Expr> = Vec::new();
    let ghost s_opt = sign;
    match sign {
        Some(s) => parts.push(s),
        None => {},
    }
    let ghost before = parts@;
    parts.push(outer);
    parts.push(diff(inner, var));
    proof {
        lemma_exprs_view(parts@);
        match s_opt {
            Some(s) => {
                assert(exprs_view(parts@) =~= seq![s@, outer@, diff_spec(inner@, var@)]);
            },
            None => {
                assert(exprs_view(parts@) =~= seq![outer@, diff_spec(inner@, var@)]);
            },
        }
    }
    Expr::Mul(parts)
}

/// The derivative of every element, in order.
fn diff_all(es: &Vec<Expr>, var: &str) -> (r: Vec<Expr>)
    requires
        forall|i: int| 0 <= i < exprs_view(es@).len() ==> diffable(#[trigger] exprs_view(es@)[i]),
    ensures
        exprs_view(r@) == diff_terms(exprs_view(es@), var@),
        r@.len() == es@.len(),
    decreases es, 0nat,
{
    let ghost ev = exprs_view(es@);
    proof {
        lemma_exprs_view(es@);
        lemma_diff_terms(ev, var@);
    }
    let mut r: Vec<Expr> = Vec::new();
    let mut i: usize = 0;
    while i < es.len()
        invariant
            i <= es@.len(),
            ev == exprs_view(es@),
            ev.len() == es@.len(),
            forall|k: int| 0 <= k < es@.len() ==> #[trigger] ev[k] == es@[k]@,
            forall|k: int| 0 <= k < ev.len() ==> diffable(#[trigger] ev[k]),
            diff_terms(ev, var@).len() == ev.len(),
            forall|k: int| 0 <= k < ev.len() ==> #[trigger] diff_terms(ev, var@)[k] == diff_spec(ev[k], var@),
            r@.len() == i,
            exprs_view(r@) == diff_terms(ev, var@).subrange(0, i as int),
        decreases es@.len() - i,
    {
        proof {
            assert(diffable(ev[i as int]));
        }
        let d = diff(&es[i], var);
        proof {
            lemma_exprs_view_push(r@, d);
            assert(diff_terms(ev, var@).subrange(0, i + 1) =~= diff_terms(ev, var@).subrange(
                0,
                i as int,
            ).push(d@));
        }
        r.push(d);
        i += 1;
    }
    proof {
        assert(diff_terms(ev, var@).subrange(0, i as int) =~= diff_terms(ev, var@));
    }
    r
}

} // verus!
