//! Variable substitution: every occurrence of a variable replaced by
//! another expression (one chart's metric in another chart's
//! coordinates, via a transition map). A direct structural recursion.
use vstd::prelude::*;
use crate::expr::{clone_expr, copy_u32s, exprs_view, lemma_exprs_view, lemma_exprs_view_push, Expr, ExprV};
use crate::free_vars::has_var;
use crate::text::same_text;

verus! {

/// `e` with every `Var(var)` replaced by `r`.
pub open spec fn subst_spec(e: ExprV, var: Seq<char>, r: ExprV) -> ExprV
    decreases e,
{
    match e {
        ExprV::Rational(p, q) => ExprV::Rational(p, q),
        ExprV::Var(n) => if n == var {
            r
        } else {
            ExprV::Var(n)
        },
        ExprV::Pow(b, k) => ExprV::Pow(Box::new(subst_spec(*b, var, r)), k),
        ExprV::Mul(fs) => ExprV::Mul(subst_terms(fs, var, r)),
        ExprV::Add(ts) => ExprV::Add(subst_terms(ts, var, r)),
        ExprV::Sin(x) => ExprV::Sin(Box::new(subst_spec(*x, var, r))),
        ExprV::Cos(x) => ExprV::Cos(Box::new(subst_spec(*x, var, r))),
        ExprV::Exp(x) => ExprV::Exp(Box::new(subst_spec(*x, var, r))),
        ExprV::Sinh(x) => ExprV::Sinh(Box::new(subst_spec(*x, var, r))),
        ExprV::Cosh(x) => ExprV::Cosh(Box::new(subst_spec(*x, var, r))),
        ExprV::Func(name, args, order) => ExprV::Func(name, subst_terms(args, var, r), order),
    }
}

/// Each element with the substitution applied.
pub open spec fn subst_terms(ts: Seq<ExprV>, var: Seq<char>, r: ExprV) -> Seq<ExprV>
    decreases ts,
{
    if ts.len() == 0 {
        Seq::empty()
    } else {
        subst_terms(ts.drop_last(), var, r) + seq![subst_spec(ts.last(), var, r)]
    }
}

pub proof fn lemma_subst_terms(ts: Seq<ExprV>, var: Seq<char>, r: ExprV)
    ensures
        subst_terms(ts, var, r).len() == ts.len(),
        forall|i: int|
            0 <= i < ts.len() ==> #[trigger] subst_terms(ts, var, r)[i] == subst_spec(ts[i], var, r),
    decreases ts.len(),
{
    if ts.len() > 0 {
        lemma_subst_terms(ts.drop_last(), var, r);
        assert forall|i: int| 0 <= i < ts.len() implies #[trigger] subst_terms(ts, var, r)[i]
            == subst_spec(ts[i], var, r) by {
            if i < ts.len() - 1 {
                assert(ts.drop_last()[i] == ts[i]);
            }
        }
    }
}

/// Replaces every occurrence of `Var(var)` in `expr` with `replacement`.
pub fn substitute(expr: &Expr, var: &str, replacement: &Expr) -> (r: Expr)
    ensures
        r@ == subst_spec(expr@, var@, replacement@),
    decreases expr, 0nat,
{
    match expr {
        Expr::Rational(_) => clone_expr(expr),
        Expr::Var(v) => {
            if same_text(v.as_str(), var) {
                clone_expr(replacement)
            } else {
                clone_expr(expr)
            }
        },
        Expr::Add(terms) => Expr::Add(substitute_all(terms, var, replacement)),
        Expr::Mul(factors) => Expr::Mul(substitute_all(factors, var, replacement)),
        Expr::Pow(base, n) => Expr::Pow(Box::new(substitute(base, var, replacement)), *n),
        Expr::Sin(x) => Expr::Sin(Box::new(substitute(x, var, replacement))),
        Expr::Cos(x) => Expr::Cos(Box::new(substitute(x, var, replacement))),
        Expr::Exp(x) => Expr::Exp(Box::new(substitute(x, var, replacement))),
        Expr::Sinh(x) => Expr::Sinh(Box::new(substitute(x, var, replacement))),
        Expr::Cosh(x) => Expr::Cosh(Box::new(substitute(x, var, replacement))),
        Expr::Func { name, args, order } => Expr::Func {
            name: name.clone(),
            args: substitute_all(args, var, replacement),
            order: copy_u32s(order),
        },
    }
}

fn substitute_all(es: &Vec<Expr>, var: &str, replacement: &Expr) -> (r: Vec<Expr>)
    ensures
        exprs_view(r@) == subst_terms(exprs_view(es@), var@, replacement@),
    decreases es, 1nat,
{
    let ghost ev = exprs_view(es@);
    proof {
        lemma_exprs_view(es@);
    }
    let mut r: Vec<Expr> = Vec::new();
    let mut i: usize = 0;
    proof {
        assert(ev.subrange(0, 0) =~= Seq::<ExprV>::empty());
        assert(exprs_view(r@) =~= subst_terms(ev.subrange(0, 0), var@, replacement@));
    }
    while i < es.len()
        invariant
            i <= es@.len(),
            ev == exprs_view(es@),
            ev.len() == es@.len(),
            forall|k: int| 0 <= k < es@.len() ==> #[trigger] ev[k] == es@[k]@,
            exprs_view(r@) == subst_terms(ev.subrange(0, i as int), var@, replacement@),
        decreases es@.len() - i,
    {
        proof {
            assert(ev.subrange(0, i + 1).drop_last() =~= ev.subrange(0, i as int));
            assert(ev.subrange(0, i + 1).last() == es@[i as int]@);
        }
        let d = substitute(&es[i], var, replacement);
        proof {
            lemma_exprs_view_push(r@, d);
        }
        r.push(d);
        i += 1;
    }
    proof {
        assert(ev.subrange(0, i as int) =~= ev);
    }
    r
}

/// Substituting for a variable that does not occur changes nothing.
pub proof fn lemma_subst_absent(e: ExprV, var: Seq<char>, r: ExprV)
    requires
        !has_var(e, var),
    ensures
        subst_spec(e, var, r) == e,
    decreases e,
{
    match e {
        ExprV::Rational(_, _) => {},
        ExprV::Var(_) => {},
        ExprV::Pow(b, _) => lemma_subst_absent(*b, var, r),
        ExprV::Sin(x) => lemma_subst_absent(*x, var, r),
        ExprV::Cos(x) => lemma_subst_absent(*x, var, r),
        ExprV::Exp(x) => lemma_subst_absent(*x, var, r),
        ExprV::Sinh(x) => lemma_subst_absent(*x, var, r),
        ExprV::Cosh(x) => lemma_subst_absent(*x, var, r),
        ExprV::Mul(ts) => {
            lemma_subst_terms(ts, var, r);
            assert forall|i: int| 0 <= i < ts.len() implies #[trigger] subst_spec(ts[i], var, r)
                == ts[i] by {
                lemma_subst_absent(ts[i], var, r);
            }
            assert(subst_terms(ts, var, r) =~= ts);
        },
        ExprV::Add(ts) => {
            lemma_subst_terms(ts, var, r);
            assert forall|i: int| 0 <= i < ts.len() implies #[trigger] subst_spec(ts[i], var, r)
                == ts[i] by {
                lemma_subst_absent(ts[i], var, r);
            }
            assert(subst_terms(ts, var, r) =~= ts);
        },
        ExprV::Func(_, ts, _) => {
            lemma_subst_terms(ts, var, r);
            assert forall|i: int| 0 <= i < ts.len() implies #[trigger] subst_spec(ts[i], var, r)
                == ts[i] by {
                lemma_subst_absent(ts[i], var, r);
            }
            assert(subst_terms(ts, var, r) =~= ts);
        },
    }
}

/// A variable is gone after substituting for it an expression that does
/// not mention it.
pub proof fn lemma_subst_eliminates(e: ExprV, var: Seq<char>, r: ExprV)
    requires
        !has_var(r, var),
    ensures
        !has_var(subst_spec(e, var, r), var),
    decreases e,
{
    match e {
        ExprV::Rational(_, _) => {},
        ExprV::Var(_) => {},
        ExprV::Pow(b, _) => lemma_subst_eliminates(*b, var, r),
        ExprV::Sin(x) => lemma_subst_eliminates(*x, var, r),
        ExprV::Cos(x) => lemma_subst_eliminates(*x, var, r),
        ExprV::Exp(x) => lemma_subst_eliminates(*x, var, r),
        ExprV::Sinh(x) => lemma_subst_eliminates(*x, var, r),
        ExprV::Cosh(x) => lemma_subst_eliminates(*x, var, r),
        ExprV::Mul(ts) => {
            lemma_subst_terms(ts, var, r);
            let s = subst_terms(ts, var, r);
            assert forall|i: int| 0 <= i < s.len() implies !has_var(#[trigger] s[i], var) by {
                lemma_subst_eliminates(ts[i], var, r);
            }
        },
        ExprV::Add(ts) => {
            lemma_subst_terms(ts, var, r);
            let s = subst_terms(ts, var, r);
            assert forall|i: int| 0 <= i < s.len() implies !has_var(#[trigger] s[i], var) by {
                lemma_subst_eliminates(ts[i], var, r);
            }
        },
        ExprV::Func(_, ts, _) => {
            lemma_subst_terms(ts, var, r);
            let s = subst_terms(ts, var, r);
            assert forall|i: int| 0 <= i < s.len() implies !has_var(#[trigger] s[i], var) by {
                lemma_subst_eliminates(ts[i], var, r);
            }
        },
    }
}

} // verus!
