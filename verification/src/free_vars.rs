//! Every free variable name (`Expr::Var`) appearing anywhere in an
//! expression. A `Func`'s own name (`f` in `f(r)`) names a function
//! symbol, not a variable: only its arguments are searched.
use vstd::prelude::*;
use crate::expr::{exprs_view, lemma_exprs_view, Expr, ExprV};
use crate::names::NameSet;

verus! {

/// Whether the variable `n` occurs in the model.
pub open spec fn has_var(e: ExprV, n: Seq<char>) -> bool
    decreases e,
{
    match e {
        ExprV::Rational(_, _) => false,
        ExprV::Var(m) => m == n,
        ExprV::Pow(b, _) => has_var(*b, n),
        ExprV::Mul(fs) => exists|i: int| 0 <= i < fs.len() && has_var(#[trigger] fs[i], n),
        ExprV::Add(ts) => exists|i: int| 0 <= i < ts.len() && has_var(#[trigger] ts[i], n),
        ExprV::Sin(x) => has_var(*x, n),
        ExprV::Cos(x) => has_var(*x, n),
        ExprV::Exp(x) => has_var(*x, n),
        ExprV::Sinh(x) => has_var(*x, n),
        ExprV::Cosh(x) => has_var(*x, n),
        ExprV::Func(_, args, _) => exists|i: int| 0 <= i < args.len() && has_var(#[trigger] args[i], n),
    }
}

/// The variable names of the model.
pub open spec fn var_names(e: ExprV) -> Set<Seq<char>> {
    Set::new(|n: Seq<char>| has_var(e, n))
}

/// The variable names of the first `k` elements.
pub open spec fn var_names_upto(s: Seq<ExprV>, k: int) -> Set<Seq<char>> {
    Set::new(|n: Seq<char>| exists|i: int| 0 <= i < k && has_var(#[trigger] s[i], n))
}

pub proof fn lemma_var_names_upto_step(s: Seq<ExprV>, k: int)
    requires
        0 <= k,
    ensures
        var_names_upto(s, k + 1) == var_names_upto(s, k) + var_names(s[k]),
{
    let lhs = var_names_upto(s, k + 1);
    let rhs = var_names_upto(s, k) + var_names(s[k]);
    assert forall|n: Seq<char>| lhs.contains(n) <==> rhs.contains(n) by {
        if lhs.contains(n) {
            let i = choose|i: int| 0 <= i < k + 1 && has_var(#[trigger] s[i], n);
            if i < k {
                assert(var_names_upto(s, k).contains(n));
            }
        }
        if var_names_upto(s, k).contains(n) {
            let i = choose|i: int| 0 <= i < k && has_var(#[trigger] s[i], n);
            assert(0 <= i < k + 1 && has_var(s[i], n));
        }
    }
    assert(lhs =~= rhs);
}

/// The variable names of a sum, product or function application are
/// those of its operands.
pub proof fn lemma_var_names_children(v: ExprV)
    ensures
        v matches ExprV::Add(s) ==> var_names(v) == var_names_upto(s, s.len() as int),
        v matches ExprV::Mul(s) ==> var_names(v) == var_names_upto(s, s.len() as int),
        v matches ExprV::Func(_, s, _) ==> var_names(v) == var_names_upto(s, s.len() as int),
{
    match v {
        ExprV::Add(s) => {
            assert(var_names(v) =~= var_names_upto(s, s.len() as int));
        },
        ExprV::Mul(s) => {
            assert(var_names(v) =~= var_names_upto(s, s.len() as int));
        },
        ExprV::Func(_, s, _) => {
            assert(var_names(v) =~= var_names_upto(s, s.len() as int));
        },
        _ => {},
    }
}

/// Every distinct variable name in `e`.
pub fn free_vars(e: &Expr) -> (r: NameSet)
    ensures
        r@.to_set() == var_names(e@),
{
    let mut out = NameSet::new();
    proof {
        assert(out@.to_set() =~= Set::<Seq<char>>::empty());
    }
    collect(e, &mut out);
    proof {
        assert(out@.to_set() =~= var_names(e@));
    }
    out
}

fn collect(e: &Expr, out: &mut NameSet)
    ensures
        final(out)@.to_set() == old(out)@.to_set() + var_names(e@),
    decreases e, 0nat,
{
    match e {
        Expr::Rational(_) => {
            assert(old(out)@.to_set() + var_names(e@) =~= old(out)@.to_set());
        },
        Expr::Var(name) => {
            out.insert(name.clone());
            assert(old(out)@.to_set().insert(name@) =~= old(out)@.to_set() + var_names(e@));
        },
        Expr::Add(terms) => {
            collect_all(terms, out);
            proof {
                lemma_exprs_view(terms@);
                lemma_var_names_children(e@);
                assert(var_names_upto(exprs_view(terms@), terms@.len() as int) =~= var_names(e@));
            }
        },
        Expr::Mul(terms) => {
            collect_all(terms, out);
            proof {
                lemma_exprs_view(terms@);
                lemma_var_names_children(e@);
                assert(var_names_upto(exprs_view(terms@), terms@.len() as int) =~= var_names(e@));
            }
        },
        Expr::Pow(base, _) => collect(base, out),
        Expr::Sin(x) | Expr::Cos(x) | Expr::Exp(x) | Expr::Sinh(x) | Expr::Cosh(x) => collect(x, out),
        Expr::Func { args, .. } => {
            collect_all(args, out);
            proof {
                lemma_exprs_view(args@);
                lemma_var_names_children(e@);
                assert(var_names_upto(exprs_view(args@), args@.len() as int) =~= var_names(e@));
            }
        },
    }
}

fn collect_all(es: &Vec<Expr>, out: &mut NameSet)
    ensures
        final(out)@.to_set() == old(out)@.to_set() + var_names_upto(
            exprs_view(es@),
            es@.len() as int,
        ),
    decreases es, 1nat,
{
    let ghost s = exprs_view(es@);
    proof {
        lemma_exprs_view(es@);
        assert(old(out)@.to_set() + var_names_upto(s, 0) =~= old(out)@.to_set());
    }
    let mut i: usize = 0;
    while i < es.len()
        invariant
            i <= es@.len(),
            s == exprs_view(es@),
            s.len() == es@.len(),
            forall|k: int| 0 <= k < es@.len() ==> #[trigger] s[k] == es@[k]@,
            out@.to_set() == old(out)@.to_set() + var_names_upto(s, i as int),
        decreases es@.len() - i,
    {
        collect(&es[i], out);
        proof {
            assert(s[i as int] == es@[i as int]@);
            lemma_var_names_upto_step(s, i as int);
            assert(out@.to_set() =~= old(out)@.to_set() + var_names_upto(s, i + 1));
        }
        i += 1;
    }
}

} // verus!
