//! The coefficient of a target subexpression in an expression affine in
//! it: a structural classification of how the target occurs, each part
//! normalized on the way back up.
use vstd::prelude::*;
use crate::expr::{Expr, ExprV, clone_expr, expr_equal, exprs_view, lemma_exprs_view};
use crate::atoms::{AtomKeyV, atom_expr};
use crate::rational_form::{becomes_generator, generator_of, normalize};

verus! {

/// `x` occurs in `e` as a subexpression, `e` itself included.
pub open spec fn occurs_in(x: ExprV, e: ExprV) -> bool
    decreases e,
{
    if e == x {
        true
    } else {
        match e {
            ExprV::Add(ts) => exists|i: int| 0 <= i < ts.len() && occurs_in(x, #[trigger] ts[i]),
            ExprV::Mul(fs) => exists|i: int| 0 <= i < fs.len() && occurs_in(x, #[trigger] fs[i]),
            ExprV::Pow(b, _) => occurs_in(x, *b),
            ExprV::Sin(a) => occurs_in(x, *a),
            ExprV::Cos(a) => occurs_in(x, *a),
            ExprV::Exp(a) => occurs_in(x, *a),
            ExprV::Sinh(a) => occurs_in(x, *a),
            ExprV::Cosh(a) => occurs_in(x, *a),
            ExprV::Func(_, args, _) => exists|i: int|
                0 <= i < args.len() && occurs_in(x, #[trigger] args[i]),
            _ => false,
        }
    }
}

/// What does not occur in a sum or a product occurs in none of its
/// operands.
proof fn lemma_not_in_part(x: ExprV, e: ExprV, ts: Seq<ExprV>, i: int)
    requires
        !occurs_in(x, e),
        e == ExprV::Add(ts) || e == ExprV::Mul(ts),
        0 <= i < ts.len(),
    ensures
        !occurs_in(x, ts[i]),
{
    if occurs_in(x, ts[i]) {
        reveal_with_fuel(occurs_in, 2);
        if e == ExprV::Add(ts) {
            assert(e->Add_0[i] == ts[i]);
        } else {
            assert(e->Mul_0[i] == ts[i]);
        }
    }
}

/// `e = coeff * target + remainder`, both normalized, or `None` where
/// `e` is not affine in `target`: `target` squared, inverted, inside a
/// function's argument, or in two factors of one product. `target` is
/// found by structural equality. `None` also where normalizing stops.
pub fn isolate_linear(e: &Expr, target: &Expr) -> (r: Option<(Expr, Expr)>)
    ensures
        e@ == target@ ==> (r matches Some((c, rem)) && c@ == ExprV::Rational(1, 1) && rem@
            == ExprV::Rational(0, 1)),
        !occurs_in(target@, e@) ==> (r matches Some((c, _)) ==> c@ == ExprV::Rational(0, 1)),
        (e@ is Rational || e@ is Var) && e@ != target@ ==> (r matches Some((c, rem)) && c@
            == ExprV::Rational(0, 1) && rem@ == e@),
        becomes_generator(e@) && e@ != target@ ==> (r matches Some((c, rem)) ==> c@
            == ExprV::Rational(0, 1) && exists|k: AtomKeyV|
            generator_of(e@, k) && rem@ == #[trigger] atom_expr(k)),
{
    analyze(e, target)
}

#[verifier::loop_isolation(false)]
fn analyze(e: &Expr, target: &Expr) -> (r: Option<(Expr, Expr)>)
    ensures
        e@ == target@ ==> (r matches Some((c, rem)) && c@ == ExprV::Rational(1, 1) && rem@
            == ExprV::Rational(0, 1)),
        !occurs_in(target@, e@) ==> (r matches Some((c, _)) ==> c@ == ExprV::Rational(0, 1)),
        (e@ is Rational || e@ is Var) && e@ != target@ ==> (r matches Some((c, rem)) && c@
            == ExprV::Rational(0, 1) && rem@ == e@),
        becomes_generator(e@) && e@ != target@ ==> (r matches Some((c, rem)) ==> c@
            == ExprV::Rational(0, 1) && exists|k: AtomKeyV|
            generator_of(e@, k) && rem@ == #[trigger] atom_expr(k)),
    decreases e,
{
    if expr_equal(e, target) {
        return Some((Expr::one(), Expr::zero()));
    }
    let (coeff, remainder) = match e {
        Expr::Rational(_) | Expr::Var(_) => (Expr::zero(), clone_expr(e)),
        Expr::Add(terms) => {
            let mut coeffs: Vec<Expr> = Vec::new();
            let mut rests: Vec<Expr> = Vec::new();
            let mut i: usize = 0;
            proof {
                lemma_exprs_view(terms@);
            }
            while i < terms.len()
                invariant
                    i <= terms@.len(),
                    coeffs@.len() == i,
                    !occurs_in(target@, e@) ==> forall|j: int|
                        0 <= j < i ==> (#[trigger] coeffs@[j])@ == ExprV::Rational(0, 1),
                decreases terms@.len() - i,
            {
                proof {
                    assert(exprs_view(terms@)[i as int] == terms@[i as int]@);
                    if !occurs_in(target@, e@) {
                        assert(e@ == ExprV::Add(exprs_view(terms@)));
                        assert(e@ != target@);
                        lemma_not_in_part(target@, e@, exprs_view(terms@), i as int);
                    }
                }
                match analyze(&terms[i], target) {
                    Some((c, r)) => {
                        coeffs.push(c);
                        rests.push(r);
                    },
                    None => return None,
                }
                i += 1;
            }
            proof {
                lemma_exprs_view(coeffs@);
                if !occurs_in(target@, e@) {
                    assert forall|j: int| 0 <= j < exprs_view(coeffs@).len() implies #[trigger] exprs_view(
                        coeffs@,
                    )[j] == ExprV::Rational(0, 1) by {
                        assert(exprs_view(coeffs@)[j] == coeffs@[j]@);
                    }
                }
            }
            (Expr::Add(coeffs), Expr::Add(rests))
        },
        Expr::Mul(factors) => {
            let mut free_factors: Vec<Expr> = Vec::new();
            let mut linear: Option<(Expr, Expr)> = None;
            let mut i: usize = 0;
            proof {
                lemma_exprs_view(factors@);
            }
            while i < factors.len()
                invariant
                    i <= factors@.len(),
                    !occurs_in(target@, e@) ==> linear is None,
                decreases factors@.len() - i,
            {
                proof {
                    assert(exprs_view(factors@)[i as int] == factors@[i as int]@);
                    if !occurs_in(target@, e@) {
                        assert(e@ == ExprV::Mul(exprs_view(factors@)));
                        assert(e@ != target@);
                        lemma_not_in_part(target@, e@, exprs_view(factors@), i as int);
                    }
                }
                match analyze(&factors[i], target) {
                    Some((c, r)) => {
                        if c.is_zero() {
                            free_factors.push(r);
                        } else if linear.is_some() {
                            return None;
                        } else {
                            linear = Some((c, r));
                        }
                    },
                    None => return None,
                }
                i += 1;
            }
            let free_product = if free_factors.len() == 0 {
                Expr::one()
            } else if free_factors.len() == 1 {
                free_factors.remove(0)
            } else {
                Expr::Mul(free_factors)
            };
            match linear {
                None => (Expr::zero(), free_product),
                Some((c, r)) => (c * clone_expr(&free_product), r * free_product),
            }
        },
        Expr::Pow(base, n) => {
            match analyze(base, target) {
                Some((c, r)) => {
                    if c.is_zero() {
                        (Expr::zero(), Expr::Pow(Box::new(r), *n))
                    } else if *n == 1 {
                        (c, r)
                    } else {
                        return None;
                    }
                },
                None => return None,
            }
        },
        Expr::Sin(inner) | Expr::Cos(inner) | Expr::Exp(inner) | Expr::Sinh(inner) | Expr::Cosh(
            inner,
        ) => {
            match analyze(inner, target) {
                Some((c, _)) => {
                    if c.is_zero() {
                        (Expr::zero(), clone_expr(e))
                    } else {
                        return None;
                    }
                },
                None => return None,
            }
        },
        Expr::Func { args, .. } => {
            let mut i: usize = 0;
            while i < args.len()
                decreases args@.len() - i,
            {
                match analyze(&args[i], target) {
                    Some((c, _)) => {
                        if !c.is_zero() {
                            return None;
                        }
                    },
                    None => return None,
                }
                i += 1;
            }
            (Expr::zero(), clone_expr(e))
        },
    };
    let c = match normalize(&coeff) {
        Some(x) => x,
        None => return None,
    };
    let rem = match normalize(&remainder) {
        Some(x) => x,
        None => return None,
    };
    Some((c, rem))
}

} // verus!
