//! A total order on expressions, used only to sort the children of a sum
//! or a product into one canonical arrangement: two sums with the same
//! terms in different orders sort to the same sequence. It is not the
//! order of the values the expressions denote.
//!
//! Variants are ranked in declaration order; within a variant, fields
//! are compared in order (rationals by numerator, then denominator;
//! names by their characters; child lists lexicographically, a proper
//! prefix first).
use vstd::prelude::*;
use vstd::relations::{sorted_by, total_ordering};
use crate::big_scalar::scalar_order;
use crate::digits::int_order;
use crate::text::same_text;
use crate::expr::{Expr, ExprV, expr_view, exprs_view, lemma_exprs_view, lemma_exprs_view_ext};
use crate::names::{
    text_less, text_lt, lemma_text_lt_irreflexive, lemma_text_lt_total, lemma_text_lt_transitive,
    lemma_text_lt_asymmetric,
};

verus! {

/// The place of a variant in the order.
pub open spec fn rank(v: ExprV) -> int {
    match v {
        ExprV::Rational(..) => 0,
        ExprV::Var(..) => 1,
        ExprV::Pow(..) => 2,
        ExprV::Mul(..) => 3,
        ExprV::Add(..) => 4,
        ExprV::Sin(..) => 5,
        ExprV::Cos(..) => 6,
        ExprV::Exp(..) => 7,
        ExprV::Sinh(..) => 8,
        ExprV::Cosh(..) => 9,
        ExprV::Func(..) => 10,
    }
}

/// `c`, or `d` where `c` ties.
pub open spec fn then(c: int, d: int) -> int {
    if c != 0 {
        c
    } else {
        d
    }
}

/// Names by their characters.
pub open spec fn text_order(a: Seq<char>, b: Seq<char>) -> int {
    if a == b {
        0
    } else if text_lt(a, b) {
        -1
    } else {
        1
    }
}

/// Derivative orders, lexicographically.
pub open spec fn u32s_order(a: Seq<u32>, b: Seq<u32>) -> int
    decreases a.len(),
{
    if a.len() == 0 {
        if b.len() == 0 {
            0
        } else {
            -1
        }
    } else if b.len() == 0 {
        1
    } else {
        then(int_order(a[0] as int, b[0] as int), u32s_order(a.drop_first(), b.drop_first()))
    }
}

/// `-1`, `0` or `1` as `a` sorts before, equal to or after `b`.
pub open spec fn expr_order(a: ExprV, b: ExprV) -> int
    decreases a,
{
    if rank(a) != rank(b) {
        int_order(rank(a), rank(b))
    } else {
        match (a, b) {
            (ExprV::Rational(n1, d1), ExprV::Rational(n2, d2)) => scalar_order((n1, d1), (n2, d2)),
            (ExprV::Var(x), ExprV::Var(y)) => text_order(x, y),
            (ExprV::Pow(x, n), ExprV::Pow(y, m)) => then(expr_order(*x, *y), int_order(n, m)),
            (ExprV::Mul(xs), ExprV::Mul(ys)) => seq_order(xs, ys),
            (ExprV::Add(xs), ExprV::Add(ys)) => seq_order(xs, ys),
            (ExprV::Sin(x), ExprV::Sin(y)) => expr_order(*x, *y),
            (ExprV::Cos(x), ExprV::Cos(y)) => expr_order(*x, *y),
            (ExprV::Exp(x), ExprV::Exp(y)) => expr_order(*x, *y),
            (ExprV::Sinh(x), ExprV::Sinh(y)) => expr_order(*x, *y),
            (ExprV::Cosh(x), ExprV::Cosh(y)) => expr_order(*x, *y),
            (ExprV::Func(n1, a1, o1), ExprV::Func(n2, a2, o2)) => then(
                text_order(n1, n2),
                then(seq_order(a1, a2), u32s_order(o1, o2)),
            ),
            _ => 0,
        }
    }
}

/// Sequences of expressions, lexicographically.
pub open spec fn seq_order(a: Seq<ExprV>, b: Seq<ExprV>) -> int
    decreases a,
{
    if a.len() == 0 {
        if b.len() == 0 {
            0
        } else {
            -1
        }
    } else if b.len() == 0 {
        1
    } else {
        then(
            expr_order(a[0], b[0]),
            seq_order(a.subrange(1, a.len() as int), b.subrange(1, b.len() as int)),
        )
    }
}

/// `a` sorts no later than `b`.
pub open spec fn expr_le(a: ExprV, b: ExprV) -> bool {
    expr_order(a, b) <= 0
}

// ---------------------------------------------------------------------
// The order's laws
// ---------------------------------------------------------------------

proof fn lemma_int_order(a: int, b: int, c: int)
    ensures
        int_order(a, b) == -int_order(b, a),
        int_order(a, b) == 0 <==> a == b,
        int_order(a, b) < 0 && int_order(b, c) < 0 ==> int_order(a, c) < 0,
{
}

proof fn lemma_text_order(a: Seq<char>, b: Seq<char>, c: Seq<char>)
    ensures
        text_order(a, b) == -text_order(b, a),
        text_order(a, b) == 0 <==> a == b,
        text_order(a, b) < 0 && text_order(b, c) < 0 ==> text_order(a, c) < 0,
{
    if a != b {
        lemma_text_lt_total(a, b);
        if text_lt(a, b) {
            lemma_text_lt_asymmetric(a, b);
        }
    }
    if text_order(a, b) < 0 && text_order(b, c) < 0 {
        lemma_text_lt_transitive(a, b, c);
        if a == c {
            lemma_text_lt_asymmetric(a, b);
        }
    }
}

proof fn lemma_u32s_order(a: Seq<u32>, b: Seq<u32>, c: Seq<u32>)
    ensures
        u32s_order(a, b) == -u32s_order(b, a),
        u32s_order(a, b) == 0 <==> a == b,
        u32s_order(a, b) < 0 && u32s_order(b, c) < 0 ==> u32s_order(a, c) < 0,
    decreases a.len(),
{
    if a.len() > 0 && b.len() > 0 {
        if c.len() > 0 {
            lemma_u32s_order(a.drop_first(), b.drop_first(), c.drop_first());
        } else {
            lemma_u32s_order(a.drop_first(), b.drop_first(), c);
        }
        if a.drop_first() == b.drop_first() && a[0] == b[0] {
            assert(a =~= seq![a[0]] + a.drop_first());
            assert(b =~= seq![b[0]] + b.drop_first());
        }
    }
    if a.len() == 0 && b.len() == 0 {
        assert(a =~= b);
    }
}

/// `expr_order` is antisymmetric and ties exactly on equal expressions.
pub proof fn lemma_expr_order_antisymmetric(a: ExprV, b: ExprV)
    ensures
        expr_order(a, b) == -expr_order(b, a),
        expr_order(a, b) == 0 <==> a == b,
    decreases a,
{
    if rank(a) == rank(b) {
        match (a, b) {
            (ExprV::Rational(n1, d1), ExprV::Rational(n2, d2)) => {
                lemma_int_order(n1, n2, n1);
                lemma_int_order(d1, d2, d1);
            },
            (ExprV::Var(x), ExprV::Var(y)) => lemma_text_order(x, y, x),
            (ExprV::Pow(x, n), ExprV::Pow(y, m)) => {
                lemma_expr_order_antisymmetric(*x, *y);
                lemma_int_order(n, m, n);
            },
            (ExprV::Mul(xs), ExprV::Mul(ys)) => lemma_seq_order_antisymmetric(xs, ys),
            (ExprV::Add(xs), ExprV::Add(ys)) => lemma_seq_order_antisymmetric(xs, ys),
            (ExprV::Sin(x), ExprV::Sin(y)) => lemma_expr_order_antisymmetric(*x, *y),
            (ExprV::Cos(x), ExprV::Cos(y)) => lemma_expr_order_antisymmetric(*x, *y),
            (ExprV::Exp(x), ExprV::Exp(y)) => lemma_expr_order_antisymmetric(*x, *y),
            (ExprV::Sinh(x), ExprV::Sinh(y)) => lemma_expr_order_antisymmetric(*x, *y),
            (ExprV::Cosh(x), ExprV::Cosh(y)) => lemma_expr_order_antisymmetric(*x, *y),
            (ExprV::Func(n1, a1, o1), ExprV::Func(n2, a2, o2)) => {
                lemma_text_order(n1, n2, n1);
                lemma_seq_order_antisymmetric(a1, a2);
                lemma_u32s_order(o1, o2, o1);
            },
            _ => {},
        }
    }
}

/// The laws of [`lemma_expr_order_antisymmetric`] for `seq_order`.
pub proof fn lemma_seq_order_antisymmetric(a: Seq<ExprV>, b: Seq<ExprV>)
    ensures
        seq_order(a, b) == -seq_order(b, a),
        seq_order(a, b) == 0 <==> a == b,
    decreases a,
{
    if a.len() > 0 && b.len() > 0 {
        let ta = a.subrange(1, a.len() as int);
        let tb = b.subrange(1, b.len() as int);
        lemma_expr_order_antisymmetric(a[0], b[0]);
        lemma_seq_order_antisymmetric(ta, tb);
        if ta == tb && a[0] == b[0] {
            assert(a =~= seq![a[0]] + ta);
            assert(b =~= seq![b[0]] + tb);
        }
    }
    if a.len() == 0 && b.len() == 0 {
        assert(a =~= b);
    }
}

/// `expr_order` is transitive.
pub proof fn lemma_expr_order_transitive(a: ExprV, b: ExprV, c: ExprV)
    requires
        expr_order(a, b) < 0,
        expr_order(b, c) < 0,
    ensures
        expr_order(a, c) < 0,
    decreases a,
{
    if rank(a) == rank(b) && rank(b) == rank(c) {
        match (a, b, c) {
            (ExprV::Rational(n1, d1), ExprV::Rational(n2, d2), ExprV::Rational(n3, d3)) => {
                lemma_int_order(n1, n2, n3);
                lemma_int_order(d1, d2, d3);
            },
            (ExprV::Var(x), ExprV::Var(y), ExprV::Var(z)) => lemma_text_order(x, y, z),
            (ExprV::Pow(x, n), ExprV::Pow(y, m), ExprV::Pow(z, k)) => {
                lemma_expr_order_antisymmetric(*x, *y);
                lemma_expr_order_antisymmetric(*y, *z);
                lemma_int_order(n, m, k);
                if expr_order(*x, *y) < 0 && expr_order(*y, *z) < 0 {
                    lemma_expr_order_transitive(*x, *y, *z);
                }
            },
            (ExprV::Mul(xs), ExprV::Mul(ys), ExprV::Mul(zs)) => lemma_seq_order_transitive(
                xs,
                ys,
                zs,
            ),
            (ExprV::Add(xs), ExprV::Add(ys), ExprV::Add(zs)) => lemma_seq_order_transitive(
                xs,
                ys,
                zs,
            ),
            (ExprV::Sin(x), ExprV::Sin(y), ExprV::Sin(z)) => lemma_expr_order_transitive(
                *x,
                *y,
                *z,
            ),
            (ExprV::Cos(x), ExprV::Cos(y), ExprV::Cos(z)) => lemma_expr_order_transitive(
                *x,
                *y,
                *z,
            ),
            (ExprV::Exp(x), ExprV::Exp(y), ExprV::Exp(z)) => lemma_expr_order_transitive(
                *x,
                *y,
                *z,
            ),
            (ExprV::Sinh(x), ExprV::Sinh(y), ExprV::Sinh(z)) => lemma_expr_order_transitive(
                *x,
                *y,
                *z,
            ),
            (ExprV::Cosh(x), ExprV::Cosh(y), ExprV::Cosh(z)) => lemma_expr_order_transitive(
                *x,
                *y,
                *z,
            ),
            (ExprV::Func(n1, a1, o1), ExprV::Func(n2, a2, o2), ExprV::Func(n3, a3, o3)) => {
                lemma_text_order(n1, n2, n3);
                lemma_text_order(n2, n3, n1);
                lemma_seq_order_antisymmetric(a1, a2);
                lemma_seq_order_antisymmetric(a2, a3);
                lemma_u32s_order(o1, o2, o3);
                lemma_u32s_order(o2, o3, o1);
                if seq_order(a1, a2) < 0 && seq_order(a2, a3) < 0 {
                    lemma_seq_order_transitive(a1, a2, a3);
                }
            },
            _ => {},
        }
    }
}

/// `seq_order` is transitive.
pub proof fn lemma_seq_order_transitive(a: Seq<ExprV>, b: Seq<ExprV>, c: Seq<ExprV>)
    requires
        seq_order(a, b) < 0,
        seq_order(b, c) < 0,
    ensures
        seq_order(a, c) < 0,
    decreases a,
{
    if a.len() > 0 && b.len() > 0 && c.len() > 0 {
        let ta = a.subrange(1, a.len() as int);
        let tb = b.subrange(1, b.len() as int);
        let tc = c.subrange(1, c.len() as int);
        lemma_expr_order_antisymmetric(a[0], b[0]);
        lemma_expr_order_antisymmetric(b[0], c[0]);
        if expr_order(a[0], b[0]) < 0 && expr_order(b[0], c[0]) < 0 {
            lemma_expr_order_transitive(a[0], b[0], c[0]);
        }
        if seq_order(ta, tb) < 0 && seq_order(tb, tc) < 0 {
            lemma_seq_order_transitive(ta, tb, tc);
        }
    }
}

/// `expr_le` is transitive.
pub proof fn lemma_expr_order_le_transitive(a: ExprV, b: ExprV, c: ExprV)
    requires
        expr_le(a, b),
        expr_le(b, c),
    ensures
        expr_le(a, c),
{
    lemma_expr_order_antisymmetric(a, b);
    lemma_expr_order_antisymmetric(b, c);
    lemma_expr_order_antisymmetric(a, c);
    if expr_order(a, b) < 0 && expr_order(b, c) < 0 {
        lemma_expr_order_transitive(a, b, c);
    }
}

/// `expr_le` is a total order: reflexive, antisymmetric, transitive and
/// total.
pub proof fn lemma_expr_le_total_ordering()
    ensures
        total_ordering(|a: ExprV, b: ExprV| expr_le(a, b)),
{
    let le = |a: ExprV, b: ExprV| expr_le(a, b);
    assert forall|a: ExprV| #[trigger] le(a, a) by {
        lemma_expr_order_antisymmetric(a, a);
    }
    assert forall|a: ExprV, b: ExprV| #[trigger] le(a, b) && #[trigger] le(b, a) implies a == b by {
        lemma_expr_order_antisymmetric(a, b);
    }
    assert forall|a: ExprV, b: ExprV, c: ExprV|
        #[trigger] le(a, b) && #[trigger] le(b, c) implies #[trigger] le(a, c) by {
        lemma_expr_order_le_transitive(a, b, c);
    }
    assert forall|a: ExprV, b: ExprV| #[trigger] le(a, b) || #[trigger] le(b, a) by {
        lemma_expr_order_antisymmetric(a, b);
    }
}

// ---------------------------------------------------------------------
// Comparing and sorting
// ---------------------------------------------------------------------

fn rank_of(e: &Expr) -> (r: u8)
    ensures
        r as int == rank(e@),
{
    match e {
        Expr::Rational(_) => 0,
        Expr::Var(_) => 1,
        Expr::Pow(..) => 2,
        Expr::Mul(_) => 3,
        Expr::Add(_) => 4,
        Expr::Sin(_) => 5,
        Expr::Cos(_) => 6,
        Expr::Exp(_) => 7,
        Expr::Sinh(_) => 8,
        Expr::Cosh(_) => 9,
        Expr::Func { .. } => 10,
    }
}

fn order_of_ints(a: i64, b: i64) -> (r: i8)
    ensures
        r as int == int_order(a as int, b as int),
{
    if a < b {
        -1
    } else if a == b {
        0
    } else {
        1
    }
}

fn text_order_of(a: &str, b: &str) -> (r: i8)
    ensures
        r as int == text_order(a@, b@),
{
    if same_text(a, b) {
        0
    } else if text_less(a, b) {
        -1
    } else {
        1
    }
}

fn u32s_order_of(a: &Vec<u32>, b: &Vec<u32>) -> (r: i8)
    ensures
        r as int == u32s_order(a@, b@),
{
    let mut i: usize = 0;
    proof {
        assert(a@.skip(0) =~= a@);
        assert(b@.skip(0) =~= b@);
    }
    while i < a.len() && i < b.len()
        invariant
            i <= a@.len(),
            i <= b@.len(),
            u32s_order(a@, b@) == u32s_order(a@.skip(i as int), b@.skip(i as int)),
        decreases a@.len() - i,
    {
        proof {
            let sa = a@.skip(i as int);
            let sb = b@.skip(i as int);
            assert(sa.drop_first() =~= a@.skip(i + 1));
            assert(sb.drop_first() =~= b@.skip(i + 1));
        }
        if a[i] != b[i] {
            return if a[i] < b[i] {
                -1
            } else {
                1
            };
        }
        i += 1;
    }
    if i < a.len() {
        1
    } else if i < b.len() {
        -1
    } else {
        0
    }
}

/// `expr_order` of two expressions: `-1`, `0` or `1` as `a` sorts
/// before, equal to or after `b`.
pub fn expr_compare(a: &Expr, b: &Expr) -> (r: i8)
    ensures
        r as int == expr_order(a@, b@),
    decreases a,
{
    let ra = rank_of(a);
    let rb = rank_of(b);
    if ra != rb {
        return if ra < rb {
            -1
        } else {
            1
        };
    }
    match (a, b) {
        (Expr::Rational(x), Expr::Rational(y)) => x.compare(y),
        (Expr::Var(x), Expr::Var(y)) => text_order_of(x, y),
        (Expr::Pow(x, n), Expr::Pow(y, m)) => {
            let c = expr_compare(x, y);
            if c != 0 {
                c
            } else {
                order_of_ints(*n as i64, *m as i64)
            }
        },
        (Expr::Mul(xs), Expr::Mul(ys)) => exprs_compare(xs, ys),
        (Expr::Add(xs), Expr::Add(ys)) => exprs_compare(xs, ys),
        (Expr::Sin(x), Expr::Sin(y)) => expr_compare(x, y),
        (Expr::Cos(x), Expr::Cos(y)) => expr_compare(x, y),
        (Expr::Exp(x), Expr::Exp(y)) => expr_compare(x, y),
        (Expr::Sinh(x), Expr::Sinh(y)) => expr_compare(x, y),
        (Expr::Cosh(x), Expr::Cosh(y)) => expr_compare(x, y),
        (
            Expr::Func { name: n1, args: a1, order: o1 },
            Expr::Func { name: n2, args: a2, order: o2 },
        ) => {
            let c = text_order_of(n1, n2);
            if c != 0 {
                return c;
            }
            let d = exprs_compare(a1, a2);
            if d != 0 {
                return d;
            }
            u32s_order_of(o1, o2)
        },
        _ => 0,
    }
}

/// `seq_order` of two vectors of expressions.
pub fn exprs_compare(a: &Vec<Expr>, b: &Vec<Expr>) -> (r: i8)
    ensures
        r as int == seq_order(exprs_view(a@), exprs_view(b@)),
    decreases a,
{
    proof {
        lemma_exprs_view(a@);
        lemma_exprs_view(b@);
    }
    let ghost va = exprs_view(a@);
    let ghost vb = exprs_view(b@);
    let mut i: usize = 0;
    proof {
        assert(va.subrange(0, va.len() as int) =~= va);
        assert(vb.subrange(0, vb.len() as int) =~= vb);
    }
    while i < a.len() && i < b.len()
        invariant
            i <= a@.len(),
            i <= b@.len(),
            va == exprs_view(a@),
            vb == exprs_view(b@),
            va.len() == a@.len(),
            vb.len() == b@.len(),
            forall|j: int| 0 <= j < a@.len() ==> #[trigger] va[j] == expr_view(a@[j]),
            forall|j: int| 0 <= j < b@.len() ==> #[trigger] vb[j] == expr_view(b@[j]),
            seq_order(va, vb) == seq_order(
                va.subrange(i as int, va.len() as int),
                vb.subrange(i as int, vb.len() as int),
            ),
        decreases a@.len() - i,
    {
        proof {
            let sa = va.subrange(i as int, va.len() as int);
            let sb = vb.subrange(i as int, vb.len() as int);
            assert(sa.subrange(1, sa.len() as int) =~= va.subrange(i + 1, va.len() as int));
            assert(sb.subrange(1, sb.len() as int) =~= vb.subrange(i + 1, vb.len() as int));
            assert(sa[0] == va[i as int]);
            assert(sb[0] == vb[i as int]);
        }
        let c = expr_compare(&a[i], &b[i]);
        if c != 0 {
            return c;
        }
        i += 1;
    }
    if i < a.len() {
        1
    } else if i < b.len() {
        -1
    } else {
        0
    }
}

/// Whether `a` sorts strictly before `b`.
pub fn expr_less(a: &Expr, b: &Expr) -> (r: bool)
    ensures
        r == (expr_order(a@, b@) < 0),
{
    expr_compare(a, b) < 0
}

/// `s` is in ascending order.
pub open spec fn sorted_views(s: Seq<ExprV>) -> bool {
    forall|i: int, j: int| 0 <= i < j < s.len() ==> expr_le(#[trigger] s[i], #[trigger] s[j])
}

proof fn lemma_views_insert(s: Seq<Expr>, i: int, x: Expr)
    requires
        0 <= i <= s.len(),
    ensures
        exprs_view(s.insert(i, x)) == exprs_view(s).insert(i, expr_view(x)),
{
    lemma_exprs_view(s);
    lemma_exprs_view(s.insert(i, x));
    assert(exprs_view(s.insert(i, x)) =~= exprs_view(s).insert(i, expr_view(x)));
}

proof fn lemma_views_remove(s: Seq<Expr>, i: int)
    requires
        0 <= i < s.len(),
    ensures
        exprs_view(s.remove(i)) == exprs_view(s).remove(i),
{
    lemma_exprs_view(s);
    lemma_exprs_view(s.remove(i));
    assert(exprs_view(s.remove(i)) =~= exprs_view(s).remove(i));
}

/// Sorts `v` into ascending order by [`expr_order`], keeping equal
/// expressions in their original order (a stable insertion sort).
pub fn sort_exprs(v: &mut Vec<Expr>)
    ensures
        sorted_views(exprs_view(final(v)@)),
        final(v)@.to_multiset() == old(v)@.to_multiset(),
        exprs_view(final(v)@).to_multiset() == exprs_view(old(v)@).to_multiset(),
{
    broadcast use vstd::seq_lib::to_multiset_remove, vstd::seq_lib::to_multiset_insert;

    let n = v.len();
    let mut i: usize = 1;
    proof {
        lemma_exprs_view(v@);
    }
    if n == 0 {
        return;
    }
    while i < n
        invariant
            1 <= i <= n,
            v@.len() == n,
            sorted_views(exprs_view(v@).subrange(0, i as int)),
            v@.to_multiset() == old(v)@.to_multiset(),
            exprs_view(v@).to_multiset() == exprs_view(old(v)@).to_multiset(),
        decreases n - i,
    {
        let ghost before = v@;
        let x = v.remove(i);
        let ghost removed = v@;
        proof {
            lemma_views_remove(before, i as int);
            lemma_exprs_view(before);
            lemma_exprs_view(removed);
        }
        let mut p: usize = i;
        while p > 0 && expr_less(&x, &v[p - 1])
            invariant
                0 <= p <= i,
                i < n,
                v@ == removed,
                removed.len() == n - 1,
                forall|q: int| p <= q < i ==> expr_order(expr_view(x), #[trigger] expr_view(removed[q])) < 0,
            decreases p,
        {
            p -= 1;
        }
        proof {
            lemma_views_insert(removed, p as int, x);
            lemma_exprs_view(removed.insert(p as int, x));
        }
        v.insert(p, x);
        proof {
            broadcast use vstd::multiset::group_multiset_axioms, vstd::seq_lib::to_multiset_contains;

            assert(before[i as int] == x);
            assert(before.contains(x));
            assert(before.to_multiset().count(x) > 0);
            assert(v@ == removed.insert(p as int, x));
            assert(removed == before.remove(i as int));
            vstd::seq_lib::to_multiset_insert(removed, p as int, x);
            vstd::seq_lib::to_multiset_remove(before, i as int);
            assert(v@.to_multiset() == removed.to_multiset().insert(x));
            assert(removed.to_multiset() == before.to_multiset().remove(x));
            assert(v@.to_multiset() =~= before.to_multiset());
            let bv = exprs_view(before);
            let rv = exprs_view(removed);
            assert(bv[i as int] == expr_view(x));
            assert(bv.contains(expr_view(x)));
            assert(bv.to_multiset().count(expr_view(x)) > 0);
            assert(rv == bv.remove(i as int));
            vstd::seq_lib::to_multiset_remove(bv, i as int);
            vstd::seq_lib::to_multiset_insert(rv, p as int, expr_view(x));
            assert(rv.to_multiset() == bv.to_multiset().remove(expr_view(x)));
            assert(exprs_view(v@) == rv.insert(p as int, expr_view(x)));
            assert(exprs_view(v@).to_multiset() == rv.to_multiset().insert(expr_view(x)));
            assert(exprs_view(v@).to_multiset() =~= bv.to_multiset());
            let w = exprs_view(v@);
            let old_prefix = exprs_view(before).subrange(0, i as int);
            assert forall|a: int, b: int| 0 <= a < b < i + 1 implies expr_le(
                #[trigger] w.subrange(0, i + 1)[a],
                #[trigger] w.subrange(0, i + 1)[b],
            ) by {
                let wa = w[a];
                let wb = w[b];
                if b < p {
                    assert(wa == old_prefix[a] && wb == old_prefix[b]);
                } else if a > p {
                    assert(wa == old_prefix[a - 1] && wb == old_prefix[b - 1]);
                } else if a == p {
                    assert(wa == expr_view(x));
                    assert(wb == expr_view(removed[b - 1]));
                } else {
                    // a < p <= b
                    assert(wa == old_prefix[a]);
                    assert(p > 0);
                    assert(!(expr_order(expr_view(x), expr_view(removed[p - 1])) < 0));
                    lemma_expr_order_antisymmetric(expr_view(x), expr_view(removed[p - 1]));
                    assert(expr_view(removed[p - 1]) == old_prefix[p - 1]);
                    if a < p - 1 {
                        assert(expr_le(old_prefix[a], old_prefix[p - 1]));
                        lemma_expr_order_le_transitive(
                            wa,
                            old_prefix[p - 1],
                            expr_view(x),
                        );
                    }
                    if b == p {
                        assert(wb == expr_view(x));
                    } else {
                        assert(wb == expr_view(removed[b - 1]));
                        lemma_expr_order_antisymmetric(expr_view(x), wb);
                        lemma_expr_order_le_transitive(wa, expr_view(x), wb);
                    }
                }
            }
        }
        i += 1;
    }
    proof {
        lemma_exprs_view(v@);
        assert(exprs_view(v@).subrange(0, n as int) =~= exprs_view(v@));
    }
}

/// Two sequences sorted by [`expr_order`] that hold the same
/// expressions (counted with multiplicity) are the same sequence: the
/// sorted form of a sum's terms does not depend on their order.
pub proof fn lemma_sorted_form_unique(a: Seq<ExprV>, b: Seq<ExprV>)
    requires
        sorted_views(a),
        sorted_views(b),
        a.to_multiset() == b.to_multiset(),
    ensures
        a == b,
{
    let le = |x: ExprV, y: ExprV| expr_le(x, y);
    lemma_expr_le_total_ordering();
    assert(sorted_by(a, le));
    assert(sorted_by(b, le));
    vstd::seq_lib::lemma_sorted_unique(a, b, le);
}

// ---------------------------------------------------------------------
// Generators with exponents, and lists of them
// ---------------------------------------------------------------------

/// A generator's expression with its exponent: by the expression, then
/// by the exponent.
pub open spec fn pair_order(a: (ExprV, u32), b: (ExprV, u32)) -> int {
    then(expr_order(a.0, b.0), int_order(a.1 as int, b.1 as int))
}

/// Lists of such pairs, lexicographically (a proper prefix first).
pub open spec fn key_order(a: Seq<(ExprV, u32)>, b: Seq<(ExprV, u32)>) -> int
    decreases a.len(),
{
    if a.len() == 0 {
        if b.len() == 0 {
            0
        } else {
            -1
        }
    } else if b.len() == 0 {
        1
    } else {
        then(pair_order(a[0], b[0]), key_order(a.drop_first(), b.drop_first()))
    }
}

/// `pair_order` is antisymmetric, ties exactly on equal pairs, and is
/// transitive.
pub proof fn lemma_pair_order(a: (ExprV, u32), b: (ExprV, u32), c: (ExprV, u32))
    ensures
        pair_order(a, b) == -pair_order(b, a),
        pair_order(a, b) == 0 <==> a == b,
        pair_order(a, b) < 0 && pair_order(b, c) < 0 ==> pair_order(a, c) < 0,
{
    lemma_expr_order_antisymmetric(a.0, b.0);
    lemma_expr_order_antisymmetric(b.0, c.0);
    lemma_expr_order_antisymmetric(a.0, c.0);
    lemma_int_order(a.1 as int, b.1 as int, c.1 as int);
    if expr_order(a.0, b.0) < 0 && expr_order(b.0, c.0) < 0 {
        lemma_expr_order_transitive(a.0, b.0, c.0);
    }
}

/// The laws of [`lemma_pair_order`] for `key_order`.
pub proof fn lemma_key_order(a: Seq<(ExprV, u32)>, b: Seq<(ExprV, u32)>, c: Seq<(ExprV, u32)>)
    ensures
        key_order(a, b) == -key_order(b, a),
        key_order(a, b) == 0 <==> a == b,
        key_order(a, b) < 0 && key_order(b, c) < 0 ==> key_order(a, c) < 0,
    decreases a.len(),
{
    if a.len() > 0 && b.len() > 0 {
        if c.len() > 0 {
            lemma_key_order(a.drop_first(), b.drop_first(), c.drop_first());
            lemma_pair_order(a[0], b[0], c[0]);
            lemma_pair_order(b[0], c[0], a[0]);
        } else {
            lemma_key_order(a.drop_first(), b.drop_first(), c);
            lemma_pair_order(a[0], b[0], a[0]);
        }
        if a.drop_first() == b.drop_first() && a[0] == b[0] {
            assert(a =~= seq![a[0]] + a.drop_first());
            assert(b =~= seq![b[0]] + b.drop_first());
        }
    }
    if a.len() == 0 && b.len() == 0 {
        assert(a =~= b);
    }
}

/// No later pair sorts before an earlier one.
pub open spec fn sorted_pairs(s: Seq<(ExprV, u32)>) -> bool {
    forall|i: int, j: int| 0 <= i < j < s.len() ==> pair_order(#[trigger] s[i], #[trigger] s[j]) <= 0
}

/// `pair_order` as a total order.
pub open spec fn pair_le(a: (ExprV, u32), b: (ExprV, u32)) -> bool {
    pair_order(a, b) <= 0
}

/// `pair_le` is a total order.
pub proof fn lemma_pair_le_total_ordering()
    ensures
        total_ordering(|a: (ExprV, u32), b: (ExprV, u32)| pair_le(a, b)),
{
    let le = |a: (ExprV, u32), b: (ExprV, u32)| pair_le(a, b);
    assert forall|a: (ExprV, u32)| #[trigger] le(a, a) by {
        lemma_pair_order(a, a, a);
    }
    assert forall|a: (ExprV, u32), b: (ExprV, u32)|
        #[trigger] le(a, b) && #[trigger] le(b, a) implies a == b by {
        lemma_pair_order(a, b, a);
    }
    assert forall|a: (ExprV, u32), b: (ExprV, u32), c: (ExprV, u32)|
        #[trigger] le(a, b) && #[trigger] le(b, c) implies #[trigger] le(a, c) by {
        lemma_pair_order(a, b, c);
        lemma_pair_order(b, c, a);
        lemma_pair_order(a, c, b);
    }
    assert forall|a: (ExprV, u32), b: (ExprV, u32)| #[trigger] le(a, b) || #[trigger] le(b, a) by {
        lemma_pair_order(a, b, a);
    }
}

/// The model of a generator's expression with its exponent.
pub open spec fn pair_view(p: (Expr, u32)) -> (ExprV, u32) {
    (p.0@, p.1)
}

/// The models of a list of pairs.
pub open spec fn pairs_view(s: Seq<(Expr, u32)>) -> Seq<(ExprV, u32)> {
    s.map_values(|p: (Expr, u32)| pair_view(p))
}

fn pair_less(a: &(Expr, u32), b: &(Expr, u32)) -> (r: bool)
    ensures
        r == (pair_order(pair_view(*a), pair_view(*b)) < 0),
{
    let c = expr_compare(&a.0, &b.0);
    if c != 0 {
        c < 0
    } else {
        a.1 < b.1
    }
}

/// Sorts `v` by [`pair_order`], keeping equal pairs in their order.
pub fn sort_pairs(v: &mut Vec<(Expr, u32)>)
    ensures
        sorted_pairs(pairs_view(final(v)@)),
        pairs_view(final(v)@).to_multiset() == pairs_view(old(v)@).to_multiset(),
{
    let n = v.len();
    if n == 0 {
        proof {
            assert(pairs_view(v@) =~= Seq::<(ExprV, u32)>::empty());
        }
        return;
    }
    let mut i: usize = 1;
    while i < n
        invariant
            1 <= i <= n,
            v@.len() == n,
            sorted_pairs(pairs_view(v@).subrange(0, i as int)),
            pairs_view(v@).to_multiset() == pairs_view(old(v)@).to_multiset(),
        decreases n - i,
    {
        let ghost before = v@;
        let x = v.remove(i);
        let ghost removed = v@;
        let mut p: usize = i;
        while p > 0 && pair_less(&x, &v[p - 1])
            invariant
                0 <= p <= i,
                i < n,
                v@ == removed,
                removed.len() == n - 1,
                forall|q: int|
                    p <= q < i ==> pair_order(pair_view(x), #[trigger] pair_view(removed[q])) < 0,
            decreases p,
        {
            p -= 1;
        }
        v.insert(p, x);
        proof {
            broadcast use vstd::multiset::group_multiset_axioms, vstd::seq_lib::to_multiset_contains;

            let bv = pairs_view(before);
            let rv = pairs_view(removed);
            let w = pairs_view(v@);
            assert(removed == before.remove(i as int));
            assert(rv =~= bv.remove(i as int));
            assert(v@ == removed.insert(p as int, x));
            assert(w =~= rv.insert(p as int, pair_view(x)));
            assert(bv[i as int] == pair_view(x));
            assert(bv.contains(pair_view(x)));
            vstd::seq_lib::to_multiset_remove(bv, i as int);
            vstd::seq_lib::to_multiset_insert(rv, p as int, pair_view(x));
            assert(w.to_multiset() =~= bv.to_multiset());
            let old_prefix = bv.subrange(0, i as int);
            assert forall|a: int, b: int| 0 <= a < b < i + 1 implies pair_order(
                #[trigger] w.subrange(0, i + 1)[a],
                #[trigger] w.subrange(0, i + 1)[b],
            ) <= 0 by {
                let wa = w[a];
                let wb = w[b];
                if b < p {
                    assert(wa == old_prefix[a] && wb == old_prefix[b]);
                } else if a > p {
                    assert(wa == old_prefix[a - 1] && wb == old_prefix[b - 1]);
                } else if a == p {
                    assert(wa == pair_view(x));
                    assert(wb == pair_view(removed[b - 1]));
                } else {
                    assert(wa == old_prefix[a]);
                    assert(!(pair_order(pair_view(x), pair_view(removed[p - 1])) < 0));
                    lemma_pair_order(pair_view(x), pair_view(removed[p - 1]), wa);
                    assert(pair_view(removed[p - 1]) == old_prefix[p - 1]);
                    if a < p - 1 {
                        assert(pair_order(old_prefix[a], old_prefix[p - 1]) <= 0);
                        lemma_pair_order(wa, old_prefix[p - 1], pair_view(x));
                        lemma_pair_order(old_prefix[p - 1], pair_view(x), wa);
                        lemma_pair_order(wa, pair_view(x), old_prefix[p - 1]);
                    }
                    if b != p {
                        assert(wb == pair_view(removed[b - 1]));
                        lemma_pair_order(pair_view(x), wb, wa);
                        lemma_pair_order(wa, pair_view(x), wb);
                        lemma_pair_order(wa, wb, pair_view(x));
                    }
                }
            }
        }
        i += 1;
    }
    proof {
        assert(pairs_view(v@).subrange(0, n as int) =~= pairs_view(v@));
    }
}

/// `key_order` of two lists of pairs.
pub fn key_compare(a: &Vec<(Expr, u32)>, b: &Vec<(Expr, u32)>) -> (r: i8)
    ensures
        r as int == key_order(pairs_view(a@), pairs_view(b@)),
{
    let ghost va = pairs_view(a@);
    let ghost vb = pairs_view(b@);
    let mut i: usize = 0;
    proof {
        assert(va.skip(0) =~= va);
        assert(vb.skip(0) =~= vb);
    }
    while i < a.len() && i < b.len()
        invariant
            i <= a@.len(),
            i <= b@.len(),
            va == pairs_view(a@),
            vb == pairs_view(b@),
            key_order(va, vb) == key_order(va.skip(i as int), vb.skip(i as int)),
        decreases a@.len() - i,
    {
        proof {
            assert(va.skip(i as int).drop_first() =~= va.skip(i + 1));
            assert(vb.skip(i as int).drop_first() =~= vb.skip(i + 1));
            assert(va.skip(i as int)[0] == pair_view(a@[i as int]));
            assert(vb.skip(i as int)[0] == pair_view(b@[i as int]));
        }
        let c = expr_compare(&a[i].0, &b[i].0);
        if c != 0 {
            return c;
        }
        if a[i].1 != b[i].1 {
            return if a[i].1 < b[i].1 {
                -1
            } else {
                1
            };
        }
        i += 1;
    }
    if i < a.len() {
        1
    } else if i < b.len() {
        -1
    } else {
        0
    }
}

} // verus!
