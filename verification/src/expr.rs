//! Symbolic scalar expressions: exact rationals, coordinate variables,
//! sums, products, integer powers, the five known functions and
//! indeterminate functions of several arguments.
//!
//! [`Expr`]'s mathematical model is [`ExprV`], the same tree with
//! sequences in place of vectors and `(numerator, denominator)` pairs in
//! place of [`BigScalar`]s; every contract in this crate is stated over
//! it.
use vstd::prelude::*;
use crate::big_scalar::BigScalar;
use crate::rational::{canonical, same_value};

verus! {

/// A symbolic scalar expression. The variants are declared in the order
/// [`crate::order`] ranks them.
#[derive(Debug)]
pub enum Expr {
    Rational(BigScalar),
    /// A coordinate variable or free parameter, by name.
    Var(String),
    /// Integer exponent.
    Pow(Box<Expr>, i32),
    Mul(Vec<Expr>),
    Add(Vec<Expr>),
    Sin(Box<Expr>),
    Cos(Box<Expr>),
    Exp(Box<Expr>),
    Sinh(Box<Expr>),
    Cosh(Box<Expr>),
    /// An indeterminate function `name(args...)`, differentiated
    /// `order[i]` times with respect to its `i`-th argument.
    Func { name: String, args: Vec<Expr>, order: Vec<u32> },
}

/// The mathematical model of an [`Expr`].
pub enum ExprV {
    Rational(int, int),
    Var(Seq<char>),
    Pow(Box<ExprV>, int),
    Mul(Seq<ExprV>),
    Add(Seq<ExprV>),
    Sin(Box<ExprV>),
    Cos(Box<ExprV>),
    Exp(Box<ExprV>),
    Sinh(Box<ExprV>),
    Cosh(Box<ExprV>),
    Func(Seq<char>, Seq<ExprV>, Seq<u32>),
}

/// The model of an expression.
pub open spec fn expr_view(e: Expr) -> ExprV
    decreases e,
{
    match e {
        Expr::Rational(s) => ExprV::Rational(s@.0, s@.1),
        Expr::Var(n) => ExprV::Var(n@),
        Expr::Pow(b, n) => ExprV::Pow(Box::new(expr_view(*b)), n as int),
        Expr::Mul(fs) => ExprV::Mul(exprs_view(fs@)),
        Expr::Add(ts) => ExprV::Add(exprs_view(ts@)),
        Expr::Sin(x) => ExprV::Sin(Box::new(expr_view(*x))),
        Expr::Cos(x) => ExprV::Cos(Box::new(expr_view(*x))),
        Expr::Exp(x) => ExprV::Exp(Box::new(expr_view(*x))),
        Expr::Sinh(x) => ExprV::Sinh(Box::new(expr_view(*x))),
        Expr::Cosh(x) => ExprV::Cosh(Box::new(expr_view(*x))),
        Expr::Func { name, args, order } => ExprV::Func(name@, exprs_view(args@), order@),
    }
}

/// The models of a sequence of expressions.
pub open spec fn exprs_view(es: Seq<Expr>) -> Seq<ExprV>
    decreases es,
{
    if es.len() == 0 {
        Seq::empty()
    } else {
        seq![expr_view(es[0])] + exprs_view(es.subrange(1, es.len() as int))
    }
}

impl View for Expr {
    type V = ExprV;

    open spec fn view(&self) -> ExprV {
        expr_view(*self)
    }
}

/// `exprs_view` is element-wise.
pub proof fn lemma_exprs_view(es: Seq<Expr>)
    ensures
        exprs_view(es).len() == es.len(),
        forall|i: int| 0 <= i < es.len() ==> #[trigger] exprs_view(es)[i] == expr_view(es[i]),
    decreases es.len(),
{
    if es.len() > 0 {
        lemma_exprs_view(es.subrange(1, es.len() as int));
        assert forall|i: int| 0 <= i < es.len() implies #[trigger] exprs_view(es)[i] == expr_view(
            es[i],
        ) by {
            if i > 0 {
                assert(es.subrange(1, es.len() as int)[i - 1] == es[i]);
            }
        }
    }
}

/// Two sequences with element-wise equal models have equal models.
pub proof fn lemma_exprs_view_ext(a: Seq<Expr>, b: Seq<Expr>)
    requires
        a.len() == b.len(),
        forall|i: int| 0 <= i < a.len() ==> expr_view(#[trigger] a[i]) == expr_view(b[i]),
    ensures
        exprs_view(a) == exprs_view(b),
{
    lemma_exprs_view(a);
    lemma_exprs_view(b);
    assert(exprs_view(a) =~= exprs_view(b));
}

/// Every rational leaf of the model is in lowest terms.
pub open spec fn all_canonical(v: ExprV) -> bool
    decreases v,
{
    match v {
        ExprV::Rational(n, d) => canonical((n, d)),
        ExprV::Var(_) => true,
        ExprV::Pow(b, _) => all_canonical(*b),
        ExprV::Mul(fs) => forall|i: int| 0 <= i < fs.len() ==> all_canonical(#[trigger] fs[i]),
        ExprV::Add(ts) => forall|i: int| 0 <= i < ts.len() ==> all_canonical(#[trigger] ts[i]),
        ExprV::Sin(x) => all_canonical(*x),
        ExprV::Cos(x) => all_canonical(*x),
        ExprV::Exp(x) => all_canonical(*x),
        ExprV::Sinh(x) => all_canonical(*x),
        ExprV::Cosh(x) => all_canonical(*x),
        ExprV::Func(_, args, _) => forall|i: int|
            0 <= i < args.len() ==> all_canonical(#[trigger] args[i]),
    }
}

/// The number of nodes of the model: every leaf and operator counts one.
pub open spec fn node_count_spec(v: ExprV) -> nat
    decreases v,
{
    match v {
        ExprV::Rational(_, _) | ExprV::Var(_) => 1,
        ExprV::Pow(b, _) => 1 + node_count_spec(*b),
        ExprV::Mul(fs) => 1 + node_count_seq(fs),
        ExprV::Add(ts) => 1 + node_count_seq(ts),
        ExprV::Sin(x) => 1 + node_count_spec(*x),
        ExprV::Cos(x) => 1 + node_count_spec(*x),
        ExprV::Exp(x) => 1 + node_count_spec(*x),
        ExprV::Sinh(x) => 1 + node_count_spec(*x),
        ExprV::Cosh(x) => 1 + node_count_spec(*x),
        ExprV::Func(_, args, _) => 1 + node_count_seq(args),
    }
}

/// The total node count of a sequence of models.
pub open spec fn node_count_seq(vs: Seq<ExprV>) -> nat
    decreases vs,
{
    if vs.len() == 0 {
        0
    } else {
        node_count_spec(vs[0]) + node_count_seq(vs.subrange(1, vs.len() as int))
    }
}

impl Expr {
    pub fn zero() -> (r: Expr)
        ensures
            r@ == ExprV::Rational(0, 1),
    {
        Expr::Rational(BigScalar::zero())
    }

    pub fn one() -> (r: Expr)
        ensures
            r@ == ExprV::Rational(1, 1),
    {
        Expr::Rational(BigScalar::one())
    }

    /// The integer `n`.
    pub fn integer(n: i64) -> (r: Expr)
        ensures
            r@ == ExprV::Rational(n as int, 1),
    {
        Expr::Rational(BigScalar::from_i64(n))
    }

    /// The rational `num/den` (in lowest terms). The denominator must be
    /// nonzero.
    pub fn rational(num: i64, den: i64) -> (r: Expr)
        requires
            den != 0,
        ensures
            r@ matches ExprV::Rational(p, q) && canonical((p, q)) && same_value(
                (p, q),
                (num as int, den as int),
            ),
    {
        Expr::Rational(BigScalar::new(num, den))
    }

    /// The variable named `name`.
    pub fn var(name: &str) -> (r: Expr)
        ensures
            r@ == ExprV::Var(name@),
    {
        Expr::Var(name.to_owned())
    }

    /// `self` raised to the integer power `exp`.
    pub fn pow(self, exp: i32) -> (r: Expr)
        ensures
            r@ == ExprV::Pow(Box::new(self@), exp as int),
    {
        Expr::Pow(Box::new(self), exp)
    }

    pub fn sin(self) -> (r: Expr)
        ensures
            r@ == ExprV::Sin(Box::new(self@)),
    {
        Expr::Sin(Box::new(self))
    }

    pub fn cos(self) -> (r: Expr)
        ensures
            r@ == ExprV::Cos(Box::new(self@)),
    {
        Expr::Cos(Box::new(self))
    }

    pub fn exp(self) -> (r: Expr)
        ensures
            r@ == ExprV::Exp(Box::new(self@)),
    {
        Expr::Exp(Box::new(self))
    }

    pub fn sinh(self) -> (r: Expr)
        ensures
            r@ == ExprV::Sinh(Box::new(self@)),
    {
        Expr::Sinh(Box::new(self))
    }

    pub fn cosh(self) -> (r: Expr)
        ensures
            r@ == ExprV::Cosh(Box::new(self@)),
    {
        Expr::Cosh(Box::new(self))
    }

    /// The indeterminate function `name(args...)`, not differentiated.
    pub fn func(name: &str, args: Vec<Expr>) -> (r: Expr)
        ensures
            r@ == ExprV::Func(name@, exprs_view(args@), Seq::new(args@.len(), |i: int| 0u32)),
    {
        let mut order: Vec<u32> = Vec::new();
        let mut i: usize = 0;
        while i < args.len()
            invariant
                i <= args@.len(),
                order@ == Seq::new(i as nat, |j: int| 0u32),
            decreases args@.len() - i,
        {
            order.push(0);
            i += 1;
            assert(order@ =~= Seq::new(i as nat, |j: int| 0u32));
        }
        Expr::Func { name: name.to_owned(), args, order }
    }

    /// Whether this is literally the rational zero (not whether it
    /// simplifies to zero).
    pub fn is_zero(&self) -> (r: bool)
        ensures
            r == (self@ matches ExprV::Rational(n, _) && n == 0),
    {
        match self {
            Expr::Rational(s) => s.is_zero(),
            _ => false,
        }
    }

    /// Total number of nodes in the expression tree.
    pub fn node_count(&self) -> (r: usize)
        requires
            node_count_spec(self@) <= usize::MAX,
        ensures
            r == node_count_spec(self@),
        decreases self,
    {
        match self {
            Expr::Rational(_) | Expr::Var(_) => 1,
            Expr::Pow(b, _) => 1 + b.node_count(),
            Expr::Sin(x) | Expr::Cos(x) | Expr::Exp(x) | Expr::Sinh(x) | Expr::Cosh(x) => 1
                + x.node_count(),
            Expr::Mul(es) | Expr::Add(es) => 1 + node_count_all(es),
            Expr::Func { args, .. } => 1 + node_count_all(args),
        }
    }
}

/// The total node count of `es`.
fn node_count_all(es: &Vec<Expr>) -> (r: usize)
    requires
        node_count_seq(exprs_view(es@)) < usize::MAX,
    ensures
        r == node_count_seq(exprs_view(es@)),
    decreases es,
{
    let mut total: usize = 0;
    let mut i: usize = es.len();
    proof {
        lemma_exprs_view(es@);
        assert(exprs_view(es@).subrange(0, i as int) =~= exprs_view(es@));
    }
    while i > 0
        invariant
            i <= es@.len(),
            exprs_view(es@).len() == es@.len(),
            forall|j: int| 0 <= j < es@.len() ==> #[trigger] exprs_view(es@)[j] == expr_view(es@[j]),
            total + node_count_seq(exprs_view(es@).subrange(0, i as int)) == node_count_seq(
                exprs_view(es@),
            ),
            node_count_seq(exprs_view(es@)) < usize::MAX,
        decreases i,
    {
        let ghost vs = exprs_view(es@);
        proof {
            lemma_node_count_split(vs.subrange(0, i as int));
            assert(vs.subrange(0, i as int).subrange(0, i - 1) =~= vs.subrange(0, i - 1));
        }
        i -= 1;
        let n = es[i].node_count();
        total = total + n;
    }
    total
}

/// Peeling the last element off a node-count sum.
proof fn lemma_node_count_split(vs: Seq<ExprV>)
    requires
        vs.len() > 0,
    ensures
        node_count_seq(vs) == node_count_seq(vs.subrange(0, vs.len() - 1)) + node_count_spec(
            vs[vs.len() - 1],
        ),
    decreases vs.len(),
{
    let rest = vs.subrange(1, vs.len() as int);
    if vs.len() > 1 {
        lemma_node_count_split(rest);
        let init = vs.subrange(0, vs.len() - 1);
        assert(init.subrange(1, init.len() as int) =~= rest.subrange(0, rest.len() - 1));
        assert(init[0] == vs[0]);
        assert(rest[rest.len() - 1] == vs[vs.len() - 1]);
        assert(node_count_seq(init) == node_count_spec(init[0]) + node_count_seq(
            init.subrange(1, init.len() as int),
        ));
    } else {
        assert(rest.len() == 0);
        assert(node_count_seq(rest) == 0);
        assert(vs.subrange(0, 0).len() == 0);
        assert(node_count_seq(vs.subrange(0, 0)) == 0);
        assert(node_count_seq(vs) == node_count_spec(vs[0]) + node_count_seq(rest));
    }
}


/// A copy of a `u32` vector.
pub fn copy_u32s(v: &Vec<u32>) -> (r: Vec<u32>)
    ensures
        r@ == v@,
{
    let mut r: Vec<u32> = Vec::new();
    let mut i: usize = 0;
    while i < v.len()
        invariant
            i <= v@.len(),
            r@ == v@.subrange(0, i as int),
        decreases v@.len() - i,
    {
        r.push(v[i]);
        i += 1;
    }
    assert(r@ =~= v@);
    r
}

/// A deep copy of an expression.
pub fn clone_expr(e: &Expr) -> (r: Expr)
    ensures
        r@ == e@,
    decreases e,
{
    match e {
        Expr::Rational(s) => Expr::Rational(s.clone()),
        Expr::Var(n) => Expr::Var(n.clone()),
        Expr::Pow(b, n) => Expr::Pow(Box::new(clone_expr(b)), *n),
        Expr::Mul(fs) => Expr::Mul(clone_exprs(fs)),
        Expr::Add(ts) => Expr::Add(clone_exprs(ts)),
        Expr::Sin(x) => Expr::Sin(Box::new(clone_expr(x))),
        Expr::Cos(x) => Expr::Cos(Box::new(clone_expr(x))),
        Expr::Exp(x) => Expr::Exp(Box::new(clone_expr(x))),
        Expr::Sinh(x) => Expr::Sinh(Box::new(clone_expr(x))),
        Expr::Cosh(x) => Expr::Cosh(Box::new(clone_expr(x))),
        Expr::Func { name, args, order } => Expr::Func {
            name: name.clone(),
            args: clone_exprs(args),
            order: copy_u32s(order),
        },
    }
}

/// A deep copy of a vector of expressions.
pub fn clone_exprs(es: &Vec<Expr>) -> (r: Vec<Expr>)
    ensures
        exprs_view(r@) == exprs_view(es@),
        r@.len() == es@.len(),
    decreases es,
{
    let mut r: Vec<Expr> = Vec::new();
    let mut i: usize = 0;
    while i < es.len()
        invariant
            i <= es@.len(),
            r@.len() == i,
            forall|j: int| 0 <= j < i ==> expr_view(#[trigger] r@[j]) == expr_view(es@[j]),
        decreases es@.len() - i,
    {
        let c = clone_expr(&es[i]);
        r.push(c);
        i += 1;
    }
    proof {
        lemma_exprs_view_ext(r@, es@);
    }
    r
}

impl Clone for Expr {
    fn clone(&self) -> (r: Self)
        ensures
            r@ == self@,
    {
        clone_expr(self)
    }
}

/// Structural equality of two expressions (equal models).
pub fn expr_equal(a: &Expr, b: &Expr) -> (r: bool)
    ensures
        r == (a@ == b@),
    decreases a,
{
    match (a, b) {
        (Expr::Rational(x), Expr::Rational(y)) => {
            let r = x.equals(y);
            assert(r == (a@ == b@));
            r
        },
        (Expr::Var(x), Expr::Var(y)) => {
            let r = *x == *y;
            assert(r == (a@ == b@));
            r
        },
        (Expr::Pow(x, n), Expr::Pow(y, m)) => *n == *m && expr_equal(x, y),
        (Expr::Mul(xs), Expr::Mul(ys)) => exprs_equal(xs, ys),
        (Expr::Add(xs), Expr::Add(ys)) => exprs_equal(xs, ys),
        (Expr::Sin(x), Expr::Sin(y)) => expr_equal(x, y),
        (Expr::Cos(x), Expr::Cos(y)) => expr_equal(x, y),
        (Expr::Exp(x), Expr::Exp(y)) => expr_equal(x, y),
        (Expr::Sinh(x), Expr::Sinh(y)) => expr_equal(x, y),
        (Expr::Cosh(x), Expr::Cosh(y)) => expr_equal(x, y),
        (
            Expr::Func { name: n1, args: a1, order: o1 },
            Expr::Func { name: n2, args: a2, order: o2 },
        ) => {
            let r = *n1 == *n2 && u32s_equal(o1, o2) && exprs_equal(a1, a2);
            assert(r == (a@ == b@));
            r
        },
        _ => {
            assert(a@ != b@);
            false
        },
    }
}

/// Element-wise equality of two vectors of expressions.
pub fn exprs_equal(a: &Vec<Expr>, b: &Vec<Expr>) -> (r: bool)
    ensures
        r == (exprs_view(a@) == exprs_view(b@)),
    decreases a,
{
    proof {
        lemma_exprs_view(a@);
        lemma_exprs_view(b@);
    }
    if a.len() != b.len() {
        return false;
    }
    let mut i: usize = 0;
    while i < a.len()
        invariant
            i <= a@.len(),
            a@.len() == b@.len(),
            exprs_view(a@).len() == a@.len(),
            exprs_view(b@).len() == b@.len(),
            forall|j: int| 0 <= j < a@.len() ==> #[trigger] exprs_view(a@)[j] == expr_view(a@[j]),
            forall|j: int| 0 <= j < b@.len() ==> #[trigger] exprs_view(b@)[j] == expr_view(b@[j]),
            forall|j: int| 0 <= j < i ==> expr_view(#[trigger] a@[j]) == expr_view(b@[j]),
        decreases a@.len() - i,
    {
        if !expr_equal(&a[i], &b[i]) {
            proof {
                assert(exprs_view(a@)[i as int] != exprs_view(b@)[i as int]);
            }
            return false;
        }
        i += 1;
    }
    proof {
        lemma_exprs_view_ext(a@, b@);
    }
    true
}

/// Equality of two `u32` vectors.
pub fn u32s_equal(a: &Vec<u32>, b: &Vec<u32>) -> (r: bool)
    ensures
        r == (a@ == b@),
{
    if a.len() != b.len() {
        return false;
    }
    let mut i: usize = 0;
    while i < a.len()
        invariant
            i <= a@.len(),
            a@.len() == b@.len(),
            forall|j: int| 0 <= j < i ==> a@[j] == b@[j],
        decreases a@.len() - i,
    {
        if a[i] != b[i] {
            return false;
        }
        i += 1;
    }
    assert(a@ =~= b@);
    true
}

impl PartialEq for Expr {
    fn eq(&self, other: &Self) -> (r: bool) {
        expr_equal(self, other)
    }
}

impl vstd::std_specs::cmp::PartialEqSpecImpl for Expr {
    open spec fn obeys_eq_spec() -> bool {
        true
    }

    open spec fn eq_spec(&self, other: &Expr) -> bool {
        self@ == other@
    }
}

impl Eq for Expr {
}

/// The model of a two-element sequence of expressions.
pub proof fn lemma_exprs_view_pair(a: Expr, b: Expr)
    ensures
        exprs_view(seq![a, b]) == seq![a@, b@],
{
    lemma_exprs_view(seq![a, b]);
    assert(exprs_view(seq![a, b]) =~= seq![a@, b@]);
}

/// `a + b`, unsimplified.
pub fn sum2(a: Expr, b: Expr) -> (r: Expr)
    ensures
        r@ == ExprV::Add(seq![a@, b@]),
{
    let v = vec![a, b];
    proof {
        assert(v@ =~= seq![a, b]);
        lemma_exprs_view_pair(a, b);
    }
    Expr::Add(v)
}

/// `a * b`, unsimplified.
pub fn product2(a: Expr, b: Expr) -> (r: Expr)
    ensures
        r@ == ExprV::Mul(seq![a@, b@]),
{
    let v = vec![a, b];
    proof {
        assert(v@ =~= seq![a, b]);
        lemma_exprs_view_pair(a, b);
    }
    Expr::Mul(v)
}

/// `-1 * a`, unsimplified.
pub fn negation(a: Expr) -> (r: Expr)
    ensures
        r@ == ExprV::Mul(seq![ExprV::Rational(-1, 1), a@]),
{
    product2(Expr::integer(-1), a)
}

impl core::ops::Add for Expr {
    type Output = Expr;

    fn add(self, rhs: Expr) -> (r: Expr)
        ensures
            r@ == ExprV::Add(seq![self@, rhs@]),
    {
        sum2(self, rhs)
    }
}

impl vstd::std_specs::ops::AddSpecImpl for Expr {
    open spec fn obeys_add_spec() -> bool {
        false
    }

    open spec fn add_req(self, rhs: Expr) -> bool {
        true
    }

    open spec fn add_spec(self, rhs: Expr) -> Expr {
        arbitrary()
    }
}

impl core::ops::Sub for Expr {
    type Output = Expr;

    /// `self + (-1 * rhs)`, unsimplified.
    fn sub(self, rhs: Expr) -> (r: Expr)
        ensures
            r@ == ExprV::Add(seq![self@, ExprV::Mul(seq![ExprV::Rational(-1, 1), rhs@])]),
    {
        sum2(self, negation(rhs))
    }
}

impl vstd::std_specs::ops::SubSpecImpl for Expr {
    open spec fn obeys_sub_spec() -> bool {
        false
    }

    open spec fn sub_req(self, rhs: Expr) -> bool {
        true
    }

    open spec fn sub_spec(self, rhs: Expr) -> Expr {
        arbitrary()
    }
}

impl core::ops::Mul for Expr {
    type Output = Expr;

    fn mul(self, rhs: Expr) -> (r: Expr)
        ensures
            r@ == ExprV::Mul(seq![self@, rhs@]),
    {
        product2(self, rhs)
    }
}

impl vstd::std_specs::ops::MulSpecImpl for Expr {
    open spec fn obeys_mul_spec() -> bool {
        false
    }

    open spec fn mul_req(self, rhs: Expr) -> bool {
        true
    }

    open spec fn mul_spec(self, rhs: Expr) -> Expr {
        arbitrary()
    }
}

impl core::ops::Neg for Expr {
    type Output = Expr;

    /// `-1 * self`, unsimplified.
    fn neg(self) -> (r: Expr)
        ensures
            r@ == ExprV::Mul(seq![ExprV::Rational(-1, 1), self@]),
    {
        negation(self)
    }
}

impl vstd::std_specs::ops::NegSpecImpl for Expr {
    open spec fn obeys_neg_spec() -> bool {
        false
    }

    open spec fn neg_req(self) -> bool {
        true
    }

    open spec fn neg_spec(self) -> Expr {
        arbitrary()
    }
}

impl core::ops::Div for Expr {
    type Output = Expr;

    /// `self * rhs^-1`, unsimplified.
    fn div(self, rhs: Expr) -> (r: Expr)
        ensures
            r@ == ExprV::Mul(seq![self@, ExprV::Pow(Box::new(rhs@), -1)]),
    {
        product2(self, rhs.pow(-1))
    }
}

impl vstd::std_specs::ops::DivSpecImpl for Expr {
    open spec fn obeys_div_spec() -> bool {
        false
    }

    open spec fn div_req(self, rhs: Expr) -> bool {
        true
    }

    open spec fn div_spec(self, rhs: Expr) -> Expr {
        arbitrary()
    }
}


/// Appending to a sequence appends its model.
pub proof fn lemma_exprs_view_push(es: Seq<Expr>, e: Expr)
    ensures
        exprs_view(es.push(e)) == exprs_view(es).push(e@),
{
    lemma_exprs_view(es.push(e));
    lemma_exprs_view(es);
    assert(exprs_view(es.push(e)) =~= exprs_view(es).push(e@));
}

} // verus!
