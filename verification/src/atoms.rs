//! The generators of one polynomial computation: each distinct variable,
//! known-function call and indeterminate-function call is interned once
//! and named by its [`AtomId`], the order in which it was first seen.
//! That order carries no meaning; it only has to be the same for every
//! use within the computation.
use vstd::prelude::*;
use crate::expr::{
    Expr, ExprV, clone_expr, clone_exprs, copy_u32s, expr_equal, exprs_equal, exprs_view,
    u32s_equal,
};
use crate::poly::AtomId;
use crate::text::same_text;

verus! {

/// What a generator stands for; arguments are expressions already in
/// canonical form.
#[derive(Debug)]
pub enum AtomKey {
    Var(String),
    Sin(Expr),
    Cos(Expr),
    Exp(Expr),
    Sinh(Expr),
    Cosh(Expr),
    /// `name(args...)` differentiated `order[i]` times in its `i`-th
    /// argument.
    Func(String, Vec<Expr>, Vec<u32>),
}

/// The model of an [`AtomKey`].
pub enum AtomKeyV {
    Var(Seq<char>),
    Sin(ExprV),
    Cos(ExprV),
    Exp(ExprV),
    Sinh(ExprV),
    Cosh(ExprV),
    Func(Seq<char>, Seq<ExprV>, Seq<u32>),
}

impl View for AtomKey {
    type V = AtomKeyV;

    open spec fn view(&self) -> AtomKeyV {
        match self {
            AtomKey::Var(n) => AtomKeyV::Var(n@),
            AtomKey::Sin(x) => AtomKeyV::Sin(x@),
            AtomKey::Cos(x) => AtomKeyV::Cos(x@),
            AtomKey::Exp(x) => AtomKeyV::Exp(x@),
            AtomKey::Sinh(x) => AtomKeyV::Sinh(x@),
            AtomKey::Cosh(x) => AtomKeyV::Cosh(x@),
            AtomKey::Func(n, a, o) => AtomKeyV::Func(n@, exprs_view(a@), o@),
        }
    }
}

/// The expression a generator stands for.
pub open spec fn atom_expr(k: AtomKeyV) -> ExprV {
    match k {
        AtomKeyV::Var(n) => ExprV::Var(n),
        AtomKeyV::Sin(x) => ExprV::Sin(Box::new(x)),
        AtomKeyV::Cos(x) => ExprV::Cos(Box::new(x)),
        AtomKeyV::Exp(x) => ExprV::Exp(Box::new(x)),
        AtomKeyV::Sinh(x) => ExprV::Sinh(Box::new(x)),
        AtomKeyV::Cosh(x) => ExprV::Cosh(Box::new(x)),
        AtomKeyV::Func(n, a, o) => ExprV::Func(n, a, o),
    }
}

/// Equality of two keys' models.
pub fn keys_equal(a: &AtomKey, b: &AtomKey) -> (r: bool)
    ensures
        r == (a@ == b@),
{
    match (a, b) {
        (AtomKey::Var(x), AtomKey::Var(y)) => same_text(x, y),
        (AtomKey::Sin(x), AtomKey::Sin(y)) => expr_equal(x, y),
        (AtomKey::Cos(x), AtomKey::Cos(y)) => expr_equal(x, y),
        (AtomKey::Exp(x), AtomKey::Exp(y)) => expr_equal(x, y),
        (AtomKey::Sinh(x), AtomKey::Sinh(y)) => expr_equal(x, y),
        (AtomKey::Cosh(x), AtomKey::Cosh(y)) => expr_equal(x, y),
        (AtomKey::Func(n1, a1, o1), AtomKey::Func(n2, a2, o2)) => {
            same_text(n1, n2) && u32s_equal(o1, o2) && exprs_equal(a1, a2)
        },
        _ => false,
    }
}

/// A deep copy of a key.
pub fn clone_key(k: &AtomKey) -> (r: AtomKey)
    ensures
        r@ == k@,
{
    match k {
        AtomKey::Var(n) => AtomKey::Var(n.clone()),
        AtomKey::Sin(x) => AtomKey::Sin(clone_expr(x)),
        AtomKey::Cos(x) => AtomKey::Cos(clone_expr(x)),
        AtomKey::Exp(x) => AtomKey::Exp(clone_expr(x)),
        AtomKey::Sinh(x) => AtomKey::Sinh(clone_expr(x)),
        AtomKey::Cosh(x) => AtomKey::Cosh(clone_expr(x)),
        AtomKey::Func(n, a, o) => AtomKey::Func(n.clone(), clone_exprs(a), copy_u32s(o)),
    }
}

/// No key occurs twice.
pub open spec fn distinct_keys(ks: Seq<AtomKeyV>) -> bool {
    forall|i: int, j: int| 0 <= i < j < ks.len() ==> ks[i] != ks[j]
}

/// The interned generators of one computation.
pub struct AtomTable {
    keys: Vec<AtomKey>,
}

impl View for AtomTable {
    type V = Seq<AtomKeyV>;

    /// The keys, by `AtomId`.
    closed spec fn view(&self) -> Seq<AtomKeyV> {
        self.keys@.map_values(|k: AtomKey| k@)
    }
}

impl AtomTable {
    /// No generator is interned twice.
    pub open spec fn wf(&self) -> bool {
        &&& distinct_keys(self@)
        &&& self@.len() <= u32::MAX
    }

    pub fn new() -> (t: AtomTable)
        ensures
            t.wf(),
            t@ == Seq::<AtomKeyV>::empty(),
    {
        let t = AtomTable { keys: Vec::new() };
        assert(t@ =~= Seq::<AtomKeyV>::empty());
        t
    }

    /// The number of generators interned so far.
    pub fn len(&self) -> (n: usize)
        ensures
            n == self@.len(),
    {
        self.keys.len()
    }

    /// The id of `key`, interning it first if this is its first use.
    pub fn intern(&mut self, key: AtomKey) -> (id: AtomId)
        requires
            old(self).wf(),
            old(self)@.len() < u32::MAX,
        ensures
            final(self).wf(),
            id.0 < final(self)@.len(),
            final(self)@[id.0 as int] == key@,
            old(self)@.contains(key@) ==> final(self)@ == old(self)@,
            !old(self)@.contains(key@) ==> final(self)@ == old(self)@.push(key@),
    {
        let mut i: usize = 0;
        while i < self.keys.len()
            invariant
                i <= self@.len(),
                self@ == old(self)@,
                distinct_keys(self@),
                self@.len() < u32::MAX,
                self@.len() == self.keys@.len(),
                forall|k: int| 0 <= k < self.keys@.len() ==> #[trigger] self@[k] == self.keys@[k]@,
                forall|k: int| 0 <= k < i ==> self@[k] != key@,
            decreases self.keys@.len() - i,
        {
            if keys_equal(&self.keys[i], &key) {
                proof {
                    assert(self@[i as int] == key@);
                    assert(old(self)@.contains(key@));
                }
                return AtomId(i as u32);
            }
            i += 1;
        }
        let ghost before = self@;
        let id = AtomId(self.keys.len() as u32);
        self.keys.push(key);
        proof {
            assert(self@ =~= before.push(key@));
            assert(!before.contains(key@)) by {
                if before.contains(key@) {
                    let k = choose|k: int| 0 <= k < before.len() && before[k] == key@;
                    assert(before[k] != key@);
                }
            }
        }
        id
    }

    /// The generator for the variable `name`.
    pub fn var(&mut self, name: &str) -> (id: AtomId)
        requires
            old(self).wf(),
            old(self)@.len() < u32::MAX,
        ensures
            final(self).wf(),
            id.0 < final(self)@.len(),
            final(self)@[id.0 as int] == AtomKeyV::Var(name@),
            final(self)@.len() <= old(self)@.len() + 1,
            final(self)@.subrange(0, old(self)@.len() as int) == old(self)@,
    {
        let n = name.to_string();
        let id = self.intern(AtomKey::Var(n));
        proof {
            assert(old(self)@ =~= old(self)@.push(AtomKeyV::Var(name@)).subrange(
                0,
                old(self)@.len() as int,
            ));
            assert(self@.subrange(0, old(self)@.len() as int) =~= old(self)@);
        }
        id
    }

    /// The generator for `sin(arg)`.
    pub fn sin(&mut self, arg: Expr) -> (id: AtomId)
        requires
            old(self).wf(),
            old(self)@.len() < u32::MAX,
        ensures
            final(self).wf(),
            id.0 < final(self)@.len(),
            final(self)@[id.0 as int] == AtomKeyV::Sin(arg@),
            final(self)@.len() <= old(self)@.len() + 1,
            final(self)@.subrange(0, old(self)@.len() as int) == old(self)@,
    {
        let ghost a = arg@;
        let id = self.intern(AtomKey::Sin(arg));
        proof {
            assert(self@.subrange(0, old(self)@.len() as int) =~= old(self)@);
        }
        id
    }

    /// The generator for `cos(arg)`.
    pub fn cos(&mut self, arg: Expr) -> (id: AtomId)
        requires
            old(self).wf(),
            old(self)@.len() < u32::MAX,
        ensures
            final(self).wf(),
            id.0 < final(self)@.len(),
            final(self)@[id.0 as int] == AtomKeyV::Cos(arg@),
            final(self)@.len() <= old(self)@.len() + 1,
            final(self)@.subrange(0, old(self)@.len() as int) == old(self)@,
    {
        let id = self.intern(AtomKey::Cos(arg));
        proof {
            assert(self@.subrange(0, old(self)@.len() as int) =~= old(self)@);
        }
        id
    }

    /// The generator for `exp(arg)`; it is never merged with the `exp` of
    /// another argument.
    pub fn exp(&mut self, arg: Expr) -> (id: AtomId)
        requires
            old(self).wf(),
            old(self)@.len() < u32::MAX,
        ensures
            final(self).wf(),
            id.0 < final(self)@.len(),
            final(self)@[id.0 as int] == AtomKeyV::Exp(arg@),
            final(self)@.len() <= old(self)@.len() + 1,
            final(self)@.subrange(0, old(self)@.len() as int) == old(self)@,
    {
        let id = self.intern(AtomKey::Exp(arg));
        proof {
            assert(self@.subrange(0, old(self)@.len() as int) =~= old(self)@);
        }
        id
    }

    /// The generator for `sinh(arg)`.
    pub fn sinh(&mut self, arg: Expr) -> (id: AtomId)
        requires
            old(self).wf(),
            old(self)@.len() < u32::MAX,
        ensures
            final(self).wf(),
            id.0 < final(self)@.len(),
            final(self)@[id.0 as int] == AtomKeyV::Sinh(arg@),
            final(self)@.len() <= old(self)@.len() + 1,
            final(self)@.subrange(0, old(self)@.len() as int) == old(self)@,
    {
        let id = self.intern(AtomKey::Sinh(arg));
        proof {
            assert(self@.subrange(0, old(self)@.len() as int) =~= old(self)@);
        }
        id
    }

    /// The generator for `cosh(arg)`.
    pub fn cosh(&mut self, arg: Expr) -> (id: AtomId)
        requires
            old(self).wf(),
            old(self)@.len() < u32::MAX,
        ensures
            final(self).wf(),
            id.0 < final(self)@.len(),
            final(self)@[id.0 as int] == AtomKeyV::Cosh(arg@),
            final(self)@.len() <= old(self)@.len() + 1,
            final(self)@.subrange(0, old(self)@.len() as int) == old(self)@,
    {
        let id = self.intern(AtomKey::Cosh(arg));
        proof {
            assert(self@.subrange(0, old(self)@.len() as int) =~= old(self)@);
        }
        id
    }

    /// The generator for the indeterminate function call `name(args...)`
    /// at derivative `order`.
    pub fn func(&mut self, name: String, args: Vec<Expr>, order: Vec<u32>) -> (id: AtomId)
        requires
            old(self).wf(),
            old(self)@.len() < u32::MAX,
        ensures
            final(self).wf(),
            id.0 < final(self)@.len(),
            final(self)@[id.0 as int] == AtomKeyV::Func(name@, exprs_view(args@), order@),
            final(self)@.len() <= old(self)@.len() + 1,
            final(self)@.subrange(0, old(self)@.len() as int) == old(self)@,
    {
        let id = self.intern(AtomKey::Func(name, args, order));
        proof {
            assert(self@.subrange(0, old(self)@.len() as int) =~= old(self)@);
        }
        id
    }

    /// The key of `id`.
    pub fn key(&self, id: AtomId) -> (k: &AtomKey)
        requires
            id.0 < self@.len(),
        ensures
            k@ == self@[id.0 as int],
    {
        &self.keys[id.0 as usize]
    }

    /// Whether `id` is a `cos` generator.
    pub fn is_cos(&self, id: AtomId) -> (r: bool)
        requires
            id.0 < self@.len(),
        ensures
            r == (self@[id.0 as int] is Cos),
    {
        match self.key(id) {
            AtomKey::Cos(_) => true,
            _ => false,
        }
    }

    /// Whether `id` is a `cosh` generator.
    pub fn is_cosh(&self, id: AtomId) -> (r: bool)
        requires
            id.0 < self@.len(),
        ensures
            r == (self@[id.0 as int] is Cosh),
    {
        match self.key(id) {
            AtomKey::Cosh(_) => true,
            _ => false,
        }
    }

    /// The id of `key`, where it is interned.
    pub fn find(&self, key: &AtomKey) -> (r: Option<AtomId>)
        requires
            self.wf(),
        ensures
            match r {
                Some(id) => id.0 < self@.len() && self@[id.0 as int] == key@,
                None => !self@.contains(key@),
            },
    {
        let mut i: usize = 0;
        while i < self.keys.len()
            invariant
                i <= self@.len(),
                self.wf(),
                self@.len() == self.keys@.len(),
                forall|k: int| 0 <= k < self.keys@.len() ==> #[trigger] self@[k] == self.keys@[k]@,
                forall|k: int| 0 <= k < i ==> self@[k] != key@,
            decreases self.keys@.len() - i,
        {
            if keys_equal(&self.keys[i], key) {
                return Some(AtomId(i as u32));
            }
            i += 1;
        }
        None
    }

    /// The `sin` generator sharing the argument of the `cos` generator
    /// `cos_id`, interned first if this is its first use.
    pub fn sin_for_cos(&mut self, cos_id: AtomId) -> (id: AtomId)
        requires
            old(self).wf(),
            old(self)@.len() < u32::MAX,
            cos_id.0 < old(self)@.len(),
            old(self)@[cos_id.0 as int] is Cos,
        ensures
            final(self).wf(),
            id.0 < final(self)@.len(),
            final(self)@[id.0 as int] == AtomKeyV::Sin(old(self)@[cos_id.0 as int]->Cos_0),
            old(self)@.contains(final(self)@[id.0 as int]) ==> final(self)@ == old(self)@,
            !old(self)@.contains(final(self)@[id.0 as int]) ==> final(self)@ == old(self)@.push(
                final(self)@[id.0 as int],
            ),
    {
        let key = match self.key(cos_id) {
            AtomKey::Cos(arg) => AtomKey::Sin(clone_expr(arg)),
            // Never taken: `cos_id` is a `cos` generator.
            _ => AtomKey::Sin(Expr::Rational(crate::big_scalar::BigScalar::zero())),
        };
        self.intern(key)
    }

    /// The `sinh` generator sharing the argument of the `cosh` generator
    /// `cosh_id`, interned first if this is its first use.
    pub fn sinh_for_cosh(&mut self, cosh_id: AtomId) -> (id: AtomId)
        requires
            old(self).wf(),
            old(self)@.len() < u32::MAX,
            cosh_id.0 < old(self)@.len(),
            old(self)@[cosh_id.0 as int] is Cosh,
        ensures
            final(self).wf(),
            id.0 < final(self)@.len(),
            final(self)@[id.0 as int] == AtomKeyV::Sinh(old(self)@[cosh_id.0 as int]->Cosh_0),
            old(self)@.contains(final(self)@[id.0 as int]) ==> final(self)@ == old(self)@,
            !old(self)@.contains(final(self)@[id.0 as int]) ==> final(self)@ == old(self)@.push(
                final(self)@[id.0 as int],
            ),
    {
        let key = match self.key(cosh_id) {
            AtomKey::Cosh(arg) => AtomKey::Sinh(clone_expr(arg)),
            // Never taken: `cosh_id` is a `cosh` generator.
            _ => AtomKey::Sinh(Expr::Rational(crate::big_scalar::BigScalar::zero())),
        };
        self.intern(key)
    }

    /// The expression `id` stands for.
    pub fn to_expr(&self, id: AtomId) -> (e: Expr)
        requires
            id.0 < self@.len(),
        ensures
            e@ == atom_expr(self@[id.0 as int]),
    {
        match self.key(id) {
            AtomKey::Var(name) => Expr::Var(name.clone()),
            AtomKey::Sin(arg) => Expr::Sin(Box::new(clone_expr(arg))),
            AtomKey::Cos(arg) => Expr::Cos(Box::new(clone_expr(arg))),
            AtomKey::Exp(arg) => Expr::Exp(Box::new(clone_expr(arg))),
            AtomKey::Sinh(arg) => Expr::Sinh(Box::new(clone_expr(arg))),
            AtomKey::Cosh(arg) => Expr::Cosh(Box::new(clone_expr(arg))),
            AtomKey::Func(name, args, order) => Expr::Func {
                name: name.clone(),
                args: clone_exprs(args),
                order: copy_u32s(order),
            },
        }
    }
}

} // verus!
