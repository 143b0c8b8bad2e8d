//! Lowering an expression to a linear program in SSA form, compiled once
//! and evaluated many times. Every instruction refers only to earlier
//! ones, so evaluating is one forward pass. Lowering shares common
//! subexpressions by hash-consing: an instruction already emitted is
//! found again and reused, never emitted twice.
//!
//! Constants are kept exact here, in a table of their own; a program is
//! evaluated numerically by whoever runs it.
use vstd::prelude::*;
use crate::big_scalar::BigScalar;
use crate::expr::{exprs_view, lemma_exprs_view, Expr, ExprV};
use crate::text::same_text;
use crate::names::texts;
use rustc_hash::FxHashMap;

verus! {

#[verifier::external_type_specification]
#[verifier::external_body]
pub struct ExFxBuildHasher(rustc_hash::FxBuildHasher);

/// Why an expression cannot be compiled.
#[derive(Debug, Clone, PartialEq, Eq)]
pub enum JitError {
    /// A variable of the expression is not among the program's inputs.
    UnknownVariable(String),
    /// An indeterminate function has no known numeric value.
    IndeterminateFunction(String),
}

/// One SSA instruction; operands are indices of earlier instructions.
#[derive(Clone, Copy, PartialEq, Eq, Structural, Hash, Debug)]
pub enum Op {
    /// The constant at this index of the program's constant table.
    Const(usize),
    /// The input at this index.
    Var(usize),
    Add(usize, usize),
    Mul(usize, usize),
    Pow(usize, i32),
    Sin(usize),
    Cos(usize),
    Exp(usize),
    Sinh(usize),
    Cosh(usize),
}

/// A compiled expression: the instructions, the exact constants they
/// refer to, and which instruction is the result.
#[derive(Debug)]
pub struct Program {
    pub ops: Vec<Op>,
    pub consts: Vec<BigScalar>,
    pub output: usize,
}

/// The key an instruction is found again by.
pub open spec fn op_key(op: Op) -> OpKey {
    match op {
        Op::Const(k) => (0, k as u64, 0, 0),
        Op::Var(j) => (1, j as u64, 0, 0),
        Op::Add(a, b) => (2, a as u64, b as u64, 0),
        Op::Mul(a, b) => (3, a as u64, b as u64, 0),
        Op::Pow(a, n) => (4, a as u64, 0, n),
        Op::Sin(a) => (5, a as u64, 0, 0),
        Op::Cos(a) => (6, a as u64, 0, 0),
        Op::Exp(a) => (7, a as u64, 0, 0),
        Op::Sinh(a) => (8, a as u64, 0, 0),
        Op::Cosh(a) => (9, a as u64, 0, 0),
    }
}

fn key_of(op: Op) -> (r: OpKey)
    ensures
        r == op_key(op),
{
    match op {
        Op::Const(k) => (0, k as u64, 0, 0),
        Op::Var(j) => (1, j as u64, 0, 0),
        Op::Add(a, b) => (2, a as u64, b as u64, 0),
        Op::Mul(a, b) => (3, a as u64, b as u64, 0),
        Op::Pow(a, n) => (4, a as u64, 0, n),
        Op::Sin(a) => (5, a as u64, 0, 0),
        Op::Cos(a) => (6, a as u64, 0, 0),
        Op::Exp(a) => (7, a as u64, 0, 0),
        Op::Sinh(a) => (8, a as u64, 0, 0),
        Op::Cosh(a) => (9, a as u64, 0, 0),
    }
}

proof fn lemma_op_key_injective(a: Op, b: Op)
    requires
        op_key(a) == op_key(b),
    ensures
        a == b,
{
}

/// The key an instruction is found again by: its tag and operands.
pub type OpKey = (u8, u64, u64, i32);

/// The table of emitted instructions, by key.
pub type OpTable = FxHashMap<OpKey, usize>;

/// The table with nothing in it.
pub open spec fn no_ops() -> Map<OpKey, usize> {
    Map::empty()
}

/// `FxHashMap::default()`: an empty table.
#[verifier::external_body]
fn table_new() -> (m: OpTable)
    ensures
        m@ == no_ops(),
{
    FxHashMap::default()
}

/// `HashMap::get`, on an `FxHashMap`: the value stored at `k`, if any.
#[verifier::external_body]
fn table_get(m: &OpTable, k: OpKey) -> (r: Option<usize>)
    ensures
        r == (if m@.contains_key(k) {
            Some(m@[k])
        } else {
            None
        }),
{
    m.get(&k).copied()
}

/// `HashMap::insert`, on an `FxHashMap`: afterwards `k` maps to `v` and
/// every other key is unchanged.
#[verifier::external_body]
fn table_insert(m: &mut OpTable, k: OpKey, v: usize)
    ensures
        final(m)@ == old(m)@.insert(k, v),
{
    m.insert(k, v);
}

/// Operands refer to earlier instructions and constants to the table.
pub open spec fn op_ok(op: Op, i: int, nconsts: int, nvars: int) -> bool {
    match op {
        Op::Const(k) => k < nconsts,
        Op::Var(j) => j < nvars,
        Op::Add(a, b) => a < i && b < i,
        Op::Mul(a, b) => a < i && b < i,
        Op::Pow(a, _) => a < i,
        Op::Sin(a) => a < i,
        Op::Cos(a) => a < i,
        Op::Exp(a) => a < i,
        Op::Sinh(a) => a < i,
        Op::Cosh(a) => a < i,
    }
}

/// Every instruction refers only to earlier ones.
pub open spec fn ssa(ops: Seq<Op>, nconsts: int, nvars: int) -> bool {
    forall|i: int| 0 <= i < ops.len() ==> op_ok(#[trigger] ops[i], i, nconsts, nvars)
}

/// Whether `op` takes instruction `a` as an operand.
pub open spec fn op_uses(op: Op, a: int) -> bool {
    match op {
        Op::Const(_) => false,
        Op::Var(_) => false,
        Op::Add(x, y) => x == a || y == a,
        Op::Mul(x, y) => x == a || y == a,
        Op::Pow(x, _) => x == a,
        Op::Sin(x) => x == a,
        Op::Cos(x) => x == a,
        Op::Exp(x) => x == a,
        Op::Sinh(x) => x == a,
        Op::Cosh(x) => x == a,
    }
}

/// Instruction `i` is an operand of a later one.
pub open spec fn used_later(ops: Seq<Op>, i: int) -> bool {
    exists|j: int| i < j < ops.len() && #[trigger] op_uses(ops[j], i)
}

/// Every instruction from `lo` on, but `root`, is an operand of a later one.
pub open spec fn needed(ops: Seq<Op>, lo: int, root: int) -> bool {
    forall|i: int| lo <= i < ops.len() && i != root ==> #[trigger] used_later(ops, i)
}

/// Nothing was emitted past `lo`, or everything emitted past it serves
/// `root`, the last instruction.
spec fn grown_for(ops: Seq<Op>, lo: int, root: int) -> bool {
    ops.len() == lo || (root + 1 == ops.len() && needed(ops, lo, root))
}

/// An instruction appended after two lowered runs (`lo..mid` serving
/// `a`, `mid..hi` serving `id`) that takes `a` and `id` as operands
/// leaves every instruction from `lo` on serving it.
proof fn lemma_needed_combine(ops: Seq<Op>, lo: int, mid: int, hi: int, a: int, id: int)
    requires
        ops.len() == hi + 1,
        0 <= lo <= mid <= hi,
        grown_for(ops.subrange(0, mid), lo, a),
        grown_for(ops.subrange(0, hi), mid, id),
        op_uses(ops[hi], a),
        op_uses(ops[hi], id),
    ensures
        needed(ops, lo, hi),
{
    assert forall|i: int| lo <= i < ops.len() && i != hi implies #[trigger] used_later(ops, i) by {
        lemma_needed_one(ops, lo, mid, hi, a, id, i);
    }
}

proof fn lemma_needed_one(ops: Seq<Op>, lo: int, mid: int, hi: int, a: int, id: int, i: int)
    requires
        ops.len() == hi + 1,
        0 <= lo <= mid <= hi,
        grown_for(ops.subrange(0, mid), lo, a),
        grown_for(ops.subrange(0, hi), mid, id),
        op_uses(ops[hi], a),
        op_uses(ops[hi], id),
        lo <= i < hi,
    ensures
        used_later(ops, i),
{
    let s1 = ops.subrange(0, mid);
    let s2 = ops.subrange(0, hi);
    if i == a || i == id {
        assert(op_uses(ops[hi], i));
    } else if i < mid {
        assert(used_later(s1, i));
        let j = choose|j: int| i < j < s1.len() && #[trigger] op_uses(s1[j], i);
        assert(s1[j] == ops[j]);
        assert(op_uses(ops[j], i));
    } else {
        assert(used_later(s2, i));
        let j = choose|j: int| i < j < s2.len() && #[trigger] op_uses(s2[j], i);
        assert(s2[j] == ops[j]);
        assert(op_uses(ops[j], i));
    }
}

/// After the instruction for `a` (emitted from `lo`, up to `mid`) and the
/// one for `id` (from `mid`, up to `hi`), pushing `op`, which takes both,
/// leaves everything emitted from `lo` serving the pushed instruction.
proof fn lemma_push_grown(
    ops_mid: Seq<Op>,
    ops_hi: Seq<Op>,
    after: Seq<Op>,
    lo: int,
    a: int,
    id: int,
    idx: int,
    nconsts: int,
    nvars: int,
)
    requires
        0 <= lo <= ops_mid.len() <= ops_hi.len(),
        grown_for(ops_mid, lo, a),
        grown_for(ops_hi, ops_mid.len() as int, id),
        ops_hi.subrange(0, ops_mid.len() as int) == ops_mid,
        after.subrange(0, ops_hi.len() as int) == ops_hi,
        after.len() == ops_hi.len() || (after.len() == ops_hi.len() + 1 && idx == ops_hi.len()),
        0 <= idx < after.len(),
        op_ok(after[idx], idx, nconsts, nvars),
        op_uses(after[idx], a),
        op_uses(after[idx], id),
    ensures
        grown_for(after, lo, idx),
{
    let mid = ops_mid.len() as int;
    let hi = ops_hi.len() as int;
    if after.len() == hi + 1 {
        assert(after.subrange(0, mid) =~= ops_mid);
        assert(after.subrange(0, hi) =~= ops_hi);
        lemma_needed_combine(after, lo, mid, hi, a, id);
    }
}

/// Pushing an instruction with no operands right after `lo` leaves it
/// the only one emitted.
proof fn lemma_leaf_grown(before: Seq<Op>, after: Seq<Op>, idx: int)
    requires
        after.len() == before.len() || (after.len() == before.len() + 1 && idx == before.len()),
    ensures
        grown_for(after, before.len() as int, idx),
{
}

/// What instruction `i` computes, as an expression over the inputs
/// `vars` with the constants `consts`.
pub open spec fn op_value(ops: Seq<Op>, consts: Seq<(int, int)>, vars: Seq<Seq<char>>, i: int) -> ExprV
    decreases i,
{
    if i < 0 || i >= ops.len() {
        ExprV::Rational(0, 1)
    } else {
        match ops[i] {
            Op::Const(k) => ExprV::Rational(consts[k as int].0, consts[k as int].1),
            Op::Var(j) => ExprV::Var(vars[j as int]),
            Op::Add(a, b) => if a < i && b < i {
                ExprV::Add(seq![op_value(ops, consts, vars, a as int), op_value(ops, consts, vars, b as int)])
            } else {
                ExprV::Rational(0, 1)
            },
            Op::Mul(a, b) => if a < i && b < i {
                ExprV::Mul(seq![op_value(ops, consts, vars, a as int), op_value(ops, consts, vars, b as int)])
            } else {
                ExprV::Rational(0, 1)
            },
            Op::Pow(a, n) => if a < i {
                ExprV::Pow(Box::new(op_value(ops, consts, vars, a as int)), n as int)
            } else {
                ExprV::Rational(0, 1)
            },
            Op::Sin(a) => if a < i {
                ExprV::Sin(Box::new(op_value(ops, consts, vars, a as int)))
            } else {
                ExprV::Rational(0, 1)
            },
            Op::Cos(a) => if a < i {
                ExprV::Cos(Box::new(op_value(ops, consts, vars, a as int)))
            } else {
                ExprV::Rational(0, 1)
            },
            Op::Exp(a) => if a < i {
                ExprV::Exp(Box::new(op_value(ops, consts, vars, a as int)))
            } else {
                ExprV::Rational(0, 1)
            },
            Op::Sinh(a) => if a < i {
                ExprV::Sinh(Box::new(op_value(ops, consts, vars, a as int)))
            } else {
                ExprV::Rational(0, 1)
            },
            Op::Cosh(a) => if a < i {
                ExprV::Cosh(Box::new(op_value(ops, consts, vars, a as int)))
            } else {
                ExprV::Rational(0, 1)
            },
        }
    }
}

/// The expression a program computes for `e`: sums and products folded
/// left into two-operand ones (an empty sum `0`, an empty product `1`).
pub open spec fn lowered(e: ExprV) -> ExprV
    decreases e,
{
    match e {
        ExprV::Rational(p, q) => ExprV::Rational(p, q),
        ExprV::Var(n) => ExprV::Var(n),
        ExprV::Add(ts) => fold_sum(ts),
        ExprV::Mul(fs) => fold_product(fs),
        ExprV::Pow(b, n) => ExprV::Pow(Box::new(lowered(*b)), n),
        ExprV::Sin(x) => ExprV::Sin(Box::new(lowered(*x))),
        ExprV::Cos(x) => ExprV::Cos(Box::new(lowered(*x))),
        ExprV::Exp(x) => ExprV::Exp(Box::new(lowered(*x))),
        ExprV::Sinh(x) => ExprV::Sinh(Box::new(lowered(*x))),
        ExprV::Cosh(x) => ExprV::Cosh(Box::new(lowered(*x))),
        ExprV::Func(_, _, _) => ExprV::Rational(0, 1),
    }
}

pub open spec fn fold_sum(ts: Seq<ExprV>) -> ExprV
    decreases ts,
{
    if ts.len() == 0 {
        ExprV::Rational(0, 1)
    } else if ts.len() == 1 {
        lowered(ts[0])
    } else {
        ExprV::Add(seq![fold_sum(ts.drop_last()), lowered(ts.last())])
    }
}

pub open spec fn fold_product(fs: Seq<ExprV>) -> ExprV
    decreases fs,
{
    if fs.len() == 0 {
        ExprV::Rational(1, 1)
    } else if fs.len() == 1 {
        lowered(fs[0])
    } else {
        ExprV::Mul(seq![fold_product(fs.drop_last()), lowered(fs.last())])
    }
}

/// The first obstacle to compiling `e` with inputs `vars`, depth first,
/// left to right: an unknown variable (`true`) or an indeterminate
/// function (`false`), with its name.
pub open spec fn lower_error(e: ExprV, vars: Seq<Seq<char>>) -> Option<(bool, Seq<char>)>
    decreases e,
{
    match e {
        ExprV::Rational(_, _) => None,
        ExprV::Var(n) => if vars.contains(n) {
            None
        } else {
            Some((true, n))
        },
        ExprV::Add(ts) => lower_error_all(ts, vars),
        ExprV::Mul(fs) => lower_error_all(fs, vars),
        ExprV::Pow(b, _) => lower_error(*b, vars),
        ExprV::Sin(x) => lower_error(*x, vars),
        ExprV::Cos(x) => lower_error(*x, vars),
        ExprV::Exp(x) => lower_error(*x, vars),
        ExprV::Sinh(x) => lower_error(*x, vars),
        ExprV::Cosh(x) => lower_error(*x, vars),
        ExprV::Func(name, _, _) => Some((false, name)),
    }
}

pub open spec fn lower_error_all(ts: Seq<ExprV>, vars: Seq<Seq<char>>) -> Option<(bool, Seq<char>)>
    decreases ts,
{
    if ts.len() == 0 {
        None
    } else {
        match lower_error_all(ts.drop_last(), vars) {
            Some(err) => Some(err),
            None => lower_error(ts.last(), vars),
        }
    }
}

/// The model of an error.
pub open spec fn error_view(e: JitError) -> (bool, Seq<char>) {
    match e {
        JitError::UnknownVariable(n) => (true, n@),
        JitError::IndeterminateFunction(n) => (false, n@),
    }
}

/// The program under construction and its lookup table.
struct Builder {
    ops: Vec<Op>,
    consts: Vec<BigScalar>,
    table: OpTable,
}

/// No two constants of the table have the same value.
pub open spec fn distinct_values(cs: Seq<BigScalar>) -> bool {
    forall|i: int, j: int| 0 <= i < j < cs.len() ==> (#[trigger] cs[i])@ != (#[trigger] cs[j])@
}

/// The values of the constant table.
pub open spec fn const_values(cs: Seq<BigScalar>) -> Seq<(int, int)> {
    cs.map_values(|c: BigScalar| c@)
}

impl Builder {
    /// The table finds exactly the instructions emitted so far.
    spec fn wf(&self, nvars: int) -> bool {
        &&& ssa(self.ops@, self.consts@.len() as int, nvars)
        &&& forall|k: OpKey| #[trigger]
            self.table@.contains_key(k) ==> self.table@[k] < self.ops@.len() && op_key(
                self.ops@[self.table@[k] as int],
            ) == k
        &&& forall|i: int|
            0 <= i < self.ops@.len() ==> #[trigger] self.table@.contains_key(op_key(self.ops@[i]))
                && self.table@[op_key(self.ops@[i])] == i
        &&& distinct_values(self.consts@)
    }

    spec fn value(&self, vars: Seq<Seq<char>>, i: int) -> ExprV {
        op_value(self.ops@, const_values(self.consts@), vars, i)
    }

    /// `op`'s index: the existing instruction when there is one, a new
    /// one at the end otherwise.
    fn push(&mut self, op: Op, Ghost(vars): Ghost<Seq<Seq<char>>>) -> (idx: usize)
        requires
            old(self).wf(vars.len() as int),
            op_ok(op, old(self).ops@.len() as int, old(self).consts@.len() as int, vars.len() as int),
        ensures
            final(self).wf(vars.len() as int),
            final(self).consts@ == old(self).consts@,
            extends(final(self), old(self)),
            old(self).ops@.len() <= final(self).ops@.len() <= old(self).ops@.len() + 1,
            old(self).ops@ == final(self).ops@.subrange(0, old(self).ops@.len() as int),
            idx < final(self).ops@.len(),
            final(self).ops@[idx as int] == op,
            final(self).ops@.len() == old(self).ops@.len() || idx == old(self).ops@.len(),
    {
        let key = key_of(op);
        proof {
            assert(const_values(self.consts@).subrange(0, self.consts@.len() as int) =~= const_values(
                self.consts@,
            ));
        }
        match table_get(&self.table, key) {
            Some(idx) => {
                proof {
                    lemma_op_key_injective(self.ops@[idx as int], op);
                    assert(self.ops@.subrange(0, self.ops@.len() as int) =~= self.ops@);
                }
                idx
            },
            None => {
                let idx = self.ops.len();
                table_insert(&mut self.table, key, idx);
                self.ops.push(op);
                proof {
                    assert(old(self).ops@ =~= self.ops@.subrange(0, old(self).ops@.len() as int));
                    assert forall|i: int| 0 <= i < self.ops@.len() implies op_ok(
                        #[trigger] self.ops@[i],
                        i,
                        self.consts@.len() as int,
                        vars.len() as int,
                    ) by {
                        if i < idx {
                            assert(self.ops@[i] == old(self).ops@[i]);
                        }
                    }
                    assert forall|k: OpKey| #[trigger]
                        self.table@.contains_key(k) implies self.table@[k] < self.ops@.len()
                        && op_key(self.ops@[self.table@[k] as int]) == k by {
                        if k != key {
                            assert(old(self).table@.contains_key(k));
                            assert(self.ops@[self.table@[k] as int] == old(self).ops@[old(
                                self,
                            ).table@[k] as int]);
                        }
                    }
                    assert forall|i: int| 0 <= i < self.ops@.len() implies #[trigger]
                        self.table@.contains_key(op_key(self.ops@[i])) && self.table@[op_key(
                        self.ops@[i],
                    )] == i by {
                        if i < idx {
                            assert(self.ops@[i] == old(self).ops@[i]);
                            assert(old(self).table@.contains_key(op_key(old(self).ops@[i])));
                        }
                    }
                }
                idx
            },
        }
    }
}

/// The value of an instruction depends only on the instructions up to
/// it: appending more leaves it unchanged.
proof fn lemma_op_value_prefix(
    ops: Seq<Op>,
    longer: Seq<Op>,
    consts: Seq<(int, int)>,
    vars: Seq<Seq<char>>,
    i: int,
)
    requires
        ops.len() <= longer.len(),
        longer.subrange(0, ops.len() as int) == ops,
        0 <= i < ops.len(),
    ensures
        op_value(longer, consts, vars, i) == op_value(ops, consts, vars, i),
    decreases i,
{
    assert(longer[i] == ops[i]);
    match ops[i] {
        Op::Add(a, b) => {
            if a < i && b < i {
                lemma_op_value_prefix(ops, longer, consts, vars, a as int);
                lemma_op_value_prefix(ops, longer, consts, vars, b as int);
            }
        },
        Op::Mul(a, b) => {
            if a < i && b < i {
                lemma_op_value_prefix(ops, longer, consts, vars, a as int);
                lemma_op_value_prefix(ops, longer, consts, vars, b as int);
            }
        },
        Op::Pow(a, _) | Op::Sin(a) | Op::Cos(a) | Op::Exp(a) | Op::Sinh(a) | Op::Cosh(a) => {
            if a < i {
                lemma_op_value_prefix(ops, longer, consts, vars, a as int);
            }
        },
        _ => {},
    }
}


/// The index of the first input named `name`.
fn find_var(vars: &[String], name: &String) -> (r: Option<usize>)
    ensures
        match r {
            Some(j) => j < vars@.len() && vars@[j as int]@ == name@,
            None => !texts(vars@).contains(name@),
        },
{
    let mut j: usize = 0;
    while j < vars.len()
        invariant
            j <= vars@.len(),
            forall|k: int| 0 <= k < j ==> vars@[k]@ != name@,
        decreases vars@.len() - j,
    {
        if same_text(vars[j].as_str(), name.as_str()) {
            return Some(j);
        }
        j += 1;
    }
    proof {
        assert forall|k: int| 0 <= k < texts(vars@).len() implies texts(vars@)[k] != name@ by {
            assert(texts(vars@)[k] == vars@[k]@);
        }
    }
    None
}

impl Builder {
    /// The index in the constant table of a constant with `c`'s value,
    /// added when there is none yet.
    fn constant(&mut self, c: &BigScalar, Ghost(vars): Ghost<Seq<Seq<char>>>) -> (k: usize)
        requires
            old(self).wf(vars.len() as int),
        ensures
            final(self).wf(vars.len() as int),
            final(self).ops@ == old(self).ops@,
            extends(final(self), old(self)),
            old(self).consts@.len() <= final(self).consts@.len(),
            const_values(old(self).consts@) == const_values(final(self).consts@).subrange(
                0,
                old(self).consts@.len() as int,
            ),
            k < final(self).consts@.len(),
            final(self).consts@[k as int]@ == c@,
    {
        let mut k: usize = 0;
        while k < self.consts.len()
            invariant
                k <= self.consts@.len(),
                self.ops@ == old(self).ops@,
                self.consts@ == old(self).consts@,
                self.table@ == old(self).table@,
                self.wf(vars.len() as int),
                forall|j: int| 0 <= j < k ==> (#[trigger] self.consts@[j])@ != c@,
            decreases self.consts@.len() - k,
        {
            if self.consts[k].equals(c) {
                proof {
                    assert(const_values(self.consts@).subrange(0, self.consts@.len() as int)
                        =~= const_values(self.consts@));
                    assert(self.ops@.subrange(0, self.ops@.len() as int) =~= self.ops@);
                }
                return k;
            }
            k += 1;
        }
        let ghost before = self.consts@;
        self.consts.push(c.clone());
        proof {
            assert(self.ops@.subrange(0, self.ops@.len() as int) =~= self.ops@);
            assert(const_values(before) =~= const_values(self.consts@).subrange(
                0,
                before.len() as int,
            ));
            assert forall|i: int| 0 <= i < self.ops@.len() implies op_ok(
                #[trigger] self.ops@[i],
                i,
                self.consts@.len() as int,
                vars.len() as int,
            ) by {
                assert(op_ok(old(self).ops@[i], i, before.len() as int, vars.len() as int));
            }
        }
        k
    }
}

/// The value of every instruction already emitted is kept by any
/// extension of the program.
proof fn lemma_values_kept(
    ops: Seq<Op>,
    longer: Seq<Op>,
    consts: Seq<(int, int)>,
    longer_consts: Seq<(int, int)>,
    vars: Seq<Seq<char>>,
    i: int,
)
    requires
        ops.len() <= longer.len(),
        longer.subrange(0, ops.len() as int) == ops,
        consts.len() <= longer_consts.len(),
        longer_consts.subrange(0, consts.len() as int) == consts,
        ssa(ops, consts.len() as int, vars.len() as int),
        0 <= i < ops.len(),
    ensures
        op_value(longer, longer_consts, vars, i) == op_value(ops, consts, vars, i),
    decreases i,
{
    assert(longer[i] == ops[i]);
    assert(op_ok(ops[i], i, consts.len() as int, vars.len() as int));
    match ops[i] {
        Op::Const(k) => {
            assert(longer_consts[k as int] == consts[k as int]);
        },
        Op::Add(a, b) => {
            lemma_values_kept(ops, longer, consts, longer_consts, vars, a as int);
            lemma_values_kept(ops, longer, consts, longer_consts, vars, b as int);
        },
        Op::Mul(a, b) => {
            lemma_values_kept(ops, longer, consts, longer_consts, vars, a as int);
            lemma_values_kept(ops, longer, consts, longer_consts, vars, b as int);
        },
        Op::Pow(a, _) | Op::Sin(a) | Op::Cos(a) | Op::Exp(a) | Op::Sinh(a) | Op::Cosh(a) => {
            lemma_values_kept(ops, longer, consts, longer_consts, vars, a as int);
        },
        _ => {},
    }
}

/// Once an error is found among the first `j` elements, it stays the
/// first error of any longer prefix.
proof fn lemma_lower_error_prefix(ev: Seq<ExprV>, vs: Seq<Seq<char>>, j: int, k: int)
    requires
        0 <= j <= k <= ev.len(),
        lower_error_all(ev.subrange(0, j), vs) is Some,
    ensures
        lower_error_all(ev.subrange(0, k), vs) == lower_error_all(ev.subrange(0, j), vs),
    decreases k - j,
{
    if k > j {
        lemma_lower_error_prefix(ev, vs, j, k - 1);
        assert(ev.subrange(0, k).drop_last() =~= ev.subrange(0, k - 1));
    }
}

/// How one builder state extends another.
spec fn extends(b2: &Builder, b1: &Builder) -> bool {
    &&& b1.ops@.len() <= b2.ops@.len()
    &&& b2.ops@.subrange(0, b1.ops@.len() as int) == b1.ops@
    &&& b1.consts@.len() <= b2.consts@.len()
    &&& const_values(b2.consts@).subrange(0, b1.consts@.len() as int) == const_values(b1.consts@)
}

proof fn lemma_extends_values(b1: &Builder, b2: &Builder, vars: Seq<Seq<char>>, i: int)
    requires
        extends(b2, b1),
        b1.wf(vars.len() as int),
        0 <= i < b1.ops@.len(),
    ensures
        b2.value(vars, i) == b1.value(vars, i),
{
    lemma_values_kept(
        b1.ops@,
        b2.ops@,
        const_values(b1.consts@),
        const_values(b2.consts@),
        vars,
        i,
    );
}

proof fn lemma_extends_transitive(b1: &Builder, b2: &Builder, b3: &Builder)
    requires
        extends(b2, b1),
        extends(b3, b2),
    ensures
        extends(b3, b1),
{
    assert(b3.ops@.subrange(0, b1.ops@.len() as int) =~= b2.ops@.subrange(
        0,
        b1.ops@.len() as int,
    ));
    assert(const_values(b3.consts@).subrange(0, b1.consts@.len() as int) =~= const_values(
        b2.consts@,
    ).subrange(0, b1.consts@.len() as int));
}

fn lower(e: &Expr, vars: &[String], b: &mut Builder) -> (r: Result<usize, JitError>)
    requires
        old(b).wf(vars@.len() as int),
    ensures
        final(b).wf(vars@.len() as int),
        extends(final(b), old(b)),
        match r {
            Ok(idx) => lower_error(e@, texts(vars@)) is None && idx < final(b).ops@.len()
                && final(b).value(texts(vars@), idx as int) == lowered(e@)
                && grown_for(final(b).ops@, old(b).ops@.len() as int, idx as int),
            Err(err) => lower_error(e@, texts(vars@)) == Some(error_view(err)),
        },
    decreases e, 0nat,
{
    let ghost vs = texts(vars@);
    let ghost b0 = *b;
    match e {
        Expr::Rational(s) => {
            let k = b.constant(s, Ghost(vs));
            let ghost b1 = *b;
            let idx = b.push(Op::Const(k), Ghost(vs));
            proof {
                assert(extends(&b1, &b0));
                lemma_extends_transitive(&b0, &b1, &*b);
                assert(const_values(b.consts@)[k as int] == b.consts@[k as int]@);
                lemma_leaf_grown(b1.ops@, b.ops@, idx as int);
            }
            Ok(idx)
        },
        Expr::Var(name) => {
            match find_var(vars, name) {
                Some(j) => {
                    let idx = b.push(Op::Var(j), Ghost(vs));
                    proof {
                        lemma_leaf_grown(b0.ops@, b.ops@, idx as int);
                        assert(vs[j as int] == vars@[j as int]@);
                        assert(vs.contains(name@));
                        assert(b0.consts@ == b.consts@);
                        assert(const_values(b.consts@).subrange(0, b0.consts@.len() as int)
                            =~= const_values(b0.consts@));
                    }
                    Ok(idx)
                },
                None => {
                    proof {
                        assert(b.consts@.subrange(0, b.consts@.len() as int) =~= b.consts@);
                        assert(b.ops@.subrange(0, b.ops@.len() as int) =~= b.ops@);
                        assert(const_values(b.consts@).subrange(0, b.consts@.len() as int)
                            =~= const_values(b.consts@));
                    }
                    Err(JitError::UnknownVariable(name.clone()))
                },
            }
        },
        Expr::Func { name, .. } => {
            proof {
                assert(b.ops@.subrange(0, b.ops@.len() as int) =~= b.ops@);
                assert(const_values(b.consts@).subrange(0, b.consts@.len() as int) =~= const_values(
                    b.consts@,
                ));
            }
            Err(JitError::IndeterminateFunction(name.clone()))
        },
        Expr::Add(terms) => lower_fold(terms, vars, b, true),
        Expr::Mul(factors) => lower_fold(factors, vars, b, false),
        Expr::Pow(base, n) => {
            let a = lower(base, vars, b)?;
            let ghost b1 = *b;
            let idx = b.push(Op::Pow(a, *n), Ghost(vs));
            proof {
                lemma_extends_transitive(&b0, &b1, &*b);
                lemma_extends_values(&b1, &*b, vs, a as int);
                assert(b1.ops@.subrange(0, b0.ops@.len() as int) == b0.ops@);
                lemma_push_grown(b0.ops@, b1.ops@, b.ops@, b0.ops@.len() as int, a as int, a as int, idx as int, b.consts@.len() as int, vars@.len() as int);
            }
            Ok(idx)
        },
        Expr::Sin(x) | Expr::Cos(x) | Expr::Exp(x) | Expr::Sinh(x) | Expr::Cosh(x) => {
            let a = lower(x, vars, b)?;
            let op = match e {
                Expr::Sin(_) => Op::Sin(a),
                Expr::Cos(_) => Op::Cos(a),
                Expr::Exp(_) => Op::Exp(a),
                Expr::Sinh(_) => Op::Sinh(a),
                _ => Op::Cosh(a),
            };
            let ghost b1 = *b;
            let idx = b.push(op, Ghost(vs));
            proof {
                lemma_extends_transitive(&b0, &b1, &*b);
                lemma_extends_values(&b1, &*b, vs, a as int);
                assert(b1.ops@.subrange(0, b0.ops@.len() as int) == b0.ops@);
                lemma_push_grown(b0.ops@, b1.ops@, b.ops@, b0.ops@.len() as int, a as int, a as int, idx as int, b.consts@.len() as int, vars@.len() as int);
            }
            Ok(idx)
        },
    }
}

/// Lowers a sum (`sum`) or product of `es`, folded left into
/// two-operand instructions.
fn lower_fold(es: &Vec<Expr>, vars: &[String], b: &mut Builder, sum: bool) -> (r: Result<
    usize,
    JitError,
>)
    requires
        old(b).wf(vars@.len() as int),
    ensures
        final(b).wf(vars@.len() as int),
        extends(final(b), old(b)),
        match r {
            Ok(idx) => lower_error_all(exprs_view(es@), texts(vars@)) is None && idx < final(b).ops@.len() && final(b).value(texts(vars@), idx as int) == (if sum {
                fold_sum(exprs_view(es@))
            } else {
                fold_product(exprs_view(es@))
            }) && grown_for(final(b).ops@, old(b).ops@.len() as int, idx as int),
            Err(err) => lower_error_all(exprs_view(es@), texts(vars@)) == Some(error_view(err)),
        },
    decreases es, 1nat,
{
    let ghost vs = texts(vars@);
    let ghost ev = exprs_view(es@);
    let ghost b0 = *b;
    proof {
        lemma_exprs_view(es@);
        assert(b.ops@.subrange(0, b.ops@.len() as int) =~= b.ops@);
        assert(const_values(b.consts@).subrange(0, b.consts@.len() as int) =~= const_values(
            b.consts@,
        ));
    }
    let mut acc: Option<usize> = None;
    let mut i: usize = 0;
    while i < es.len()
        invariant
            i <= es@.len(),
            ev == exprs_view(es@),
            ev.len() == es@.len(),
            forall|k: int| 0 <= k < es@.len() ==> #[trigger] ev[k] == es@[k]@,
            vs == texts(vars@),
            b0 == *old(b),
            b.wf(vars@.len() as int),
            extends(&*b, &b0),
            lower_error_all(ev.subrange(0, i as int), vs) is None,
            (acc is None) == (i == 0),
            acc is None ==> b.ops@.len() == b0.ops@.len(),
            b.ops@.len() == b0.ops@.len() || (acc matches Some(a) && grown_for(
                b.ops@,
                b0.ops@.len() as int,
                a as int,
            )),
            acc matches Some(a) ==> a < b.ops@.len() && b.value(vs, a as int) == (if sum {
                fold_sum(ev.subrange(0, i as int))
            } else {
                fold_product(ev.subrange(0, i as int))
            }),
        decreases es@.len() - i,
    {
        let ghost pre = ev.subrange(0, i as int);
        proof {
            assert(ev.subrange(0, i + 1).drop_last() =~= pre);
            assert(ev.subrange(0, i + 1).last() == es@[i as int]@);
        }
        let ghost b1 = *b;
        let ghost acc0 = acc;
        let id = match lower(&es[i], vars, b) {
            Ok(id) => id,
            Err(err) => {
                proof {
                    lemma_extends_transitive(&b0, &b1, &*b);
                    lemma_lower_error_prefix(ev, vs, i + 1, ev.len() as int);
                    assert(ev.subrange(0, ev.len() as int) =~= ev);
                }
                return Err(err);
            },
        };
        proof {
            lemma_extends_transitive(&b0, &b1, &*b);
        }
        acc = match acc {
            None => {
                proof {
                    assert(ev.subrange(0, 1)[0] == ev[0]);
                }
                Some(id)
            },
            Some(a) => {
                let ghost b2 = *b;
                let op = if sum {
                    Op::Add(a, id)
                } else {
                    Op::Mul(a, id)
                };
                let n = b.push(op, Ghost(vs));
                proof {
                    lemma_extends_values(&b1, &b2, vs, a as int);
                    lemma_extends_values(&b2, &*b, vs, a as int);
                    lemma_extends_values(&b2, &*b, vs, id as int);
                    lemma_extends_transitive(&b0, &b2, &*b);
                    if b1.ops@.len() == b0.ops@.len() {
                        assert(b1.ops@.subrange(0, b0.ops@.len() as int) == b0.ops@);
                        lemma_push_grown(b0.ops@, b2.ops@, b.ops@, b0.ops@.len() as int, a as int, id as int, n as int, b.consts@.len() as int, vars@.len() as int);
                    } else {
                        lemma_push_grown(b1.ops@, b2.ops@, b.ops@, b0.ops@.len() as int, a as int, id as int, n as int, b.consts@.len() as int, vars@.len() as int);
                    }
                }
                Some(n)
            },
        };
        i += 1;
    }
    proof {
        assert(ev.subrange(0, i as int) =~= ev);
    }
    match acc {
        Some(a) => Ok(a),
        None => {
            let neutral = if sum {
                BigScalar::zero()
            } else {
                BigScalar::one()
            };
            let ghost b1 = *b;
            let k = b.constant(&neutral, Ghost(vs));
            let ghost b2 = *b;
            let idx = b.push(Op::Const(k), Ghost(vs));
            proof {
                assert(extends(&b2, &b1));
                lemma_extends_transitive(&b0, &b1, &b2);
                lemma_extends_transitive(&b0, &b2, &*b);
                assert(const_values(b.consts@)[k as int] == b.consts@[k as int]@);
                lemma_leaf_grown(b2.ops@, b.ops@, idx as int);
            }
            Ok(idx)
        },
    }
}


/// What an expression reads and applies, left to right, with the
/// grouping of sums and products forgotten: each variable by name, each
/// known function by kind before its argument, each power's exponent
/// after its base, and the operands of a sum (or of a product) separated
/// by a sum (product) marker. Numbers are left out.
pub open spec fn reading(e: ExprV) -> Seq<(int, Seq<char>, int)>
    decreases e,
{
    match e {
        ExprV::Rational(_, _) => Seq::empty(),
        ExprV::Var(n) => seq![(0int, n, 0int)],
        ExprV::Add(ts) => reading_all(ts, 8),
        ExprV::Mul(fs) => reading_all(fs, 9),
        ExprV::Pow(b, k) => reading(*b) + seq![(6int, Seq::<char>::empty(), k)],
        ExprV::Sin(x) => seq![(1int, Seq::<char>::empty(), 0int)] + reading(*x),
        ExprV::Cos(x) => seq![(2int, Seq::<char>::empty(), 0int)] + reading(*x),
        ExprV::Exp(x) => seq![(3int, Seq::<char>::empty(), 0int)] + reading(*x),
        ExprV::Sinh(x) => seq![(4int, Seq::<char>::empty(), 0int)] + reading(*x),
        ExprV::Cosh(x) => seq![(5int, Seq::<char>::empty(), 0int)] + reading(*x),
        ExprV::Func(n, _, _) => seq![(7int, n, 0int)],
    }
}

/// The readings of `ts`, separated by the marker `sep`.
pub open spec fn reading_all(ts: Seq<ExprV>, sep: int) -> Seq<(int, Seq<char>, int)>
    decreases ts,
{
    if ts.len() == 0 {
        Seq::empty()
    } else if ts.len() == 1 {
        reading(ts[0])
    } else {
        reading_all(ts.drop_last(), sep) + seq![(sep, Seq::<char>::empty(), 0int)] + reading(
            ts.last(),
        )
    }
}

/// Lowering an expression that compiles changes nothing it reads or
/// applies: the program computes the same variables through the same
/// known functions and powers, in the same order, with only the grouping
/// of sums and products changed (`cos` stays `cos`).
pub proof fn law_lowering_keeps_what_is_computed(e: ExprV, vars: Seq<Seq<char>>)
    requires
        lower_error(e, vars) is None,
    ensures
        reading(lowered(e)) == reading(e),
    decreases e, 1nat,
{
    match e {
        ExprV::Add(ts) => law_folding_keeps_what_is_computed(ts, vars, true),
        ExprV::Mul(fs) => law_folding_keeps_what_is_computed(fs, vars, false),
        ExprV::Pow(b, _) => law_lowering_keeps_what_is_computed(*b, vars),
        ExprV::Sin(x) => law_lowering_keeps_what_is_computed(*x, vars),
        ExprV::Cos(x) => law_lowering_keeps_what_is_computed(*x, vars),
        ExprV::Exp(x) => law_lowering_keeps_what_is_computed(*x, vars),
        ExprV::Sinh(x) => law_lowering_keeps_what_is_computed(*x, vars),
        ExprV::Cosh(x) => law_lowering_keeps_what_is_computed(*x, vars),
        _ => {},
    }
}

/// Folding the operands of a sum (`sum`) or product left into
/// two-operand ones keeps their reading.
pub proof fn law_folding_keeps_what_is_computed(ts: Seq<ExprV>, vars: Seq<Seq<char>>, sum: bool)
    requires
        lower_error_all(ts, vars) is None,
    ensures
        reading(if sum {
            fold_sum(ts)
        } else {
            fold_product(ts)
        }) == reading_all(ts, if sum {
            8
        } else {
            9
        }),
    decreases ts, 0nat,
{
    let sep: int = if sum {
        8
    } else {
        9
    };
    if ts.len() == 1 {
        assert(ts.drop_last().len() == 0);
        assert(lower_error_all(ts.drop_last(), vars) is None);
        assert(ts.last() == ts[0]);
        law_lowering_keeps_what_is_computed(ts[0], vars);
    } else if ts.len() >= 2 {
        law_folding_keeps_what_is_computed(ts.drop_last(), vars, sum);
        law_lowering_keeps_what_is_computed(ts.last(), vars);
        let a = if sum {
            fold_sum(ts.drop_last())
        } else {
            fold_product(ts.drop_last())
        };
        let b = lowered(ts.last());
        let pair = seq![a, b];
        assert(pair.drop_last() =~= seq![a]);
        assert(pair.last() == b);
        assert(reading_all(pair, sep) == reading_all(seq![a], sep) + seq![
            (sep, Seq::<char>::empty(), 0int),
        ] + reading(b));
        assert(reading_all(seq![a], sep) == reading(a));
    }
}

/// A compiled program computes the expression it was compiled from with
/// only the grouping of its sums and products changed: the same
/// variables, through the same known functions and powers, in the same
/// order.
pub proof fn law_compiled_program_reads_as_its_expression(
    ops: Seq<Op>,
    consts: Seq<(int, int)>,
    vars: Seq<Seq<char>>,
    output: int,
    e: ExprV,
)
    requires
        lower_error(e, vars) is None,
        op_value(ops, consts, vars, output) == lowered(e),
    ensures
        reading(op_value(ops, consts, vars, output)) == reading(e),
{
    law_lowering_keeps_what_is_computed(e, vars);
}

/// Compiles `expr` to a [`Program`] whose inputs are `vars` (input `i`
/// is the variable `vars[i]`): the program computes `expr` with its sums
/// and products folded left into two-operand instructions, each distinct
/// instruction emitted once, the result last, and every other instruction
/// an operand of a later one, and each constant value stored once. An error for the first variable not among
/// `vars`, or the first indeterminate function, met depth first.
pub fn compile(expr: &Expr, vars: &[String]) -> (r: Result<Program, JitError>)
    ensures
        match r {
            Ok(p) => {
                &&& lower_error(expr@, texts(vars@)) is None
                &&& ssa(p.ops@, p.consts@.len() as int, vars@.len() as int)
                &&& p.output + 1 == p.ops@.len()
                &&& needed(p.ops@, 0, p.output as int)
                &&& distinct_values(p.consts@)
                &&& forall|i: int, j: int|
                    0 <= i < j < p.ops@.len() ==> #[trigger] p.ops@[i] != #[trigger] p.ops@[j]
                &&& op_value(p.ops@, const_values(p.consts@), texts(vars@), p.output as int)
                    == lowered(expr@)
                &&& reading(op_value(p.ops@, const_values(p.consts@), texts(vars@), p.output as int))
                    == reading(expr@)
            },
            Err(err) => lower_error(expr@, texts(vars@)) == Some(error_view(err)),
        },
{
    let mut b = Builder { ops: Vec::new(), consts: Vec::new(), table: table_new() };
    proof {
        assert(b.wf(vars@.len() as int));
    }
    let output = lower(expr, vars, &mut b)?;
    proof {
        assert forall|i: int, j: int| 0 <= i < j < b.ops@.len() implies #[trigger] b.ops@[i]
            != #[trigger] b.ops@[j] by {
            assert(b.wf(vars@.len() as int));
            assert(b.table@.contains_key(op_key(b.ops@[i])));
            assert(b.table@.contains_key(op_key(b.ops@[j])));
        }
    }
    proof {
        law_lowering_keeps_what_is_computed(expr@, texts(vars@));
    }
    Ok(Program { ops: b.ops, consts: b.consts, output })
}

} // verus!
