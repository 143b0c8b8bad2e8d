//! Export support: collecting every name an expression uses (variables
//! and indeterminate-function names, kept apart), and renaming those
//! that collide with a target language's reserved words. Pure tree
//! renaming, never a simplification.
use vstd::prelude::*;
use crate::expr::{clone_expr, copy_u32s, exprs_view, lemma_exprs_view, lemma_exprs_view_push, Expr, ExprV};
use crate::free_vars::{has_var, lemma_var_names_children, lemma_var_names_upto_step, var_names, var_names_upto};
use crate::names::{ascending, texts, NameSet, RenameMap};
use crate::render::Target;
use crate::text::{push_str, same_text};

verus! {

/// Mathematica `System` symbols with the `Protected` attribute that a
/// chart coordinate or parameter name could plausibly collide with.
pub const MATHEMATICA_RESERVED: [&'static str; 9] = ["E", "Pi", "I", "D", "N", "Gamma", "C", "K", "O"];

/// Python keywords plus SymPy's own special constants and classes that a
/// coordinate or parameter name could collide with.
pub const SYMPY_RESERVED: [&'static str; 38] = [
    "lambda",
    "class",
    "def",
    "import",
    "from",
    "return",
    "if",
    "else",
    "elif",
    "for",
    "while",
    "in",
    "is",
    "not",
    "and",
    "or",
    "None",
    "True",
    "False",
    "global",
    "pass",
    "with",
    "as",
    "yield",
    "try",
    "except",
    "finally",
    "raise",
    "assert",
    "del",
    "I",
    "E",
    "pi",
    "oo",
    "zoo",
    "nan",
    "S",
    "N",
];


/// Whether the indeterminate function `n` is applied somewhere in the
/// model.
pub open spec fn has_func(e: ExprV, n: Seq<char>) -> bool
    decreases e,
{
    match e {
        ExprV::Rational(_, _) | ExprV::Var(_) => false,
        ExprV::Pow(b, _) => has_func(*b, n),
        ExprV::Mul(fs) => exists|i: int| 0 <= i < fs.len() && has_func(#[trigger] fs[i], n),
        ExprV::Add(ts) => exists|i: int| 0 <= i < ts.len() && has_func(#[trigger] ts[i], n),
        ExprV::Sin(x) => has_func(*x, n),
        ExprV::Cos(x) => has_func(*x, n),
        ExprV::Exp(x) => has_func(*x, n),
        ExprV::Sinh(x) => has_func(*x, n),
        ExprV::Cosh(x) => has_func(*x, n),
        ExprV::Func(name, args, _) => name == n || exists|i: int|
            0 <= i < args.len() && has_func(#[trigger] args[i], n),
    }
}

/// The indeterminate-function names of the model.
pub open spec fn func_names(e: ExprV) -> Set<Seq<char>> {
    Set::new(|n: Seq<char>| has_func(e, n))
}

/// The function names of the first `k` elements.
pub open spec fn func_names_upto(s: Seq<ExprV>, k: int) -> Set<Seq<char>> {
    Set::new(|n: Seq<char>| exists|i: int| 0 <= i < k && has_func(#[trigger] s[i], n))
}

proof fn lemma_func_names_upto_step(s: Seq<ExprV>, k: int)
    requires
        0 <= k,
    ensures
        func_names_upto(s, k + 1) == func_names_upto(s, k) + func_names(s[k]),
{
    let lhs = func_names_upto(s, k + 1);
    let rhs = func_names_upto(s, k) + func_names(s[k]);
    assert forall|n: Seq<char>| lhs.contains(n) <==> rhs.contains(n) by {
        if lhs.contains(n) {
            let i = choose|i: int| 0 <= i < k + 1 && has_func(#[trigger] s[i], n);
            if i < k {
                assert(func_names_upto(s, k).contains(n));
            }
        }
        if func_names_upto(s, k).contains(n) {
            let i = choose|i: int| 0 <= i < k && has_func(#[trigger] s[i], n);
            assert(0 <= i < k + 1 && has_func(s[i], n));
        }
    }
    assert(lhs =~= rhs);
}

/// The function names of a sum, product or function application, as
/// those of its operands (plus the applied function's own name).
proof fn lemma_func_names_children(v: ExprV)
    ensures
        v matches ExprV::Add(s) ==> func_names(v) == func_names_upto(s, s.len() as int),
        v matches ExprV::Mul(s) ==> func_names(v) == func_names_upto(s, s.len() as int),
        v matches ExprV::Func(name, s, _) ==> func_names(v) == func_names_upto(
            s,
            s.len() as int,
        ).insert(name),
{
    match v {
        ExprV::Add(s) => {
            assert(func_names(v) =~= func_names_upto(s, s.len() as int));
        },
        ExprV::Mul(s) => {
            assert(func_names(v) =~= func_names_upto(s, s.len() as int));
        },
        ExprV::Func(name, s, _) => {
            assert(func_names(v) =~= func_names_upto(s, s.len() as int).insert(name));
        },
        _ => {},
    }
}

/// Adds every variable name of `expr` to `vars` and every
/// indeterminate-function name to `funcs`.
pub fn collect_names(expr: &Expr, vars: &mut NameSet, funcs: &mut NameSet)
    ensures
        final(vars)@.to_set() == old(vars)@.to_set() + var_names(expr@),
        final(funcs)@.to_set() == old(funcs)@.to_set() + func_names(expr@),
    decreases expr, 0nat,
{
    match expr {
        Expr::Rational(_) => {
            assert(old(vars)@.to_set() + var_names(expr@) =~= old(vars)@.to_set());
            assert(old(funcs)@.to_set() + func_names(expr@) =~= old(funcs)@.to_set());
        },
        Expr::Var(name) => {
            vars.insert(name.clone());
            assert(old(vars)@.to_set().insert(name@) =~= old(vars)@.to_set() + var_names(expr@));
            assert(old(funcs)@.to_set() + func_names(expr@) =~= old(funcs)@.to_set());
        },
        Expr::Add(terms) => {
            collect_names_all(terms, vars, funcs);
            proof {
                lemma_exprs_view(terms@);
                lemma_var_names_children(expr@);
                lemma_func_names_children(expr@);
            }
        },
        Expr::Mul(terms) => {
            collect_names_all(terms, vars, funcs);
            proof {
                lemma_exprs_view(terms@);
                lemma_var_names_children(expr@);
                lemma_func_names_children(expr@);
            }
        },
        Expr::Pow(base, _) => collect_names(base, vars, funcs),
        Expr::Sin(x) | Expr::Cos(x) | Expr::Exp(x) | Expr::Sinh(x) | Expr::Cosh(x) => collect_names(
            x,
            vars,
            funcs,
        ),
        Expr::Func { name, args, .. } => {
            funcs.insert(name.clone());
            let ghost mid = funcs@.to_set();
            collect_names_all(args, vars, funcs);
            proof {
                lemma_exprs_view(args@);
                lemma_var_names_children(expr@);
                lemma_func_names_children(expr@);
                assert(funcs@.to_set() =~= old(funcs)@.to_set() + func_names(expr@));
            }
        },
    }
}

fn collect_names_all(es: &Vec<Expr>, vars: &mut NameSet, funcs: &mut NameSet)
    ensures
        final(vars)@.to_set() == old(vars)@.to_set() + var_names_upto(
            exprs_view(es@),
            es@.len() as int,
        ),
        final(funcs)@.to_set() == old(funcs)@.to_set() + func_names_upto(
            exprs_view(es@),
            es@.len() as int,
        ),
    decreases es, 1nat,
{
    let ghost s = exprs_view(es@);
    proof {
        lemma_exprs_view(es@);
        assert(old(vars)@.to_set() + var_names_upto(s, 0) =~= old(vars)@.to_set());
        assert(old(funcs)@.to_set() + func_names_upto(s, 0) =~= old(funcs)@.to_set());
    }
    let mut i: usize = 0;
    while i < es.len()
        invariant
            i <= es@.len(),
            s == exprs_view(es@),
            s.len() == es@.len(),
            forall|k: int| 0 <= k < es@.len() ==> #[trigger] s[k] == es@[k]@,
            vars@.to_set() == old(vars)@.to_set() + var_names_upto(s, i as int),
            funcs@.to_set() == old(funcs)@.to_set() + func_names_upto(s, i as int),
        decreases es@.len() - i,
    {
        collect_names(&es[i], vars, funcs);
        proof {
            assert(s[i as int] == es@[i as int]@);
            lemma_var_names_upto_step(s, i as int);
            lemma_func_names_upto_step(s, i as int);
            assert(vars@.to_set() =~= old(vars)@.to_set() + var_names_upto(s, i + 1));
            assert(funcs@.to_set() =~= old(funcs)@.to_set() + func_names_upto(s, i + 1));
        }
        i += 1;
    }
}


/// The characters of each reserved word.
pub open spec fn word_texts(words: Seq<&str>) -> Seq<Seq<char>> {
    words.map_values(|w: &str| w@)
}

/// Whether `t` is one of `words`.
pub fn is_one_of(words: &[&str], t: &str) -> (r: bool)
    ensures
        r == word_texts(words@).contains(t@),
{
    let mut i: usize = 0;
    while i < words.len()
        invariant
            i <= words@.len(),
            forall|k: int| 0 <= k < i ==> words@[k]@ != t@,
        decreases words@.len() - i,
    {
        if same_text(words[i], t) {
            assert(word_texts(words@)[i as int] == t@);
            return true;
        }
        i += 1;
    }
    assert forall|k: int| 0 <= k < word_texts(words@).len() implies word_texts(words@)[k] != t@ by {
        assert(word_texts(words@)[k] == words@[k]@);
    }
    false
}

/// `s` repeated `k` times.
pub open spec fn repeat(s: Seq<char>, k: nat) -> Seq<char>
    decreases k,
{
    if k == 0 {
        Seq::empty()
    } else {
        repeat(s, (k - 1) as nat) + s
    }
}

/// A name is taken when it is reserved or already in use.
pub open spec fn taken(reserved: Seq<Seq<char>>, names: Seq<Seq<char>>, c: Seq<char>) -> bool {
    reserved.contains(c) || names.contains(c)
}

/// `name` followed by `k` copies of `suffix` is the first of `name`,
/// `name + suffix`, `name + suffix + suffix`, ... that is not taken.
pub open spec fn first_free(
    reserved: Seq<Seq<char>>,
    names: Seq<Seq<char>>,
    name: Seq<char>,
    suffix: Seq<char>,
    k: nat,
) -> bool {
    &&& !taken(reserved, names, name + repeat(suffix, k))
    &&& forall|j: nat| j < k ==> taken(reserved, names, #[trigger] (name + repeat(suffix, j)))
}

/// What [`build_rename_map`] maps a reserved `name` to.
pub open spec fn renames_to(
    reserved: Seq<Seq<char>>,
    names: Seq<Seq<char>>,
    name: Seq<char>,
    suffix: Seq<char>,
    target: Seq<char>,
) -> bool {
    exists|k: nat|
        #[trigger] first_free(reserved, names, name, suffix, k) && target == name + repeat(suffix, k)
}

/// The longest length among `s`.
pub open spec fn max_len(s: Seq<Seq<char>>) -> nat
    decreases s.len(),
{
    if s.len() == 0 {
        0
    } else {
        let m = max_len(s.drop_last());
        if s.last().len() > m {
            s.last().len()
        } else {
            m
        }
    }
}

proof fn lemma_max_len(s: Seq<Seq<char>>, i: int)
    requires
        0 <= i < s.len(),
    ensures
        s[i].len() <= max_len(s),
    decreases s.len(),
{
    if i < s.len() - 1 {
        lemma_max_len(s.drop_last(), i);
    }
}

/// For every name in `names` that is one of `reserved`, the first of
/// `name`, `name + suffix`, `name + suffix + suffix`, ... that is neither
/// reserved nor already in `names`. Names that are not reserved are
/// never renamed. (An empty `suffix` with a reserved name present would
/// never find a free name.)
pub fn build_rename_map(names: &NameSet, reserved: &[&str], suffix: &str) -> (r: RenameMap)
    requires
        suffix@.len() > 0 || forall|i: int|
            0 <= i < names@.len() ==> !word_texts(reserved@).contains(#[trigger] names@[i]),
    ensures
        forall|n: Seq<char>|
            #[trigger] r@.contains_key(n) <==> names@.contains(n) && word_texts(
                reserved@,
            ).contains(n),
        forall|n: Seq<char>|
            #[trigger] r@.contains_key(n) ==> renames_to(
                word_texts(reserved@),
                names@,
                n,
                suffix@,
                r@[n],
            ),
{
    let ghost rw = word_texts(reserved@);
    let ghost ns = names@;
    let ghost bound: int = (max_len(rw) + max_len(ns)) as int;
    let items = names.items();
    let mut map = RenameMap::new();
    let mut i: usize = 0;
    while i < items.len()
        invariant
            i <= items@.len(),
            texts(items@) == ns,
            ns == names@,
            rw == word_texts(reserved@),
            bound == max_len(rw) + max_len(ns),
            suffix@.len() > 0 || forall|j: int| 0 <= j < ns.len() ==> !rw.contains(#[trigger] ns[j]),
            forall|n: Seq<char>|
                #[trigger] map@.contains_key(n) <==> (exists|j: int|
                    0 <= j < i && ns[j] == n) && rw.contains(n),
            forall|n: Seq<char>|
                #[trigger] map@.contains_key(n) ==> renames_to(rw, ns, n, suffix@, map@[n]),
        decreases items@.len() - i,
    {
        let name = &items[i];
        proof {
            assert(texts(items@)[i as int] == name@);
        }
        if !is_one_of(reserved, name.as_str()) {
            i += 1;
            continue;
        }
        let mut candidate = name.clone();
        let ghost mut k: nat = 0;
        proof {
            assert(name@ + repeat(suffix@, 0) =~= name@);
        }
        while is_one_of(reserved, candidate.as_str()) || names.contains(candidate.as_str())
            invariant
                candidate@ == name@ + repeat(suffix@, k),
                forall|j: nat| j < k ==> taken(rw, ns, #[trigger] (name@ + repeat(suffix@, j))),
                rw == word_texts(reserved@),
                ns == names@,
                bound == max_len(rw) + max_len(ns),
                suffix@.len() > 0,
            decreases bound + suffix@.len() - candidate@.len(),
        {
            proof {
                if rw.contains(candidate@) {
                    let j = choose|j: int| 0 <= j < rw.len() && rw[j] == candidate@;
                    lemma_max_len(rw, j);
                } else {
                    let j = choose|j: int| 0 <= j < ns.len() && ns[j] == candidate@;
                    lemma_max_len(ns, j);
                }
                assert(taken(rw, ns, name@ + repeat(suffix@, k)));
            }
            push_str(&mut candidate, suffix);
            proof {
                assert(name@ + repeat(suffix@, k + 1) =~= name@ + repeat(suffix@, k) + suffix@);
                k = k + 1;
            }
        }
        proof {
            assert(first_free(rw, ns, name@, suffix@, k));
        }
        let ghost key = name@;
        let ghost value = candidate@;
        map.insert(name.clone(), candidate);
        proof {
            assert forall|n: Seq<char>| #[trigger] map@.contains_key(n) implies renames_to(
                rw,
                ns,
                n,
                suffix@,
                map@[n],
            ) by {
                if n == key {
                    assert(first_free(rw, ns, n, suffix@, k));
                }
            }
            assert forall|n: Seq<char>| #[trigger] map@.contains_key(n) <==> (exists|j: int|
                0 <= j < i + 1 && ns[j] == n) && rw.contains(n) by {
                if n == key {
                    assert(ns[i as int] == n);
                }
                if (exists|j: int| 0 <= j < i + 1 && ns[j] == n) && n != key {
                    let j = choose|j: int| 0 <= j < i + 1 && ns[j] == n;
                    assert(j < i);
                }
            }
        }
        i += 1;
    }
    proof {
        assert forall|n: Seq<char>| #[trigger] map@.contains_key(n) <==> names@.contains(n)
            && rw.contains(n) by {
            if names@.contains(n) {
                let j = choose|j: int| 0 <= j < ns.len() && ns[j] == n;
                assert(0 <= j < i && ns[j] == n);
            }
        }
    }
    map
}


/// `n` under `m`: its image when `m` maps it, itself otherwise.
pub open spec fn renamed(m: Map<Seq<char>, Seq<char>>, n: Seq<char>) -> Seq<char> {
    if m.contains_key(n) {
        m[n]
    } else {
        n
    }
}

/// The model with every variable and function name renamed under `m`;
/// shape, exponents, coefficients and derivative orders unchanged.
pub open spec fn rename_spec(e: ExprV, m: Map<Seq<char>, Seq<char>>) -> ExprV
    decreases e,
{
    match e {
        ExprV::Rational(p, q) => ExprV::Rational(p, q),
        ExprV::Var(n) => ExprV::Var(renamed(m, n)),
        ExprV::Pow(b, k) => ExprV::Pow(Box::new(rename_spec(*b, m)), k),
        ExprV::Mul(fs) => ExprV::Mul(rename_terms(fs, m)),
        ExprV::Add(ts) => ExprV::Add(rename_terms(ts, m)),
        ExprV::Sin(x) => ExprV::Sin(Box::new(rename_spec(*x, m))),
        ExprV::Cos(x) => ExprV::Cos(Box::new(rename_spec(*x, m))),
        ExprV::Exp(x) => ExprV::Exp(Box::new(rename_spec(*x, m))),
        ExprV::Sinh(x) => ExprV::Sinh(Box::new(rename_spec(*x, m))),
        ExprV::Cosh(x) => ExprV::Cosh(Box::new(rename_spec(*x, m))),
        ExprV::Func(name, args, order) => ExprV::Func(renamed(m, name), rename_terms(args, m), order),
    }
}

/// Each element renamed.
pub open spec fn rename_terms(ts: Seq<ExprV>, m: Map<Seq<char>, Seq<char>>) -> Seq<ExprV>
    decreases ts,
{
    if ts.len() == 0 {
        Seq::empty()
    } else {
        seq![rename_spec(ts[0], m)] + rename_terms(ts.subrange(1, ts.len() as int), m)
    }
}

pub proof fn lemma_rename_terms(ts: Seq<ExprV>, m: Map<Seq<char>, Seq<char>>)
    ensures
        rename_terms(ts, m).len() == ts.len(),
        forall|i: int|
            0 <= i < ts.len() ==> #[trigger] rename_terms(ts, m)[i] == rename_spec(ts[i], m),
    decreases ts.len(),
{
    if ts.len() > 0 {
        let rest = ts.subrange(1, ts.len() as int);
        lemma_rename_terms(rest, m);
        assert forall|i: int| 0 <= i < ts.len() implies #[trigger] rename_terms(ts, m)[i]
            == rename_spec(ts[i], m) by {
            if i > 0 {
                assert(rest[i - 1] == ts[i]);
            }
        }
    }
}

fn rename_text(map: &RenameMap, n: &String) -> (r: String)
    ensures
        r@ == renamed(map@, n@),
{
    match map.get(n.as_str()) {
        Some(v) => v.clone(),
        None => n.clone(),
    }
}

/// `expr` with every variable and function name that `map` maps
/// replaced by its image; everything else (the tree's shape, every
/// number) unchanged.
pub fn apply_renames(expr: &Expr, map: &RenameMap) -> (r: Expr)
    ensures
        r@ == rename_spec(expr@, map@),
    decreases expr, 0nat,
{
    match expr {
        Expr::Rational(_) => clone_expr(expr),
        Expr::Var(name) => Expr::Var(rename_text(map, name)),
        Expr::Add(terms) => Expr::Add(apply_renames_all(terms, map)),
        Expr::Mul(factors) => Expr::Mul(apply_renames_all(factors, map)),
        Expr::Pow(base, k) => Expr::Pow(Box::new(apply_renames(base, map)), *k),
        Expr::Sin(x) => Expr::Sin(Box::new(apply_renames(x, map))),
        Expr::Cos(x) => Expr::Cos(Box::new(apply_renames(x, map))),
        Expr::Exp(x) => Expr::Exp(Box::new(apply_renames(x, map))),
        Expr::Sinh(x) => Expr::Sinh(Box::new(apply_renames(x, map))),
        Expr::Cosh(x) => Expr::Cosh(Box::new(apply_renames(x, map))),
        Expr::Func { name, args, order } => Expr::Func {
            name: rename_text(map, name),
            args: apply_renames_all(args, map),
            order: copy_u32s(order),
        },
    }
}

fn apply_renames_all(es: &Vec<Expr>, map: &RenameMap) -> (r: Vec<Expr>)
    ensures
        exprs_view(r@) == rename_terms(exprs_view(es@), map@),
    decreases es, 1nat,
{
    let ghost ev = exprs_view(es@);
    proof {
        lemma_exprs_view(es@);
        lemma_rename_terms(ev, map@);
    }
    let mut r: Vec<Expr> = Vec::new();
    let mut i: usize = 0;
    while i < es.len()
        invariant
            i <= es@.len(),
            ev == exprs_view(es@),
            ev.len() == es@.len(),
            forall|k: int| 0 <= k < es@.len() ==> #[trigger] ev[k] == es@[k]@,
            rename_terms(ev, map@).len() == ev.len(),
            forall|k: int|
                0 <= k < ev.len() ==> #[trigger] rename_terms(ev, map@)[k] == rename_spec(
                    ev[k],
                    map@,
                ),
            exprs_view(r@) == rename_terms(ev, map@).subrange(0, i as int),
        decreases es@.len() - i,
    {
        let d = apply_renames(&es[i], map);
        proof {
            assert(ev[i as int] == es@[i as int]@);
            lemma_exprs_view_push(r@, d);
            assert(rename_terms(ev, map@).subrange(0, i + 1) =~= rename_terms(ev, map@).subrange(
                0,
                i as int,
            ).push(d@));
        }
        r.push(d);
        i += 1;
    }
    proof {
        assert(rename_terms(ev, map@).subrange(0, i as int) =~= rename_terms(ev, map@));
    }
    r
}

/// Renaming leaves an expression none of whose names the map touches
/// exactly as it was (in particular, renaming under the empty map is the
/// identity).
pub proof fn lemma_rename_untouched(e: ExprV, m: Map<Seq<char>, Seq<char>>)
    requires
        forall|n: Seq<char>| #[trigger] has_var(e, n) ==> !m.contains_key(n),
        forall|n: Seq<char>| #[trigger] has_func(e, n) ==> !m.contains_key(n),
    ensures
        rename_spec(e, m) == e,
    decreases e, 1nat,
{
    match e {
        ExprV::Rational(_, _) => {},
        ExprV::Var(n) => {
            assert(has_var(e, n));
        },
        ExprV::Pow(b, _) => {
            lemma_rename_untouched_inner(e, *b, m);
        },
        ExprV::Sin(x) => {
            lemma_rename_untouched_inner(e, *x, m);
        },
        ExprV::Cos(x) => {
            lemma_rename_untouched_inner(e, *x, m);
        },
        ExprV::Exp(x) => {
            lemma_rename_untouched_inner(e, *x, m);
        },
        ExprV::Sinh(x) => {
            lemma_rename_untouched_inner(e, *x, m);
        },
        ExprV::Cosh(x) => {
            lemma_rename_untouched_inner(e, *x, m);
        },
        ExprV::Mul(ts) => {
            lemma_untouched_children(e, ts, m);
            lemma_rename_untouched_terms(e, ts, m);
        },
        ExprV::Add(ts) => {
            lemma_untouched_children(e, ts, m);
            lemma_rename_untouched_terms(e, ts, m);
        },
        ExprV::Func(name, ts, _) => {
            assert(has_func(e, name));
            lemma_untouched_children(e, ts, m);
            lemma_rename_untouched_terms(e, ts, m);
        },
    }
}

/// The operands of a sum, product or function application.
pub open spec fn operands(e: ExprV) -> Seq<ExprV> {
    match e {
        ExprV::Add(ts) => ts,
        ExprV::Mul(ts) => ts,
        ExprV::Func(_, ts, _) => ts,
        _ => Seq::empty(),
    }
}

/// The names of an operand of `e` are names of `e`.
proof fn lemma_untouched_children(e: ExprV, ts: Seq<ExprV>, m: Map<Seq<char>, Seq<char>>)
    requires
        e is Add || e is Mul || e is Func,
        ts == operands(e),
        forall|n: Seq<char>| #[trigger] has_var(e, n) ==> !m.contains_key(n),
        forall|n: Seq<char>| #[trigger] has_func(e, n) ==> !m.contains_key(n),
    ensures
        forall|i: int, n: Seq<char>|
            0 <= i < ts.len() && #[trigger] has_var(ts[i], n) ==> !m.contains_key(n),
        forall|i: int, n: Seq<char>|
            0 <= i < ts.len() && #[trigger] has_func(ts[i], n) ==> !m.contains_key(n),
{
    assert forall|i: int, n: Seq<char>| 0 <= i < ts.len() && #[trigger] has_var(ts[i], n) implies !m.contains_key(n) by {
        assert(has_var(e, n));
    }
    assert forall|i: int, n: Seq<char>| 0 <= i < ts.len() && #[trigger] has_func(ts[i], n) implies !m.contains_key(n) by {
        assert(has_func(e, n));
    }
}

proof fn lemma_rename_untouched_inner(e: ExprV, x: ExprV, m: Map<Seq<char>, Seq<char>>)
    requires
        forall|n: Seq<char>| #[trigger] has_var(e, n) ==> !m.contains_key(n),
        forall|n: Seq<char>| #[trigger] has_func(e, n) ==> !m.contains_key(n),
        (exists|k: int| e == ExprV::Pow(Box::new(x), k)) || e == ExprV::Sin(Box::new(x)) || e
            == ExprV::Cos(Box::new(x)) || e == ExprV::Exp(Box::new(x)) || e == ExprV::Sinh(
            Box::new(x),
        ) || e == ExprV::Cosh(Box::new(x)),
    ensures
        rename_spec(x, m) == x,
    decreases e, 0nat,
{
    assert forall|n: Seq<char>| #[trigger] has_var(x, n) implies !m.contains_key(n) by {
        assert(has_var(e, n));
    }
    assert forall|n: Seq<char>| #[trigger] has_func(x, n) implies !m.contains_key(n) by {
        assert(has_func(e, n));
    }
    lemma_rename_untouched(x, m);
}

proof fn lemma_rename_untouched_terms(e: ExprV, ts: Seq<ExprV>, m: Map<Seq<char>, Seq<char>>)
    requires
        e is Add || e is Mul || e is Func,
        ts == operands(e),
        forall|i: int, n: Seq<char>|
            0 <= i < ts.len() && #[trigger] has_var(ts[i], n) ==> !m.contains_key(n),
        forall|i: int, n: Seq<char>|
            0 <= i < ts.len() && #[trigger] has_func(ts[i], n) ==> !m.contains_key(n),
    ensures
        rename_terms(ts, m) == ts,
    decreases e, 0nat,
{
    lemma_rename_terms(ts, m);
    assert forall|i: int| 0 <= i < ts.len() implies #[trigger] rename_spec(ts[i], m) == ts[i] by {
        lemma_rename_untouched(ts[i], m);
    }
    assert(rename_terms(ts, m) =~= ts);
}

/// `text` as a comment line in `target`'s own syntax: `(* text *)` for
/// Mathematica, `# text` for SymPy, unchanged for the other targets.
pub fn comment_line(text: &str, target: Target) -> (r: String)
    ensures
        r@ == match target {
            Target::Mathematica => "(* "@ + text@ + " *)"@,
            Target::Sympy => "# "@ + text@,
            _ => text@,
        },
{
    let mut r = String::new();
    match target {
        Target::Mathematica => {
            push_str(&mut r, "(* ");
            push_str(&mut r, text);
            push_str(&mut r, " *)");
        },
        Target::Sympy => {
            push_str(&mut r, "# ");
            push_str(&mut r, text);
        },
        _ => {
            push_str(&mut r, text);
        },
    }
    r
}

} // verus!
