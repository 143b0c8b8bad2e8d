//! Rendering expressions as text: infix Unicode, LaTeX math source, a
//! tagged JSON tree, Mathematica input and SymPy source.
//!
//! The infix targets render bottom-up into (precedence level, text)
//! pairs; a child is parenthesized exactly when its level is below the
//! minimum its parent asks for (sum < product < power base < atom). A
//! product splits into a numerator and a denominator (a factor with a
//! negative exponent moves below the line with its exponent negated).
use vstd::prelude::*;
use core::ops::{Mul, Neg};
use crate::text::{chars_of, push_char, push_str, same_text, string_from_chars};
use crate::export::{is_one_of, word_texts};
use crate::names::texts;
use crate::expr::{exprs_view, lemma_exprs_view, Expr, ExprV};
use crate::big_scalar::{scalar_render, BigScalar};
use crate::digits::{int_decimal, nat_decimal, i64_to_decimal, u64_decimal};
use crate::rational::{abs, canon, canonical, lemma_canon, lemma_same_value_mul, lemma_same_value_transitive, rat_mul, same_value};

verus! {

/// The output formats: infix Unicode text, LaTeX math source, a tagged
/// JSON tree, Mathematica input and SymPy (Python) source.
#[derive(Clone, Copy, PartialEq, Eq, Structural, Debug)]
pub enum Target {
    Unicode,
    Latex,
    Json,
    Mathematica,
    Sympy,
}

/// Precedence levels.
pub const SUM: u8 = 0;
pub const PRODUCT: u8 = 1;
pub const POWER: u8 = 2;
pub const ATOM: u8 = 3;

/// `body`, in parentheses when its level is below `min`.
pub open spec fn paren_spec(body: Seq<char>, level: u8, min: u8) -> Seq<char> {
    if level < min {
        seq!['('] + body + seq![')']
    } else {
        body
    }
}

/// `body`, in parentheses when its level is below `min`.
pub fn parenthesize_if(body: String, level: u8, min: u8) -> (r: String)
    ensures
        r@ == paren_spec(body@, level, min),
{
    if level < min {
        let mut r = String::new();
        push_char(&mut r, '(');
        push_str(&mut r, body.as_str());
        push_char(&mut r, ')');
        assert(r@ =~= paren_spec(body@, level, min));
        r
    } else {
        body
    }
}

/// Whether `s` starts with `-`, and `s` without it.
pub open spec fn split_sign_spec(s: Seq<char>) -> (bool, Seq<char>) {
    if s.len() > 0 && s[0] == '-' {
        (true, s.drop_first())
    } else {
        (false, s)
    }
}

/// Splits a rendered term into its sign and magnitude: `"-3/4"` gives
/// `(true, "3/4")`.
pub fn split_sign(s: String) -> (r: (bool, String))
    ensures
        (r.0, r.1@) == split_sign_spec(s@),
{
    let cs = chars_of(s.as_str());
    if cs.len() > 0 && cs[0] == '-' {
        let rest = crate::text::string_from_chars(&cs, 1, cs.len());
        assert(rest@ =~= s@.drop_first());
        (true, rest)
    } else {
        (false, s)
    }
}

/// `parts` joined into a signed sum: the first part's own sign kept as a
/// leading `-`, every later part joined by ` + ` or ` - ` by its sign;
/// `on_empty` when there are none.
pub open spec fn join_signed_spec(parts: Seq<Seq<char>>, on_empty: Seq<char>) -> Seq<char>
    decreases parts.len(),
{
    if parts.len() == 0 {
        on_empty
    } else if parts.len() == 1 {
        let (negative, magnitude) = split_sign_spec(parts[0]);
        if negative {
            seq!['-'] + magnitude
        } else {
            magnitude
        }
    } else {
        let (negative, magnitude) = split_sign_spec(parts.last());
        join_signed_spec(parts.drop_last(), on_empty) + (if negative {
            seq![' ', '-', ' ']
        } else {
            seq![' ', '+', ' ']
        }) + magnitude
    }
}

/// `parts` as a signed sum, e.g. `["a", "-b"]` gives `"a - b"`.
pub fn join_signed(parts: Vec<String>, on_empty: &str) -> (r: String)
    ensures
        r@ == join_signed_spec(texts(parts@), on_empty@),
{
    let ghost pv = texts(parts@);
    if parts.len() == 0 {
        let mut r = String::new();
        push_str(&mut r, on_empty);
        assert(r@ =~= on_empty@);
        return r;
    }
    let mut out = String::new();
    let mut i: usize = 0;
    while i < parts.len()
        invariant
            i <= parts@.len(),
            parts@.len() > 0,
            pv == texts(parts@),
            i > 0 ==> out@ == join_signed_spec(pv.subrange(0, i as int), on_empty@),
            i == 0 ==> out@ == Seq::<char>::empty(),
        decreases parts@.len() - i,
    {
        let (negative, magnitude) = split_sign(parts[i].clone());
        proof {
            assert(pv[i as int] == parts@[i as int]@);
            assert(pv.subrange(0, i + 1).drop_last() =~= pv.subrange(0, i as int));
            assert(pv.subrange(0, i + 1).last() == pv[i as int]);
        }
        if i == 0 {
            if negative {
                push_char(&mut out, '-');
            }
        } else {
            if negative {
                push_str(&mut out, " - ");
                proof {
                    reveal_strlit(" - ");
                }
            } else {
                push_str(&mut out, " + ");
                proof {
                    reveal_strlit(" + ");
                }
            }
        }
        push_str(&mut out, magnitude.as_str());
        proof {
            if i == 0 {
                assert(pv.subrange(0, 1)[0] == pv[0]);
                assert(out@ =~= join_signed_spec(pv.subrange(0, 1), on_empty@));
            } else {
                assert(out@ =~= join_signed_spec(pv.subrange(0, i + 1), on_empty@));
            }
        }
        i += 1;
    }
    proof {
        assert(pv.subrange(0, i as int) =~= pv);
    }
    out
}

/// `parts` with `sep` between consecutive ones.
pub open spec fn join_with(parts: Seq<Seq<char>>, sep: Seq<char>) -> Seq<char>
    decreases parts.len(),
{
    if parts.len() == 0 {
        Seq::empty()
    } else if parts.len() == 1 {
        parts[0]
    } else {
        join_with(parts.drop_last(), sep) + sep + parts.last()
    }
}

/// `parts` with `sep` between consecutive ones.
pub fn join_strings(parts: &Vec<String>, sep: &str) -> (r: String)
    ensures
        r@ == join_with(texts(parts@), sep@),
{
    let ghost pv = texts(parts@);
    let mut out = String::new();
    let mut i: usize = 0;
    proof {
        assert(pv.subrange(0, 0) =~= Seq::<Seq<char>>::empty());
    }
    while i < parts.len()
        invariant
            i <= parts@.len(),
            pv == texts(parts@),
            out@ == join_with(pv.subrange(0, i as int), sep@),
        decreases parts@.len() - i,
    {
        proof {
            assert(pv[i as int] == parts@[i as int]@);
            assert(pv.subrange(0, i + 1).drop_last() =~= pv.subrange(0, i as int));
            assert(pv.subrange(0, i + 1).last() == pv[i as int]);
        }
        if i > 0 {
            push_str(&mut out, sep);
        }
        push_str(&mut out, parts[i].as_str());
        proof {
            if i == 0 {
                assert(pv.subrange(0, 1)[0] == pv[0]);
                assert(out@ =~= join_with(pv.subrange(0, 1), sep@));
            } else {
                assert(out@ =~= join_with(pv.subrange(0, i + 1), sep@));
            }
        }
        i += 1;
    }
    proof {
        assert(pv.subrange(0, i as int) =~= pv);
    }
    out
}

/// A product put together from its sign, its rendered coefficient (left
/// out when it is `1` and something else is in the numerator), its
/// numerator and its denominator factors, joined by `join`.
pub open spec fn assemble_mul_spec(
    sign_negative: bool,
    coeff: Option<Seq<char>>,
    num: Seq<Seq<char>>,
    den: Seq<Seq<char>>,
    join: Seq<char>,
) -> Seq<char> {
    let num_parts = match coeff {
        Some(c) => if c != seq!['1'] || num.len() == 0 {
            seq![c] + num
        } else {
            num
        },
        None => num,
    };
    let num_str = if num_parts.len() == 0 {
        seq!['1']
    } else {
        join_with(num_parts, join)
    };
    let body = if den.len() == 0 {
        num_str
    } else if den.len() == 1 {
        num_str + seq!['/'] + den[0]
    } else {
        num_str + seq!['/', '('] + join_with(den, join) + seq![')']
    };
    if sign_negative {
        seq!['-'] + body
    } else {
        body
    }
}

/// The characters of an optional string.
pub open spec fn opt_text(o: Option<String>) -> Option<Seq<char>> {
    match o {
        Some(c) => Some(c@),
        None => None,
    }
}

/// A product put together from its parts; see [`assemble_mul_spec`].
pub fn assemble_mul(
    sign_negative: bool,
    coeff: Option<String>,
    num: Vec<String>,
    den: Vec<String>,
    join: &str,
) -> (r: String)
    ensures
        r@ == assemble_mul_spec(
            sign_negative,
            opt_text(coeff),
            texts(num@),
            texts(den@),
            join@,
        ),
{
    let ghost nv = texts(num@);
    let ghost dv = texts(den@);
    let ghost cv: Option<Seq<char>> = opt_text(coeff);
    let mut num_parts: Vec<String> = Vec::new();
    match coeff {
        Some(c) => {
            let one = "1";
            proof {
                reveal_strlit("1");
                assert(one@ =~= seq!['1']);
            }
            let ghost cc = c@;
            if !same_text(c.as_str(), one) || num.len() == 0 {
                num_parts.push(c);
                proof {
                    assert(texts(num_parts@) =~= seq![cc]);
                }
            } else {
                proof {
                    assert(texts(num_parts@) =~= Seq::<Seq<char>>::empty());
                }
            }
        },
        None => {
            proof {
                assert(texts(num_parts@) =~= Seq::<Seq<char>>::empty());
            }
        },
    }
    let ghost head = texts(num_parts@);
    let mut k: usize = 0;
    while k < num.len()
        invariant
            k <= num@.len(),
            nv == texts(num@),
            texts(num_parts@) == head + nv.subrange(0, k as int),
        decreases num@.len() - k,
    {
        let ghost before = num_parts@;
        num_parts.push(num[k].clone());
        proof {
            assert(texts(num_parts@) =~= texts(before).push(
                nv[k as int],
            ));
            assert(nv.subrange(0, k + 1) =~= nv.subrange(0, k as int).push(nv[k as int]));
        }
        k += 1;
    }
    proof {
        assert(nv.subrange(0, k as int) =~= nv);
        let expected = match cv {
            Some(c) => if c != seq!['1'] || nv.len() == 0 {
                seq![c] + nv
            } else {
                nv
            },
            None => nv,
        };
        assert(texts(num_parts@) =~= expected);
    }
    let num_str = if num_parts.len() == 0 {
        let mut s = String::new();
        push_char(&mut s, '1');
        s
    } else {
        join_strings(&num_parts, join)
    };
    let mut body = num_str;
    if den.len() == 1 {
        push_char(&mut body, '/');
        push_str(&mut body, den[0].as_str());
        proof {
            assert(dv[0] == den@[0]@);
        }
    } else if den.len() > 1 {
        push_str(&mut body, "/(");
        proof {
            reveal_strlit("/(");
        }
        let d = join_strings(&den, join);
        push_str(&mut body, d.as_str());
        push_char(&mut body, ')');
    }
    if sign_negative {
        let mut r = String::new();
        push_char(&mut r, '-');
        push_str(&mut r, body.as_str());
        assert(r@ =~= seq!['-'] + body@);
        r
    } else {
        body
    }
}

/// `s` as a JSON string literal: in double quotes, with `"` and `\`
/// escaped.
pub open spec fn json_escape_spec(s: Seq<char>) -> Seq<char> {
    seq!['"'] + escape_chars(s) + seq!['"']
}

/// `s` with `"` and `\` backslash-escaped.
pub open spec fn escape_chars(s: Seq<char>) -> Seq<char>
    decreases s.len(),
{
    if s.len() == 0 {
        Seq::empty()
    } else {
        let c = s.last();
        escape_chars(s.drop_last()) + (if c == '"' {
            seq!['\\', '"']
        } else if c == '\\' {
            seq!['\\', '\\']
        } else {
            seq![c]
        })
    }
}

/// `s` as a JSON string literal.
pub fn json_escape(s: &str) -> (r: String)
    ensures
        r@ == json_escape_spec(s@),
{
    let cs = chars_of(s);
    let mut out = String::new();
    push_char(&mut out, '"');
    let mut i: usize = 0;
    proof {
        assert(s@.subrange(0, 0) =~= Seq::<char>::empty());
    }
    while i < cs.len()
        invariant
            i <= cs@.len(),
            cs@ == s@,
            out@ == seq!['"'] + escape_chars(s@.subrange(0, i as int)),
        decreases cs@.len() - i,
    {
        let c = cs[i];
        proof {
            assert(s@.subrange(0, i + 1).drop_last() =~= s@.subrange(0, i as int));
            assert(s@.subrange(0, i + 1).last() == c);
        }
        if c == '"' {
            push_char(&mut out, '\\');
            push_char(&mut out, '"');
        } else if c == '\\' {
            push_char(&mut out, '\\');
            push_char(&mut out, '\\');
        } else {
            push_char(&mut out, c);
        }
        proof {
            assert(out@ =~= seq!['"'] + escape_chars(s@.subrange(0, i + 1)));
        }
        i += 1;
    }
    push_char(&mut out, '"');
    proof {
        assert(s@.subrange(0, i as int) =~= s@);
    }
    out
}


/// The Greek letters that show up as coordinate and index names, lower
/// case.
pub const GREEK_LETTERS: [&'static str; 24] = [
    "alpha",
    "beta",
    "gamma",
    "delta",
    "epsilon",
    "zeta",
    "eta",
    "theta",
    "iota",
    "kappa",
    "lambda",
    "mu",
    "nu",
    "xi",
    "omicron",
    "pi",
    "rho",
    "sigma",
    "tau",
    "upsilon",
    "phi",
    "chi",
    "psi",
    "omega",
];

/// `c` with an ASCII capital letter made small.
pub open spec fn ascii_lower(c: char) -> char {
    if 65 <= (c as int) <= 90 {
        ((c as int) + 32) as char
    } else {
        c
    }
}

/// `c` with an ASCII small letter made capital.
pub open spec fn ascii_upper(c: char) -> char {
    if 97 <= (c as int) <= 122 {
        ((c as int) - 32) as char
    } else {
        c
    }
}

/// The LaTeX form of a variable name: a Greek letter's macro (`theta`
/// gives `\theta`, `Theta` gives `\Theta`, whatever the case of the
/// other letters), anything else unchanged.
pub open spec fn latex_var_spec(name: Seq<char>) -> Seq<char> {
    let lower = name.map_values(|c: char| ascii_lower(c));
    if word_texts(GREEK_LETTERS@).contains(lower) {
        let macro_name = if name.len() > 0 && 65 <= (name[0] as int) <= 90 {
            seq![ascii_upper(lower[0])] + lower.drop_first()
        } else {
            lower
        };
        seq!['\\'] + macro_name
    } else {
        name
    }
}

fn lower_char(c: char) -> (r: char)
    ensures
        r == ascii_lower(c),
{
    if 'A' <= c && c <= 'Z' {
        let n = (c as u32) + 32;
        let r = (n as u8) as char;
        r
    } else {
        c
    }
}

fn upper_char(c: char) -> (r: char)
    ensures
        r == ascii_upper(c),
{
    if 'a' <= c && c <= 'z' {
        let n = (c as u32) - 32;
        let r = (n as u8) as char;
        r
    } else {
        c
    }
}

/// The LaTeX form of a variable name: Greek letters become their macros
/// (`theta` gives `\theta`, a capitalized `Theta` gives `\Theta`);
/// anything else passes through unchanged.
pub fn latex_var(name: &str) -> (r: String)
    ensures
        r@ == latex_var_spec(name@),
{
    let cs = chars_of(name);
    let mut lower: Vec<char> = Vec::new();
    let mut i: usize = 0;
    while i < cs.len()
        invariant
            i <= cs@.len(),
            cs@ == name@,
            lower@ == name@.subrange(0, i as int).map_values(|c: char| ascii_lower(c)),
        decreases cs@.len() - i,
    {
        let c = lower_char(cs[i]);
        lower.push(c);
        proof {
            assert(name@.subrange(0, i + 1).map_values(|c: char| ascii_lower(c)) =~= name@.subrange(
                0,
                i as int,
            ).map_values(|c: char| ascii_lower(c)).push(ascii_lower(name@[i as int])));
        }
        i += 1;
    }
    proof {
        assert(name@.subrange(0, i as int) =~= name@);
    }
    let lower_text = string_from_chars(&lower, 0, lower.len());
    proof {
        assert(lower@.subrange(0, lower@.len() as int) =~= lower@);
    }
    if !is_one_of(&GREEK_LETTERS, lower_text.as_str()) {
        let mut r = String::new();
        push_str(&mut r, name);
        assert(r@ =~= name@);
        return r;
    }
    let mut r = String::new();
    push_char(&mut r, '\\');
    if cs.len() > 0 && 'A' <= cs[0] && cs[0] <= 'Z' {
        push_char(&mut r, upper_char(lower[0]));
        let rest = string_from_chars(&lower, 1, lower.len());
        push_str(&mut r, rest.as_str());
        proof {
            assert(lower@.subrange(1, lower@.len() as int) =~= lower@.drop_first());
        }
    } else {
        push_str(&mut r, lower_text.as_str());
    }
    assert(r@ =~= latex_var_spec(name@));
    r
}


/// Whether the infix renderers can render `e`: every indeterminate
/// function has a derivative order for each argument, and no factor of a
/// product is a power with exponent `i32::MIN` (whose negation, for the
/// denominator, overflows).
pub open spec fn renderable(e: ExprV) -> bool
    decreases e,
{
    match e {
        ExprV::Rational(_, _) | ExprV::Var(_) => true,
        ExprV::Pow(b, _) => renderable(*b),
        ExprV::Mul(fs) => renderable_factors(fs),
        ExprV::Add(ts) => renderable_terms(ts),
        ExprV::Sin(x) => renderable(*x),
        ExprV::Cos(x) => renderable(*x),
        ExprV::Exp(x) => renderable(*x),
        ExprV::Sinh(x) => renderable(*x),
        ExprV::Cosh(x) => renderable(*x),
        ExprV::Func(_, args, order) => order.len() >= args.len() && renderable_terms(args),
    }
}

/// Every element is renderable.
pub open spec fn renderable_terms(ts: Seq<ExprV>) -> bool
    decreases ts,
{
    if ts.len() == 0 {
        true
    } else {
        renderable_terms(ts.drop_last()) && renderable(ts.last())
    }
}

/// Every factor is renderable and none is a power with exponent
/// `i32::MIN`.
pub open spec fn renderable_factors(fs: Seq<ExprV>) -> bool
    decreases fs,
{
    if fs.len() == 0 {
        true
    } else {
        renderable_factors(fs.drop_last()) && renderable(fs.last()) && !is_min_pow(fs.last())
    }
}

proof fn lemma_renderable_terms(ts: Seq<ExprV>)
    requires
        renderable_terms(ts),
    ensures
        forall|i: int| 0 <= i < ts.len() ==> renderable(#[trigger] ts[i]),
    decreases ts.len(),
{
    if ts.len() > 0 {
        lemma_renderable_terms(ts.drop_last());
        assert forall|i: int| 0 <= i < ts.len() implies renderable(#[trigger] ts[i]) by {
            if i < ts.len() - 1 {
                assert(ts.drop_last()[i] == ts[i]);
            }
        }
    }
}

proof fn lemma_renderable_factors(fs: Seq<ExprV>)
    requires
        renderable_factors(fs),
    ensures
        forall|i: int| 0 <= i < fs.len() ==> renderable(#[trigger] fs[i]) && !is_min_pow(fs[i]),
    decreases fs.len(),
{
    if fs.len() > 0 {
        lemma_renderable_factors(fs.drop_last());
        assert forall|i: int| 0 <= i < fs.len() implies renderable(#[trigger] fs[i]) && !is_min_pow(
            fs[i],
        ) by {
            if i < fs.len() - 1 {
                assert(fs.drop_last()[i] == fs[i]);
            }
        }
    }
}

/// A power with exponent `i32::MIN`.
pub open spec fn is_min_pow(e: ExprV) -> bool {
    match e {
        ExprV::Pow(_, k) => k == i32::MIN,
        _ => false,
    }
}

/// `base` to the power `k`, as a power node shows it.
pub open spec fn pow_text(base: Seq<char>, k: int, t: Target) -> Seq<char> {
    match t {
        Target::Latex => base + seq!['^', '{'] + int_decimal(k) + seq!['}'],
        Target::Mathematica => base + seq!['^'] + (if k < 0 {
            seq!['('] + int_decimal(k) + seq![')']
        } else {
            int_decimal(k)
        }),
        Target::Sympy => base + seq!['*', '*'] + (if k < 0 {
            seq!['('] + int_decimal(k) + seq![')']
        } else {
            int_decimal(k)
        }),
        _ => base + seq!['^'] + int_decimal(k),
    }
}

/// `base` to the positive power `k`, as a denominator factor shows it.
pub open spec fn den_pow_text(base: Seq<char>, k: int, t: Target) -> Seq<char> {
    match t {
        Target::Latex => base + seq!['^', '{'] + int_decimal(k) + seq!['}'],
        Target::Sympy => base + seq!['*', '*'] + int_decimal(k),
        _ => base + seq!['^'] + int_decimal(k),
    }
}

/// The name of known function `which` (sin, cos, exp, sinh, cosh).
pub open spec fn fn_name(which: int) -> Seq<char> {
    if which == 0 {
        seq!['s', 'i', 'n']
    } else if which == 1 {
        seq!['c', 'o', 's']
    } else if which == 2 {
        seq!['e', 'x', 'p']
    } else if which == 3 {
        seq!['s', 'i', 'n', 'h']
    } else {
        seq!['c', 'o', 's', 'h']
    }
}

/// A known function applied to the rendered `arg`.
pub open spec fn call_text(which: int, arg: Seq<char>, t: Target) -> Seq<char> {
    match t {
        Target::Latex => seq!['\\'] + fn_name(which) + seq!['\\', 'l', 'e', 'f', 't', '('] + arg
            + seq!['\\', 'r', 'i', 'g', 'h', 't', ')'],
        Target::Mathematica => seq![ascii_upper(fn_name(which)[0])] + fn_name(which).drop_first()
            + seq!['['] + arg + seq![']'],
        _ => fn_name(which) + seq!['('] + arg + seq![')'],
    }
}

/// `n` copies of `x`.
pub open spec fn copies(x: Seq<char>, n: nat) -> Seq<Seq<char>> {
    Seq::new(n, |i: int| x)
}

/// The subscript label of argument `i`: its own name when it is a bare
/// variable, `arg<i+1>` otherwise.
pub open spec fn arg_label(a: ExprV, i: int) -> Seq<char> {
    match a {
        ExprV::Var(n) => n,
        _ => seq!['a', 'r', 'g'] + nat_decimal((i + 1) as nat),
    }
}

/// The derivative subscript pieces of the first `k` arguments: each
/// argument's label once per differentiation.
pub open spec fn subscript_pieces(args: Seq<ExprV>, order: Seq<u32>, k: int) -> Seq<Seq<char>>
    decreases k,
{
    if k <= 0 {
        Seq::empty()
    } else {
        subscript_pieces(args, order, k - 1) + copies(
            arg_label(args[k - 1], k - 1),
            order[k - 1] as nat,
        )
    }
}

/// Mathematica's `{arg, order}` pairs for the differentiated arguments
/// among the first `k`.
pub open spec fn order_pairs(texts: Seq<Seq<char>>, order: Seq<u32>, k: int) -> Seq<Seq<char>>
    decreases k,
{
    if k <= 0 {
        Seq::empty()
    } else {
        order_pairs(texts, order, k - 1) + (if order[k - 1] > 0 {
            seq![
                seq!['{'] + texts[k - 1] + seq![',', ' '] + nat_decimal(order[k - 1] as nat)
                    + seq!['}'],
            ]
        } else {
            Seq::empty()
        })
    }
}

/// SymPy's `arg, order` entries for the differentiated arguments among
/// the first `k`.
pub open spec fn order_entries(texts: Seq<Seq<char>>, order: Seq<u32>, k: int) -> Seq<Seq<char>>
    decreases k,
{
    if k <= 0 {
        Seq::empty()
    } else {
        order_entries(texts, order, k - 1) + (if order[k - 1] > 0 {
            seq![texts[k - 1], nat_decimal(order[k - 1] as nat)]
        } else {
            Seq::empty()
        })
    }
}

/// `n` prime marks.
pub open spec fn primes(n: nat) -> Seq<char> {
    Seq::new(n, |i: int| '\'')
}

/// An indeterminate function application, its arguments already
/// rendered as `texts`.
pub open spec fn func_text(
    name: Seq<char>,
    args: Seq<ExprV>,
    texts: Seq<Seq<char>>,
    order: Seq<u32>,
    t: Target,
) -> Seq<char> {
    let pieces = subscript_pieces(args, order, args.len() as int);
    match t {
        Target::Latex => latex_var_spec(name) + (if args.len() == 1 {
            primes(order[0] as nat)
        } else if pieces.len() == 0 {
            Seq::empty()
        } else {
            seq!['_', '{'] + join_with(pieces.map_values(|p: Seq<char>| latex_var_spec(p)), seq![' '])
                + seq!['}']
        }) + seq!['('] + join_with(texts, seq![',', ' ']) + seq![')'],
        Target::Mathematica => if args.len() == 1 {
            name + primes(order[0] as nat) + seq!['['] + join_with(texts, seq![',', ' ']) + seq![']']
        } else {
            let call = name + seq!['['] + join_with(texts, seq![',', ' ']) + seq![']'];
            let pairs = order_pairs(texts, order, args.len() as int);
            if pairs.len() == 0 {
                call
            } else {
                seq!['D', '['] + call + seq![',', ' '] + join_with(pairs, seq![',', ' ']) + seq![']']
            }
        },
        Target::Sympy => {
            let call = seq!['F', 'u', 'n', 'c', 't', 'i', 'o', 'n', '(', '\''] + name + seq![
                '\'',
                ')',
                '(',
            ] + join_with(texts, seq![',', ' ']) + seq![')'];
            let entries = order_entries(texts, order, args.len() as int);
            if entries.len() == 0 {
                call
            } else {
                seq!['D', 'e', 'r', 'i', 'v', 'a', 't', 'i', 'v', 'e', '('] + call + seq![',', ' ']
                    + join_with(entries, seq![',', ' ']) + seq![')']
            }
        },
        _ => name + (if args.len() == 1 {
            primes(order[0] as nat)
        } else if pieces.len() == 0 {
            Seq::empty()
        } else {
            seq!['_'] + join_with(pieces, Seq::empty())
        }) + seq!['('] + join_with(texts, seq![',']) + seq![')'],
    }
}

/// The coefficient after folding the numeric factors of `fs` (nested
/// products included) into `acc`, left to right: each factor's magnitude
/// multiplies it, the product reduced to lowest terms (the first one
/// just taken as it is).
pub open spec fn mul_coeff_from(acc: Option<(int, int)>, fs: Seq<ExprV>) -> Option<(int, int)>
    decreases fs,
{
    if fs.len() == 0 {
        acc
    } else {
        let a = mul_coeff_from(acc, fs.drop_last());
        match fs.last() {
            ExprV::Mul(inner) => mul_coeff_from(a, inner),
            ExprV::Rational(p, q) => Some(
                match a {
                    None => (abs(p) as int, q),
                    Some(x) => canon(rat_mul(x, (abs(p) as int, q))),
                },
            ),
            _ => a,
        }
    }
}

/// Whether an odd number of numeric factors is negative.
pub open spec fn mul_negative(fs: Seq<ExprV>) -> bool
    decreases fs,
{
    if fs.len() == 0 {
        false
    } else {
        mul_negative(fs.drop_last()) != match fs.last() {
            ExprV::Mul(inner) => mul_negative(inner),
            ExprV::Rational(p, _) => p < 0,
            _ => false,
        }
    }
}

/// The rendered text of `e` in infix target `t`, parenthesized when its
/// level is below `min`.
pub open spec fn infix_spec(e: ExprV, t: Target, min: u8) -> Seq<char>
    decreases e,
{
    match e {
        ExprV::Rational(p, q) => paren_spec(scalar_render((p, q), t), ATOM, min),
        ExprV::Var(n) => paren_spec(
            if t == Target::Latex {
                latex_var_spec(n)
            } else {
                n
            },
            ATOM,
            min,
        ),
        ExprV::Pow(b, k) => paren_spec(pow_text(infix_spec(*b, t, ATOM), k, t), POWER, min),
        ExprV::Sin(x) => paren_spec(call_text(0, infix_spec(*x, t, SUM), t), ATOM, min),
        ExprV::Cos(x) => paren_spec(call_text(1, infix_spec(*x, t, SUM), t), ATOM, min),
        ExprV::Exp(x) => paren_spec(call_text(2, infix_spec(*x, t, SUM), t), ATOM, min),
        ExprV::Sinh(x) => paren_spec(call_text(3, infix_spec(*x, t, SUM), t), ATOM, min),
        ExprV::Cosh(x) => paren_spec(call_text(4, infix_spec(*x, t, SUM), t), ATOM, min),
        ExprV::Func(name, args, order) => paren_spec(
            func_text(name, args, infix_terms(args, t, SUM), order, t),
            ATOM,
            min,
        ),
        ExprV::Mul(fs) => paren_spec(
            mul_text(mul_negative(fs), mul_coeff_from(None, fs), mul_num(fs, t), mul_den(fs, t), t),
            PRODUCT,
            min,
        ),
        ExprV::Add(ts) => paren_spec(
            join_signed_spec(add_parts(ts, t), seq!['0']),
            SUM,
            min,
        ),
    }
}

/// Each element rendered at level `min`.
pub open spec fn infix_terms(ts: Seq<ExprV>, t: Target, min: u8) -> Seq<Seq<char>>
    decreases ts,
{
    if ts.len() == 0 {
        Seq::empty()
    } else {
        infix_terms(ts.drop_last(), t, min) + seq![infix_spec(ts.last(), t, min)]
    }
}

/// The terms of a sum (nested sums spliced in), each rendered at product
/// level.
pub open spec fn add_parts(ts: Seq<ExprV>, t: Target) -> Seq<Seq<char>>
    decreases ts,
{
    if ts.len() == 0 {
        Seq::empty()
    } else {
        add_parts(ts.drop_last(), t) + match ts.last() {
            ExprV::Add(inner) => add_parts(inner, t),
            x => seq![infix_spec(x, t, PRODUCT)],
        }
    }
}

/// The numerator factors of a product (nested products spliced in,
/// numbers and negative powers left out), rendered at power level.
pub open spec fn mul_num(fs: Seq<ExprV>, t: Target) -> Seq<Seq<char>>
    decreases fs,
{
    if fs.len() == 0 {
        Seq::empty()
    } else {
        mul_num(fs.drop_last(), t) + match fs.last() {
            ExprV::Mul(inner) => mul_num(inner, t),
            ExprV::Rational(_, _) => Seq::empty(),
            ExprV::Pow(b, k) => if k < 0 {
                Seq::empty()
            } else {
                seq![infix_spec(fs.last(), t, POWER)]
            },
            x => seq![infix_spec(x, t, POWER)],
        }
    }
}

/// The denominator factors of a product: each negative power, its base
/// rendered at power level and its exponent negated (left off when 1).
pub open spec fn mul_den(fs: Seq<ExprV>, t: Target) -> Seq<Seq<char>>
    decreases fs,
{
    if fs.len() == 0 {
        Seq::empty()
    } else {
        mul_den(fs.drop_last(), t) + match fs.last() {
            ExprV::Mul(inner) => mul_den(inner, t),
            ExprV::Pow(b, k) => if k < 0 {
                if k == -1 {
                    seq![infix_spec(*b, t, POWER)]
                } else {
                    seq![den_pow_text(infix_spec(*b, t, POWER), -k, t)]
                }
            } else {
                Seq::empty()
            },
            _ => Seq::empty(),
        }
    }
}

/// A product put together from its sign, coefficient value, numerator
/// and denominator: a `\frac` in LaTeX when there is a denominator,
/// [`assemble_mul_spec`] otherwise.
pub open spec fn mul_text(
    negative: bool,
    coeff: Option<(int, int)>,
    num: Seq<Seq<char>>,
    den: Seq<Seq<char>>,
    t: Target,
) -> Seq<char> {
    if t == Target::Latex && den.len() > 0 {
        let parts = match coeff {
            Some(v) => if v != (1int, 1int) || num.len() == 0 {
                seq![scalar_render(v, t)] + num
            } else {
                num
            },
            None => num,
        };
        let num_str = if parts.len() == 0 {
            seq!['1']
        } else {
            join_with(parts, seq![' '])
        };
        let body = seq!['\\', 'f', 'r', 'a', 'c', '{'] + num_str + seq!['}', '{'] + join_with(
            den,
            seq![' '],
        ) + seq!['}'];
        if negative {
            seq!['-'] + body
        } else {
            body
        }
    } else {
        assemble_mul_spec(
            negative,
            match coeff {
                Some(v) => Some(scalar_render(v, t)),
                None => None,
            },
            num,
            den,
            if t == Target::Latex {
                seq![' ']
            } else {
                seq!['*']
            },
        )
    }
}


fn push_decimal(s: &mut String, k: i32)
    ensures
        final(s)@ == old(s)@ + int_decimal(k as int),
{
    let d = i64_to_decimal(k as i64);
    push_str(s, d.as_str());
}

fn pow_text_exec(base: String, k: i32, t: Target) -> (r: String)
    ensures
        r@ == pow_text(base@, k as int, t),
{
    let mut r = base;
    match t {
        Target::Latex => {
            push_char(&mut r, '^');
            push_char(&mut r, '{');
            push_decimal(&mut r, k);
            push_char(&mut r, '}');
        },
        Target::Mathematica | Target::Sympy => {
            if t == Target::Sympy {
                push_char(&mut r, '*');
                push_char(&mut r, '*');
            } else {
                push_char(&mut r, '^');
            }
            if k < 0 {
                push_char(&mut r, '(');
                push_decimal(&mut r, k);
                push_char(&mut r, ')');
            } else {
                push_decimal(&mut r, k);
            }
        },
        _ => {
            push_char(&mut r, '^');
            push_decimal(&mut r, k);
        },
    }
    assert(r@ =~= pow_text(base@, k as int, t));
    r
}

fn den_pow_exec(base: String, k: i32, t: Target) -> (r: String)
    ensures
        r@ == den_pow_text(base@, k as int, t),
{
    let mut r = base;
    match t {
        Target::Latex => {
            push_char(&mut r, '^');
            push_char(&mut r, '{');
            push_decimal(&mut r, k);
            push_char(&mut r, '}');
        },
        Target::Sympy => {
            push_char(&mut r, '*');
            push_char(&mut r, '*');
            push_decimal(&mut r, k);
        },
        _ => {
            push_char(&mut r, '^');
            push_decimal(&mut r, k);
        },
    }
    assert(r@ =~= den_pow_text(base@, k as int, t));
    r
}

fn push_chars(s: &mut String, cs: &[char])
    ensures
        final(s)@ == old(s)@ + cs@,
{
    let mut i: usize = 0;
    let ghost start = s@;
    while i < cs.len()
        invariant
            i <= cs@.len(),
            s@ == start + cs@.subrange(0, i as int),
        decreases cs@.len() - i,
    {
        push_char(s, cs[i]);
        assert(cs@.subrange(0, i + 1) =~= cs@.subrange(0, i as int).push(cs@[i as int]));
        i += 1;
    }
    assert(cs@.subrange(0, i as int) =~= cs@);
}

fn fn_name_exec(which: u8) -> (r: Vec<char>)
    requires
        which < 5,
    ensures
        r@ == fn_name(which as int),
{
    let r = if which == 0 {
        vec!['s', 'i', 'n']
    } else if which == 1 {
        vec!['c', 'o', 's']
    } else if which == 2 {
        vec!['e', 'x', 'p']
    } else if which == 3 {
        vec!['s', 'i', 'n', 'h']
    } else {
        vec!['c', 'o', 's', 'h']
    };
    assert(r@ =~= fn_name(which as int));
    r
}

fn call_exec(which: u8, arg: String, t: Target) -> (r: String)
    requires
        which < 5,
    ensures
        r@ == call_text(which as int, arg@, t),
{
    let name = fn_name_exec(which);
    let mut r = String::new();
    match t {
        Target::Latex => {
            push_char(&mut r, '\\');
            push_chars(&mut r, name.as_slice());
            push_chars(&mut r, &['\\', 'l', 'e', 'f', 't', '(']);
            push_str(&mut r, arg.as_str());
            push_chars(&mut r, &['\\', 'r', 'i', 'g', 'h', 't', ')']);
        },
        Target::Mathematica => {
            push_char(&mut r, upper_char(name[0]));
            let mut j: usize = 1;
            while j < name.len()
                invariant
                    1 <= j <= name@.len(),
                    name@ == fn_name(which as int),
                    r@ == seq![ascii_upper(name@[0])] + name@.subrange(1, j as int),
                decreases name@.len() - j,
            {
                push_char(&mut r, name[j]);
                assert(name@.subrange(1, j + 1) =~= name@.subrange(1, j as int).push(name@[j as int]));
                j += 1;
            }
            assert(name@.subrange(1, j as int) =~= name@.drop_first());
            push_char(&mut r, '[');
            push_str(&mut r, arg.as_str());
            push_char(&mut r, ']');
        },
        _ => {
            push_chars(&mut r, name.as_slice());
            push_char(&mut r, '(');
            push_str(&mut r, arg.as_str());
            push_char(&mut r, ')');
        },
    }
    assert(r@ =~= call_text(which as int, arg@, t));
    r
}


fn arg_label_exec(a: &Expr, i: usize) -> (r: String)
    requires
        i < usize::MAX,
    ensures
        r@ == arg_label(a@, i as int),
{
    match a {
        Expr::Var(n) => n.clone(),
        _ => {
            let mut r = String::new();
            push_chars(&mut r, &['a', 'r', 'g']);
            let d = u64_decimal((i + 1) as u64);
            push_str(&mut r, d.as_str());
            assert(r@ =~= arg_label(a@, i as int));
            r
        },
    }
}

fn subscript_pieces_exec(args: &Vec<Expr>, order: &Vec<u32>) -> (r: Vec<String>)
    requires
        order@.len() >= args@.len(),
    ensures
        texts(r@) == subscript_pieces(exprs_view(args@), order@, args@.len() as int),
{
    let ghost av = exprs_view(args@);
    proof {
        lemma_exprs_view(args@);
    }
    let mut r: Vec<String> = Vec::new();
    let mut i: usize = 0;
    proof {
        assert(texts(r@) =~= subscript_pieces(av, order@, 0));
    }
    while i < args.len()
        invariant
            i <= args@.len(),
            order@.len() >= args@.len(),
            av == exprs_view(args@),
            av.len() == args@.len(),
            forall|k: int| 0 <= k < args@.len() ==> #[trigger] av[k] == args@[k]@,
            texts(r@) == subscript_pieces(av, order@, i as int),
        decreases args@.len() - i,
    {
        let label = arg_label_exec(&args[i], i);
        proof {
            assert(av[i as int] == args@[i as int]@);
        }
        let n = order[i];
        let ghost base = texts(r@);
        let mut j: u32 = 0;
        while j < n
            invariant
                j <= n,
                texts(r@) == base + copies(label@, j as nat),
            decreases n - j,
        {
            let ghost before = r@;
            r.push(label.clone());
            proof {
                assert(texts(r@) =~= texts(before).push(label@));
                assert(copies(label@, (j + 1) as nat) =~= copies(label@, j as nat).push(label@));
            }
            j += 1;
        }
        proof {
            assert(texts(r@) =~= subscript_pieces(av, order@, i + 1));
        }
        i += 1;
    }
    r
}

fn order_pairs_exec(texts_v: &Vec<String>, order: &Vec<u32>, n: usize) -> (r: Vec<String>)
    requires
        n <= texts_v@.len(),
        n <= order@.len(),
    ensures
        texts(r@) == order_pairs(texts(texts_v@), order@, n as int),
{
    let ghost tv = texts(texts_v@);
    let mut r: Vec<String> = Vec::new();
    let mut i: usize = 0;
    proof {
        assert(texts(r@) =~= order_pairs(tv, order@, 0));
    }
    while i < n
        invariant
            i <= n,
            n <= texts_v@.len(),
            n <= order@.len(),
            tv == texts(texts_v@),
            texts(r@) == order_pairs(tv, order@, i as int),
        decreases n - i,
    {
        let ghost before = r@;
        if order[i] > 0 {
            let mut p = String::new();
            push_char(&mut p, '{');
            push_str(&mut p, texts_v[i].as_str());
            push_char(&mut p, ',');
            push_char(&mut p, ' ');
            let d = u64_decimal(order[i] as u64);
            push_str(&mut p, d.as_str());
            push_char(&mut p, '}');
            proof {
                assert(tv[i as int] == texts_v@[i as int]@);
                assert(p@ =~= seq!['{'] + tv[i as int] + seq![',', ' '] + nat_decimal(
                    order@[i as int] as nat,
                ) + seq!['}']);
            }
            r.push(p);
            proof {
                assert(texts(r@) =~= texts(before).push(p@));
            }
        }
        proof {
            assert(texts(r@) =~= order_pairs(tv, order@, i + 1));
        }
        i += 1;
    }
    r
}

fn order_entries_exec(texts_v: &Vec<String>, order: &Vec<u32>, n: usize) -> (r: Vec<String>)
    requires
        n <= texts_v@.len(),
        n <= order@.len(),
    ensures
        texts(r@) == order_entries(texts(texts_v@), order@, n as int),
{
    let ghost tv = texts(texts_v@);
    let mut r: Vec<String> = Vec::new();
    let mut i: usize = 0;
    proof {
        assert(texts(r@) =~= order_entries(tv, order@, 0));
    }
    while i < n
        invariant
            i <= n,
            n <= texts_v@.len(),
            n <= order@.len(),
            tv == texts(texts_v@),
            texts(r@) == order_entries(tv, order@, i as int),
        decreases n - i,
    {
        let ghost before = r@;
        if order[i] > 0 {
            r.push(texts_v[i].clone());
            let d = u64_decimal(order[i] as u64);
            r.push(d);
            proof {
                assert(tv[i as int] == texts_v@[i as int]@);
                assert(texts(r@) =~= texts(before) + seq![
                    tv[i as int],
                    nat_decimal(order@[i as int] as nat),
                ]);
            }
        }
        proof {
            assert(texts(r@) =~= order_entries(tv, order@, i + 1));
        }
        i += 1;
    }
    r
}

fn primes_exec(s: &mut String, n: u32)
    ensures
        final(s)@ == old(s)@ + primes(n as nat),
{
    let ghost start = s@;
    let mut j: u32 = 0;
    while j < n
        invariant
            j <= n,
            s@ == start + primes(j as nat),
        decreases n - j,
    {
        push_char(s, '\'');
        assert(primes((j + 1) as nat) =~= primes(j as nat).push('\''));
        j += 1;
    }
}

fn func_exec(name: &String, args: &Vec<Expr>, texts_v: &Vec<String>, order: &Vec<u32>, t: Target) -> (r: String)
    requires
        order@.len() >= args@.len(),
        texts_v@.len() == args@.len(),
    ensures
        r@ == func_text(name@, exprs_view(args@), texts(texts_v@), order@, t),
{
    proof {
        lemma_exprs_view(args@);
    }
    let ghost av = exprs_view(args@);
    let ghost tv = texts(texts_v@);
    let n = args.len();
    match t {
        Target::Latex => {
            let mut r = latex_var(name.as_str());
            if n == 1 {
                primes_exec(&mut r, order[0]);
            } else {
                let pieces = subscript_pieces_exec(args, order);
                if pieces.len() > 0 {
                    let mut lp: Vec<String> = Vec::new();
                    let mut k: usize = 0;
                    while k < pieces.len()
                        invariant
                            k <= pieces@.len(),
                            texts(lp@) == texts(pieces@).subrange(0, k as int).map_values(
                                |p: Seq<char>| latex_var_spec(p),
                            ),
                        decreases pieces@.len() - k,
                    {
                        let ghost before = lp@;
                        let v = latex_var(pieces[k].as_str());
                        lp.push(v);
                        proof {
                            assert(texts(lp@) =~= texts(before).push(v@));
                            assert(texts(pieces@).subrange(0, k + 1).map_values(
                                |p: Seq<char>| latex_var_spec(p),
                            ) =~= texts(pieces@).subrange(0, k as int).map_values(
                                |p: Seq<char>| latex_var_spec(p),
                            ).push(latex_var_spec(pieces@[k as int]@)));
                        }
                        k += 1;
                    }
                    proof {
                        assert(texts(pieces@).subrange(0, k as int) =~= texts(pieces@));
                    }
                    push_char(&mut r, '_');
                    push_char(&mut r, '{');
                    let joined = join_strings(&lp, " ");
                    proof {
                        reveal_strlit(" ");
                        assert(" "@ =~= seq![' ']);
                    }
                    push_str(&mut r, joined.as_str());
                    push_char(&mut r, '}');
                }
            }
            push_char(&mut r, '(');
            let a = join_strings(texts_v, ", ");
            proof {
                reveal_strlit(", ");
                assert(", "@ =~= seq![',', ' ']);
            }
            push_str(&mut r, a.as_str());
            push_char(&mut r, ')');
            assert(r@ =~= func_text(name@, av, tv, order@, t));
            r
        },
        Target::Mathematica => {
            let a = join_strings(texts_v, ", ");
            proof {
                reveal_strlit(", ");
                assert(", "@ =~= seq![',', ' ']);
            }
            if n == 1 {
                let mut r = name.clone();
                primes_exec(&mut r, order[0]);
                push_char(&mut r, '[');
                push_str(&mut r, a.as_str());
                push_char(&mut r, ']');
                assert(r@ =~= func_text(name@, av, tv, order@, t));
                return r;
            }
            let mut call = name.clone();
            push_char(&mut call, '[');
            push_str(&mut call, a.as_str());
            push_char(&mut call, ']');
            let pairs = order_pairs_exec(texts_v, order, n);
            if pairs.len() == 0 {
                assert(call@ =~= func_text(name@, av, tv, order@, t));
                return call;
            }
            let mut r = String::new();
            push_char(&mut r, 'D');
            push_char(&mut r, '[');
            push_str(&mut r, call.as_str());
            push_char(&mut r, ',');
            push_char(&mut r, ' ');
            let ps = join_strings(&pairs, ", ");
            push_str(&mut r, ps.as_str());
            push_char(&mut r, ']');
            assert(r@ =~= func_text(name@, av, tv, order@, t));
            r
        },
        Target::Sympy => {
            let a = join_strings(texts_v, ", ");
            proof {
                reveal_strlit(", ");
                assert(", "@ =~= seq![',', ' ']);
            }
            let mut call = String::new();
            push_chars(&mut call, &['F', 'u', 'n', 'c', 't', 'i', 'o', 'n', '(', '\'']);
            push_str(&mut call, name.as_str());
            push_chars(&mut call, &['\'', ')', '(']);
            push_str(&mut call, a.as_str());
            push_char(&mut call, ')');
            let entries = order_entries_exec(texts_v, order, n);
            if entries.len() == 0 {
                assert(call@ =~= func_text(name@, av, tv, order@, t));
                return call;
            }
            let mut r = String::new();
            push_chars(&mut r, &['D', 'e', 'r', 'i', 'v', 'a', 't', 'i', 'v', 'e', '(']);
            push_str(&mut r, call.as_str());
            push_char(&mut r, ',');
            push_char(&mut r, ' ');
            let es = join_strings(&entries, ", ");
            push_str(&mut r, es.as_str());
            push_char(&mut r, ')');
            assert(r@ =~= func_text(name@, av, tv, order@, t));
            r
        },
        _ => {
            let mut r = name.clone();
            if n == 1 {
                primes_exec(&mut r, order[0]);
            } else {
                let pieces = subscript_pieces_exec(args, order);
                if pieces.len() > 0 {
                    push_char(&mut r, '_');
                    let joined = join_strings(&pieces, "");
                    proof {
                        reveal_strlit("");
                        assert(""@ =~= Seq::<char>::empty());
                    }
                    push_str(&mut r, joined.as_str());
                }
            }
            push_char(&mut r, '(');
            let a = join_strings(texts_v, ",");
            proof {
                reveal_strlit(",");
                assert(","@ =~= seq![',']);
            }
            push_str(&mut r, a.as_str());
            push_char(&mut r, ')');
            assert(r@ =~= func_text(name@, av, tv, order@, t));
            r
        },
    }
}


/// A product's parts as they are collected.
struct MulParts {
    negative: bool,
    coeff: Option<BigScalar>,
    num: Vec<String>,
    den: Vec<String>,
}

/// The value of an optional coefficient.
pub open spec fn opt_scalar(c: Option<BigScalar>) -> Option<(int, int)> {
    match c {
        Some(x) => Some(x@),
        None => None,
    }
}


fn mul_collect(fs: &Vec<Expr>, t: Target, acc: MulParts) -> (r: MulParts)
    requires
        t != Target::Json,
        renderable_factors(exprs_view(fs@)),
        acc.coeff matches Some(c) ==> canonical(c@),
    ensures
        r.negative == (acc.negative != mul_negative(exprs_view(fs@))),
        opt_scalar(r.coeff) == mul_coeff_from(opt_scalar(acc.coeff), exprs_view(fs@)),
        r.coeff matches Some(c) ==> canonical(c@),
        texts(r.num@) == texts(acc.num@) + mul_num(exprs_view(fs@), t),
        texts(r.den@) == texts(acc.den@) + mul_den(exprs_view(fs@), t),
    decreases fs, 1nat,
{
    let ghost fv = exprs_view(fs@);
    proof {
        lemma_exprs_view(fs@);
        lemma_renderable_factors(fv);
    }
    let ghost n0 = acc.negative;
    let ghost c0 = opt_scalar(acc.coeff);
    let ghost num0 = texts(acc.num@);
    let ghost den0 = texts(acc.den@);
    let mut acc = acc;
    let mut i: usize = 0;
    proof {
        assert(fv.subrange(0, 0) =~= Seq::<ExprV>::empty());
        assert(num0 + mul_num(fv.subrange(0, 0), t) =~= num0);
        assert(den0 + mul_den(fv.subrange(0, 0), t) =~= den0);
    }
    while i < fs.len()
        invariant
            i <= fs@.len(),
            t != Target::Json,
            fv == exprs_view(fs@),
            fv.len() == fs@.len(),
            forall|k: int| 0 <= k < fs@.len() ==> #[trigger] fv[k] == fs@[k]@,
            renderable_factors(fv),
            forall|k: int| 0 <= k < fv.len() ==> renderable(#[trigger] fv[k]) && !is_min_pow(fv[k]),
            acc.negative == (n0 != mul_negative(fv.subrange(0, i as int))),
            opt_scalar(acc.coeff) == mul_coeff_from(c0, fv.subrange(0, i as int)),
            acc.coeff matches Some(c) ==> canonical(c@),
            texts(acc.num@) == num0 + mul_num(fv.subrange(0, i as int), t),
            texts(acc.den@) == den0 + mul_den(fv.subrange(0, i as int), t),
        decreases fs@.len() - i,
    {
        let f = &fs[i];
        let ghost pre = fv.subrange(0, i as int);
        proof {
            assert(fv.subrange(0, i + 1).drop_last() =~= pre);
            assert(fv.subrange(0, i + 1).last() == f@);
            assert(renderable(fv[i as int]));
        }
        match f {
            Expr::Mul(inner) => {
                proof {
                    lemma_exprs_view(inner@);
                    assert(renderable_factors(exprs_view(inner@)));
                }
                let ghost nb = texts(acc.num@);
                let ghost db = texts(acc.den@);
                acc = mul_collect(inner, t, acc);
                proof {
                    assert(texts(acc.num@) =~= num0 + mul_num(fv.subrange(0, i + 1), t));
                    assert(texts(acc.den@) =~= den0 + mul_den(fv.subrange(0, i + 1), t));
                }
            },
            Expr::Rational(s) => {
                let negative = s.is_negative();
                let mag = if negative {
                    s.clone().neg()
                } else {
                    s.clone()
                };
                let MulParts { negative: neg0, coeff, num, den } = acc;
                let new_coeff = match coeff {
                    Some(c) => {
                        let ghost cv = c@;
                        let ghost mv = mag@;
                        let p = c.mul(mag);
                        proof {
                            assert(cv.1 * mv.1 != 0) by (nonlinear_arith)
                                requires
                                    cv.1 > 0,
                                    mv.1 > 0,
                            ;
                            lemma_canon(p@, rat_mul(cv, mv));
                        }
                        p
                    },
                    None => mag,
                };
                acc = MulParts {
                    negative: if negative {
                        !neg0
                    } else {
                        neg0
                    },
                    coeff: Some(new_coeff),
                    num,
                    den,
                };
                proof {
                    assert(texts(acc.num@) =~= num0 + mul_num(fv.subrange(0, i + 1), t));
                    assert(texts(acc.den@) =~= den0 + mul_den(fv.subrange(0, i + 1), t));
                }
            },
            Expr::Pow(b, k) => {
                if *k < 0 {
                    let base = infix(b, t, POWER);
                    let d = if *k == -1 {
                        base
                    } else {
                        den_pow_exec(base, -*k, t)
                    };
                    let ghost before = acc.den@;
                    acc.den.push(d);
                    proof {
                        assert(texts(acc.den@) =~= texts(before).push(d@));
                        assert(texts(acc.den@) =~= den0 + mul_den(fv.subrange(0, i + 1), t));
                        assert(texts(acc.num@) =~= num0 + mul_num(fv.subrange(0, i + 1), t));
                    }
                } else {
                    let x = infix(f, t, POWER);
                    let ghost before = acc.num@;
                    acc.num.push(x);
                    proof {
                        assert(texts(acc.num@) =~= texts(before).push(x@));
                        assert(texts(acc.num@) =~= num0 + mul_num(fv.subrange(0, i + 1), t));
                        assert(texts(acc.den@) =~= den0 + mul_den(fv.subrange(0, i + 1), t));
                    }
                }
            },
            _ => {
                let x = infix(f, t, POWER);
                let ghost before = acc.num@;
                acc.num.push(x);
                proof {
                    assert(texts(acc.num@) =~= texts(before).push(x@));
                    assert(texts(acc.num@) =~= num0 + mul_num(fv.subrange(0, i + 1), t));
                    assert(texts(acc.den@) =~= den0 + mul_den(fv.subrange(0, i + 1), t));
                }
            },
        }
        i += 1;
    }
    proof {
        assert(fv.subrange(0, i as int) =~= fv);
    }
    acc
}

fn add_collect(ts: &Vec<Expr>, t: Target, acc: Vec<String>) -> (r: Vec<String>)
    requires
        t != Target::Json,
        renderable_terms(exprs_view(ts@)),
    ensures
        texts(r@) == texts(acc@) + add_parts(exprs_view(ts@), t),
    decreases ts, 1nat,
{
    let ghost tv = exprs_view(ts@);
    proof {
        lemma_exprs_view(ts@);
        lemma_renderable_terms(tv);
    }
    let ghost a0 = texts(acc@);
    let mut acc = acc;
    let mut i: usize = 0;
    proof {
        assert(tv.subrange(0, 0) =~= Seq::<ExprV>::empty());
        assert(a0 + add_parts(tv.subrange(0, 0), t) =~= a0);
    }
    while i < ts.len()
        invariant
            i <= ts@.len(),
            t != Target::Json,
            tv == exprs_view(ts@),
            tv.len() == ts@.len(),
            forall|k: int| 0 <= k < ts@.len() ==> #[trigger] tv[k] == ts@[k]@,
            renderable_terms(tv),
            forall|k: int| 0 <= k < tv.len() ==> renderable(#[trigger] tv[k]),
            texts(acc@) == a0 + add_parts(tv.subrange(0, i as int), t),
        decreases ts@.len() - i,
    {
        let x = &ts[i];
        proof {
            assert(tv.subrange(0, i + 1).drop_last() =~= tv.subrange(0, i as int));
            assert(tv.subrange(0, i + 1).last() == x@);
            assert(renderable(tv[i as int]));
        }
        match x {
            Expr::Add(inner) => {
                proof {
                    lemma_exprs_view(inner@);
                }
                acc = add_collect(inner, t, acc);
                proof {
                    assert(texts(acc@) =~= a0 + add_parts(tv.subrange(0, i + 1), t));
                }
            },
            _ => {
                let r = infix(x, t, PRODUCT);
                let ghost before = acc@;
                acc.push(r);
                proof {
                    assert(texts(acc@) =~= texts(before).push(r@));
                    assert(texts(acc@) =~= a0 + add_parts(tv.subrange(0, i + 1), t));
                }
            },
        }
        i += 1;
    }
    proof {
        assert(tv.subrange(0, i as int) =~= tv);
    }
    acc
}

fn infix_all(ts: &Vec<Expr>, t: Target, min: u8) -> (r: Vec<String>)
    requires
        t != Target::Json,
        renderable_terms(exprs_view(ts@)),
    ensures
        texts(r@) == infix_terms(exprs_view(ts@), t, min),
        r@.len() == ts@.len(),
    decreases ts, 1nat,
{
    let ghost tv = exprs_view(ts@);
    proof {
        lemma_exprs_view(ts@);
        lemma_renderable_terms(tv);
    }
    let mut r: Vec<String> = Vec::new();
    let mut i: usize = 0;
    proof {
        assert(tv.subrange(0, 0) =~= Seq::<ExprV>::empty());
        assert(texts(r@) =~= infix_terms(tv.subrange(0, 0), t, min));
    }
    while i < ts.len()
        invariant
            i <= ts@.len(),
            t != Target::Json,
            tv == exprs_view(ts@),
            tv.len() == ts@.len(),
            forall|k: int| 0 <= k < ts@.len() ==> #[trigger] tv[k] == ts@[k]@,
            renderable_terms(tv),
            forall|k: int| 0 <= k < tv.len() ==> renderable(#[trigger] tv[k]),
            r@.len() == i,
            texts(r@) == infix_terms(tv.subrange(0, i as int), t, min),
        decreases ts@.len() - i,
    {
        proof {
            assert(tv.subrange(0, i + 1).drop_last() =~= tv.subrange(0, i as int));
            assert(tv.subrange(0, i + 1).last() == ts@[i as int]@);
            assert(renderable(tv[i as int]));
        }
        let x = infix(&ts[i], t, min);
        let ghost before = r@;
        r.push(x);
        proof {
            assert(texts(r@) =~= texts(before).push(x@));
        }
        i += 1;
    }
    proof {
        assert(tv.subrange(0, i as int) =~= tv);
    }
    r
}

fn mul_finish(parts: MulParts, t: Target) -> (r: String)
    ensures
        r@ == mul_text(
            parts.negative,
            opt_scalar(parts.coeff),
            texts(parts.num@),
            texts(parts.den@),
            t,
        ),
{
    let MulParts { negative, coeff, num, den } = parts;
    let ghost nv = texts(num@);
    let ghost dv = texts(den@);
    let ghost cv = opt_scalar(coeff);
    if t == Target::Latex && den.len() > 0 {
        let mut pv: Vec<String> = Vec::new();
        match &coeff {
            Some(c) => {
                if !c.equals(&BigScalar::one()) || num.len() == 0 {
                    pv.push(c.render(t));
                }
            },
            None => {},
        }
        let ghost head = texts(pv@);
        let mut k: usize = 0;
        while k < num.len()
            invariant
                k <= num@.len(),
                nv == texts(num@),
                texts(pv@) == head + nv.subrange(0, k as int),
            decreases num@.len() - k,
        {
            let ghost before = pv@;
            pv.push(num[k].clone());
            proof {
                assert(texts(pv@) =~= texts(before).push(nv[k as int]));
                assert(nv.subrange(0, k + 1) =~= nv.subrange(0, k as int).push(nv[k as int]));
            }
            k += 1;
        }
        proof {
            assert(nv.subrange(0, k as int) =~= nv);
            reveal_strlit(" ");
            assert(" "@ =~= seq![' ']);
        }
        let mut r = String::new();
        if negative {
            push_char(&mut r, '-');
        }
        push_chars(&mut r, &['\\', 'f', 'r', 'a', 'c', '{']);
        if pv.len() == 0 {
            push_char(&mut r, '1');
        } else {
            let ns = join_strings(&pv, " ");
            push_str(&mut r, ns.as_str());
        }
        push_char(&mut r, '}');
        push_char(&mut r, '{');
        let ds = join_strings(&den, " ");
        push_str(&mut r, ds.as_str());
        push_char(&mut r, '}');
        proof {
            let parts_spec = match cv {
                Some(v) => if v != (1int, 1int) || nv.len() == 0 {
                    seq![scalar_render(v, t)] + nv
                } else {
                    nv
                },
                None => nv,
            };
            assert(texts(pv@) =~= parts_spec);
        }
        assert(r@ =~= mul_text(negative, cv, nv, dv, t));
        r
    } else {
        let coeff_text = match &coeff {
            Some(c) => Some(c.render(t)),
            None => None,
        };
        let join = if t == Target::Latex {
            " "
        } else {
            "*"
        };
        proof {
            reveal_strlit(" ");
            reveal_strlit("*");
            assert(" "@ =~= seq![' ']);
            assert("*"@ =~= seq!['*']);
        }
        assemble_mul(negative, coeff_text, num, den, join)
    }
}

/// `e` in infix target `t`, parenthesized when its level is below `min`.
fn infix(e: &Expr, t: Target, min: u8) -> (r: String)
    requires
        t != Target::Json,
        renderable(e@),
    ensures
        r@ == infix_spec(e@, t, min),
    decreases e, 0nat,
{
    match e {
        Expr::Rational(s) => parenthesize_if(s.render(t), ATOM, min),
        Expr::Var(n) => {
            let body = if t == Target::Latex {
                latex_var(n.as_str())
            } else {
                n.clone()
            };
            parenthesize_if(body, ATOM, min)
        },
        Expr::Pow(b, k) => {
            let base = infix(b, t, ATOM);
            parenthesize_if(pow_text_exec(base, *k, t), POWER, min)
        },
        Expr::Sin(x) => parenthesize_if(call_exec(0, infix(x, t, SUM), t), ATOM, min),
        Expr::Cos(x) => parenthesize_if(call_exec(1, infix(x, t, SUM), t), ATOM, min),
        Expr::Exp(x) => parenthesize_if(call_exec(2, infix(x, t, SUM), t), ATOM, min),
        Expr::Sinh(x) => parenthesize_if(call_exec(3, infix(x, t, SUM), t), ATOM, min),
        Expr::Cosh(x) => parenthesize_if(call_exec(4, infix(x, t, SUM), t), ATOM, min),
        Expr::Func { name, args, order } => {
            proof {
                lemma_exprs_view(args@);
                assert(renderable_terms(exprs_view(args@)));
            }
            let texts_v = infix_all(args, t, SUM);
            parenthesize_if(func_exec(name, args, &texts_v, order, t), ATOM, min)
        },
        Expr::Mul(fs) => {
            proof {
                lemma_exprs_view(fs@);
                assert(renderable_factors(exprs_view(fs@)));
            }
            let start = MulParts { negative: false, coeff: None, num: Vec::new(), den: Vec::new() };
            proof {
                assert(texts(start.num@) =~= Seq::<Seq<char>>::empty());
                assert(texts(start.den@) =~= Seq::<Seq<char>>::empty());
            }
            let parts = mul_collect(fs, t, start);
            proof {
                assert(texts(parts.num@) =~= mul_num(exprs_view(fs@), t));
                assert(texts(parts.den@) =~= mul_den(exprs_view(fs@), t));
            }
            parenthesize_if(mul_finish(parts, t), PRODUCT, min)
        },
        Expr::Add(ts) => {
            proof {
                lemma_exprs_view(ts@);
            }
            let start: Vec<String> = Vec::new();
            proof {
                assert(texts(start@) =~= Seq::<Seq<char>>::empty());
            }
            let parts = add_collect(ts, t, start);
            proof {
                assert(texts(parts@) =~= add_parts(exprs_view(ts@), t));
                reveal_strlit("0");
                assert("0"@ =~= seq!['0']);
            }
            parenthesize_if(join_signed(parts, "0"), SUM, min)
        },
    }
}


/// The JSON tree of `e`: one object per node, tagged by `"type"`.
pub open spec fn json_spec(e: ExprV) -> Seq<char>
    decreases e,
{
    match e {
        ExprV::Rational(p, q) => "{\"type\":\"Rational\",\"value\":"@ + scalar_render(
            (p, q),
            Target::Json,
        ) + "}"@,
        ExprV::Var(n) => "{\"type\":\"Var\",\"name\":"@ + json_escape_spec(n) + "}"@,
        ExprV::Add(ts) => "{\"type\":\"Add\",\"terms\":["@ + join_with(json_items(ts), ","@) + "]}"@,
        ExprV::Mul(fs) => "{\"type\":\"Mul\",\"factors\":["@ + join_with(json_items(fs), ","@)
            + "]}"@,
        ExprV::Pow(b, k) => "{\"type\":\"Pow\",\"base\":"@ + json_spec(*b) + ",\"exp\":"@
            + int_decimal(k) + "}"@,
        ExprV::Sin(x) => "{\"type\":\"Sin\",\"arg\":"@ + json_spec(*x) + "}"@,
        ExprV::Cos(x) => "{\"type\":\"Cos\",\"arg\":"@ + json_spec(*x) + "}"@,
        ExprV::Exp(x) => "{\"type\":\"Exp\",\"arg\":"@ + json_spec(*x) + "}"@,
        ExprV::Sinh(x) => "{\"type\":\"Sinh\",\"arg\":"@ + json_spec(*x) + "}"@,
        ExprV::Cosh(x) => "{\"type\":\"Cosh\",\"arg\":"@ + json_spec(*x) + "}"@,
        ExprV::Func(name, args, order) => "{\"type\":\"Func\",\"name\":"@ + json_escape_spec(name)
            + ",\"args\":["@ + join_with(json_items(args), ","@) + "],\"order\":["@ + join_with(
            order.map_values(|o: u32| nat_decimal(o as nat)),
            ","@,
        ) + "]}"@,
    }
}

/// The JSON tree of each element.
pub open spec fn json_items(ts: Seq<ExprV>) -> Seq<Seq<char>>
    decreases ts,
{
    if ts.len() == 0 {
        Seq::empty()
    } else {
        json_items(ts.drop_last()) + seq![json_spec(ts.last())]
    }
}

fn json_all(ts: &Vec<Expr>) -> (r: Vec<String>)
    ensures
        texts(r@) == json_items(exprs_view(ts@)),
    decreases ts, 1nat,
{
    let ghost tv = exprs_view(ts@);
    proof {
        lemma_exprs_view(ts@);
    }
    let mut r: Vec<String> = Vec::new();
    let mut i: usize = 0;
    proof {
        assert(tv.subrange(0, 0) =~= Seq::<ExprV>::empty());
        assert(texts(r@) =~= json_items(tv.subrange(0, 0)));
    }
    while i < ts.len()
        invariant
            i <= ts@.len(),
            tv == exprs_view(ts@),
            tv.len() == ts@.len(),
            forall|k: int| 0 <= k < ts@.len() ==> #[trigger] tv[k] == ts@[k]@,
            texts(r@) == json_items(tv.subrange(0, i as int)),
        decreases ts@.len() - i,
    {
        proof {
            assert(tv.subrange(0, i + 1).drop_last() =~= tv.subrange(0, i as int));
            assert(tv.subrange(0, i + 1).last() == ts@[i as int]@);
        }
        let x = json(&ts[i]);
        let ghost before = r@;
        r.push(x);
        proof {
            assert(texts(r@) =~= texts(before).push(x@));
        }
        i += 1;
    }
    proof {
        assert(tv.subrange(0, i as int) =~= tv);
    }
    r
}

fn json_unary(tag: &str, x: &Expr) -> (r: String)
    ensures
        r@ == tag@ + json_spec(x@) + "}"@,
    decreases x, 2nat,
{
    let mut s = String::new();
    push_str(&mut s, tag);
    let inner = json(x);
    push_str(&mut s, inner.as_str());
    push_str(&mut s, "}");
    s
}

/// The JSON tree of `e`.
fn json(e: &Expr) -> (r: String)
    ensures
        r@ == json_spec(e@),
    decreases e, 0nat,
{
    let mut s = String::new();
    match e {
        Expr::Rational(q) => {
            push_str(&mut s, "{\"type\":\"Rational\",\"value\":");
            let v = q.render(Target::Json);
            push_str(&mut s, v.as_str());
            push_str(&mut s, "}");
        },
        Expr::Var(n) => {
            push_str(&mut s, "{\"type\":\"Var\",\"name\":");
            let v = json_escape(n.as_str());
            push_str(&mut s, v.as_str());
            push_str(&mut s, "}");
        },
        Expr::Add(ts) => {
            push_str(&mut s, "{\"type\":\"Add\",\"terms\":[");
            let items = json_all(ts);
            let j = join_strings(&items, ",");
            push_str(&mut s, j.as_str());
            push_str(&mut s, "]}");
        },
        Expr::Mul(fs) => {
            push_str(&mut s, "{\"type\":\"Mul\",\"factors\":[");
            let items = json_all(fs);
            let j = join_strings(&items, ",");
            push_str(&mut s, j.as_str());
            push_str(&mut s, "]}");
        },
        Expr::Pow(b, k) => {
            push_str(&mut s, "{\"type\":\"Pow\",\"base\":");
            let v = json(b);
            push_str(&mut s, v.as_str());
            push_str(&mut s, ",\"exp\":");
            push_decimal(&mut s, *k);
            push_str(&mut s, "}");
        },
        Expr::Sin(x) => {
            return json_unary("{\"type\":\"Sin\",\"arg\":", x);
        },
        Expr::Cos(x) => {
            return json_unary("{\"type\":\"Cos\",\"arg\":", x);
        },
        Expr::Exp(x) => {
            return json_unary("{\"type\":\"Exp\",\"arg\":", x);
        },
        Expr::Sinh(x) => {
            return json_unary("{\"type\":\"Sinh\",\"arg\":", x);
        },
        Expr::Cosh(x) => {
            return json_unary("{\"type\":\"Cosh\",\"arg\":", x);
        },
        Expr::Func { name, args, order } => {
            push_str(&mut s, "{\"type\":\"Func\",\"name\":");
            let v = json_escape(name.as_str());
            push_str(&mut s, v.as_str());
            push_str(&mut s, ",\"args\":[");
            let items = json_all(args);
            let j = join_strings(&items, ",");
            push_str(&mut s, j.as_str());
            push_str(&mut s, "],\"order\":[");
            let mut os: Vec<String> = Vec::new();
            let mut k: usize = 0;
            while k < order.len()
                invariant
                    k <= order@.len(),
                    texts(os@) == order@.subrange(0, k as int).map_values(
                        |o: u32| nat_decimal(o as nat),
                    ),
                decreases order@.len() - k,
            {
                let d = u64_decimal(order[k] as u64);
                let ghost before = os@;
                os.push(d);
                proof {
                    assert(texts(os@) =~= texts(before).push(d@));
                    assert(order@.subrange(0, k + 1).map_values(|o: u32| nat_decimal(o as nat))
                        =~= order@.subrange(0, k as int).map_values(|o: u32| nat_decimal(o as nat)).push(
                        nat_decimal(order@[k as int] as nat),
                    ));
                }
                k += 1;
            }
            proof {
                assert(order@.subrange(0, k as int) =~= order@);
            }
            let oj = join_strings(&os, ",");
            push_str(&mut s, oj.as_str());
            push_str(&mut s, "]}");
        },
    }
    assert(s@ =~= json_spec(e@));
    s
}

/// What [`Expr::render`] gives for `target`.
pub open spec fn render_spec(e: ExprV, target: Target) -> Seq<char> {
    if target == Target::Json {
        json_spec(e)
    } else {
        infix_spec(e, target, SUM)
    }
}

impl Expr {
    /// This expression as text in `target`'s own syntax.
    pub fn render(&self, target: Target) -> (r: String)
        requires
            target == Target::Json || renderable(self@),
        ensures
            r@ == render_spec(self@, target),
    {
        if target == Target::Json {
            json(self)
        } else {
            infix(self, target, SUM)
        }
    }

    /// Plain Unicode text, as `Display` shows it.
    pub fn to_text(&self) -> (r: String)
        requires
            renderable(self@),
        ensures
            r@ == infix_spec(self@, Target::Unicode, SUM),
    {
        infix(self, Target::Unicode, SUM)
    }
}

/// Whether [`renderable`] holds of `e`.
pub fn is_renderable(e: &Expr) -> (r: bool)
    ensures
        r == renderable(e@),
    decreases e, 1nat,
{
    match e {
        Expr::Rational(_) => true,
        Expr::Var(_) => true,
        Expr::Pow(b, _) => is_renderable(b),
        Expr::Mul(fs) => all_renderable(fs, true),
        Expr::Add(ts) => all_renderable(ts, false),
        Expr::Sin(x) | Expr::Cos(x) | Expr::Exp(x) | Expr::Sinh(x) | Expr::Cosh(x) => is_renderable(x),
        Expr::Func { args, order, .. } => {
            proof {
                crate::expr::lemma_exprs_view(args@);
            }
            order.len() >= args.len() && all_renderable(args, false)
        },
    }
}

/// Whether every element of `es` is renderable (and, for the factors of
/// a product, none a power with exponent `i32::MIN`).
fn all_renderable(es: &Vec<Expr>, factors: bool) -> (r: bool)
    ensures
        r == (if factors {
            renderable_factors(exprs_view(es@))
        } else {
            renderable_terms(exprs_view(es@))
        }),
    decreases es, 0nat,
{
    let ghost v = exprs_view(es@);
    proof {
        crate::expr::lemma_exprs_view(es@);
    }
    let mut ok = true;
    let mut i: usize = 0;
    while i < es.len()
        invariant
            0 <= i <= es@.len(),
            v == exprs_view(es@),
            v.len() == es@.len(),
            forall|k: int| 0 <= k < es@.len() ==> #[trigger] v[k] == es@[k]@,
            ok == (if factors {
                renderable_factors(v.take(i as int))
            } else {
                renderable_terms(v.take(i as int))
            }),
        decreases es@.len() - i,
    {
        proof {
            assert(v.take(i + 1).drop_last() =~= v.take(i as int));
            assert(v.take(i + 1).last() == es@[i as int]@);
        }
        let here = is_renderable(&es[i]);
        let min_pow = match &es[i] {
            Expr::Pow(_, k) => *k == i32::MIN,
            _ => false,
        };
        ok = ok && here && (!factors || !min_pow);
        i += 1;
    }
    proof {
        assert(v.take(es@.len() as int) =~= v);
    }
    ok
}

/// How a call of the function named `name` (written `cap` where
/// Mathematica capitalizes it) on the argument text `arg` reads in the
/// infix target `t`: `name(arg)`, `\name\left(arg\right)`, `Cap[arg]`.
pub open spec fn call_reads(name: Seq<char>, cap: Seq<char>, arg: Seq<char>, t: Target) -> Seq<char> {
    match t {
        Target::Latex => seq!['\\'] + name + seq!['\\', 'l', 'e', 'f', 't', '('] + arg + seq![
            '\\',
            'r',
            'i',
            'g',
            'h',
            't',
            ')',
        ],
        Target::Mathematica => cap + seq!['['] + arg + seq![']'],
        _ => name + seq!['('] + arg + seq![')'],
    }
}

/// Each of the five known functions prints under its own name, in every
/// infix target, around the text of its argument: `sin`, `cos`, `exp`,
/// `sinh`, `cosh` (`Sin`, `Cos`, `Exp`, `Sinh`, `Cosh` for Mathematica).
pub proof fn law_known_functions_print_their_names(x: ExprV, t: Target)
    requires
        t != Target::Json,
    ensures
        render_spec(ExprV::Sin(Box::new(x)), t) == call_reads(
            seq!['s', 'i', 'n'],
            seq!['S', 'i', 'n'],
            infix_spec(x, t, SUM),
            t,
        ),
        render_spec(ExprV::Cos(Box::new(x)), t) == call_reads(
            seq!['c', 'o', 's'],
            seq!['C', 'o', 's'],
            infix_spec(x, t, SUM),
            t,
        ),
        render_spec(ExprV::Exp(Box::new(x)), t) == call_reads(
            seq!['e', 'x', 'p'],
            seq!['E', 'x', 'p'],
            infix_spec(x, t, SUM),
            t,
        ),
        render_spec(ExprV::Sinh(Box::new(x)), t) == call_reads(
            seq!['s', 'i', 'n', 'h'],
            seq!['S', 'i', 'n', 'h'],
            infix_spec(x, t, SUM),
            t,
        ),
        render_spec(ExprV::Cosh(Box::new(x)), t) == call_reads(
            seq!['c', 'o', 's', 'h'],
            seq!['C', 'o', 's', 'h'],
            infix_spec(x, t, SUM),
            t,
        ),
{
    let a = infix_spec(x, t, SUM);
    assert(ascii_upper('s') == 'S');
    assert(ascii_upper('c') == 'C');
    assert(ascii_upper('e') == 'E');
    assert(call_text(0, a, t) =~= call_reads(seq!['s', 'i', 'n'], seq!['S', 'i', 'n'], a, t));
    assert(call_text(1, a, t) =~= call_reads(seq!['c', 'o', 's'], seq!['C', 'o', 's'], a, t));
    assert(call_text(2, a, t) =~= call_reads(seq!['e', 'x', 'p'], seq!['E', 'x', 'p'], a, t));
    assert(call_text(3, a, t) =~= call_reads(
        seq!['s', 'i', 'n', 'h'],
        seq!['S', 'i', 'n', 'h'],
        a,
        t,
    ));
    assert(call_text(4, a, t) =~= call_reads(
        seq!['c', 'o', 's', 'h'],
        seq!['C', 'o', 's', 'h'],
        a,
        t,
    ));
}

/// The JSON object of a call of the known function whose type name is
/// `ty`, around the JSON tree of its argument.
pub open spec fn json_call(ty: Seq<char>, arg: Seq<char>) -> Seq<char> {
    "{\"type\":\""@ + ty + "\",\"arg\":"@ + arg + "}"@
}

/// In JSON each of the five known functions is an object whose type
/// names the function, `Sin`, `Cos`, `Exp`, `Sinh` or `Cosh`, around the
/// tree of its argument.
pub proof fn law_known_functions_name_their_json_type(x: ExprV)
    ensures
        render_spec(ExprV::Sin(Box::new(x)), Target::Json) == json_call(
            seq!['S', 'i', 'n'],
            render_spec(x, Target::Json),
        ),
        render_spec(ExprV::Cos(Box::new(x)), Target::Json) == json_call(
            seq!['C', 'o', 's'],
            render_spec(x, Target::Json),
        ),
        render_spec(ExprV::Exp(Box::new(x)), Target::Json) == json_call(
            seq!['E', 'x', 'p'],
            render_spec(x, Target::Json),
        ),
        render_spec(ExprV::Sinh(Box::new(x)), Target::Json) == json_call(
            seq!['S', 'i', 'n', 'h'],
            render_spec(x, Target::Json),
        ),
        render_spec(ExprV::Cosh(Box::new(x)), Target::Json) == json_call(
            seq!['C', 'o', 's', 'h'],
            render_spec(x, Target::Json),
        ),
{
    reveal_strlit("{\"type\":\"");
    reveal_strlit("\",\"arg\":");
    reveal_strlit("}");
    reveal_strlit("{\"type\":\"Sin\",\"arg\":");
    reveal_strlit("{\"type\":\"Cos\",\"arg\":");
    reveal_strlit("{\"type\":\"Exp\",\"arg\":");
    reveal_strlit("{\"type\":\"Sinh\",\"arg\":");
    reveal_strlit("{\"type\":\"Cosh\",\"arg\":");
    let a = render_spec(x, Target::Json);
    assert(json_call(seq!['S', 'i', 'n'], a) =~= "{\"type\":\"Sin\",\"arg\":"@ + a + "}"@);
    assert(json_call(seq!['C', 'o', 's'], a) =~= "{\"type\":\"Cos\",\"arg\":"@ + a + "}"@);
    assert(json_call(seq!['E', 'x', 'p'], a) =~= "{\"type\":\"Exp\",\"arg\":"@ + a + "}"@);
    assert(json_call(seq!['S', 'i', 'n', 'h'], a) =~= "{\"type\":\"Sinh\",\"arg\":"@ + a
        + "}"@);
    assert(json_call(seq!['C', 'o', 's', 'h'], a) =~= "{\"type\":\"Cosh\",\"arg\":"@ + a
        + "}"@);
}

} // verus!
