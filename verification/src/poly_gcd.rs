//! The GCD of multivariate polynomials, by recursion on the generators:
//! each level picks a pole generator, strips the contents (the GCD of the
//! coefficients, one level down), takes the subresultant GCD of the
//! primitive parts, and puts the content GCD back.
use vstd::prelude::*;
use crate::atoms::{AtomKey, AtomTable};
use crate::big_scalar::BigScalar;
use crate::division::product_fits_all;
use crate::poly::{AtomId, Monomial, Poly};
use crate::upoly::{gcd, UPoly};

verus! {

/// The coordinate names that come first as pole generators, in order.
fn coordinate_index(name: &String) -> (r: Option<usize>) {
    let names = ["t", "r", "theta", "phi"];
    let mut i: usize = 0;
    while i < 4
        decreases 4 - i,
    {
        if crate::text::same_text(name.as_str(), names[i]) {
            return Some(i);
        }
        i += 1;
    }
    None
}

/// Whether the text `a` sorts before `b`, character by character.
fn text_before(a: &String, b: &String) -> bool {
    let x = crate::text::chars_of(a.as_str());
    let y = crate::text::chars_of(b.as_str());
    let mut i: usize = 0;
    while i < x.len() && i < y.len()
        decreases x@.len() - i,
    {
        if x[i] != y[i] {
            return x[i] < y[i];
        }
        i += 1;
    }
    x.len() < y.len()
}

/// Whether generator `a` ranks before `b` as a pole: the known
/// coordinates first in their order, then other variables by name, then
/// every function (a generator the table does not hold ranks last).
fn ranks_before(table: &AtomTable, a: AtomId, b: AtomId) -> bool {
    let ka = if (a.0 as usize) < table.len() {
        Some(table.key(a))
    } else {
        None
    };
    let kb = if (b.0 as usize) < table.len() {
        Some(table.key(b))
    } else {
        None
    };
    let (bucket_a, index_a) = rank_of(ka);
    let (bucket_b, index_b) = rank_of(kb);
    if bucket_a != bucket_b {
        return bucket_a < bucket_b;
    }
    if index_a != index_b {
        return index_a < index_b;
    }
    match (ka, kb) {
        (Some(AtomKey::Var(na)), Some(AtomKey::Var(nb))) => {
            if bucket_a == 1 {
                text_before(na, nb)
            } else {
                false
            }
        },
        _ => false,
    }
}

/// The bucket and coordinate index of a generator's rank.
fn rank_of(k: Option<&AtomKey>) -> (u8, usize) {
    match k {
        Some(AtomKey::Var(name)) => match coordinate_index(name) {
            Some(i) => (0, i),
            None => (1, 0),
        },
        Some(_) => (2, 0),
        None => (3, 0),
    }
}

/// The generators of `a` and `b`, each once, in the order met.
fn generators_of(a: &Poly, b: &Poly) -> (r: Vec<AtomId>) {
    let mut vars: Vec<AtomId> = Vec::new();
    let mut side: usize = 0;
    while side < 2
        decreases 2 - side,
    {
        let ts = if side == 0 {
            a.terms()
        } else {
            b.terms()
        };
        let mut i: usize = 0;
        while i < ts.len()
            decreases ts@.len() - i,
        {
            let g = &ts[i].generators;
            let mut j: usize = 0;
            while j < g.len()
                decreases g@.len() - j,
            {
                let (id, e) = g[j];
                if e != 0 {
                    let mut seen = false;
                    let mut k: usize = 0;
                    while k < vars.len()
                        decreases vars@.len() - k,
                    {
                        if vars[k].0 == id.0 {
                            seen = true;
                        }
                        k += 1;
                    }
                    if !seen {
                        vars.push(id);
                    }
                }
                j += 1;
            }
            i += 1;
        }
        side += 1;
    }
    vars
}

/// The measure the recursion descends on: the bound on the number of
/// generators, unbounded at the top.
pub open spec fn level_bound(max_vars: Option<usize>) -> int {
    match max_vars {
        Some(m) => m as int,
        None => usize::MAX as int + 1,
    }
}

/// The GCD of the coefficients of `u`, one level down.
fn content(u: &UPoly, table: &AtomTable, level: usize) -> (r: Option<Poly>)
    decreases level, 1int,
{
    let cs = u.coeffs();
    let mut acc = Poly::zero();
    let mut i: usize = 0;
    while i < cs.len()
        decreases cs@.len() - i,
    {
        acc = match poly_gcd_bounded(&acc, &cs[i], table, Some(level)) {
            Some(g) => g,
            None => return None,
        };
        i += 1;
    }
    Some(acc)
}

/// A GCD of `a` and `b`: a zero argument gives the other one; constants
/// give the GCD of their values; otherwise the pole generator `x` is the
/// first of the generators present in the order of [`ranks_before`], and
/// the result is the GCD of the two contents (the GCDs of the
/// coefficients in `x`) times the primitive part of the subresultant GCD
/// of the two primitive parts. The recursion goes down one level per
/// generator: a call under `max_vars` must see fewer generators. Where
/// it does not, where a content or a primitive part does not divide
/// exactly, or where a product would pass the exponent sanity limit,
/// `None`.
pub fn poly_gcd_bounded(a: &Poly, b: &Poly, table: &AtomTable, max_vars: Option<usize>) -> (g:
    Option<Poly>)
    ensures
        a@ == Map::<Monomial, (int, int)>::empty() ==> (g matches Some(x) && x@ == b@),
        (b@ == Map::<Monomial, (int, int)>::empty() && a@ != Map::<Monomial, (int, int)>::empty())
            ==> (g matches Some(x) && x@ == a@),
    decreases level_bound(max_vars), 0int,
{
    if a.is_zero() {
        return Some(crate::upoly::copy_poly(b));
    }
    if b.is_zero() {
        return Some(crate::upoly::copy_poly(a));
    }
    let vars = generators_of(a, b);
    let count = vars.len();
    match max_vars {
        Some(m) => {
            if count >= m {
                return None;
            }
        },
        None => {},
    }
    if count == 0 {
        let ca = match a.terms().first() {
            Some(t) => t.coeff.clone(),
            None => BigScalar::zero(),
        };
        let cb = match b.terms().first() {
            Some(t) => t.coeff.clone(),
            None => BigScalar::zero(),
        };
        return Some(Poly::constant(ca.gcd(&cb)));
    }
    let mut x = vars[0];
    let mut i: usize = 1;
    while i < vars.len()
        decreases vars@.len() - i,
    {
        if ranks_before(table, vars[i], x) {
            x = vars[i];
        }
        i += 1;
    }
    let a_u = UPoly::from_poly(a, x);
    let b_u = UPoly::from_poly(b, x);
    let content_a = match content(&a_u, table, count) {
        Some(c) => c,
        None => return None,
    };
    let content_b = match content(&b_u, table, count) {
        Some(c) => c,
        None => return None,
    };
    let content_gcd = match poly_gcd_bounded(&content_a, &content_b, table, Some(count)) {
        Some(c) => c,
        None => return None,
    };
    let primitive_a = match a.exact_div(&content_a) {
        Some(p) => p,
        None => return None,
    };
    let primitive_b = match b.exact_div(&content_b) {
        Some(p) => p,
        None => return None,
    };
    let pa_u = UPoly::from_poly(&primitive_a, x);
    let pb_u = UPoly::from_poly(&primitive_b, x);
    let g_u = match gcd(pa_u, pb_u) {
        Some(u) => u,
        None => return None,
    };
    let raw_content = match content(&g_u, table, count) {
        Some(c) => c,
        None => return None,
    };
    let raw_poly = match g_u.to_poly(x) {
        Some(p) => p,
        None => return None,
    };
    let primitive_gcd = if raw_content.is_literal_one() {
        raw_poly
    } else {
        match raw_poly.exact_div(&raw_content) {
            Some(p) => p,
            None => return None,
        }
    };
    if !product_fits_all(&content_gcd, &primitive_gcd) {
        return None;
    }
    Some(content_gcd.product(&primitive_gcd))
}

} // verus!
