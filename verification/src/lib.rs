//! Symbolic scalar expressions for differential geometry: exact
//! rational coefficients, expression trees, differentiation,
//! substitution, rendering, and the notebook's block bookkeeping.
use vstd::prelude::*;

pub mod digits;
pub mod rational;
pub mod big_scalar;
pub mod text;
pub mod render;
pub mod expr;
pub mod diff;
pub mod names;
pub mod free_vars;
pub mod export;
pub mod block;
pub mod persist;
pub mod substitute;
pub mod cancel;
pub mod jit;
pub mod localized;
pub mod order;
pub mod poly;
pub mod atoms;
pub mod notebook;
pub mod canonical;
pub mod trig;
pub mod division;
pub mod upoly;
pub mod poly_gcd;
pub mod rational_form;
pub mod isolate_linear;
pub mod rationalize;
pub mod localization;

verus! {

} // verus!
