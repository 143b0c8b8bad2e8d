# oderom

Symbolic scalar expressions for differential geometry, written in Verus:
every function in `src/` carries a contract that Verus proves.

- `digits`, `rational`, `big_scalar`: exact rationals (big-integer work is
  done by `num-bigint`/`num-rational` behind small trusted wrappers).
- `expr`, `order`: expression trees, their model, and a total order used
  to sort sums and products canonically.
- `diff`, `substitute`, `free_vars`, `render`, `export`: differentiation,
  substitution, variable sets, text output for several targets, and
  renaming for exported code.
- `poly`, `atoms`, `trig`, `canonical`, `localized`: sparse polynomials
  over interned generators; products that keep `cos` and `cosh` at degree
  at most one through `cos^2 = 1 - sin^2` and `cosh^2 = 1 + sinh^2`; the
  one expression of a polynomial, independent of interning order; and
  products of generator powers.
- `division`, `upoly`, `poly_gcd`, `rational_form`: exact division,
  pseudo-division and the subresultant GCD in one generator, the
  recursive multivariate GCD, and the rational normal form built on them
  (`normalize`, `reduce`, `expr_to_rational`).
- `localization`: the localized rational form, whose denominators are
  products of square-free, pairwise coprime generators.
- `isolate_linear`, `rationalize`: the coefficient of a target in an
  affine expression, and one numerator over one denominator.
- `jit`: compiling an expression to a straight-line program.
- `block`, `notebook`, `persist`, `cancel`: notebook bookkeeping, the
  notebook file format, and the cancellation checkpoint.

`app/` holds what touches the machine: thread-local cancellation with
unwinding, notebook files on disk, and floating-point evaluation.

## How the engine stops

The normal-form engine returns `None` (or, for the localized form, an
`Option` around its `Result`) where it cannot go on: a product whose
exponents would pass the sanity limit, a division the subresultant
theory predicts to be exact that is not, a GCD recursion that does not
lose a generator, or a table of generators that is full. These are the
places where the engine would otherwise stop with a panic; on the
expressions it is meant for none of them is reached.

Exact division checks its quotient by multiplying it back before
returning it, and the subresultant GCD checks each predicted division the
same way; a quotient is only ever returned with `q * d == p` proved.

## What is not here

- A value semantics for expressions: the contracts of the engine state
  termination, the absence of panics and overflow, the zero cases and
  the exact-division identity, but not that `normalize` keeps an
  expression's value; that would need the ring laws of the polynomial
  product, which are not proved here.
- The earlier rewrite-to-fixed-point simplifier (`simplify_mul`,
  `combine_over_common_denominators` and their helpers), reached only
  through an environment switch: its functions call each other in a
  cycle (distribution can rebuild the sums that common denominators
  take apart), and no measure was found that decreases around it.
