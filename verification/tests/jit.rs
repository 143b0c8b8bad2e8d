use oderom::expr::Expr;
use oderom::jit::{compile, JitError, Op, Program};

fn vars(names: &[&str]) -> Vec<String> {
    names.iter().map(|s| s.to_string()).collect()
}

/// Runs a compiled program numerically, one forward pass.
fn eval(p: &Program, inputs: &[f64]) -> f64 {
    let consts: Vec<f64> = p
        .consts
        .iter()
        .map(|c| {
            let text = c.to_text();
            match text.split_once('/') {
                Some((n, d)) => n.parse::<f64>().unwrap() / d.parse::<f64>().unwrap(),
                None => text.parse::<f64>().unwrap(),
            }
        })
        .collect();
    let mut values = vec![0.0f64; p.ops.len()];
    for (i, op) in p.ops.iter().enumerate() {
        values[i] = match *op {
            Op::Const(k) => consts[k],
            Op::Var(j) => inputs[j],
            Op::Add(a, b) => values[a] + values[b],
            Op::Mul(a, b) => values[a] * values[b],
            Op::Pow(a, n) => values[a].powi(n),
            Op::Sin(a) => values[a].sin(),
            Op::Cos(a) => values[a].cos(),
            Op::Exp(a) => values[a].exp(),
            Op::Sinh(a) => values[a].sinh(),
            Op::Cosh(a) => values[a].cosh(),
        };
    }
    values[p.output]
}

#[test]
fn evaluates_a_constant() {
    let p = compile(&Expr::integer(5), &[]).unwrap();
    assert_eq!(eval(&p, &[]), 5.0);
}

#[test]
fn evaluates_a_variable() {
    let p = compile(&Expr::var("x"), &vars(&["x"])).unwrap();
    assert_eq!(eval(&p, &[3.5]), 3.5);
}

#[test]
fn evaluates_arithmetic() {
    // 2*x + 3, already in normal form.
    let e = Expr::Add(vec![Expr::Mul(vec![Expr::integer(2), Expr::var("x")]), Expr::integer(3)]);
    let p = compile(&e, &vars(&["x"])).unwrap();
    assert_eq!(eval(&p, &[4.0]), 11.0);
}

#[test]
fn evaluates_power_and_trig() {
    let e = Expr::var("x").pow(2) + Expr::var("x").sin();
    let p = compile(&e, &vars(&["x"])).unwrap();
    let expected = 2.0f64.powi(2) + 2.0f64.sin();
    assert!((eval(&p, &[2.0]) - expected).abs() < 1e-12);
}

#[test]
fn common_subexpressions_share_one_instruction() {
    let x = Expr::var("x");
    let e = (x.clone() + Expr::one()) * (x + Expr::one());
    let p = compile(&e, &vars(&["x"])).unwrap();
    assert_eq!(p.ops.len(), 4);
    assert_eq!(eval(&p, &[3.0]), 16.0);
}

#[test]
fn unlisted_variable_is_an_error() {
    let err = compile(&Expr::var("y"), &vars(&["x"])).unwrap_err();
    assert_eq!(err, JitError::UnknownVariable("y".to_string()));
}

#[test]
fn an_indeterminate_function_is_refused_by_name() {
    let e = Expr::var("x") + Expr::func("f", vec![Expr::var("x")]);
    let err = compile(&e, &vars(&["x"])).unwrap_err();
    assert_eq!(err, JitError::IndeterminateFunction("f".to_string()));
}

#[test]
fn the_first_problem_met_is_the_one_reported() {
    let e = Expr::var("a") * Expr::func("f", vec![]);
    let err = compile(&e, &vars(&["x"])).unwrap_err();
    assert_eq!(err, JitError::UnknownVariable("a".to_string()));
}

#[test]
fn empty_sums_and_products_and_hyperbolics() {
    let e = Expr::Add(vec![Expr::Mul(vec![]), Expr::Add(vec![]), Expr::var("x").cosh(), Expr::rational(1, 2)]);
    let p = compile(&e, &vars(&["x"])).unwrap();
    assert!((eval(&p, &[0.0]) - 2.5).abs() < 1e-12);
    assert_eq!(p.ops[p.output], Op::Add(p.output - 2, p.output - 1));
}

fn operands(op: &Op) -> Vec<usize> {
    match *op {
        Op::Const(_) | Op::Var(_) => vec![],
        Op::Add(a, b) | Op::Mul(a, b) => vec![a, b],
        Op::Pow(a, _) | Op::Sin(a) | Op::Cos(a) | Op::Exp(a) | Op::Sinh(a) | Op::Cosh(a) => vec![a],
    }
}

#[test]
fn every_instruction_feeds_the_result() {
    let x = Expr::var("x");
    let y = Expr::var("y");
    let inner = x.clone() * y.clone() + Expr::one();
    let e = Expr::Sin(Box::new(inner.clone())) * inner + Expr::Pow(Box::new(x), 2) + y;
    let p = compile(&e, &vars(&["x", "y"])).unwrap();
    assert_eq!(p.output, p.ops.len() - 1);
    for i in 0..p.output {
        assert!((i + 1..p.ops.len()).any(|j| operands(&p.ops[j]).contains(&i)), "instruction {i} is unused");
    }
    let v = eval(&p, &[2.0, 3.0]);
    assert!((v - ((7.0f64).sin() * 7.0 + 4.0 + 3.0)).abs() < 1e-12);
}
