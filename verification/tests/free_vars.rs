use oderom::expr::Expr;
use oderom::free_vars::free_vars;
use oderom::names::NameSet;

fn names(list: &[&str]) -> NameSet {
    NameSet::from_names(list.iter().map(|s| s.to_string()).collect())
}

#[test]
fn collects_a_bare_variable() {
    let vars = free_vars(&Expr::var("M"));
    assert_eq!(vars, names(&["M"]));
}

#[test]
fn collects_every_distinct_variable_in_a_compound_expression() {
    let e = Expr::var("M") * Expr::var("r").pow(-1) + Expr::var("Q").pow(2) * Expr::var("r").pow(-2);
    let vars = free_vars(&e);
    assert_eq!(vars, names(&["M", "Q", "r"]));
}

#[test]
fn collects_variables_inside_known_function_arguments() {
    let vars = free_vars(&Expr::var("theta").sin());
    assert_eq!(vars, names(&["theta"]));
}

#[test]
fn collects_variables_inside_an_indeterminate_functions_arguments_never_its_own_name() {
    let vars = free_vars(&Expr::func("f", vec![Expr::var("r")]));
    assert_eq!(vars, names(&["r"]), "the function name `f` itself must never be collected as a free variable");
}

#[test]
fn a_constant_has_no_free_variables() {
    assert!(free_vars(&Expr::integer(5)).is_empty());
}
