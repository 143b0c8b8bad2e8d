use oderom::export::{apply_renames, build_rename_map, collect_names, comment_line, MATHEMATICA_RESERVED, SYMPY_RESERVED};
use oderom::expr::Expr;
use oderom::names::{NameSet, RenameMap};
use oderom::render::Target;

fn names(list: &[&str]) -> NameSet {
    NameSet::from_names(list.iter().map(|s| s.to_string()).collect())
}

#[test]
fn collect_names_separates_variables_from_function_names() {
    let e = Expr::var("M") * Expr::func("f", vec![Expr::var("r")]);
    let mut vars = NameSet::new();
    let mut funcs = NameSet::new();
    collect_names(&e, &mut vars, &mut funcs);
    assert_eq!(vars, names(&["M", "r"]));
    assert_eq!(funcs, names(&["f"]));
}

#[test]
fn build_rename_map_only_touches_reserved_names() {
    let names = names(&["M", "E", "r"]);
    let map = build_rename_map(&names, &MATHEMATICA_RESERVED, "$");
    assert_eq!(map.len(), 1);
    assert_eq!(map.get("E"), Some(&"E$".to_string()));
    assert!(!map.contains_key("M"));
    assert!(!map.contains_key("r"));
}

#[test]
fn build_rename_map_avoids_colliding_with_an_existing_unrelated_name() {
    let names = names(&["E", "E$"]);
    let map = build_rename_map(&names, &MATHEMATICA_RESERVED, "$");
    assert_eq!(map.get("E"), Some(&"E$$".to_string()));
}

#[test]
fn apply_renames_rewrites_vars_and_func_names_but_nothing_else() {
    let e = Expr::var("E") * Expr::func("D", vec![Expr::var("r")]);
    let map = RenameMap::from_pairs(vec![("E".to_string(), "E$".to_string()), ("D".to_string(), "D$".to_string())]);
    let renamed = apply_renames(&e, &map);
    let mut vars = NameSet::new();
    let mut funcs = NameSet::new();
    collect_names(&renamed, &mut vars, &mut funcs);
    assert_eq!(vars, names(&["E$", "r"]));
    assert_eq!(funcs, names(&["D$"]));
}

#[test]
fn apply_renames_leaves_a_non_colliding_expression_byte_for_byte_equal() {
    let e = Expr::var("M") * Expr::var("r").pow(-1);
    let map = RenameMap::new();
    assert_eq!(apply_renames(&e, &map), e);
}

#[test]
fn comment_line_uses_each_symbolic_targets_own_comment_syntax() {
    assert_eq!(comment_line("4 components by symmetry", Target::Sympy), "# 4 components by symmetry");
    assert_eq!(comment_line("4 components by symmetry", Target::Mathematica), "(* 4 components by symmetry *)");
}

#[test]
fn comment_line_leaves_non_symbolic_targets_unchanged() {
    assert_eq!(comment_line("4 components by symmetry", Target::Unicode), "4 components by symmetry");
    assert_eq!(comment_line("4 components by symmetry", Target::Latex), "4 components by symmetry");
    assert_eq!(comment_line("4 components by symmetry", Target::Json), "4 components by symmetry");
}

#[test]
fn sympy_reserved_words_are_renamed_with_the_suffix() {
    let names = names(&["lambda", "r", "lambda_"]);
    let map = build_rename_map(&names, &SYMPY_RESERVED, "_");
    assert_eq!(map.len(), 1);
    assert_eq!(map.get("lambda"), Some(&"lambda__".to_string()));
}

#[test]
fn a_rename_target_that_is_itself_reserved_is_skipped() {
    // Both "I" and "I$" reserved: the rename must go on to "I$$".
    let reserved = ["I", "I$"];
    let map = build_rename_map(&names(&["I"]), &reserved, "$");
    assert_eq!(map.get("I"), Some(&"I$$".to_string()));
}

#[test]
fn an_empty_suffix_is_fine_when_nothing_is_reserved() {
    let map = build_rename_map(&names(&["x", "y"]), &MATHEMATICA_RESERVED, "");
    assert!(map.is_empty());
}

#[test]
fn renaming_reaches_inside_every_kind_of_node() {
    let e = Expr::func("D", vec![Expr::var("E").sin().pow(2) + Expr::var("E").exp()]);
    let map = RenameMap::from_pairs(vec![("E".to_string(), "E$".to_string())]);
    let expected = Expr::func("D", vec![Expr::var("E$").sin().pow(2) + Expr::var("E$").exp()]);
    assert_eq!(apply_renames(&e, &map), expected);
}
