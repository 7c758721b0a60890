use std::collections::VecDeque;
use pma::eval::eval;
use pma::graph::DAG;
use pma::graph::Successors;
use pma::recipe::Recipe;
use pma::recipe::TargetsError;
use pma::recipe::Thing;
use pma::sexpr::SExpr;

#[derive(Debug, PartialEq, Eq)]
enum C {
    First,
    Second,
    Third,
    Fourth,
}

#[test]
fn test_graph_dag_simple() {
    let mut dag: DAG<C> = DAG::new();
    let i0 = dag.node(C::First);
    let i1 = dag.node(C::Second);
    let i2 = dag.node(C::Third);
    let i3 = dag.node(C::Fourth);
    dag.connect(i0, i1);
    dag.connect(i0, i2);
    dag.connect(i2, i3);

    assert_eq!(&C::Fourth, dag.get(i3).unwrap());
    assert_eq!(&C::Third, dag.get(i2).unwrap());
    assert_eq!(&C::Second, dag.get(i1).unwrap());
    assert_eq!(&C::First, dag.get(i0).unwrap());

    assert_eq!(Some(Successors { data: vec![] }), dag.successors(i3));
    assert_eq!(Some(Successors { data: vec![i3] }), dag.successors(i2));
    assert_eq!(Some(Successors { data: vec![] }), dag.successors(i1));
    assert_eq!(Some(Successors { data: vec![i1, i2] }), dag.successors(i0));
}

#[test]
fn test_graph_connect_out_of_range() {
    let mut dag: DAG<u64> = DAG::new();
    assert!(!dag.connect(0, 0));
    let i0 = dag.node(7);
    assert!(dag.connect(i0, i0)); // self-loops are allowed
    assert!(!dag.connect(i0, 1));
    assert!(!dag.connect(1, i0));
    assert_eq!(None, dag.successors(1));
    assert_eq!(None, dag.get(1));
}

#[test]
fn test_eval_target() {
    let s = SExpr::List(vec![
        SExpr::Id("target".to_string()),
        SExpr::Str("name".to_string()),
        SExpr::List(vec![
            SExpr::Str("depstr".to_string()),
            SExpr::Id("depid".to_string()),
        ]),
        SExpr::List(vec![SExpr::Str("cmd".to_string())]),
    ]);
    eval(VecDeque::from(vec![s])).unwrap();
}

#[test]
fn test_eval_rejects_malformed() {
    // A top-level atom is not a list.
    assert!(eval(VecDeque::from(vec![SExpr::Id("x".to_string())])).is_err());
    // An empty list has no keyword.
    assert!(eval(VecDeque::from(vec![SExpr::List(vec![])])).is_err());
    // An unknown keyword.
    assert!(eval(VecDeque::from(vec![SExpr::List(vec![SExpr::Id(
        "frobnicate".to_string()
    )])]))
    .is_err());
    // A target form with the wrong arity.
    assert!(eval(VecDeque::from(vec![SExpr::List(vec![
        SExpr::Id("target".to_string()),
        SExpr::Str("name".to_string()),
    ])]))
    .is_err());
    // A set form whose name is not a string.
    assert!(eval(VecDeque::from(vec![SExpr::List(vec![
        SExpr::Id("set".to_string()),
        SExpr::Id("name".to_string()),
        SExpr::Str("value".to_string()),
    ])]))
    .is_err());
}

#[test]
fn test_default_target_is_first_rule() {
    let mut rec = Recipe::new();
    assert_eq!(None, rec.get_default());
    // "b" first appears as a dependency of "a"...
    rec.add_rule(
        Thing::Pseudo("a".to_string()),
        vec![Thing::Pseudo("b".to_string())],
        vec![],
    );
    // ...and is later declared as a target of its own: the default stays "a".
    rec.add_rule(Thing::Pseudo("b".to_string()), vec![], vec![]);
    rec.add_rule(Thing::Pseudo("c".to_string()), vec![], vec![]);
    assert_eq!(Some(&Thing::Pseudo("a".to_string())), rec.get_default());
}

#[test]
fn test_rule_exists_and_tags() {
    let mut rec = Recipe::new();
    rec.add_rule(
        Thing::Actual("x".to_string()),
        vec![Thing::Pseudo("d".to_string())],
        vec![],
    );
    assert!(rec.rule_exists(&Thing::Actual("x".to_string())));
    // The tag takes part in identity.
    assert!(!rec.rule_exists(&Thing::Pseudo("x".to_string())));
    // A dependency is known too.
    assert!(rec.rule_exists(&Thing::Pseudo("d".to_string())));
    assert!(!rec.rule_exists(&Thing::Actual("d".to_string())));
}

#[test]
fn test_get_cmds_last_write_wins() {
    let mut rec = Recipe::new();
    rec.add_rule(
        Thing::Pseudo("a".to_string()),
        vec![Thing::Actual("dep".to_string())],
        vec!["one".to_string()],
    );
    // A pure dependency has no command list at all.
    assert_eq!(None, rec.get_cmds(Thing::Actual("dep".to_string())));
    // Re-declaring overwrites the command list.
    rec.add_rule(
        Thing::Pseudo("a".to_string()),
        vec![],
        vec!["two".to_string(), "three".to_string()],
    );
    assert_eq!(
        Some(&vec!["two".to_string(), "three".to_string()]),
        rec.get_cmds(Thing::Pseudo("a".to_string()))
    );
}

#[test]
fn test_expand_escape() {
    // "$$X" must not look X up: it collapses to a literal "$X".
    let rec = Recipe::new();
    assert_eq!(Ok("$X".to_string()), rec.expand_vars(None, "$$X"));
}

#[test]
fn test_expand_unknown_fails() {
    let rec = Recipe::new();
    match rec.expand_vars(None, "$UNSET") {
        Ok(s) => panic!("expected an error, got {:?}", s),
        Err(e) => assert_eq!("Unrecognized parameter in expansion: UNSET", e),
    }
}

#[test]
fn test_set_var_failure_stores_nothing() {
    let mut rec = Recipe::new();
    assert!(rec.set_var("V", "$UNSET").is_err());
    assert_eq!(None, rec.get_var("V"));
}

#[test]
fn test_set_var_expands_eagerly() {
    let mut rec = Recipe::new();
    rec.set_var("A", "one").unwrap();
    rec.set_var("B", "$A two").unwrap();
    // Later redefinition of A does not change the frozen value of B.
    rec.set_var("A", "other").unwrap();
    assert_eq!(Some(&"one two".to_string()), rec.get_var("B"));
    assert_eq!(Some(&"other".to_string()), rec.get_var("A"));
}

#[test]
fn test_expand_nested_and_overrides() {
    let mut rec = Recipe::new();
    rec.set_var("WHO", "world").unwrap();
    rec.set_var("GREET", "hello $WHO").unwrap();
    assert_eq!(Ok("hello world!".to_string()), rec.expand_vars(None, "$GREET!"));
    // An override takes precedence over the global of the same name.
    let ov = vec![("WHO".to_string(), "you".to_string())];
    assert_eq!(Ok("you".to_string()), rec.expand_vars(Some(&ov), "$WHO"));
}

#[test]
fn test_expand_adjacent_references() {
    let mut rec = Recipe::new();
    rec.set_var("A", "left").unwrap();
    rec.set_var("B", "right").unwrap();
    assert_eq!(Ok("leftright".to_string()), rec.expand_vars(None, "$A$B"));
}

#[test]
fn test_expand_escape_mid_string() {
    // The second dollar of an escape pair is never a reference, wherever
    // the pair stands.
    let rec = Recipe::new();
    assert_eq!(Ok("a$b".to_string()), rec.expand_vars(None, "a$$b"));
    assert_eq!(Ok("a$".to_string()), rec.expand_vars(None, "a$$"));
}

#[test]
fn test_expand_name_alphabet() {
    // A name runs over letters, underscores and closing parentheses, and
    // stops at anything else.
    let mut rec = Recipe::new();
    rec.set_var("CC_x", "gcc").unwrap();
    assert_eq!(Ok("gcc!".to_string()), rec.expand_vars(None, "$CC_x!"));
    // A bare dollar with no name character after it is left alone.
    assert_eq!(Ok("100$ well".to_string()), rec.expand_vars(None, "100$ well"));
}

#[test]
fn test_expand_empty_template() {
    let rec = Recipe::new();
    assert_eq!(Ok(String::new()), rec.expand_vars(None, ""));
}

#[test]
fn test_determine_targets() {
    let mut rec = Recipe::new();
    // No rule at all: no default target.
    assert_eq!(Err(TargetsError::NoDefault), rec.determine_targets(&vec![]));
    rec.add_rule(Thing::Pseudo("all".to_string()), vec![], vec![]);
    rec.add_rule(Thing::Actual("x".to_string()), vec![], vec![]);
    rec.add_rule(Thing::Pseudo("x".to_string()), vec![], vec![]);
    // No names: the default target.
    assert_eq!(
        Ok(vec![Thing::Pseudo("all".to_string())]),
        rec.determine_targets(&vec![])
    );
    // The real path of a spelling wins over the symbolic name.
    assert_eq!(
        Ok(vec![Thing::Actual("x".to_string()), Thing::Pseudo("all".to_string())]),
        rec.determine_targets(&vec!["x".to_string(), "all".to_string()])
    );
    // Unknown names come back as the explicit error.
    assert_eq!(
        Err(TargetsError::Unknown(vec!["nope".to_string()])),
        rec.determine_targets(&vec!["x".to_string(), "nope".to_string()])
    );
}
