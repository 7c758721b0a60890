use std::cell::RefCell;
use pma::eval::eval;
use pma::lex::lex;
use pma::parse::parse;
use pma::recipe::Recipe;
use pma::recipe::SearchResult;
use pma::recipe::Thing;
use pma::recipe::Thing::{Actual, Pseudo};

static TEST: &str = r###"# This is an example. The default target will be "all".

(set "CC" "BUILD")

(target all ("foo") ("$$NOTVAR"))

(target
	"foo"
	("foo_main.o" "foo_util.o")
	("$CC FOO"))

(target
	"foo_main.o"
	("foo_main.c")
	("$CC FOO_MAIN"))

(target
	"foo_util.o"
	("foo_util.c")
	("$CC UTIL"))
"###;

fn build_recipe(src: &str) -> Recipe {
    let toks = match lex(src) {
        Err(e) => panic!("{:?}", e),
        Ok(t) => t,
    };
    let sexprs = match parse(toks) {
        Err(e) => panic!("{:?}", e),
        Ok(s) => s,
    };
    match eval(sexprs) {
        Err(e) => panic!("{:?}", e),
        Ok(s) => s,
    }
}

#[test]
fn test_whole() {
    let rec = build_recipe(TEST);
    let state: RefCell<u8> = RefCell::new(0);

    let res = rec.evaluate(
        &Thing::Pseudo("all".to_string()),
        |_: &Recipe, cmd: &String| {
            let advance = || {
                let ret = *state.borrow();
                *state.borrow_mut() += 1;
                println!("state={} -> {}", ret, ret + 1);
                ret
            };
            println!("cmd: {:?}", cmd);
            match cmd.as_str() {
                "BUILD FOO_MAIN" => {
                    if advance() != 0 {
                        panic!("main rebuild not first");
                    }
                }
                "BUILD FOO" => {
                    if advance() != 1 {
                        panic!("foo rebuild not second");
                    }
                }
                "$NOTVAR" => {
                    if advance() != 2 {
                        panic!("all not third");
                    }
                }
                t => panic!("surprising cmd: {:?}", t),
            }
            true
        },
        |target: &Thing, dep: &Thing| {
            println!("{:?} <- {:?}", target, dep);

            // "foo_main.o" is out of date, the others are fresh; this must
            // rebuild "foo_main.o", then "foo", then "all".
            match (target, dep) {
                (Actual(starget), Actual(sdep)) => match (starget.as_str(), sdep.as_str()) {
                    ("foo_main.o", "foo_main.c") => Ok(true),
                    ("foo", "foo_main.o") => Ok(*state.borrow() == 1),
                    (_, _) => Ok(false),
                },
                (Pseudo(starget), Actual(sdep)) => match (starget.as_str(), sdep.as_str()) {
                    ("all", "foo") => Ok(*state.borrow() == 2),
                    (_, _) => Ok(false),
                },
                (_, _) => Ok(false),
            }
        },
    );
    assert_eq!(SearchResult::Done, res);
    assert_eq!(3, *state.borrow());
}

#[test]
fn test_idempotent_when_fresh() {
    // A never-stale regenerator runs nothing for a target with
    // dependencies, but a leaf with commands always runs them.
    let mut rec = Recipe::new();
    rec.add_rule(
        Pseudo("top".to_string()),
        vec![Actual("leaf".to_string())],
        vec!["top-cmd".to_string()],
    );
    rec.add_rule(Actual("leaf".to_string()), vec![], vec!["leaf-cmd".to_string()]);
    let ran: RefCell<Vec<String>> = RefCell::new(Vec::new());
    let res = rec.evaluate(
        &Pseudo("top".to_string()),
        |_: &Recipe, cmd: &String| {
            ran.borrow_mut().push(cmd.clone());
            true
        },
        |_: &Thing, _: &Thing| Ok(false),
    );
    assert_eq!(SearchResult::Done, res);
    assert_eq!(vec!["leaf-cmd".to_string()], *ran.borrow());
}

#[test]
fn test_diamond_runs_shared_dependency_once() {
    // a -> b, a -> c, b -> d, c -> d: d's command runs at most once.
    let mut rec = Recipe::new();
    let t = |s: &str| Pseudo(s.to_string());
    rec.add_rule(t("a"), vec![t("b"), t("c")], vec!["run a".to_string()]);
    rec.add_rule(t("b"), vec![t("d")], vec!["run b".to_string()]);
    rec.add_rule(t("c"), vec![t("d")], vec!["run c".to_string()]);
    rec.add_rule(t("d"), vec![], vec!["run d".to_string()]);
    let ran: RefCell<Vec<String>> = RefCell::new(Vec::new());
    let res = rec.evaluate(
        &t("a"),
        |_: &Recipe, cmd: &String| {
            ran.borrow_mut().push(cmd.clone());
            true
        },
        |_: &Thing, _: &Thing| Ok(true),
    );
    assert_eq!(SearchResult::Done, res);
    let d_runs = ran.borrow().iter().filter(|c| c.as_str() == "run d").count();
    assert_eq!(1, d_runs);
}

#[test]
fn test_cycle_evaluates_to_done() {
    // a -> b -> a: the memo makes the revisit a no-op, never an error.
    let mut rec = Recipe::new();
    let t = |s: &str| Pseudo(s.to_string());
    rec.add_rule(t("a"), vec![t("b")], vec!["cmd a".to_string()]);
    rec.add_rule(t("b"), vec![t("a")], vec!["cmd b".to_string()]);
    let res = rec.evaluate(
        &t("a"),
        |_: &Recipe, _: &String| true,
        |_: &Thing, _: &Thing| Ok(true),
    );
    assert_eq!(SearchResult::Done, res);
}

#[test]
fn test_target_and_deps_variables() {
    // TARGET and DEPS are laid over the globals while commands are
    // materialized; DEPS lists the dependencies last-connected-first.
    let mut rec = Recipe::new();
    rec.add_rule(
        Actual("out".to_string()),
        vec![Actual("one".to_string()), Actual("two".to_string())],
        vec!["cc -o $TARGET $DEPS".to_string()],
    );
    let ran: RefCell<Vec<String>> = RefCell::new(Vec::new());
    let res = rec.evaluate(
        &Actual("out".to_string()),
        |_: &Recipe, cmd: &String| {
            ran.borrow_mut().push(cmd.clone());
            true
        },
        |_: &Thing, _: &Thing| Ok(true),
    );
    assert_eq!(SearchResult::Done, res);
    assert_eq!(vec!["cc -o out two one".to_string()], *ran.borrow());
}

#[test]
fn test_runner_failure_cancels() {
    let mut rec = Recipe::new();
    let t = |s: &str| Pseudo(s.to_string());
    rec.add_rule(t("a"), vec![t("b")], vec!["after".to_string()]);
    rec.add_rule(t("b"), vec![], vec!["fails".to_string()]);
    let ran: RefCell<Vec<String>> = RefCell::new(Vec::new());
    let res = rec.evaluate(
        &t("a"),
        |_: &Recipe, cmd: &String| {
            ran.borrow_mut().push(cmd.clone());
            false
        },
        |_: &Thing, _: &Thing| Ok(true),
    );
    assert_eq!(SearchResult::Cancelled, res);
    // The failing command was handed to the runner; nothing after it ran.
    assert_eq!(vec!["fails".to_string()], *ran.borrow());
}

#[test]
fn test_regenerator_error_cancels() {
    let mut rec = Recipe::new();
    let t = |s: &str| Pseudo(s.to_string());
    rec.add_rule(t("a"), vec![t("b")], vec!["cmd".to_string()]);
    let res = rec.evaluate(
        &t("a"),
        |_: &Recipe, _: &String| true,
        |_: &Thing, _: &Thing| Err("io trouble".to_string()),
    );
    assert_eq!(SearchResult::Cancelled, res);
}

#[test]
fn test_unknown_variable_in_command_cancels() {
    let mut rec = Recipe::new();
    let t = |s: &str| Pseudo(s.to_string());
    rec.add_rule(t("a"), vec![], vec!["$MISSING".to_string()]);
    let res = rec.evaluate(
        &t("a"),
        |_: &Recipe, _: &String| true,
        |_: &Thing, _: &Thing| Ok(true),
    );
    assert_eq!(SearchResult::Cancelled, res);
}
