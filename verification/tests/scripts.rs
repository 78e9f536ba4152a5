//! The commands of a script, one by one.

use incremental_skolem::nnf::RawFormula;
use incremental_skolem::reading::{parse_formula, parse_term, Failure};
use incremental_skolem::sexpr::{parse_all, ParseError};
use incremental_skolem::smt2::{InterpError, Interpreter};
use incremental_skolem::term::Term;
use incremental_skolem::z3_bridge::{default_context, BridgeError};
use std::rc::Rc;
use vstd::hash_map::StringHashMap;
use z3::SatResult;

fn session() -> Interpreter {
    Interpreter::new(&default_context())
}

fn run(src: &str) -> Interpreter {
    let mut interp = session();
    interp.run_source(src).unwrap();
    interp
}

fn results(src: &str) -> Vec<SatResult> {
    run(src).results
}

fn error(src: &str) -> InterpError {
    match session().try_run_source(src) {
        Some(Err(e)) => e,
        other => panic!("expected an error, got {:?}", other),
    }
}

fn semantic(src: &str) -> String {
    match error(src) {
        InterpError::Semantic(message) => message,
        other => panic!("expected a semantic error, got {:?}", other),
    }
}

fn stuck(src: &str) -> bool {
    session().try_run_source(src).is_none()
}

#[test]
fn malformed_text_is_a_parse_error() {
    assert!(matches!(error("(assert"), InterpError::Parse(m) if m == "unclosed '('"));
    assert!(matches!(error(")"), InterpError::Parse(m) if m == "unexpected ')'"));
    // Nothing was run.
    let mut interp = session();
    assert!(interp.run_source("(check-sat) (").is_err());
    assert!(interp.results.is_empty());
}

#[test]
fn malformed_commands_are_semantic_errors() {
    assert_eq!(semantic("check-sat"), "top-level command must be a list");
    assert_eq!(semantic("((check-sat))"), "command head must be a symbol");
    assert_eq!(semantic("(declare-const (c) U)"), "declare-const: expected symbol name");
    assert_eq!(semantic("(declare-fun (f) () U)"), "declare-fun: expected symbol name");
    assert_eq!(semantic("(declare-fun f U U)"), "declare-fun: expected domain sort list");
    assert_eq!(semantic("(assert ((P) c))"), "formula head must be a symbol");
    assert_eq!(semantic("(assert (P ((f) c)))"), "term head must be a symbol");
    assert_eq!(semantic("(assert (= a ((f))))"), "term head must be a symbol");
    assert_eq!(semantic("(assert (forall x (P x)))"), "quantifier: expected binding list");
    assert_eq!(semantic("(assert (forall (x) (P x)))"), "quantifier binding must be (name sort)");
    assert_eq!(
        semantic("(assert (exists (((x) U)) (P x)))"),
        "quantifier binding name must be a symbol"
    );
}

#[test]
fn a_command_without_its_parts_gets_stuck() {
    assert!(stuck("(assert)"));
    assert!(stuck("(declare-const)"));
    assert!(stuck("(declare-const c)"));
    assert!(stuck("(declare-fun)"));
    assert!(stuck("(declare-fun f)"));
    assert!(stuck("(declare-fun f ())"));
    assert!(stuck("(assert ())"));
    assert!(stuck("(assert (not))"));
    assert!(stuck("(assert (=>))"));
    assert!(stuck("(assert (=))"));
    assert!(stuck("(assert (= a))"));
    assert!(stuck("(assert (P ()))"));
    assert!(stuck("(assert (forall))"));
    assert!(stuck("(assert (forall ((x U))))"));
    assert!(stuck("(assert (exists (()) true))"));
    assert!(stuck("(assert (P \0))"));
    assert!(stuck("(assert |\0|)"));
}

/// What comes first decides.
#[test]
fn an_earlier_error_comes_before_a_missing_part() {
    assert_eq!(semantic("(declare-const (c))"), "declare-const: expected symbol name");
    assert_eq!(semantic("(assert (= ((f))))"), "term head must be a symbol");
    assert_eq!(semantic("(assert (forall x))"), "quantifier: expected binding list");
    assert!(!stuck("(exit) (assert)"));
    assert_eq!(semantic("() x (assert)"), "top-level command must be a list");
    let mut interp = session();
    assert!(interp.try_run_source("(check-sat) (assert) (check-sat)").is_none());
    assert_eq!(interp.results.len(), 1);
}

#[test]
fn exit_ends_the_script_and_empty_commands_do_nothing() {
    let interp = run("() (check-sat) (exit) (check-sat) nonsense");
    assert_eq!(interp.results, vec![SatResult::Sat]);
}

#[test]
fn unknown_commands_are_noted() {
    let interp = run("(get-model) (set-logic UF) (set-info :a b) (set-option :c d)
        (declare-sort U 0) (check-sat) (get-value (x)) (echo \"hi\")");
    assert_eq!(
        interp.diagnostics,
        vec![
            "ignored unsupported command: get-model",
            "ignored unsupported command: get-value",
            "ignored unsupported command: echo",
        ]
    );
    assert_eq!(interp.results, vec![SatResult::Sat]);
}

#[test]
fn a_session_goes_on_over_several_scripts() {
    let mut interp = session();
    interp.run_source("(assert (P a)) (check-sat)").unwrap();
    interp.run_source("(assert (not (P a))) (check-sat)").unwrap();
    assert_eq!(interp.results, vec![SatResult::Sat, SatResult::Unsat]);
    assert!(interp.run_source("(assert (P (())))").is_err());
    interp.run_source("(check-sat)").unwrap();
    assert_eq!(interp.results.len(), 3);
}

#[test]
fn push_and_pop_take_a_number() {
    assert_eq!(
        results(
            "(assert (P a)) (push 2) (assert (not (P a))) (check-sat) (pop 1) (check-sat)
             (push) (assert (not (P a))) (check-sat) (pop 2) (check-sat)
             (push x) (assert (not (P a))) (check-sat) (pop (1)) (check-sat)
             (push +1) (assert (not (P a))) (check-sat) (pop 0) (check-sat) (pop) (check-sat)
             (push 0) (check-sat)"
        ),
        vec![
            SatResult::Unsat,
            SatResult::Sat,
            SatResult::Unsat,
            SatResult::Sat,
            SatResult::Unsat,
            SatResult::Sat,
            SatResult::Unsat,
            SatResult::Unsat,
            SatResult::Sat,
            SatResult::Sat,
        ]
    );
}

#[test]
fn connectives_mean_what_they_say() {
    let verdict = |f: &str| results(&format!("(assert {}) (check-sat)", f))[0];
    assert_eq!(verdict("true"), SatResult::Sat);
    assert_eq!(verdict("false"), SatResult::Unsat);
    assert_eq!(verdict("(and)"), SatResult::Sat);
    assert_eq!(verdict("(or)"), SatResult::Unsat);
    assert_eq!(verdict("(not (and p (or q p) (not p)))"), SatResult::Sat);
    assert_eq!(verdict("(and p (not p))"), SatResult::Unsat);
    assert_eq!(verdict("(not (or p (not p)))"), SatResult::Unsat);
    assert_eq!(verdict("(not (=> p q p))"), SatResult::Unsat);
    assert_eq!(verdict("(not (=> p q))"), SatResult::Sat);
    assert_eq!(verdict("(and p (=> p false))"), SatResult::Unsat);
    assert_eq!(verdict("(=> p)"), SatResult::Sat);
    assert_eq!(verdict("(and (=> p q r) p q (not r))"), SatResult::Unsat);
    // Extra arguments of a negation are not read.
    assert_eq!(verdict("(not false (()))"), SatResult::Sat);
}

#[test]
fn distinct_terms_are_pairwise_different() {
    let verdict = |f: &str| results(&format!("(assert {}) (check-sat)", f))[0];
    assert_eq!(verdict("(distinct)"), SatResult::Sat);
    assert_eq!(verdict("(distinct a)"), SatResult::Sat);
    assert_eq!(verdict("(distinct a b c)"), SatResult::Sat);
    assert_eq!(verdict("(distinct a b a)"), SatResult::Unsat);
    assert_eq!(verdict("(and (distinct a b c) (= b c))"), SatResult::Unsat);
    assert_eq!(verdict("(and (distinct a b c) (= a c))"), SatResult::Unsat);
    assert_eq!(verdict("(not (distinct a b c))"), SatResult::Sat);
}

/// A name means the innermost variable that is in scope, and a constant where none is.
#[test]
fn names_are_looked_up_in_their_scope() {
    assert_eq!(
        results("(assert (forall ((x U)) (P x))) (assert (not (P x))) (check-sat)"),
        vec![SatResult::Unsat]
    );
    assert_eq!(
        results("(assert (and (forall ((x U)) (Q x)) (not (P x)))) (assert (P y)) (check-sat)"),
        vec![SatResult::Sat]
    );
    assert_eq!(
        results(
            "(assert (forall ((x U)) (and (exists ((x U)) (P x)) (not (P x))))) (check-sat)"
        ),
        vec![SatResult::Unsat]
    );
    assert_eq!(
        results("(assert (forall ((x U) (y U)) (= x y))) (assert (not (= a b))) (check-sat)"),
        vec![SatResult::Unsat]
    );
}

/// A name that one quantifier binds twice is still in scope behind it, and means nothing there.
#[test]
fn a_name_bound_twice_leaks() {
    match error("(assert (and (forall ((x U) (x U)) (P x)) (Q x)))") {
        InterpError::Bridge(message) => assert_eq!(message, "UnboundVariable(0)"),
        other => panic!("expected a bridge error, got {:?}", other),
    }
    match error("(assert (and (forall ((y U) (x U) (x U)) (P x)) (Q x)))") {
        InterpError::Bridge(message) => assert_eq!(message, "UnboundVariable(1)"),
        other => panic!("expected a bridge error, got {:?}", other),
    }
    assert_eq!(results("(assert (forall ((x U) (x U)) (P x))) (check-sat)"), vec![SatResult::Sat]);
}

/// A script in which no quantifier binds a name twice is never refused by the bridge.
#[test]
fn names_bound_once_are_never_refused() {
    let formulas = vec![
        "(and (forall ((x U) (y U)) (P x y)) (P x y))",
        "(forall ((x U)) (and (exists ((x U)) (P x)) (forall ((y U)) (P x y)) (P y x)))",
        "(=> (exists ((x U)) (= x y)) (distinct x y z))",
        "(not (or (forall () (P x)) (exists ((x U) (z U)) (not (P z x)))))",
    ];
    for f in formulas {
        assert_eq!(results(&format!("(assert {}) (check-sat)", f)).len(), 1);
    }
}

#[test]
fn errors_of_the_parts_become_errors_of_the_script() {
    let e = InterpError::from(ParseError("no".to_string()));
    assert!(matches!(e, InterpError::Parse(m) if m == "no"));
    let e = InterpError::from(BridgeError::UnskolemizedExistential);
    assert!(matches!(e, InterpError::Bridge(m) if m == "UnskolemizedExistential"));
    let e = InterpError::from(BridgeError::UnboundVariable(u32::MAX));
    assert!(matches!(e, InterpError::Bridge(m) if m == "UnboundVariable(4294967295)"));
    let debug = format!("{:?}", BridgeError::UnboundVariable(17));
    let e = InterpError::from(BridgeError::UnboundVariable(17));
    assert!(matches!(e, InterpError::Bridge(m) if m == debug));
}

/// Declarations are optional and change nothing.
#[test]
fn declarations_change_nothing() {
    let bare = "(assert (P c)) (assert (not (P d))) (check-sat)";
    let declared = format!(
        "(declare-sort U 0) (declare-const c U) (declare-const b Bool) (declare-fun d () U)
         (declare-fun P (U) Bool) (declare-const e (Array U U)) {}",
        bare
    );
    assert_eq!(results(bare), results(&declared));
}

fn read(src: &str) -> Result<RawFormula, Failure> {
    let parsed = parse_all(src).unwrap();
    let mut env: StringHashMap<u32> = StringHashMap::new();
    let mut counter: u32 = 0;
    parse_formula(&parsed[0], &mut env, &mut counter)
}

fn shown(src: &str) -> String {
    format!("{:?}", read(src).unwrap())
}

/// The names of quantified variables make no difference to what is read.
#[test]
fn renamed_variables_read_alike() {
    let one = "(forall ((x U) (y U)) (=> (P x y) (exists ((z U)) (and (Q z x c) (distinct y z)))))";
    let two = "(forall ((b U) (x U)) (=> (P b x) (exists ((y U)) (and (Q y b c) (distinct x y)))))";
    assert_eq!(shown(one), shown(two));
    // Another order of the variables does.
    let three = "(forall ((y U) (x U)) (=> (P x y) (exists ((z U)) (and (Q z x c) (distinct y z)))))";
    assert_ne!(shown(one), shown(three));
}

#[test]
fn variables_are_numbered_in_the_order_of_their_quantifiers() {
    let f = read("(and (forall ((x U)) (P x)) (exists ((x U) (y U)) (P y)))").unwrap();
    let RawFormula::And(parts) = f else { panic!("expected And") };
    assert!(matches!(&parts[0], RawFormula::ForAll(vars, _) if *vars == vec![0]));
    let RawFormula::Exists(vars, body) = &parts[1] else { panic!("expected Exists") };
    assert_eq!(*vars, vec![1, 2]);
    let RawFormula::Pred { name, args } = &**body else { panic!("expected Pred") };
    assert_eq!(name, "P");
    assert_eq!(*args, vec![Rc::new(Term::Var(2))]);
}

#[test]
fn terms_are_read_with_the_variables_in_scope() {
    let mut env: StringHashMap<u32> = StringHashMap::new();
    env.insert("x".to_string(), 7);
    let parsed = parse_all("(f x (g) 12)").unwrap();
    let t = parse_term(&parsed[0], &env).unwrap();
    let constant = |name: &str| Rc::new(Term::Func(name.to_string(), vec![]));
    assert_eq!(
        *t,
        Term::Func(
            "f".to_string(),
            vec![Rc::new(Term::Var(7)), constant("g"), constant("12")],
        )
    );
    let parsed = parse_all("()").unwrap();
    assert!(matches!(parse_term(&parsed[0], &env), Err(Failure::Stuck)));
}

#[test]
fn the_number_of_variables_is_limited() {
    let parsed = parse_all("(forall ((x U) (y U)) true)").unwrap();
    let mut env: StringHashMap<u32> = StringHashMap::new();
    let mut counter: u32 = u32::MAX - 1;
    assert!(matches!(parse_formula(&parsed[0], &mut env, &mut counter), Err(Failure::Stuck)));
    let mut env: StringHashMap<u32> = StringHashMap::new();
    let mut counter: u32 = u32::MAX - 2;
    assert!(parse_formula(&parsed[0], &mut env, &mut counter).is_ok());
    assert_eq!(counter, u32::MAX);
}

/// Of a formula that cannot be read, the bindings around the failure are left in scope, and those of
/// quantifiers before it are not.
#[test]
fn a_failed_reading_leaves_its_bindings() {
    let parsed = parse_all(
        "(and (forall ((a U)) (P a)) (forall ((x U) (y U)) (exists ((x U)) ((P) x))) (Q y))",
    )
    .unwrap();
    let mut env: StringHashMap<u32> = StringHashMap::new();
    env.insert("z".to_string(), 9);
    let mut counter: u32 = 10;
    assert!(matches!(parse_formula(&parsed[0], &mut env, &mut counter), Err(Failure::Wrong(_))));
    assert_eq!(counter, 14);
    assert_eq!(env.get("a"), None);
    assert_eq!(env.get("x"), Some(&13));
    assert_eq!(env.get("y"), Some(&12));
    assert_eq!(env.get("z"), Some(&9));
    assert_eq!(env.len(), 3);

    // A binding that cannot be read leaves those before it.
    let parsed = parse_all("(exists ((x U) y) (P x))").unwrap();
    let mut env: StringHashMap<u32> = StringHashMap::new();
    let mut counter: u32 = 0;
    assert!(matches!(parse_formula(&parsed[0], &mut env, &mut counter), Err(Failure::Wrong(_))));
    assert_eq!((counter, env.get("x"), env.len()), (1, Some(&0), 1));
}

/// A symbol that looks like a Skolem symbol does no harm as long as that one is not minted.
#[test]
fn symbols_that_are_not_minted_do_no_harm() {
    assert_eq!(
        results(
            "(assert (exists ((x U)) (P x))) (assert (not (P sk!2))) (assert (Q v!7))
             (check-sat) (assert (forall ((y U)) (= y sk!2))) (check-sat)"
        ),
        vec![SatResult::Sat, SatResult::Unsat]
    );
}

/// Backtracking and asserting again: every symbol is found again, and the answers stay the same.
#[test]
fn backtracking_costs_no_symbols() {
    let mut interp = session();
    let visit = "(push 1)
        (assert (forall ((x U)) (exists ((y U)) (and (Edge x y) (exists ((z U)) (Far y z))))))
        (assert (exists ((s U)) (forall ((t U)) (not (Edge s t)))))
        (check-sat) (pop 1)";
    interp.run_source(visit).unwrap();
    assert_eq!(interp.solver_stats(), (3, 0, 3));
    for round in 1..5usize {
        interp.run_source(visit).unwrap();
        assert_eq!(interp.solver_stats(), (3, 3 * round, 3));
    }
    assert_eq!(interp.results, vec![SatResult::Unsat; 5]);
}

/// Definite answers are right for the formulas as written.
#[test]
fn answers_fit_the_formulas() {
    // Something is related to everything, so everything has something related to it.
    assert_eq!(
        results(
            "(assert (exists ((x U)) (forall ((y U)) (R x y))))
             (assert (not (forall ((y U)) (exists ((x U)) (R x y)))))
             (check-sat)"
        ),
        vec![SatResult::Unsat]
    );
    // Not the other way round.
    assert_eq!(
        results(
            "(assert (forall ((y U)) (exists ((x U)) (R x y))))
             (assert (not (= a b)))
             (assert (not (R a b)))
             (check-sat)"
        ),
        vec![SatResult::Sat]
    );
}

#[test]
fn answers_are_recorded_in_order() {
    let mut interp = run("(check-sat)");
    interp.record(SatResult::Unknown);
    interp.record(SatResult::Unsat);
    assert_eq!(interp.results, vec![SatResult::Sat, SatResult::Unknown, SatResult::Unsat]);
}

/// Leaving more scopes than were entered is no error of the script.
#[test]
fn leaving_too_many_scopes_is_no_error() {
    let interp = run("(push 1) (pop 4) (check-sat)");
    assert_eq!(interp.results.len(), 1);
}
