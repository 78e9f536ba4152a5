//! The Skolemizing solver: what it tells Z3, and what it refuses.

use incremental_skolem::term::{
    mk_and, mk_exists, mk_false, mk_forall, mk_or, mk_pred, mk_true, Formula, Interner, Term,
};
use incremental_skolem::z3_bridge::{BridgeError, SkolemizingSolver};
use std::rc::Rc;
use z3::SatResult;

fn var(v: u32) -> Rc<Term> {
    Rc::new(Term::Var(v))
}

fn constant(name: &str) -> Rc<Term> {
    Rc::new(Term::Func(name.to_string(), vec![]))
}

fn pred(name: &str, args: Vec<Rc<Term>>) -> Rc<Formula> {
    mk_pred(&mut Interner::new(), name, args, false)
}

fn not(name: &str, args: Vec<Rc<Term>>) -> Rc<Formula> {
    mk_pred(&mut Interner::new(), name, args, true)
}

fn check(formulas: &[Rc<Formula>]) -> SatResult {
    let mut solver = SkolemizingSolver::new();
    for f in formulas {
        solver.assert_formula(f).unwrap();
    }
    solver.check_sat()
}

#[test]
fn truth_values_are_translated() {
    let mut interner = Interner::new();
    let (t, f) = (mk_true(&mut interner), mk_false(&mut interner));
    assert_eq!(check(&[t.clone()]), SatResult::Sat);
    assert_eq!(check(&[f.clone()]), SatResult::Unsat);
    let both = mk_and(&mut interner, t.clone(), f.clone());
    assert_eq!(check(&[both]), SatResult::Unsat);
    let either = mk_or(&mut interner, t, f);
    assert_eq!(check(&[either]), SatResult::Sat);
}

#[test]
fn connectives_are_translated() {
    let mut interner = Interner::new();
    let (p, q) = (pred("P", vec![]), pred("Q", vec![]));
    let (not_p, not_q) = (not("P", vec![]), not("Q", vec![]));
    let either = mk_or(&mut interner, p.clone(), q.clone());
    assert_eq!(check(&[either.clone(), not_p.clone()]), SatResult::Sat);
    assert_eq!(check(&[either, not_p.clone(), not_q.clone()]), SatResult::Unsat);
    let both = mk_and(&mut interner, p.clone(), q.clone());
    assert_eq!(check(&[both.clone()]), SatResult::Sat);
    assert_eq!(check(&[both, not_q]), SatResult::Unsat);
    assert_eq!(check(&[p, not_p]), SatResult::Unsat);
}

/// A universal formula is about every element, also about those that other formulas name.
#[test]
fn quantifiers_range_over_the_domain() {
    let mut interner = Interner::new();
    let all = mk_forall(&mut interner, 0, pred("P", vec![var(0)]));
    assert_eq!(check(&[all.clone(), not("P", vec![constant("c")])]), SatResult::Unsat);
    assert_eq!(check(&[all.clone(), not("Q", vec![constant("c")])]), SatResult::Sat);
    let some_not = mk_exists(&mut interner, 3, not("P", vec![var(3)]));
    assert_eq!(check(&[all, some_not]), SatResult::Unsat);
}

/// An inner quantifier hides an outer variable of the same number, and gives it back.
#[test]
fn inner_quantifiers_shadow_outer_ones() {
    let mut interner = Interner::new();
    let inner = mk_forall(&mut interner, 0, pred("P", vec![var(0)]));
    let both = mk_and(&mut interner, inner, pred("Q", vec![var(0)]));
    let all = mk_forall(&mut interner, 0, both);
    assert_eq!(check(&[all.clone(), not("P", vec![constant("c")])]), SatResult::Unsat);
    assert_eq!(check(&[all.clone(), not("Q", vec![constant("c")])]), SatResult::Unsat);
    assert_eq!(check(&[all, not("R", vec![constant("c")])]), SatResult::Sat);
}

/// `=` between two terms is equality, not just any predicate.
#[test]
fn equality_is_real() {
    let (a, b) = (constant("a"), constant("b"));
    let equal = pred("=", vec![a.clone(), b.clone()]);
    let (p, not_p) = (pred("P", vec![a.clone()]), not("P", vec![b.clone()]));
    assert_eq!(check(&[equal.clone(), p.clone()]), SatResult::Sat);
    assert_eq!(check(&[equal.clone(), p, not_p]), SatResult::Unsat);
    assert_eq!(check(&[not("=", vec![a.clone(), a.clone()])]), SatResult::Unsat);
    assert_eq!(check(&[not("=", vec![a.clone(), b.clone()])]), SatResult::Sat);
    // With another number of arguments it is a predicate like any other.
    assert_eq!(check(&[not("=", vec![a.clone()])]), SatResult::Sat);
    assert_eq!(check(&[not("=", vec![a.clone(), a.clone(), a])]), SatResult::Sat);
}

/// A symbol is known by its name together with its number of arguments, and a predicate is not a
/// function.
#[test]
fn symbols_of_different_arity_are_different() {
    let c = constant("P");
    let f = Rc::new(Term::Func("P".to_string(), vec![c.clone()]));
    assert_eq!(
        check(&[
            pred("P", vec![c.clone()]),
            not("P", vec![c.clone(), c.clone()]),
            not("P", vec![]),
            not("P", vec![f.clone()]),
        ]),
        SatResult::Sat
    );
    assert_eq!(
        check(&[pred("P", vec![f.clone()]), not("P", vec![f.clone()])]),
        SatResult::Unsat
    );
}

/// Applications of one function to equal arguments are equal.
#[test]
fn functions_are_functions() {
    let f = |t: Rc<Term>| Rc::new(Term::Func("f".to_string(), vec![t]));
    let (a, b) = (constant("a"), constant("b"));
    assert_eq!(
        check(&[
            pred("=", vec![a.clone(), b.clone()]),
            not("=", vec![f(a.clone()), f(b.clone())]),
        ]),
        SatResult::Unsat
    );
    assert_eq!(
        check(&[
            not("=", vec![a.clone(), b.clone()]),
            pred("=", vec![f(a), f(b)]),
        ]),
        SatResult::Sat
    );
}

#[test]
fn free_variables_are_refused() {
    let mut solver = SkolemizingSolver::new();
    match solver.assert_formula(&pred("P", vec![constant("c"), var(4), var(5)])) {
        Err(BridgeError::UnboundVariable(4)) => {}
        other => panic!("expected an unbound variable, got {:?}", other),
    }
    // Nothing was asserted.
    solver.assert_formula(&not("P", vec![constant("c"), constant("d"), constant("e")])).unwrap();
    assert_eq!(solver.check_sat(), SatResult::Sat);
    // A variable is free again behind its quantifier.
    let mut interner = Interner::new();
    let all = mk_forall(&mut interner, 4, pred("P", vec![var(4)]));
    let both = mk_and(&mut interner, all, pred("Q", vec![var(4)]));
    assert!(matches!(solver.assert_formula(&both), Err(BridgeError::UnboundVariable(4))));
}

/// A refused formula still leaves its Skolem symbols in the table.
#[test]
fn a_refused_formula_counts_in_the_table() {
    let mut solver = SkolemizingSolver::new();
    let mut interner = Interner::new();
    let open = mk_exists(&mut interner, 0, pred("P", vec![var(0), var(1)]));
    assert!(solver.assert_formula(&open).is_err());
    assert_eq!(solver.stats(), (1, 0, 1));
}

#[test]
fn leaving_a_scope_takes_its_assertions_back() {
    let mut solver = SkolemizingSolver::new();
    let p = pred("P", vec![]);
    solver.assert_formula(&p).unwrap();
    solver.push();
    solver.push();
    solver.assert_formula(&not("P", vec![])).unwrap();
    assert_eq!(solver.check_sat(), SatResult::Unsat);
    solver.pop(0);
    assert_eq!(solver.check_sat(), SatResult::Unsat);
    solver.pop(2);
    assert_eq!(solver.check_sat(), SatResult::Sat);
    assert_eq!(solver.table_mut().current_scope(), 0);
}

#[test]
fn the_table_can_be_collected_by_hand() {
    let mut solver = SkolemizingSolver::new();
    let mut interner = Interner::new();
    let some = mk_exists(&mut interner, 0, pred("P", vec![var(0)]));
    solver.push();
    solver.assert_formula(&some).unwrap();
    solver.pop(1);
    assert_eq!(solver.stats(), (1, 0, 1));
    solver.table_mut().gc_scope(1);
    assert_eq!(solver.stats(), (1, 0, 0));
    solver.assert_formula(&some).unwrap();
    assert_eq!(solver.stats(), (2, 0, 1));
    assert_eq!(solver.check_sat(), SatResult::Sat);
}

/// The witness of an existential is one for all its uses: what is known of it the second time
/// adds to what was known the first time.
#[test]
fn the_same_existential_has_the_same_witness() {
    let mut solver = SkolemizingSolver::new();
    let mut interner = Interner::new();
    let p = pred("P", vec![var(0)]);
    let some = mk_exists(&mut interner, 0, p);
    solver.assert_formula(&some).unwrap();
    solver.push();
    solver.assert_formula(&some).unwrap();
    // The symbol is the first that the solver minted.
    solver.assert_formula(&not("P", vec![constant("sk!1")])).unwrap();
    assert_eq!(solver.check_sat(), SatResult::Unsat);
    solver.pop(1);
    assert_eq!(solver.check_sat(), SatResult::Sat);
    assert_eq!(solver.stats(), (1, 1, 1));
}

/// Witnesses under a universal quantifier depend on its variable.
#[test]
fn witnesses_depend_on_the_variables_around_them() {
    let mut interner = Interner::new();
    // Everything differs from something: true in a domain of two.
    let different = not("=", vec![var(0), var(1)]);
    let some = mk_exists(&mut interner, 1, different);
    let f = mk_forall(&mut interner, 0, some);
    assert_eq!(check(&[f.clone()]), SatResult::Sat);
    // Not if there is one thing only.
    let same = pred("=", vec![var(0), constant("c")]);
    let one = mk_forall(&mut interner, 0, same);
    assert_eq!(check(&[f, one]), SatResult::Unsat);
}

/// A name with a NUL in it cannot be declared in Z3, whether of a predicate or of a function.
#[test]
fn names_with_nul_get_stuck() {
    let mut solver = SkolemizingSolver::new();
    assert!(solver.try_assert_formula(&pred("P\0", vec![])).is_none());
    let nested = Rc::new(Term::Func("f".to_string(), vec![constant("c\0d")]));
    assert!(solver.try_assert_formula(&not("P", vec![nested])).is_none());
    let mut interner = Interner::new();
    let all = mk_forall(&mut interner, 0, pred("\0", vec![var(0)]));
    let t = mk_true(&mut interner);
    assert!(solver.try_assert_formula(&mk_or(&mut interner, t, all)).is_none());
    // Nothing was asserted.
    assert_eq!(solver.check_sat(), SatResult::Sat);
    assert!(matches!(solver.try_assert_formula(&pred("P", vec![])), Some(Ok(()))));
}

/// A name that is empty cannot be declared in Z3 either.
#[test]
fn empty_names_get_stuck() {
    let mut solver = SkolemizingSolver::new();
    assert!(solver.try_assert_formula(&pred("", vec![])).is_none());
    assert!(solver.try_assert_formula(&not("P", vec![constant("")])).is_none());
    let nested = Rc::new(Term::Func("".to_string(), vec![constant("c")]));
    assert!(solver.try_assert_formula(&pred("=", vec![nested, constant("c")])).is_none());
    // Nothing was asserted.
    assert_eq!(solver.check_sat(), SatResult::Sat);
}

/// Arguments come before the symbol that they are given to, and the left before the right.
#[test]
fn what_comes_first_decides() {
    let mut solver = SkolemizingSolver::new();
    let r = solver.try_assert_formula(&pred("P\0", vec![var(3)]));
    assert!(matches!(r, Some(Err(BridgeError::UnboundVariable(3)))));
    let r = solver.try_assert_formula(&pred("P", vec![constant("\0"), var(3)]));
    assert!(r.is_none());
    let mut interner = Interner::new();
    let f = mk_and(&mut interner, pred("P", vec![var(4)]), pred("\0", vec![]));
    let r = solver.try_assert_formula(&f);
    assert!(matches!(r, Some(Err(BridgeError::UnboundVariable(4)))));
    let f = mk_and(&mut interner, pred("\0", vec![]), pred("P", vec![var(4)]));
    assert!(solver.try_assert_formula(&f).is_none());
}
