//! Formulas, checked by Z3.

use incremental_skolem::term::{ mk_and, mk_exists, mk_forall, mk_pred, Interner, Term };
use incremental_skolem::z3_bridge::{ default_context, SkolemizingSolver };
use std::rc::Rc;
use z3::SatResult;

/// forall x. exists y. Loves(x, y)  -- "everyone loves someone" -- SAT
/// (skolemized: forall x. Loves(x, f1(x)), trivially satisfiable by an
/// uninterpreted predicate with no other constraints).
#[test]
fn everyone_loves_someone_is_sat() {
    let mut solver = SkolemizingSolver::new();
    let mut interner = Interner::new();

    let x = 0u32;
    let y = 1u32;
    let loves = mk_pred(
        &mut interner,
        "Loves",
        vec![Rc::new(Term::Var(x)), Rc::new(Term::Var(y))],
        false
    );
    let exists_y = mk_exists(&mut interner, y, loves);
    let formula = mk_forall(&mut interner, x, exists_y);

    solver.assert_formula(&formula).expect("translation should succeed");
    assert_eq!(solver.check_sat(), SatResult::Sat);

    let (fresh, reuse, size) = solver.stats();
    assert_eq!(fresh, 1);
    assert_eq!(reuse, 0);
    assert_eq!(size, 1);
}

/// A directly contradictory formula should be UNSAT even after
/// skolemization: forall x. (P(x) and not P(x)).
#[test]
fn direct_contradiction_is_unsat() {
    let mut solver = SkolemizingSolver::new();
    let mut interner = Interner::new();

    let x = 0u32;
    let p_pos = mk_pred(&mut interner, "P", vec![Rc::new(Term::Var(x))], false);
    let p_neg = mk_pred(&mut interner, "P", vec![Rc::new(Term::Var(x))], true);
    let contradiction = mk_and(&mut interner, p_pos, p_neg);
    let formula = mk_forall(&mut interner, x, contradiction);

    solver.assert_formula(&formula).expect("translation should succeed");
    assert_eq!(solver.check_sat(), SatResult::Unsat);
}

/// Asserting the same formula again after backtracking mints nothing, and Z3's answer is the same.
#[test]
fn push_pop_reassert_reuses_skolem_symbol_and_stays_sat() {
    let mut solver = SkolemizingSolver::new();
    let mut interner = Interner::new();

    let build_formula = |interner: &mut Interner| {
        let x = 0u32;
        let y = 1u32;
        let p = mk_pred(
            interner,
            "Knows",
            vec![Rc::new(Term::Var(x)), Rc::new(Term::Var(y))],
            false
        );
        let exists_y = mk_exists(interner, y, p);
        mk_forall(interner, x, exists_y)
    };

    solver.push();
    let formula_a = build_formula(&mut interner);
    solver.assert_formula(&formula_a).unwrap();
    assert_eq!(solver.check_sat(), SatResult::Sat);
    solver.pop(1);

    solver.push();
    let formula_b = build_formula(&mut interner); // same Interner -> structurally identical -> same Rc
    solver.assert_formula(&formula_b).unwrap();
    assert_eq!(solver.check_sat(), SatResult::Sat);

    let (fresh, reuse, _size) = solver.stats();
    assert_eq!(fresh, 1, "only one Skolem symbol should ever have been minted");
    assert_eq!(reuse, 1, "the second assertion should have hit the cache");
}

/// An existential with nothing around it has a constant for its witness, the same one both times.
#[test]
fn reused_skolem_symbol_is_referentially_the_same_function_in_z3() {
    let mut solver = SkolemizingSolver::new();
    let mut interner = Interner::new();

    // exists y. R(y)  under deps=[] (a Skolem CONSTANT, not a function)
    let build = |interner: &mut Interner| {
        let y = 0u32;
        let r = mk_pred(interner, "R", vec![Rc::new(Term::Var(y))], false);
        mk_exists(interner, y, r)
    };

    solver.push();
    let f1 = build(&mut interner);
    solver.assert_formula(&f1).unwrap();
    solver.pop(1);

    solver.push();
    let f2 = build(&mut interner);
    solver.assert_formula(&f2).unwrap();

    assert_eq!(solver.check_sat(), SatResult::Sat);
    let (fresh, reuse, _) = solver.stats();
    assert_eq!(fresh, 1);
    assert_eq!(reuse, 1);
}
