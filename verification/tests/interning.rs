//! Sharing of formulas, and substitution.

use incremental_skolem::fingerprint::fingerprint;
use incremental_skolem::term::{
    mk_and, mk_exists, mk_false, mk_forall, mk_or, mk_pred, mk_true, substitute, substitute_term,
};
use incremental_skolem::{Formula, Interner, Term};
use std::rc::Rc;

fn var(v: u32) -> Rc<Term> {
    Rc::new(Term::Var(v))
}

fn func(name: &str, args: Vec<Rc<Term>>) -> Rc<Term> {
    Rc::new(Term::Func(name.to_string(), args))
}

#[test]
fn equal_formulas_share_one_allocation() {
    let mut interner = Interner::new();
    let a = mk_pred(&mut interner, "P", vec![var(0), func("f", vec![var(1)])], false);
    let b = mk_pred(&mut interner, "P", vec![var(0), func("f", vec![var(1)])], false);
    assert!(Rc::ptr_eq(&a, &b));
    let both = mk_and(&mut interner, a.clone(), b.clone());
    let again = mk_and(&mut interner, b, a);
    assert!(Rc::ptr_eq(&both, &again));
    assert_eq!(interner.total, 4);
    assert_eq!(interner.hits, 2);
}

#[test]
fn different_formulas_are_kept_apart() {
    let mut interner = Interner::new();
    let mut all: Vec<Rc<Formula>> = Vec::new();
    all.push(mk_pred(&mut interner, "P", vec![var(0)], false));
    all.push(mk_pred(&mut interner, "P", vec![var(0)], true));
    all.push(mk_pred(&mut interner, "P", vec![var(1)], false));
    all.push(mk_pred(&mut interner, "Q", vec![var(0)], false));
    all.push(mk_pred(&mut interner, "P", vec![func("c", vec![])], false));
    all.push(mk_pred(&mut interner, "P", vec![], false));
    let (p, q) = (all[0].clone(), all[3].clone());
    all.push(mk_and(&mut interner, p.clone(), q.clone()));
    all.push(mk_and(&mut interner, q.clone(), p.clone()));
    all.push(mk_or(&mut interner, p.clone(), q));
    all.push(mk_forall(&mut interner, 0, p.clone()));
    all.push(mk_forall(&mut interner, 1, p.clone()));
    all.push(mk_exists(&mut interner, 0, p));
    all.push(mk_true(&mut interner));
    all.push(mk_false(&mut interner));
    for i in 0..all.len() {
        for j in 0..i {
            assert_ne!(all[i], all[j]);
            assert!(!Rc::ptr_eq(&all[i], &all[j]));
        }
    }
    assert_eq!(interner.hits, 0);
    assert_eq!(interner.total, all.len());
}

#[test]
fn many_formulas_can_be_found_again() {
    let mut interner = Interner::default();
    let make = |interner: &mut Interner, i: u32| {
        mk_pred(interner, "P", vec![var(i), func("f", vec![var(i / 2)])], i % 3 == 0)
    };
    let first: Vec<Rc<Formula>> = (0..500).map(|i| make(&mut interner, i)).collect();
    for i in 0..500u32 {
        let again = make(&mut interner, i);
        assert!(Rc::ptr_eq(&first[i as usize], &again));
    }
    assert_eq!(interner.hits, 500);
    assert_eq!(interner.total, 1000);
}

/// The requests that were no hits are as many as there are different formulas.
#[test]
fn different_formulas_are_counted() {
    let mut interner = Interner::new();
    let mut seen: Vec<Rc<Formula>> = Vec::new();
    for i in 0..60u32 {
        let hits = interner.hits;
        let f = mk_pred(&mut interner, "P", vec![var((i * i) % 11)], i % 2 == 0);
        let known = seen.contains(&f);
        assert_eq!(interner.hits, if known { hits + 1 } else { hits });
        if !known {
            seen.push(f);
        }
        assert_eq!(interner.total - interner.hits, seen.len());
    }
    assert_eq!(interner.total, 60);
}

#[test]
fn equal_formulas_have_equal_fingerprints() {
    let mut one = Interner::new();
    let mut other = Interner::new();
    let build = |interner: &mut Interner| {
        let p = mk_pred(interner, "P", vec![var(7)], true);
        let t = mk_true(interner);
        let both = mk_or(interner, p, t);
        mk_exists(interner, 7, both)
    };
    let (a, b) = (build(&mut one), build(&mut other));
    assert_eq!(a, b);
    assert_eq!(fingerprint(&a), fingerprint(&b));
}

#[test]
fn substitution_reaches_every_occurrence_in_a_term() {
    let t = func("f", vec![var(0), func("g", vec![var(1), var(0)]), func("c", vec![])]);
    let replaced = substitute_term(&t, 0, &func("h", vec![var(2)]));
    let h = func("h", vec![var(2)]);
    assert_eq!(*replaced, Term::Func(
        "f".to_string(),
        vec![h.clone(), func("g", vec![var(1), h]), func("c", vec![])],
    ));
    assert_eq!(*substitute_term(&t, 5, &var(9)), *t);
}

#[test]
fn substitution_stops_where_the_variable_is_bound() {
    let mut interner = Interner::new();
    let p = mk_pred(&mut interner, "P", vec![var(0), var(1)], false);
    let all = mk_forall(&mut interner, 0, p.clone());
    let some = mk_exists(&mut interner, 1, p.clone());
    let f = mk_and(&mut interner, all.clone(), some);
    let c = func("c", vec![]);
    let replaced = substitute(&mut interner, &f, 0, &c);
    let inner = mk_pred(&mut interner, "P", vec![c, var(1)], false);
    let some = mk_exists(&mut interner, 1, inner);
    let expected = mk_and(&mut interner, all.clone(), some);
    assert!(Rc::ptr_eq(&replaced, &expected));
    match &*replaced {
        Formula::And(l, _) => assert!(Rc::ptr_eq(l, &all)),
        other => panic!("expected And, got {:?}", other),
    }
}

#[test]
fn substitution_leaves_truth_values_alone() {
    let mut interner = Interner::new();
    let (t, f) = (mk_true(&mut interner), mk_false(&mut interner));
    let total = interner.total;
    assert!(Rc::ptr_eq(&substitute(&mut interner, &t, 0, &var(1)), &t));
    assert!(Rc::ptr_eq(&substitute(&mut interner, &f, 0, &var(1)), &f));
    assert_eq!(interner.total, total);
    let both = mk_or(&mut interner, t, f);
    let replaced = substitute(&mut interner, &both, 0, &var(1));
    assert!(Rc::ptr_eq(&replaced, &both));
}
