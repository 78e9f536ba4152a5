//! The Skolemization pass and the table of symbols.

use incremental_skolem::term::{mk_exists, mk_forall, mk_pred};
use incremental_skolem::{Formula, Interner, SkolemTable, Skolemizer, Term};
use std::rc::Rc;

/// Builds: forall x. exists y. P(x, y)
/// Skolemizing should produce: forall x. P(x, f1(x))
fn build_simple_formula(interner: &mut Interner) -> Rc<Formula> {
    let x: u32 = 0;
    let y: u32 = 1;
    let p = mk_pred(interner, "P", vec![Rc::new(Term::Var(x)), Rc::new(Term::Var(y))], false);
    let exists_y = mk_exists(interner, y, p);
    mk_forall(interner, x, exists_y)
}

#[test]
fn basic_skolemization_produces_dependent_symbol() {
    let mut interner = Interner::new();
    let mut table = SkolemTable::new("sk");
    let formula = build_simple_formula(&mut interner);

    let mut skolemizer = Skolemizer::new(&mut interner, &mut table);
    let result = skolemizer.skolemize(&formula, &[]);

    // Expect: ForAll(x, Pred("P", [Var(x), Func("sk1", [Var(x)])]))
    match &*result {
        Formula::ForAll(x, body) => {
            match &**body {
                Formula::Pred { name, args, .. } => {
                    assert_eq!(name, "P");
                    assert_eq!(args.len(), 2);
                    match &*args[1] {
                        Term::Func(sym, fargs) => {
                            assert_eq!(sym, "sk1");
                            assert_eq!(fargs.len(), 1); // depends on x
                            assert_eq!(*fargs[0], Term::Var(*x));
                        }
                        other => panic!("expected Skolem function term, got {:?}", other),
                    }
                }
                other => panic!("expected Pred, got {:?}", other),
            }
        }
        other => panic!("expected ForAll, got {:?}", other),
    }
    assert_eq!(table.fresh_generations, 1);
    assert_eq!(table.reuse_hits, 0);
}

/// Enter a scope, assert, leave it, enter another and assert the same formula again: the second
/// time every symbol is found.
#[test]
fn identical_formula_reasserted_after_pop_reuses_skolem_symbol() {
    let mut interner = Interner::new();
    let mut table = SkolemTable::new("sk");

    table.push(); // enter scope 1
    let formula_a = build_simple_formula(&mut interner);
    let result_a = {
        let mut sk = Skolemizer::new(&mut interner, &mut table);
        sk.skolemize(&formula_a, &[])
    };
    table.pop(1); // back to scope 0 (as SMT-LIB pop would do)

    table.push(); // enter scope 1 again -- different push, same content
    let formula_b = build_simple_formula(&mut interner); // structurally identical, re-interned to same Rc
    let result_b = {
        let mut sk = Skolemizer::new(&mut interner, &mut table);
        sk.skolemize(&formula_b, &[])
    };

    assert_eq!(result_a, result_b, "skolemized output should be identical");
    assert_eq!(table.fresh_generations, 1, "only ONE symbol should ever have been minted");
    assert_eq!(table.reuse_hits, 1, "the second assertion should be a cache hit");
}

/// The same body under other universal variables needs another symbol: its witness takes other
/// arguments.
#[test]
fn same_body_different_deps_does_not_reuse() {
    let mut interner = Interner::new();
    let mut table = SkolemTable::new("sk");
    let mut sk = Skolemizer::new(&mut interner, &mut table);

    let x: u32 = 0;
    let z: u32 = 2;
    let y: u32 = 1;
    let p = mk_pred(sk.interner, "P", vec![Rc::new(Term::Var(y))], false);
    let exists_y = mk_exists(sk.interner, y, p);

    // exists y. P(y), under deps=[x]
    sk.skolemize(&exists_y, &[x]);
    // structurally the SAME formula `exists_y`, but under deps=[z] this time
    sk.skolemize(&exists_y, &[z]);

    assert_eq!(
        table.fresh_generations,
        2,
        "different dependency contexts must not share a Skolem symbol"
    );
}

/// An entry that is idle for longer than the window can be evicted, and the next formula takes its
/// slot.
#[test]
fn evict_cold_reclaims_and_recycles_slot() {
    let mut interner = Interner::new();
    let mut table = SkolemTable::with_capacity("sk", 4096, 5);

    let formula_a = build_simple_formula(&mut interner);
    {
        let mut sk = Skolemizer::new(&mut interner, &mut table);
        sk.skolemize(&formula_a, &[]);
    }
    assert_eq!(table.len(), 1);
    assert_eq!(table.slot_count(), 1);

    // advance the epoch clock well past the idle window without
    // touching formula_a's entry
    for _ in 0..10 {
        table.push();
        table.pop(1);
    }

    let freed = table.evict_cold();
    assert_eq!(freed, 1);
    assert_eq!(table.len(), 0);
    assert_eq!(table.slot_count(), 1, "slot should be freed, not deallocated");

    // a DIFFERENT formula should recycle the freed slot rather than
    // growing the slot array
    let x: u32 = 10;
    let y: u32 = 11;
    let p2 = mk_pred(
        &mut interner,
        "Q",
        vec![Rc::new(Term::Var(x)), Rc::new(Term::Var(y))],
        false
    );
    let exists_y2 = mk_exists(&mut interner, y, p2);
    let formula_b = mk_forall(&mut interner, x, exists_y2);
    {
        let mut sk = Skolemizer::new(&mut interner, &mut table);
        sk.skolemize(&formula_b, &[]);
    }
    assert_eq!(table.slot_count(), 1, "freed slot should have been recycled, not grown");
    assert_eq!(
        table.fresh_generations,
        2,
        "the recycled slot's formula is genuinely new -> fresh symbol"
    );
}

/// A formula that comes back after its entry was evicted gets a name that nothing had before.
#[test]
fn evicted_then_recreated_entry_gets_a_fresh_never_reused_name() {
    let mut interner = Interner::new();
    let mut table = SkolemTable::with_capacity("sk", 4096, 3);

    let formula_a = build_simple_formula(&mut interner);
    let original_symbol = {
        let mut sk = Skolemizer::new(&mut interner, &mut table);
        let result = sk.skolemize(&formula_a, &[]);
        extract_skolem_symbol(&result)
    };

    for _ in 0..10 {
        table.push();
        table.pop(1);
    }
    table.evict_cold();

    // re-assert the SAME formula after eviction: must mint a fresh
    // name, not silently collide with anything
    let recreated_symbol = {
        let mut sk = Skolemizer::new(&mut interner, &mut table);
        let result = sk.skolemize(&formula_a, &[]);
        extract_skolem_symbol(&result)
    };

    assert_ne!(
        original_symbol,
        recreated_symbol,
        "names must never be reused, even across eviction"
    );
}

fn extract_skolem_symbol(f: &Rc<Formula>) -> String {
    match &**f {
        Formula::ForAll(_, body) =>
            match &**body {
                Formula::Pred { args, .. } =>
                    match &*args[1] {
                        Term::Func(sym, _) => sym.clone(),
                        other => panic!("expected Skolem function term, got {:?}", other),
                    }
                other => panic!("expected Pred, got {:?}", other),
            }
        other => panic!("expected ForAll, got {:?}", other),
    }
}

/// Tables are independent: each counts its own symbols.
#[test]
fn naive_baseline_always_mints_fresh_symbols() {
    let mut interner = Interner::new();
    let formula = build_simple_formula(&mut interner);

    let mut symbols = Vec::new();
    for _ in 0..3 {
        let mut fresh_table = SkolemTable::new("sk"); // no state carried over -- the naive baseline
        let mut sk = Skolemizer::new(&mut interner, &mut fresh_table);
        let result = sk.skolemize(&formula, &[]);
        if let Formula::ForAll(_, body) = &*result {
            if let Formula::Pred { args, .. } = &**body {
                if let Term::Func(sym, _) = &*args[1] {
                    symbols.push(sym.clone());
                }
            }
        }
    }
    assert_eq!(symbols, vec!["sk1", "sk1", "sk1"]);
}
