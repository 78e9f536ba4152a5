//! The table of Skolem symbols.

use incremental_skolem::skolem_table::{
    SkolemKey, SkolemTable, DEFAULT_IDLE_WINDOW, DEFAULT_SOFT_CAPACITY,
};
use incremental_skolem::term::{mk_and, mk_exists, mk_forall, mk_or, mk_pred};
use incremental_skolem::text::{numeral_of, Counter};
use incremental_skolem::{Formula, Interner, Skolemizer, Term};
use std::rc::Rc;

fn body(interner: &mut Interner, name: &str) -> Rc<Formula> {
    mk_pred(interner, name, vec![Rc::new(Term::Var(0))], false)
}

#[test]
fn symbols_are_numbered_in_order() {
    let mut interner = Interner::new();
    let mut table = SkolemTable::new("f_");
    for i in 1..=12 {
        let b = body(&mut interner, &format!("P{}", i));
        let entry = table.get_or_create(&b, &[1, 2]);
        assert_eq!(entry.symbol, format!("f_{}", i));
        assert_eq!(entry.deps, vec![1, 2]);
        assert_eq!(entry.introduced_at_scope, 0);
    }
    assert_eq!(table.len(), 12);
    assert_eq!(table.slot_count(), 12);
    assert_eq!((table.fresh_generations, table.reuse_hits), (12, 0));
}

#[test]
fn the_key_is_the_body_and_the_ordered_dependencies() {
    let mut interner = Interner::new();
    let mut table = SkolemTable::new("sk");
    let (p, q) = (body(&mut interner, "P"), body(&mut interner, "Q"));
    let first = table.get_or_create(&p, &[1, 2]);
    let symbols = vec![
        table.get_or_create(&p, &[2, 1]).symbol,
        table.get_or_create(&p, &[1]).symbol,
        table.get_or_create(&p, &[]).symbol,
        table.get_or_create(&q, &[1, 2]).symbol,
    ];
    assert_eq!(symbols, vec!["sk2", "sk3", "sk4", "sk5"]);
    let again = table.get_or_create(&p, &[1, 2]);
    assert_eq!(again.symbol, first.symbol);
    assert_eq!((table.fresh_generations, table.reuse_hits), (5, 1));
    assert_eq!(SkolemKey::new(&p, &[1, 2]), SkolemKey::new(&p, &[1, 2]));
    assert_ne!(SkolemKey::new(&p, &[1, 2]), SkolemKey::new(&p, &[2, 1]));
    assert_ne!(SkolemKey::new(&p, &[]), SkolemKey::new(&q, &[]));
}

/// Equal bodies count as one, also when they are separate allocations.
#[test]
fn bodies_are_compared_by_structure() {
    let mut table = SkolemTable::new("sk");
    let (mut one, mut other) = (Interner::new(), Interner::new());
    let (a, b) = (body(&mut one, "P"), body(&mut other, "P"));
    assert!(!Rc::ptr_eq(&a, &b));
    assert_eq!(table.get_or_create(&a, &[]).symbol, "sk1");
    assert_eq!(table.get_or_create(&b, &[]).symbol, "sk1");
    assert_eq!(table.reuse_hits, 1);
}

#[test]
fn depth_follows_the_scopes_and_stops_at_the_outermost() {
    let mut interner = Interner::new();
    let mut table = SkolemTable::new("sk");
    assert_eq!(table.current_scope(), 0);
    table.push();
    table.push();
    table.push();
    assert_eq!(table.current_scope(), 3);
    let b = body(&mut interner, "P");
    assert_eq!(table.get_or_create(&b, &[]).introduced_at_scope, 3);
    table.pop(2);
    assert_eq!(table.current_scope(), 1);
    table.pop(7);
    assert_eq!(table.current_scope(), 0);
    table.pop(0);
    assert_eq!(table.current_scope(), 0);
    assert_eq!(table.len(), 1);
}

#[test]
fn collecting_a_scope_drops_what_was_introduced_there_or_deeper() {
    let mut interner = Interner::new();
    let mut table = SkolemTable::new("sk");
    let bodies: Vec<Rc<Formula>> = (0..4)
        .map(|i| body(&mut interner, &format!("P{}", i)))
        .collect();
    for b in &bodies {
        table.get_or_create(b, &[]);
        table.push();
    }
    table.gc_scope(2);
    assert_eq!(table.len(), 2);
    assert_eq!(table.slot_count(), 4);
    assert_eq!(table.get_or_create(&bodies[0], &[]).symbol, "sk1");
    assert_eq!(table.get_or_create(&bodies[1], &[]).symbol, "sk2");
    assert_eq!(table.get_or_create(&bodies[2], &[]).symbol, "sk5");
    assert_eq!(table.slot_count(), 4);
    table.gc_scope(0);
    assert_eq!(table.len(), 0);
    assert_eq!(table.get_or_create(&bodies[0], &[]).symbol, "sk6");
}

/// An entry is cold when it has been idle for more scope changes than the window, not before.
#[test]
fn the_window_is_counted_in_scope_changes_since_the_last_use() {
    let mut interner = Interner::new();
    let mut table = SkolemTable::with_capacity("sk", 100, 3);
    let b = body(&mut interner, "P");
    table.get_or_create(&b, &[]);
    for _ in 0..3 {
        table.push();
    }
    assert_eq!(table.evict_cold(), 0);
    assert_eq!(table.get_or_create(&b, &[]).symbol, "sk1");
    for _ in 0..3 {
        table.pop(1);
    }
    assert_eq!(table.evict_cold(), 0);
    table.push();
    assert_eq!(table.evict_cold(), 1);
    assert_eq!(table.evict_cold(), 0);
    assert_eq!(table.get_or_create(&b, &[]).symbol, "sk2");
}

/// A full table drops its cold entries before it mints a symbol, and grows if none is cold.
#[test]
fn a_full_table_drops_what_is_cold() {
    let mut interner = Interner::new();
    let mut table = SkolemTable::with_capacity("sk", 2, 1);
    let bodies: Vec<Rc<Formula>> = (0..6)
        .map(|i| body(&mut interner, &format!("P{}", i)))
        .collect();
    table.get_or_create(&bodies[0], &[]);
    table.get_or_create(&bodies[1], &[]);
    table.get_or_create(&bodies[2], &[]);
    assert_eq!((table.len(), table.slot_count()), (3, 3));
    table.push();
    table.get_or_create(&bodies[1], &[]);
    table.push();
    table.get_or_create(&bodies[3], &[]);
    assert_eq!((table.len(), table.slot_count()), (2, 3));
    assert_eq!(table.get_or_create(&bodies[1], &[]).symbol, "sk2");
    assert_eq!(table.get_or_create(&bodies[0], &[]).symbol, "sk5");
    assert_eq!((table.len(), table.slot_count()), (3, 3));
    assert_eq!(table.get_or_create(&bodies[4], &[]).symbol, "sk6");
    assert_eq!((table.len(), table.slot_count()), (4, 4));
}

#[test]
fn a_new_table_has_the_default_limits() {
    assert_eq!(DEFAULT_SOFT_CAPACITY, 4096);
    assert_eq!(DEFAULT_IDLE_WINDOW, 1024);
    let mut interner = Interner::new();
    let mut table = SkolemTable::new("sk");
    let b = body(&mut interner, "P");
    table.get_or_create(&b, &[]);
    for _ in 0..512 {
        table.push();
        table.pop(1);
    }
    assert_eq!(table.evict_cold(), 0);
    table.push();
    assert_eq!(table.evict_cold(), 1);
}

/// However entries come and go, no name is handed out for two keys.
#[test]
fn a_name_belongs_to_one_key_forever() {
    let mut interner = Interner::new();
    let mut table = SkolemTable::with_capacity("sk", 3, 1);
    let bodies: Vec<Rc<Formula>> = (0..8)
        .map(|i| body(&mut interner, &format!("P{}", i)))
        .collect();
    let mut owner: Vec<(String, usize)> = Vec::new();
    for round in 0..60usize {
        let i = (round * 5 + round / 7) % bodies.len();
        let entry = table.get_or_create(&bodies[i], &[]);
        for (name, k) in &owner {
            if *name == entry.symbol {
                assert_eq!(*k, i);
            }
        }
        owner.push((entry.symbol, i));
        if round % 2 == 0 {
            table.push();
        }
        if round % 5 == 0 {
            table.evict_cold();
        }
    }
    assert!(table.slot_count() <= bodies.len());
}

/// Two lookups agree exactly if their keys do and the entry was kept in between.
#[test]
fn lookups_agree_on_kept_keys() {
    let mut interner = Interner::new();
    let mut table = SkolemTable::with_capacity("sk", 100, 2);
    let (p, q) = (body(&mut interner, "P"), body(&mut interner, "Q"));
    table.push();
    let first = table.get_or_create(&p, &[1]);
    table.push();
    table.get_or_create(&q, &[1]);
    table.evict_cold();
    table.gc_scope(2);
    table.pop(2);
    let second = table.get_or_create(&p, &[1]);
    assert_eq!(
        (second.symbol, second.deps, second.introduced_at_scope),
        (first.symbol.clone(), vec![1], 1)
    );
    assert_eq!((table.fresh_generations, table.reuse_hits, table.len()), (2, 1, 1));
    table.gc_scope(1);
    assert_ne!(table.get_or_create(&p, &[1]).symbol, first.symbol);
}

/// The counts belong together: what is live was created and not dropped, and every lookup creates
/// a symbol or finds one.
#[test]
fn counts_belong_together() {
    let mut interner = Interner::new();
    let mut table = SkolemTable::with_capacity("sk", 3, 1);
    let bodies: Vec<Rc<Formula>> = (0..7)
        .map(|i| body(&mut interner, &format!("P{}", i)))
        .collect();
    let mut dropped = 0;
    for round in 1..=80usize {
        let fresh = table.fresh_generations;
        let len = table.len();
        let entry = table.get_or_create(&bodies[(round * round) % 7], &[]);
        if table.fresh_generations > fresh {
            assert_eq!(entry.symbol, format!("sk{}", fresh + 1));
            dropped += len + 1 - table.len();
        }
        match round % 4 {
            0 => table.push(),
            1 => table.pop(1),
            2 => dropped += table.evict_cold(),
            _ => {
                let len = table.len();
                table.gc_scope(1);
                dropped += len - table.len();
            }
        }
        assert_eq!(table.len() + dropped, table.fresh_generations);
        assert_eq!(table.fresh_generations + table.reuse_hits, round);
    }
}

#[test]
fn entries_can_be_copied() {
    let mut interner = Interner::new();
    let mut table = SkolemTable::new("sk");
    let b = body(&mut interner, "P");
    let entry = table.get_or_create(&b, &[4]);
    let copy = entry.clone();
    assert_eq!((copy.symbol, copy.deps, copy.introduced_at_scope), ("sk1".to_string(), vec![4], 0));
}

/// Every existential goes, from the outside in and from left to right, and each witness depends on
/// the universal variables around it.
#[test]
fn nested_existentials_get_their_own_witnesses() {
    let mut interner = Interner::new();
    let mut table = SkolemTable::new("sk");
    let args = vec![Rc::new(Term::Var(0)), Rc::new(Term::Var(1)), Rc::new(Term::Var(2))];
    let p = mk_pred(&mut interner, "P", args, false);
    let q = mk_pred(&mut interner, "Q", vec![Rc::new(Term::Var(3))], true);
    let some_q = mk_exists(&mut interner, 3, q);
    let inner = mk_exists(&mut interner, 2, p);
    let inner = mk_forall(&mut interner, 1, inner);
    let left = mk_exists(&mut interner, 0, inner);
    let both = mk_or(&mut interner, left, some_q);
    let t = Rc::new(Formula::True);
    let whole = mk_and(&mut interner, both, t);

    let mut pass = Skolemizer::new(&mut interner, &mut table);
    let result = pass.skolemize(&whole, &[]);

    let c = Rc::new(Term::Func("sk1".to_string(), vec![]));
    let y = Rc::new(Term::Var(1));
    let f = Rc::new(Term::Func("sk2".to_string(), vec![y.clone()]));
    let d = Rc::new(Term::Func("sk3".to_string(), vec![]));
    let p = mk_pred(&mut interner, "P", vec![c, y, f], false);
    let left = mk_forall(&mut interner, 1, p);
    let right = mk_pred(&mut interner, "Q", vec![d], true);
    let expected = Formula::And(mk_or(&mut interner, left, right), Rc::new(Formula::True));
    assert_eq!(*result, expected);
    assert_eq!(table.fresh_generations, 3);

    // The same formula again, in another scope: nothing new.
    table.push();
    let again = Skolemizer::new(&mut interner, &mut table).skolemize(&whole, &[]);
    assert!(Rc::ptr_eq(&again, &result));
    assert_eq!((table.fresh_generations, table.reuse_hits), (3, 3));
}

/// Work between two passes over a formula makes no difference to the second: it finds one symbol
/// for each existential.
#[test]
fn passes_find_their_symbols_after_other_work() {
    let mut interner = Interner::new();
    let mut table = SkolemTable::new("sk");
    let exists = |interner: &mut Interner, name: &str| {
        let p = body(interner, name);
        mk_exists(interner, 0, p)
    };
    let (a, b) = (exists(&mut interner, "A"), exists(&mut interner, "B"));
    let inner = mk_forall(&mut interner, 5, b);
    let f = mk_or(&mut interner, a, inner);
    let first = Skolemizer::new(&mut interner, &mut table).skolemize(&f, &[7]);
    for i in 0..20 {
        table.push();
        let other = exists(&mut interner, &format!("C{}", i % 4));
        Skolemizer::new(&mut interner, &mut table).skolemize(&other, &[i % 2]);
        if i % 3 == 0 {
            table.pop(2);
        }
    }
    let (fresh, reused, len) = (table.fresh_generations, table.reuse_hits, table.len());
    let second = Skolemizer::new(&mut interner, &mut table).skolemize(&f, &[7]);
    assert!(Rc::ptr_eq(&first, &second));
    assert_eq!((table.fresh_generations, table.reuse_hits, table.len()), (fresh, reused + 2, len));
}

#[test]
fn counters_count_in_decimal() {
    let mut counter = Counter::new();
    assert_eq!(counter.numeral(), "0");
    for i in 1..=1234u32 {
        counter.next();
        assert_eq!(counter.numeral(), i.to_string());
        assert_eq!(numeral_of(i), i.to_string());
    }
    assert_eq!(numeral_of(0), "0");
    assert_eq!(numeral_of(u32::MAX), "4294967295");
}
