//! Scripts, run against Z3.

use incremental_skolem::smt2::Interpreter;
use incremental_skolem::z3_bridge::default_context;
use z3::SatResult;

#[test]
fn identical_assert_text_across_push_pop_reuses_skolem_symbol() {
    let src =
        r#"
        (declare-fun Knows (U U) Bool)
        (push 1)
        (assert (forall ((x U)) (exists ((y U)) (Knows x y))))
        (check-sat)
        (pop 1)
        (push 1)
        (assert (forall ((x U)) (exists ((y U)) (Knows x y))))
        (check-sat)
    "#;

    let ctx = default_context();
    let mut interp = Interpreter::new(&ctx);
    interp.run_source(src).expect("script should run without errors");

    assert_eq!(interp.results, vec![SatResult::Sat, SatResult::Sat]);

    let (fresh, reuse, _size) = interp.solver_stats();
    assert_eq!(fresh, 1, "identical formula text should only mint one Skolem symbol");
    assert_eq!(reuse, 1, "the second identical assert should hit the cache");
}

/// Variables are numbered in the order in which an assertion introduces them, so their names make
/// no difference.
#[test]
fn same_shape_different_variable_names_reuses_skolem_symbol() {
    let src =
        r#"
        (declare-fun Knows (U U) Bool)
        (push 1)
        (assert (forall ((x U)) (exists ((y U)) (Knows x y))))
        (check-sat)
        (pop 1)
        (push 1)
        (assert (forall ((a U)) (exists ((b U)) (Knows a b))))
        (check-sat)
    "#;

    let ctx = default_context();
    let mut interp = Interpreter::new(&ctx);
    interp.run_source(src).expect("script should run without errors");

    let (fresh, reuse, _size) = interp.solver_stats();
    assert_eq!(fresh, 1, "same-shaped formula with different variable names should still reuse");
    assert_eq!(reuse, 1);
}
