//! Conversion to negation normal form.

use incremental_skolem::nnf::{to_nnf, RawFormula};
use incremental_skolem::term::{Formula, Interner, Term};
use std::rc::Rc;

#[test]
fn not_of_and_becomes_or_of_negated_atoms() {
    let mut interner = Interner::new();
    // not (P and Q)  ->  (not P) or (not Q)
    let raw = RawFormula::Not(
        Box::new(
            RawFormula::And(
                vec![
                    RawFormula::Pred { name: "P".into(), args: vec![] },
                    RawFormula::Pred { name: "Q".into(), args: vec![] }
                ]
            )
        )
    );
    let result = to_nnf(&mut interner, &raw, true);
    match &*result {
        Formula::Or(l, r) => {
            assert!(matches!(&**l, Formula::Pred { negated: true, name, .. } if name == "P"));
            assert!(matches!(&**r, Formula::Pred { negated: true, name, .. } if name == "Q"));
        }
        other => panic!("expected Or, got {:?}", other),
    }
}

#[test]
fn not_of_forall_becomes_exists_of_negated_body() {
    let mut interner = Interner::new();
    let raw = RawFormula::Not(
        Box::new(
            RawFormula::ForAll(
                vec![0],
                Box::new(RawFormula::Pred {
                    name: "P".into(),
                    args: vec![Rc::new(Term::Var(0))],
                })
            )
        )
    );
    let result = to_nnf(&mut interner, &raw, true);
    match &*result {
        Formula::Exists(v, body) => {
            assert_eq!(*v, 0);
            assert!(matches!(&**body, Formula::Pred { negated: true, .. }));
        }
        other => panic!("expected Exists, got {:?}", other),
    }
}

#[test]
fn implies_under_negation_becomes_and() {
    let mut interner = Interner::new();
    // not (P => Q)  ->  P and not Q
    let raw = RawFormula::Not(
        Box::new(
            RawFormula::Implies(
                Box::new(RawFormula::Pred { name: "P".into(), args: vec![] }),
                Box::new(RawFormula::Pred { name: "Q".into(), args: vec![] })
            )
        )
    );
    let result = to_nnf(&mut interner, &raw, true);
    match &*result {
        Formula::And(l, r) => {
            assert!(matches!(&**l, Formula::Pred { negated: false, name, .. } if name == "P"));
            assert!(matches!(&**r, Formula::Pred { negated: true, name, .. } if name == "Q"));
        }
        other => panic!("expected And, got {:?}", other),
    }
}

fn atom(name: &str, args: Vec<Rc<Term>>) -> RawFormula {
    RawFormula::Pred { name: name.to_string(), args }
}

fn var(v: u32) -> Rc<Term> {
    Rc::new(Term::Var(v))
}

/// The value of a term over the domain {0, 1}: `c` is 1, `f` swaps the elements.
fn value(t: &Term, env: &Vec<(u32, u8)>) -> u8 {
    match t {
        Term::Var(v) => env.iter().rev().find(|e| e.0 == *v).map(|e| e.1).unwrap_or(0),
        Term::Func(name, args) => match name.as_str() {
            "c" => 1,
            _ => 1 - value(&args[0], env),
        },
    }
}

/// `P` holds of 1, `Q` holds of two elements in order, and any other predicate of nothing.
fn related(name: &str, args: &[u8]) -> bool {
    match name {
        "P" => args == [1],
        "Q" => args.len() == 2 && args[0] < args[1],
        _ => false,
    }
}

fn raw_holds(f: &RawFormula, env: &Vec<(u32, u8)>) -> bool {
    match f {
        RawFormula::Pred { name, args } => {
            let values: Vec<u8> = args.iter().map(|a| value(a, env)).collect();
            related(name, &values)
        }
        RawFormula::Not(inner) => !raw_holds(inner, env),
        RawFormula::And(items) => items.iter().all(|f| raw_holds(f, env)),
        RawFormula::Or(items) => items.iter().any(|f| raw_holds(f, env)),
        RawFormula::Implies(l, r) => !raw_holds(l, env) || raw_holds(r, env),
        RawFormula::ForAll(vars, body) => assignments(vars, env).iter().all(|e| raw_holds(body, e)),
        RawFormula::Exists(vars, body) => assignments(vars, env).iter().any(|e| raw_holds(body, e)),
        RawFormula::True => true,
        RawFormula::False => false,
    }
}

fn assignments(vars: &[u32], env: &Vec<(u32, u8)>) -> Vec<Vec<(u32, u8)>> {
    let mut all = vec![env.clone()];
    for v in vars {
        let mut next = Vec::new();
        for e in &all {
            for d in 0..2u8 {
                let mut longer = e.clone();
                longer.push((*v, d));
                next.push(longer);
            }
        }
        all = next;
    }
    all
}

fn holds(f: &Formula, env: &Vec<(u32, u8)>) -> bool {
    match f {
        Formula::Pred { name, args, negated } => {
            let values: Vec<u8> = args.iter().map(|a| value(a, env)).collect();
            related(name, &values) != *negated
        }
        Formula::And(l, r) => holds(l, env) && holds(r, env),
        Formula::Or(l, r) => holds(l, env) || holds(r, env),
        Formula::ForAll(v, body) => assignments(&[*v], env).iter().all(|e| holds(body, e)),
        Formula::Exists(v, body) => assignments(&[*v], env).iter().any(|e| holds(body, e)),
        Formula::True => true,
        Formula::False => false,
    }
}

/// The normal form holds exactly where the formula does, and that of the negation where it does
/// not.
#[test]
fn normal_form_keeps_the_meaning() {
    let samples = vec![
        RawFormula::ForAll(
            vec![0, 1],
            Box::new(RawFormula::Implies(
                Box::new(atom("Q", vec![var(0), var(1)])),
                Box::new(atom("P", vec![var(1)])),
            )),
        ),
        RawFormula::Exists(
            vec![0],
            Box::new(RawFormula::Not(Box::new(RawFormula::Or(vec![
                atom("P", vec![var(0)]),
                atom("P", vec![Rc::new(Term::Func("f".to_string(), vec![var(0)]))]),
            ])))),
        ),
        RawFormula::Not(Box::new(RawFormula::ForAll(
            vec![0],
            Box::new(RawFormula::Exists(
                vec![1],
                Box::new(RawFormula::And(vec![
                    RawFormula::True,
                    atom("Q", vec![var(0), var(1)]),
                    RawFormula::Not(Box::new(RawFormula::False)),
                ])),
            )),
        ))),
        atom("P", vec![Rc::new(Term::Func("c".to_string(), vec![]))]),
        RawFormula::And(vec![]),
        RawFormula::Or(vec![]),
    ];
    let mut interner = Interner::new();
    let nothing = Vec::new();
    for raw in &samples {
        let positive = to_nnf(&mut interner, raw, true);
        let negative = to_nnf(&mut interner, raw, false);
        assert_eq!(holds(&positive, &nothing), raw_holds(raw, &nothing));
        assert_eq!(holds(&negative, &nothing), !raw_holds(raw, &nothing));
    }
}

#[test]
fn empty_junctions_are_truth_values() {
    let mut interner = Interner::new();
    assert_eq!(*to_nnf(&mut interner, &RawFormula::And(vec![]), true), Formula::True);
    assert_eq!(*to_nnf(&mut interner, &RawFormula::And(vec![]), false), Formula::False);
    assert_eq!(*to_nnf(&mut interner, &RawFormula::Or(vec![]), true), Formula::False);
    assert_eq!(*to_nnf(&mut interner, &RawFormula::Or(vec![]), false), Formula::True);
    assert_eq!(*to_nnf(&mut interner, &RawFormula::True, false), Formula::False);
    assert_eq!(*to_nnf(&mut interner, &RawFormula::False, false), Formula::True);
}

#[test]
fn junctions_nest_to_the_right_and_quantifiers_inwards() {
    let mut interner = Interner::new();
    let raw = RawFormula::ForAll(
        vec![3, 4],
        Box::new(RawFormula::And(vec![
            atom("A", vec![]),
            atom("B", vec![]),
            atom("C", vec![]),
        ])),
    );
    let pred = |name: &str, negated: bool| {
        Rc::new(Formula::Pred { name: name.to_string(), args: vec![], negated })
    };
    let positive = to_nnf(&mut interner, &raw, true);
    let inner = Formula::And(
        pred("A", false),
        Rc::new(Formula::And(pred("B", false), pred("C", false))),
    );
    assert_eq!(
        *positive,
        Formula::ForAll(3, Rc::new(Formula::ForAll(4, Rc::new(inner))))
    );
    let negative = to_nnf(&mut interner, &raw, false);
    let inner =
        Formula::Or(pred("A", true), Rc::new(Formula::Or(pred("B", true), pred("C", true))));
    assert_eq!(
        *negative,
        Formula::Exists(3, Rc::new(Formula::Exists(4, Rc::new(inner))))
    );
}

#[test]
fn a_single_part_stands_for_itself() {
    let mut interner = Interner::new();
    let part = atom("A", vec![]);
    let alone = to_nnf(&mut interner, &part, true);
    let total = interner.total;
    let joined = to_nnf(&mut interner, &RawFormula::Or(vec![part.clone()]), true);
    assert!(Rc::ptr_eq(&alone, &joined));
    assert_eq!(interner.total, total + 1);
    assert!(matches!(&part, RawFormula::Pred { name, .. } if name == "A"));
}
