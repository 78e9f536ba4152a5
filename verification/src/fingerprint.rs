//! Fingerprints: a number computed from the structure of a formula. Equal formulas have equal
//! fingerprints; a fingerprint only narrows a search and never stands in for equality.

use crate::model::{FormulaModel, TermModel};
use crate::term::{Formula, Term};
use vstd::prelude::*;

verus! {

/// One step: folds `x` into `h`.
pub open spec fn fold(h: u64, x: u64) -> u64 {
    (h ^ x).wrapping_mul(0x100000001b3)
}

/// Folds the first `n` characters of `s` into `h`.
pub open spec fn fold_text(h: u64, s: Seq<char>, n: nat) -> u64
    decreases n,
{
    if n == 0 {
        h
    } else {
        fold(fold_text(h, s, (n - 1) as nat), s[n - 1] as u64)
    }
}

/// Folds a term into `h`.
pub open spec fn fold_term(h: u64, t: TermModel) -> u64
    decreases t, 0nat,
{
    match t {
        TermModel::Var(v) => fold(fold(h, 1), v as u64),
        TermModel::Func(name, args) => fold_terms(
            fold_text(fold(h, 2), name, name.len()),
            args,
            args.len(),
        ),
    }
}

/// Folds the first `n` terms of `args` into `h`.
pub open spec fn fold_terms(h: u64, args: Seq<TermModel>, n: nat) -> u64
    decreases args, n,
{
    if n == 0 || n > args.len() {
        fold(h, 3)
    } else {
        fold_term(fold_terms(h, args, (n - 1) as nat), args[n - 1])
    }
}

/// Folds a formula into `h`.
pub open spec fn fold_formula(h: u64, f: FormulaModel) -> u64
    decreases f,
{
    match f {
        FormulaModel::Pred { name, args, negated } => fold_terms(
            fold_text(fold(h, if negated { 4 } else { 5 }), name, name.len()),
            args,
            args.len(),
        ),
        FormulaModel::And(l, r) => fold_formula(fold_formula(fold(h, 6), *l), *r),
        FormulaModel::Or(l, r) => fold_formula(fold_formula(fold(h, 7), *l), *r),
        FormulaModel::ForAll(v, body) => fold_formula(fold(fold(h, 8), v as u64), *body),
        FormulaModel::Exists(v, body) => fold_formula(fold(fold(h, 9), v as u64), *body),
        FormulaModel::True => fold(h, 10),
        FormulaModel::False => fold(h, 11),
    }
}

/// The fingerprint of a formula.
pub open spec fn print_of(f: FormulaModel) -> u64 {
    fold_formula(0xcbf29ce484222325, f)
}

fn add_number(h: u64, x: u64) -> (r: u64)
    ensures
        r == fold(h, x),
{
    (h ^ x).wrapping_mul(0x100000001b3)
}

fn add_text(h: u64, s: &str) -> (r: u64)
    ensures
        r == fold_text(h, s@, s@.len()),
{
    let mut acc: u64 = h;
    for c in it: s.chars()
        invariant
            it.seq() == s@,
            acc == fold_text(h, s@, it.index() as nat),
    {
        acc = add_number(acc, c as u64);
    }
    acc
}

fn add_term(h: u64, t: &Term) -> (r: u64)
    ensures
        r == fold_term(h, t@),
    decreases t,
{
    match t {
        Term::Var(v) => {
            let tagged: u64 = add_number(h, 1);
            add_number(tagged, *v as u64)
        },
        Term::Func(name, args) => {
            let tagged: u64 = add_number(h, 2);
            let named: u64 = add_text(tagged, name);
            let mut acc: u64 = add_number(named, 3);
            let ghost models = t@->Func_1;
            let mut i: usize = 0;
            while i < args.len()
                invariant
                    *t == Term::Func(*name, *args),
                    models == t@->Func_1,
                    models.len() == args@.len(),
                    forall|k: int| 0 <= k < args@.len() ==> models[k] == (#[trigger] args@[k])@,
                    i <= args@.len(),
                    acc == fold_terms(named, models, i as nat),
                decreases args@.len() - i,
            {
                acc = add_term(acc, &args[i]);
                i += 1;
            }
            acc
        },
    }
}

/// Folds a formula into a running fingerprint.
pub fn add_formula(h: u64, f: &Formula) -> (r: u64)
    ensures
        r == fold_formula(h, f@),
    decreases f,
{
    match f {
        Formula::Pred { name, args, negated } => {
            let tagged: u64 = add_number(h, if *negated { 4 } else { 5 });
            let named: u64 = add_text(tagged, name);
            let mut acc: u64 = add_number(named, 3);
            let ghost models = f@->args;
            let mut i: usize = 0;
            while i < args.len()
                invariant
                    models.len() == args@.len(),
                    forall|k: int| 0 <= k < args@.len() ==> models[k] == (#[trigger] args@[k])@,
                    i <= args@.len(),
                    acc == fold_terms(named, models, i as nat),
                decreases args@.len() - i,
            {
                acc = add_term(acc, &args[i]);
                i += 1;
            }
            acc
        },
        Formula::And(l, r) => {
            let tagged: u64 = add_number(h, 6);
            let left: u64 = add_formula(tagged, l);
            add_formula(left, r)
        },
        Formula::Or(l, r) => {
            let tagged: u64 = add_number(h, 7);
            let left: u64 = add_formula(tagged, l);
            add_formula(left, r)
        },
        Formula::ForAll(v, body) => {
            let tagged: u64 = add_number(h, 8);
            let bound: u64 = add_number(tagged, *v as u64);
            add_formula(bound, body)
        },
        Formula::Exists(v, body) => {
            let tagged: u64 = add_number(h, 9);
            let bound: u64 = add_number(tagged, *v as u64);
            add_formula(bound, body)
        },
        Formula::True => add_number(h, 10),
        Formula::False => add_number(h, 11),
    }
}

/// The fingerprint of a formula.
pub fn fingerprint(f: &Formula) -> (r: u64)
    ensures
        r == print_of(f@),
{
    add_formula(0xcbf29ce484222325, f)
}

} // verus!
