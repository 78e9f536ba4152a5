//! The mathematical values that terms and formulas stand for.

use vstd::prelude::*;

verus! {

/// A variable of first-order logic.
pub type VarId = u32;

/// A first-order term.
#[verifier::ext_equal]
pub enum TermModel {
    Var(VarId),
    Func(Seq<char>, Seq<TermModel>),
}

/// A first-order formula in negation normal form.
#[verifier::ext_equal]
pub enum FormulaModel {
    Pred { name: Seq<char>, args: Seq<TermModel>, negated: bool },
    And(Box<FormulaModel>, Box<FormulaModel>),
    Or(Box<FormulaModel>, Box<FormulaModel>),
    ForAll(VarId, Box<FormulaModel>),
    Exists(VarId, Box<FormulaModel>),
    True,
    False,
}

/// `t` with `rep` in place of every occurrence of the variable `var`.
pub open spec fn subst_term(t: TermModel, var: VarId, rep: TermModel) -> TermModel
    decreases t,
{
    match t {
        TermModel::Var(v) => if v == var {
            rep
        } else {
            t
        },
        TermModel::Func(name, args) => TermModel::Func(
            name,
            Seq::new(
                args.len(),
                |i: int|
                    if 0 <= i < args.len() {
                        subst_term(args[i], var, rep)
                    } else {
                        args[i]
                    },
            ),
        ),
    }
}

/// Substitution in each term of a list.
pub open spec fn subst_terms(args: Seq<TermModel>, var: VarId, rep: TermModel) -> Seq<TermModel> {
    Seq::new(args.len(), |i: int| subst_term(args[i], var, rep))
}

/// `f` with `rep` in place of every occurrence of `var` that `f` does not bind.
pub open spec fn subst(f: FormulaModel, var: VarId, rep: TermModel) -> FormulaModel
    decreases f,
{
    match f {
        FormulaModel::Pred { name, args, negated } => FormulaModel::Pred {
            name,
            args: subst_terms(args, var, rep),
            negated,
        },
        FormulaModel::And(l, r) => FormulaModel::And(
            Box::new(subst(*l, var, rep)),
            Box::new(subst(*r, var, rep)),
        ),
        FormulaModel::Or(l, r) => FormulaModel::Or(
            Box::new(subst(*l, var, rep)),
            Box::new(subst(*r, var, rep)),
        ),
        FormulaModel::ForAll(v, body) => if v == var {
            f
        } else {
            FormulaModel::ForAll(v, Box::new(subst(*body, var, rep)))
        },
        FormulaModel::Exists(v, body) => if v == var {
            f
        } else {
            FormulaModel::Exists(v, Box::new(subst(*body, var, rep)))
        },
        FormulaModel::True | FormulaModel::False => f,
    }
}

/// Substitution in an application substitutes in each argument.
pub proof fn subst_term_func(name: Seq<char>, args: Seq<TermModel>, var: VarId, rep: TermModel)
    ensures
        subst_term(TermModel::Func(name, args), var, rep) == TermModel::Func(
            name,
            subst_terms(args, var, rep),
        ),
{
    assert(subst_term(TermModel::Func(name, args), var, rep)->Func_1 =~= subst_terms(
        args,
        var,
        rep,
    ));
}

/// How deeply connectives and quantifiers are nested.
pub open spec fn height(f: FormulaModel) -> nat
    decreases f,
{
    match f {
        FormulaModel::And(l, r) | FormulaModel::Or(l, r) => 1 + if height(*l) >= height(*r) {
            height(*l)
        } else {
            height(*r)
        },
        FormulaModel::ForAll(_, body) | FormulaModel::Exists(_, body) => 1 + height(*body),
        _ => 0,
    }
}

/// Substitution of terms leaves the nesting of a formula as it is.
pub proof fn subst_height(f: FormulaModel, var: VarId, rep: TermModel)
    ensures
        height(subst(f, var, rep)) == height(f),
    decreases f,
{
    match f {
        FormulaModel::And(l, r) | FormulaModel::Or(l, r) => {
            subst_height(*l, var, rep);
            subst_height(*r, var, rep);
        },
        FormulaModel::ForAll(v, body) | FormulaModel::Exists(v, body) => {
            subst_height(*body, var, rep);
        },
        _ => {},
    }
}

/// How many existential quantifiers a formula has.
pub open spec fn existentials(f: FormulaModel) -> nat
    decreases f,
{
    match f {
        FormulaModel::And(l, r) | FormulaModel::Or(l, r) => existentials(*l) + existentials(*r),
        FormulaModel::ForAll(_, body) => existentials(*body),
        FormulaModel::Exists(_, body) => 1 + existentials(*body),
        _ => 0,
    }
}

/// Substitution of terms leaves the quantifiers of a formula as they are.
pub proof fn subst_existentials(f: FormulaModel, var: VarId, rep: TermModel)
    ensures
        existentials(subst(f, var, rep)) == existentials(f),
    decreases f,
{
    match f {
        FormulaModel::And(l, r) | FormulaModel::Or(l, r) => {
            subst_existentials(*l, var, rep);
            subst_existentials(*r, var, rep);
        },
        FormulaModel::ForAll(v, body) | FormulaModel::Exists(v, body) => {
            subst_existentials(*body, var, rep);
        },
        _ => {},
    }
}

} // verus!
