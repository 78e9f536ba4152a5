//! The Skolemization pass.
//!
//! On formulas in negation normal form it is a single pass from the top: a universal quantifier
//! adds a variable to the dependencies, and an existential one is replaced by a Skolem term over
//! the dependencies, whose symbol comes from the table.

use crate::model::{height, subst, subst_height, FormulaModel, TermModel, VarId};
use crate::skolem_table::{KeyModel, SkolemTable, TableModel};
use crate::term::{
    func_view, subst_interned, substitute, term_models, Formula, Interner, InternerModel, Term,
};
use std::rc::Rc;
use vstd::prelude::*;
use vstd::slice::slice_to_vec;

verus! {

/// The variables as terms.
pub open spec fn var_terms(deps: Seq<VarId>) -> Seq<TermModel> {
    Seq::new(deps.len(), |i: int| TermModel::Var(deps[i]))
}

/// The symbol applied to the dependencies.
pub open spec fn skolem_term(symbol: Seq<char>, deps: Seq<VarId>) -> TermModel {
    TermModel::Func(symbol, var_terms(deps))
}

/// The body of an existential with the Skolem term for the bound variable, where the symbol comes
/// from the table `t`.
pub open spec fn witnessed(
    v: VarId,
    body: FormulaModel,
    deps: Seq<VarId>,
    t: TableModel,
) -> FormulaModel {
    subst(body, v, skolem_term(t.entry_for(KeyModel { body, deps }).symbol, deps))
}

/// The formula without its existentials, under the universal variables `deps`, and the table that
/// the pass leaves. Parts are visited from left to right and from the outside in.
pub open spec fn skolemized(f: FormulaModel, deps: Seq<VarId>, t: TableModel) -> (
    FormulaModel,
    TableModel,
)
    decreases height(f),
    via skolemized_decreases
{
    match f {
        FormulaModel::And(l, r) => {
            let (nl, t1) = skolemized(*l, deps, t);
            let (nr, t2) = skolemized(*r, deps, t1);
            (FormulaModel::And(Box::new(nl), Box::new(nr)), t2)
        },
        FormulaModel::Or(l, r) => {
            let (nl, t1) = skolemized(*l, deps, t);
            let (nr, t2) = skolemized(*r, deps, t1);
            (FormulaModel::Or(Box::new(nl), Box::new(nr)), t2)
        },
        FormulaModel::ForAll(v, body) => {
            let (nb, t1) = skolemized(*body, deps.push(v), t);
            (FormulaModel::ForAll(v, Box::new(nb)), t1)
        },
        FormulaModel::Exists(v, body) => skolemized(
            witnessed(v, *body, deps, t),
            deps,
            t.looked_up(KeyModel { body: *body, deps }),
        ),
        _ => (f, t),
    }
}

#[via_fn]
proof fn skolemized_decreases(f: FormulaModel, deps: Seq<VarId>, t: TableModel) {
    if let FormulaModel::Exists(v, body) = f {
        subst_height(*body, v, skolem_term(t.entry_for(KeyModel { body: *body, deps }).symbol, deps));
    }
}

/// What the pass leaves in the interner.
pub open spec fn skolem_interned(
    m: InternerModel,
    f: FormulaModel,
    deps: Seq<VarId>,
    t: TableModel,
) -> InternerModel
    decreases height(f),
    via skolem_interned_decreases
{
    match f {
        FormulaModel::And(l, r) | FormulaModel::Or(l, r) => skolem_interned(
            skolem_interned(m, *l, deps, t),
            *r,
            deps,
            skolemized(*l, deps, t).1,
        ).interned(skolemized(f, deps, t).0),
        FormulaModel::ForAll(v, body) => skolem_interned(m, *body, deps.push(v), t).interned(
            skolemized(f, deps, t).0,
        ),
        FormulaModel::Exists(v, body) => skolem_interned(
            subst_interned(
                m,
                *body,
                v,
                skolem_term(t.entry_for(KeyModel { body: *body, deps }).symbol, deps),
            ),
            witnessed(v, *body, deps, t),
            deps,
            t.looked_up(KeyModel { body: *body, deps }),
        ),
        _ => m,
    }
}

#[via_fn]
proof fn skolem_interned_decreases(
    m: InternerModel,
    f: FormulaModel,
    deps: Seq<VarId>,
    t: TableModel,
) {
    if let FormulaModel::Exists(v, body) = f {
        subst_height(*body, v, skolem_term(t.entry_for(KeyModel { body: *body, deps }).symbol, deps));
    }
}

/// The pass, at work on an interner and a table that outlive it.
pub struct Skolemizer<'a> {
    pub interner: &'a mut Interner,
    pub table: &'a mut SkolemTable,
}

impl<'a> Skolemizer<'a> {
    /// A pass over the given interner and table.
    pub fn new(interner: &'a mut Interner, table: &'a mut SkolemTable) -> (r: Skolemizer<'a>)
        ensures
            *r.interner == *old(interner),
            *r.table == *old(table),
            *final(r.interner) == *final(interner),
            *final(r.table) == *final(table),
    {
        Skolemizer { interner, table }
    }

    /// Removes the existentials of `f`, which stands under the universal variables `deps`.
    pub fn skolemize(&mut self, f: &Rc<Formula>, deps: &[VarId]) -> (r: Rc<Formula>)
        requires
            old(self).interner.wf(),
            old(self).table.wf(),
        ensures
            final(self).interner.wf(),
            final(self).table.wf(),
            r@ == skolemized(f@, deps@, old(self).table@).0,
            final(self).table@ == skolemized(f@, deps@, old(self).table@).1,
            final(self).interner@ == skolem_interned(
                old(self).interner@,
                f@,
                deps@,
                old(self).table@,
            ),
            *final(final(self).interner) == *final(old(self).interner),
            *final(final(self).table) == *final(old(self).table),
        decreases height(f@),
    {
        match &**f {
            Formula::Pred { .. } => f.clone(),
            Formula::And(l, r) => {
                let nl = self.skolemize(l, deps);
                let nr = self.skolemize(r, deps);
                self.interner.intern(Formula::And(nl, nr))
            },
            Formula::Or(l, r) => {
                let nl = self.skolemize(l, deps);
                let nr = self.skolemize(r, deps);
                self.interner.intern(Formula::Or(nl, nr))
            },
            Formula::ForAll(v, body) => {
                let mut new_deps: Vec<VarId> = slice_to_vec(deps);
                new_deps.push(*v);
                let new_body = self.skolemize(body, new_deps.as_slice());
                self.interner.intern(Formula::ForAll(*v, new_body))
            },
            Formula::Exists(v, body) => {
                let entry = self.table.get_or_create(body, deps);
                let args = terms_of(deps);
                proof {
                    func_view(entry.symbol, args);
                    subst_height(body@, *v, skolem_term(entry.symbol@, deps@));
                }
                let term = Rc::new(Term::Func(entry.symbol, args));
                let substituted = substitute(self.interner, body, *v, &term);
                self.skolemize(&substituted, deps)
            },
            Formula::True => f.clone(),
            Formula::False => f.clone(),
        }
    }
}

/// The variables as terms.
fn terms_of(deps: &[VarId]) -> (r: Vec<Rc<Term>>)
    ensures
        term_models(r@) == var_terms(deps@),
{
    let mut terms: Vec<Rc<Term>> = Vec::new();
    let mut i: usize = 0;
    while i < deps.len()
        invariant
            i <= deps@.len(),
            terms@.len() == i,
            forall|k: int| 0 <= k < i ==> (#[trigger] terms@[k])@ == TermModel::Var(deps@[k]),
        decreases deps@.len() - i,
    {
        terms.push(Rc::new(Term::Var(deps[i])));
        i += 1;
    }
    assert(term_models(terms@) =~= var_terms(deps@));
    terms
}

} // verus!
