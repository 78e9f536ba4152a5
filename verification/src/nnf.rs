//! Formulas as they are written, and their conversion to negation normal form.

use crate::model::{FormulaModel, TermModel, VarId};
use crate::term::{
    copy_terms, mk_and, mk_exists, mk_false, mk_forall, mk_or, mk_pred, mk_true, term_models,
    Formula, Interner, InternerModel, Term,
};
use std::rc::Rc;
use vstd::prelude::*;
use vstd::slice::slice_to_vec;

verus! {

/// A formula in which negation and implication may stand anywhere.
#[derive(Debug)]
pub enum RawFormula {
    Pred { name: String, args: Vec<Rc<Term>> },
    Not(Box<RawFormula>),
    And(Vec<RawFormula>),
    Or(Vec<RawFormula>),
    Implies(Box<RawFormula>, Box<RawFormula>),
    ForAll(Vec<VarId>, Box<RawFormula>),
    Exists(Vec<VarId>, Box<RawFormula>),
    True,
    False,
}

/// The value of a formula as written.
#[verifier::ext_equal]
pub enum RawModel {
    Pred { name: Seq<char>, args: Seq<TermModel> },
    Not(Box<RawModel>),
    And(Seq<RawModel>),
    Or(Seq<RawModel>),
    Implies(Box<RawModel>, Box<RawModel>),
    ForAll(Seq<VarId>, Box<RawModel>),
    Exists(Seq<VarId>, Box<RawModel>),
    True,
    False,
}

/// The value of a formula as written.
pub open spec fn raw_model(f: RawFormula) -> RawModel
    decreases f,
{
    match f {
        RawFormula::Pred { name, args } => RawModel::Pred { name: name@, args: term_models(args@) },
        RawFormula::Not(inner) => RawModel::Not(Box::new(raw_model(*inner))),
        RawFormula::And(items) => RawModel::And(
            Seq::new(
                items@.len(),
                |i: int|
                    if 0 <= i < items@.len() {
                        raw_model(items@[i])
                    } else {
                        RawModel::True
                    },
            ),
        ),
        RawFormula::Or(items) => RawModel::Or(
            Seq::new(
                items@.len(),
                |i: int|
                    if 0 <= i < items@.len() {
                        raw_model(items@[i])
                    } else {
                        RawModel::True
                    },
            ),
        ),
        RawFormula::Implies(l, r) => RawModel::Implies(
            Box::new(raw_model(*l)),
            Box::new(raw_model(*r)),
        ),
        RawFormula::ForAll(vars, body) => RawModel::ForAll(vars@, Box::new(raw_model(*body))),
        RawFormula::Exists(vars, body) => RawModel::Exists(vars@, Box::new(raw_model(*body))),
        RawFormula::True => RawModel::True,
        RawFormula::False => RawModel::False,
    }
}

impl View for RawFormula {
    type V = RawModel;

    open spec fn view(&self) -> RawModel {
        raw_model(*self)
    }
}

/// The values of a list of formulas as written.
pub open spec fn raw_models(items: Seq<RawFormula>) -> Seq<RawModel> {
    Seq::new(items.len(), |i: int| items[i]@)
}

/// The value of a conjunction or disjunction is that of the list of its parts.
pub proof fn junction_view(items: Vec<RawFormula>)
    ensures
        RawFormula::And(items)@ == RawModel::And(raw_models(items@)),
        RawFormula::Or(items)@ == RawModel::Or(raw_models(items@)),
{
    assert(RawFormula::And(items)@->And_0 =~= raw_models(items@));
    assert(RawFormula::Or(items)@->Or_0 =~= raw_models(items@));
}

impl Clone for RawFormula {
    fn clone(&self) -> (r: Self)
        ensures
            r@ == self@,
    {
        copy_raw(self)
    }
}

fn copy_raw(f: &RawFormula) -> (r: RawFormula)
    ensures
        r@ == f@,
    decreases *f, 0nat,
{
    match f {
        RawFormula::Pred { name, args } => RawFormula::Pred {
            name: name.clone(),
            args: copy_terms(args),
        },
        RawFormula::Not(inner) => RawFormula::Not(Box::new(copy_raw(inner))),
        RawFormula::And(items) => {
            let copies = copy_raws(items);
            proof {
                junction_view(*items);
                junction_view(copies);
            }
            RawFormula::And(copies)
        },
        RawFormula::Or(items) => {
            let copies = copy_raws(items);
            proof {
                junction_view(*items);
                junction_view(copies);
            }
            RawFormula::Or(copies)
        },
        RawFormula::Implies(l, r) => RawFormula::Implies(
            Box::new(copy_raw(l)),
            Box::new(copy_raw(r)),
        ),
        RawFormula::ForAll(vars, body) => RawFormula::ForAll(
            slice_to_vec(vars.as_slice()),
            Box::new(copy_raw(body)),
        ),
        RawFormula::Exists(vars, body) => RawFormula::Exists(
            slice_to_vec(vars.as_slice()),
            Box::new(copy_raw(body)),
        ),
        RawFormula::True => RawFormula::True,
        RawFormula::False => RawFormula::False,
    }
}

fn copy_raws(items: &Vec<RawFormula>) -> (r: Vec<RawFormula>)
    ensures
        raw_models(r@) == raw_models(items@),
    decreases *items, 0nat,
{
    let mut copies: Vec<RawFormula> = Vec::new();
    let mut i: usize = 0;
    while i < items.len()
        invariant
            i <= items@.len(),
            copies@.len() == i,
            forall|k: int| 0 <= k < i ==> (#[trigger] copies@[k])@ == items@[k]@,
        decreases items@.len() - i,
    {
        copies.push(copy_raw(&items[i]));
        i += 1;
    }
    assert(raw_models(copies@) =~= raw_models(items@));
    copies
}

/// The conjunction (or disjunction) of `parts`, nested to the right; the empty one is true (or
/// false).
pub open spec fn join(parts: Seq<FormulaModel>, conj: bool) -> FormulaModel
    decreases parts.len(),
{
    if parts.len() == 0 {
        if conj {
            FormulaModel::True
        } else {
            FormulaModel::False
        }
    } else if parts.len() == 1 {
        parts[0]
    } else if conj {
        FormulaModel::And(Box::new(parts[0]), Box::new(join(parts.skip(1), conj)))
    } else {
        FormulaModel::Or(Box::new(parts[0]), Box::new(join(parts.skip(1), conj)))
    }
}

/// `body` under one quantifier for each of `vars`, the first outermost.
pub open spec fn bind(vars: Seq<VarId>, body: FormulaModel, universal: bool) -> FormulaModel
    decreases vars.len(),
{
    if vars.len() == 0 {
        body
    } else if universal {
        FormulaModel::ForAll(vars[0], Box::new(bind(vars.skip(1), body, universal)))
    } else {
        FormulaModel::Exists(vars[0], Box::new(bind(vars.skip(1), body, universal)))
    }
}

/// The negation normal form of `f` where `polarity` is true, and of its negation where it is
/// false. Negation is pushed inwards by De Morgan's laws and the duality of the quantifiers.
pub open spec fn nnf(f: RawModel, polarity: bool) -> FormulaModel
    decreases f,
{
    match f {
        RawModel::Pred { name, args } => FormulaModel::Pred { name, args, negated: !polarity },
        RawModel::Not(inner) => nnf(*inner, !polarity),
        RawModel::And(items) => join(nnfs(items, polarity), polarity),
        RawModel::Or(items) => join(nnfs(items, polarity), !polarity),
        RawModel::Implies(l, r) => if polarity {
            FormulaModel::Or(Box::new(nnf(*l, false)), Box::new(nnf(*r, true)))
        } else {
            FormulaModel::And(Box::new(nnf(*l, true)), Box::new(nnf(*r, false)))
        },
        RawModel::ForAll(vars, body) => bind(vars, nnf(*body, polarity), polarity),
        RawModel::Exists(vars, body) => bind(vars, nnf(*body, polarity), !polarity),
        RawModel::True => if polarity {
            FormulaModel::True
        } else {
            FormulaModel::False
        },
        RawModel::False => if polarity {
            FormulaModel::False
        } else {
            FormulaModel::True
        },
    }
}

/// The negation normal forms of a list of formulas.
pub open spec fn nnfs(items: Seq<RawModel>, polarity: bool) -> Seq<FormulaModel>
    decreases items,
{
    Seq::new(
        items.len(),
        |i: int|
            if 0 <= i < items.len() {
                nnf(items[i], polarity)
            } else {
                FormulaModel::True
            },
    )
}

/// What building [`join`] leaves in the interner.
pub open spec fn join_interned(
    m: InternerModel,
    parts: Seq<FormulaModel>,
    conj: bool,
) -> InternerModel
    decreases parts.len(),
{
    if parts.len() == 0 {
        m.interned(join(parts, conj))
    } else if parts.len() == 1 {
        m
    } else {
        join_interned(m, parts.skip(1), conj).interned(join(parts, conj))
    }
}

/// What building [`bind`] leaves in the interner.
pub open spec fn bind_interned(
    m: InternerModel,
    vars: Seq<VarId>,
    body: FormulaModel,
    universal: bool,
) -> InternerModel
    decreases vars.len(),
{
    if vars.len() == 0 {
        m
    } else {
        bind_interned(m, vars.skip(1), body, universal).interned(bind(vars, body, universal))
    }
}

/// What the conversion of `f` leaves in the interner.
pub open spec fn nnf_interned(m: InternerModel, f: RawModel, polarity: bool) -> InternerModel
    decreases f, 0nat,
{
    match f {
        RawModel::Pred { .. } | RawModel::True | RawModel::False => m.interned(nnf(f, polarity)),
        RawModel::Not(inner) => nnf_interned(m, *inner, !polarity),
        RawModel::And(items) => join_interned(
            nnfs_interned(m, items, items.len(), polarity),
            nnfs(items, polarity),
            polarity,
        ),
        RawModel::Or(items) => join_interned(
            nnfs_interned(m, items, items.len(), polarity),
            nnfs(items, polarity),
            !polarity,
        ),
        RawModel::Implies(l, r) => nnf_interned(
            nnf_interned(m, *l, !polarity),
            *r,
            polarity,
        ).interned(nnf(f, polarity)),
        RawModel::ForAll(vars, body) => bind_interned(
            nnf_interned(m, *body, polarity),
            vars,
            nnf(*body, polarity),
            polarity,
        ),
        RawModel::Exists(vars, body) => bind_interned(
            nnf_interned(m, *body, polarity),
            vars,
            nnf(*body, polarity),
            !polarity,
        ),
    }
}

/// What the conversion of the first `n` of `items`, in order, leaves in the interner.
pub open spec fn nnfs_interned(
    m: InternerModel,
    items: Seq<RawModel>,
    n: nat,
    polarity: bool,
) -> InternerModel
    decreases items, n,
{
    if n == 0 || n > items.len() {
        m
    } else {
        nnf_interned(
            nnfs_interned(m, items, (n - 1) as nat, polarity),
            items[n - 1],
            polarity,
        )
    }
}

/// Converts to negation normal form. With `polarity` true the formula is taken as written; with
/// `polarity` false its negation is converted.
pub fn to_nnf(interner: &mut Interner, f: &RawFormula, polarity: bool) -> (r: Rc<Formula>)
    requires
        old(interner).wf(),
    ensures
        final(interner).wf(),
        r@ == nnf(f@, polarity),
        final(interner)@ == nnf_interned(old(interner)@, f@, polarity),
    decreases *f, 0nat,
{
    match f {
        RawFormula::Pred { name, args } => {
            let copies = copy_terms(args);
            mk_pred(interner, name.as_str(), copies, !polarity)
        },
        RawFormula::Not(inner) => to_nnf(interner, inner, !polarity),
        RawFormula::And(items) => {
            proof {
                junction_view(*items);
            }
            fold_conjunction_like(interner, items, polarity, true)
        },
        RawFormula::Or(items) => {
            proof {
                junction_view(*items);
            }
            fold_conjunction_like(interner, items, polarity, false)
        },
        RawFormula::Implies(l, r) => {
            // a => b is (not a) or b; its negation is a and (not b).
            let nl = to_nnf(interner, l, !polarity);
            let nr = to_nnf(interner, r, polarity);
            if polarity {
                mk_or(interner, nl, nr)
            } else {
                mk_and(interner, nl, nr)
            }
        },
        RawFormula::ForAll(vars, body) => fold_quantifier(interner, vars, body, polarity, true),
        RawFormula::Exists(vars, body) => fold_quantifier(interner, vars, body, polarity, false),
        RawFormula::True => {
            if polarity {
                mk_true(interner)
            } else {
                mk_false(interner)
            }
        },
        RawFormula::False => {
            if polarity {
                mk_false(interner)
            } else {
                mk_true(interner)
            }
        },
    }
}

/// Converts the parts of a conjunction or disjunction and joins them: under the given polarity a
/// conjunction stays one or turns into a disjunction, and the other way round.
fn fold_conjunction_like(
    interner: &mut Interner,
    items: &Vec<RawFormula>,
    polarity: bool,
    is_and: bool,
) -> (r: Rc<Formula>)
    requires
        old(interner).wf(),
    ensures
        final(interner).wf(),
        r@ == join(nnfs(raw_models(items@), polarity), polarity == is_and),
        final(interner)@ == join_interned(
            nnfs_interned(old(interner)@, raw_models(items@), items@.len(), polarity),
            nnfs(raw_models(items@), polarity),
            polarity == is_and,
        ),
    decreases *items, 0nat,
{
    let use_and = polarity == is_and;
    let ghost models = raw_models(items@);
    let ghost all = nnfs(models, polarity);
    let ghost start = interner@;
    if items.len() == 0 {
        return if use_and {
            mk_true(interner)
        } else {
            mk_false(interner)
        };
    }
    let mut parts: Vec<Rc<Formula>> = Vec::new();
    let mut i: usize = 0;
    while i < items.len()
        invariant
            interner.wf(),
            i <= items@.len(),
            models == raw_models(items@),
            all == nnfs(models, polarity),
            parts@.len() == i,
            forall|k: int| 0 <= k < i ==> (#[trigger] parts@[k])@ == all[k],
            interner@ == nnfs_interned(start, models, i as nat, polarity),
        decreases items@.len() - i,
    {
        let part = to_nnf(interner, &items[i], polarity);
        parts.push(part);
        i += 1;
    }
    let ghost mid = interner@;
    let last: usize = parts.len() - 1;
    let mut acc = parts[last].clone();
    let mut k: usize = last;
    assert(all.skip(last as int) =~= seq![all[last as int]]);
    while k > 0
        invariant
            interner.wf(),
            use_and == (polarity == is_and),
            k < parts@.len(),
            parts@.len() == all.len(),
            forall|j: int| 0 <= j < all.len() ==> (#[trigger] parts@[j])@ == all[j],
            acc@ == join(all.skip(k as int), use_and),
            interner@ == join_interned(mid, all.skip(k as int), use_and),
        decreases k,
    {
        let ghost rest = all.skip(k as int);
        k -= 1;
        let ghost here = all.skip(k as int);
        assert(here.skip(1) =~= rest);
        assert(here[0] == parts@[k as int]@);
        let part = parts[k].clone();
        acc = if use_and {
            mk_and(interner, part, acc)
        } else {
            mk_or(interner, part, acc)
        };
    }
    assert(all.skip(0) =~= all);
    acc
}

/// Converts the body of a quantifier and binds the variables: under the given polarity a universal
/// quantifier stays one or turns into an existential one, and the other way round.
fn fold_quantifier(
    interner: &mut Interner,
    vars: &Vec<VarId>,
    body: &RawFormula,
    polarity: bool,
    is_forall: bool,
) -> (r: Rc<Formula>)
    requires
        old(interner).wf(),
    ensures
        final(interner).wf(),
        r@ == bind(vars@, nnf(body@, polarity), polarity == is_forall),
        final(interner)@ == bind_interned(
            nnf_interned(old(interner)@, body@, polarity),
            vars@,
            nnf(body@, polarity),
            polarity == is_forall,
        ),
    decreases *body, 1nat,
{
    let use_forall = polarity == is_forall;
    let mut result = to_nnf(interner, body, polarity);
    let ghost inner = result@;
    let ghost mid = interner@;
    let mut k: usize = vars.len();
    assert(vars@.skip(k as int) =~= Seq::<VarId>::empty());
    while k > 0
        invariant
            interner.wf(),
            use_forall == (polarity == is_forall),
            k <= vars@.len(),
            result@ == bind(vars@.skip(k as int), inner, use_forall),
            interner@ == bind_interned(mid, vars@.skip(k as int), inner, use_forall),
        decreases k,
    {
        let ghost rest = vars@.skip(k as int);
        k -= 1;
        assert(vars@.skip(k as int).skip(1) =~= rest);
        let v: VarId = vars[k];
        result =
        if use_forall {
            mk_forall(interner, v, result)
        } else {
            mk_exists(interner, v, result)
        };
    }
    assert(vars@.skip(0) =~= vars@);
    result
}

} // verus!
