//! The translation to Z3 keeps the meaning of a formula.

use crate::model::{FormulaModel, TermModel, VarId};
use crate::semantics::{
    agree_on, assigned, free_in, mentions, occurs, occurs_among, satisfies, satisfies_depends,
    value, values, Structure,
};
use crate::soundness::existential_free;
use crate::text::{decimal, decimal_injective};
use crate::z3_api::{
    ast_holds, ast_value, ast_values, one_sorted, one_sorted_term, with_constant, AstModel,
    SortModel,
};
use crate::z3_bridge::{
    atom_ast, constant_decl, domain_sort, encodable, encodable_term, encodable_terms, formula_ast,
    symbol_decl, term_ast, term_asts, BridgeError, Trouble,
};
use vstd::prelude::*;

verus! {

/// The structure `s` with `=` between two elements meaning that they are the same.
pub open spec fn with_equality<D>(s: Structure<D>) -> Structure<D> {
    Structure {
        rel: |name: Seq<char>, args: Seq<D>|
            if name == "="@ && args.len() == 2 {
                args[0] == args[1]
            } else {
                (s.rel)(name, args)
            },
        ..s
    }
}

/// The tree of the `n`-th constant that stands for a bound variable.
pub open spec fn constant(n: nat) -> AstModel {
    AstModel::App(constant_decl(n), Seq::empty())
}

/// Whether every bound variable stands for one of the first `n` constants.
pub open spec fn bound_by(bound: Map<VarId, AstModel>, n: nat) -> bool {
    forall|v: VarId| #[trigger]
        bound.contains_key(v) ==> exists|i: nat| 1 <= i <= n && bound[v] == #[trigger] constant(i)
}

/// Whether a formula keeps clear of the names of the constants after the `n`-th, up to the number
/// `limit`.
pub open spec fn clear_of_constants(f: FormulaModel, n: nat, limit: nat) -> bool {
    forall|i: nat| n < i <= limit ==> !mentions(#[trigger] constant_decl(i).name, f)
}

/// Whether `env` gives the bound variables what their constants denote.
pub open spec fn follows<D>(
    env: spec_fn(VarId) -> D,
    s: Structure<D>,
    bound: Map<VarId, AstModel>,
) -> bool {
    forall|v: VarId| #[trigger] bound.contains_key(v) ==> env(v) == ast_value(s, bound[v])
}

proof fn constants_differ(i: nat, j: nat)
    requires
        i != j,
    ensures
        constant_decl(i).name != constant_decl(j).name,
{
    let prefix = "v"@ + "!"@;
    if constant_decl(i).name == constant_decl(j).name {
        assert(constant_decl(i).name.skip(prefix.len() as int) =~= decimal(i));
        assert(constant_decl(j).name.skip(prefix.len() as int) =~= decimal(j));
        decimal_injective(i, j);
    }
}

/// The translation of a term is of the domain sort and denotes what the term denotes.
proof fn term_translated<D>(
    t: TermModel,
    bound: Map<VarId, AstModel>,
    n: nat,
    s: Structure<D>,
    env: spec_fn(VarId) -> D,
)
    requires
        bound_by(bound, n),
        term_ast(t, bound) is Ok,
        follows(env, s, bound),
    ensures
        one_sorted_term(term_ast(t, bound)->Ok_0, domain_sort()),
        ast_value(s, term_ast(t, bound)->Ok_0) == value(s, env, t),
    decreases t, 0nat,
{
    match t {
        TermModel::Var(v) => {
            let i = choose|i: nat| 1 <= i <= n && bound[v] == #[trigger] constant(i);
            assert(constant_decl(i).domain =~= Seq::new(0, |i: int| domain_sort()));
        },
        TermModel::Func(name, args) => {
            terms_translated(args, args.len(), bound, n, s, env);
            let asts = term_asts(args, args.len(), bound)->Ok_0;
            assert(symbol_decl(name, args.len(), domain_sort()).domain =~= Seq::new(
                asts.len(),
                |i: int| domain_sort(),
            ));
            assert(ast_values(s, asts) =~= values(s, env, args));
        },
    }
}

/// The same of the first `k` terms of a list.
proof fn terms_translated<D>(
    args: Seq<TermModel>,
    k: nat,
    bound: Map<VarId, AstModel>,
    n: nat,
    s: Structure<D>,
    env: spec_fn(VarId) -> D,
)
    requires
        k <= args.len(),
        bound_by(bound, n),
        term_asts(args, k, bound) is Ok,
        follows(env, s, bound),
    ensures
        term_asts(args, k, bound)->Ok_0.len() == k,
        forall|i: int|
            0 <= i < k ==> {
                &&& one_sorted_term(#[trigger] term_asts(args, k, bound)->Ok_0[i], domain_sort())
                &&& ast_value(s, term_asts(args, k, bound)->Ok_0[i]) == value(s, env, args[i])
            },
    decreases args, k,
{
    if k > 0 {
        terms_translated(args, (k - 1) as nat, bound, n, s, env);
        term_translated(args[k - 1], bound, n, s, env);
    }
}

/// A translation only adds constants.
pub proof fn constants_grow(f: FormulaModel, bound: Map<VarId, AstModel>, n: nat)
    ensures
        formula_ast(f, bound, n).1 >= n,
    decreases f,
{
    match f {
        FormulaModel::And(l, r) | FormulaModel::Or(l, r) => {
            constants_grow(*l, bound, n);
            constants_grow(*r, bound, formula_ast(*l, bound, n).1);
        },
        FormulaModel::ForAll(v, body) => {
            constants_grow(*body, bound.insert(v, constant(n + 1)), n + 1);
        },
        _ => {},
    }
}

/// The translation of a formula speaks of the domain sort only and holds exactly where the formula
/// holds, if `=` means equality and no symbol of the formula has the name of a constant that the
/// translation takes for a bound variable.
pub proof fn formula_translated<D>(
    f: FormulaModel,
    bound: Map<VarId, AstModel>,
    n: nat,
    s: Structure<D>,
    env: spec_fn(VarId) -> D,
)
    requires
        bound_by(bound, n),
        formula_ast(f, bound, n).0 is Ok,
        follows(env, s, bound),
        clear_of_constants(f, n, formula_ast(f, bound, n).1),
    ensures
        one_sorted(formula_ast(f, bound, n).0->Ok_0, domain_sort()),
        ast_holds(s, formula_ast(f, bound, n).0->Ok_0) == satisfies(with_equality(s), env, f),
    decreases f,
{
    match f {
        FormulaModel::Pred { name, args, negated } => {
            terms_translated(args, args.len(), bound, n, s, env);
            let asts = term_asts(args, args.len(), bound)->Ok_0;
            let atom = atom_ast(name, asts)->Ok_0;
            assert(symbol_decl(name, asts.len(), SortModel::Bool).domain =~= Seq::new(
                asts.len(),
                |i: int| domain_sort(),
            ));
            assert(ast_values(s, asts) =~= values(s, env, args));
            values_with_equality(s, env, args);
            assert(one_sorted(atom, domain_sort()));
            if name == "="@ && asts.len() == 2 {
                assert(values(s, env, args)[0] == ast_value(s, asts[0]));
                assert(values(s, env, args)[1] == ast_value(s, asts[1]));
            }
            assert(ast_holds(s, atom) == (with_equality(s).rel)(name, values(s, env, args)));
        },
        FormulaModel::And(l, r) | FormulaModel::Or(l, r) => {
            let n1 = formula_ast(*l, bound, n).1;
            constants_grow(*l, bound, n);
            constants_grow(*r, bound, n1);
            formula_translated(*l, bound, n, s, env);
            assert(bound_by(bound, n1));
            formula_translated(*r, bound, n1, s, env);
        },
        FormulaModel::ForAll(v, body) => {
            let c = constant_decl(n + 1);
            let inner = bound.insert(v, constant(n + 1));
            let nb = formula_ast(*body, inner, n + 1).0;
            assert(bound_by(inner, n + 1)) by {
                assert forall|w: VarId| #[trigger] inner.contains_key(w) implies exists|i: nat|
                    1 <= i <= n + 1 && inner[w] == #[trigger] constant(i) by {
                    if w == v {
                        assert(inner[w] == constant(n + 1));
                    } else {
                        let i = choose|i: nat| 1 <= i <= n && bound[w] == #[trigger] constant(i);
                        assert(inner[w] == constant(i));
                    }
                }
            }
            constants_grow(*body, inner, n + 1);
            let limit = formula_ast(*body, inner, n + 1).1;
            let goal = AstModel::ForAll(c, Box::new(nb->Ok_0));
            assert(formula_ast(f, bound, n).0 == Ok::<AstModel, Trouble>(goal));
            assert forall|d: D|
                #![trigger with_constant(s, c.name, d)]
                #![trigger assigned(env, v, d)]
                {
                    &&& one_sorted(nb->Ok_0, domain_sort())
                    &&& ast_holds(with_constant(s, c.name, d), nb->Ok_0) == satisfies(
                        with_equality(s),
                        assigned(env, v, d),
                        *body,
                    )
                } by {
                bound_value(f, v, *body, bound, n, s, env, d, limit);
                let s1 = with_constant(s, c.name, d);
                formula_translated(*body, inner, n + 1, s1, assigned(env, v, d));
                satisfies_depends(
                    with_equality(s1),
                    with_equality(s),
                    assigned(env, v, d),
                    assigned(env, v, d),
                    *body,
                );
            }
            let any: D = arbitrary();
            let here = with_constant(s, c.name, any);
            assert(goal->ForAll_0 == c);
        },
        _ => {},
    }
}

/// What becomes of a term: it is translated only if its variables are bound, refused only with the
/// name of one that is not, and gets stuck only on a symbol that cannot be declared.
proof fn term_accepted(t: TermModel, bound: Map<VarId, AstModel>)
    ensures
        match term_ast(t, bound) {
            Ok(_) => forall|x: VarId| #[trigger] occurs(x, t) ==> bound.contains_key(x),
            Err(Trouble::Refused(e)) => {
                &&& e is UnboundVariable
                &&& occurs(e->UnboundVariable_0, t)
                &&& !bound.contains_key(e->UnboundVariable_0)
            },
            Err(Trouble::Stuck) => !encodable_term(t),
        },
    decreases t, 0nat,
{
    match t {
        TermModel::Var(v) => {
            assert(occurs(v, t));
        },
        TermModel::Func(name, args) => {
            terms_accepted(args, args.len(), bound);
            match term_asts(args, args.len(), bound) {
                Ok(_) => {
                    assert forall|x: VarId| #[trigger] occurs(x, t) implies bound.contains_key(
                        x,
                    ) by {
                        let i = choose|i: int| 0 <= i < args.len() && occurs(x, #[trigger] args[i]);
                        assert(occurs(x, args[i]));
                    }
                },
                Err(_) => {},
            }
        },
    }
}

/// The same of the first `k` terms of a list.
proof fn terms_accepted(args: Seq<TermModel>, k: nat, bound: Map<VarId, AstModel>)
    requires
        k <= args.len(),
    ensures
        match term_asts(args, k, bound) {
            Ok(_) => forall|x: VarId, i: int|
                0 <= i < k && #[trigger] occurs(x, args[i]) ==> bound.contains_key(x),
            Err(Trouble::Refused(e)) => {
                &&& e is UnboundVariable
                &&& occurs_among(e->UnboundVariable_0, args)
                &&& !bound.contains_key(e->UnboundVariable_0)
            },
            Err(Trouble::Stuck) => !encodable_terms(args),
        },
    decreases args, k,
{
    if k > 0 {
        terms_accepted(args, (k - 1) as nat, bound);
        term_accepted(args[k - 1], bound);
        if term_asts(args, (k - 1) as nat, bound) is Ok {
            if let Err(Trouble::Refused(e)) = term_ast(args[k - 1], bound) {
                assert(occurs(e->UnboundVariable_0, args[k - 1]));
            }
        }
    }
}

/// What becomes of a formula without existentials: it is translated only if its free variables are
/// bound, refused only with the name of one that is not, and gets stuck only on a symbol that
/// cannot be declared.
pub proof fn formula_accepted(f: FormulaModel, bound: Map<VarId, AstModel>, n: nat)
    requires
        existential_free(f),
    ensures
        match formula_ast(f, bound, n).0 {
            Ok(_) => forall|x: VarId| #[trigger] free_in(x, f) ==> bound.contains_key(x),
            Err(Trouble::Refused(e)) => {
                &&& e is UnboundVariable
                &&& free_in(e->UnboundVariable_0, f)
                &&& !bound.contains_key(e->UnboundVariable_0)
            },
            Err(Trouble::Stuck) => !encodable(f),
        },
    decreases f,
{
    match f {
        FormulaModel::Pred { name, args, negated } => {
            terms_accepted(args, args.len(), bound);
            match term_asts(args, args.len(), bound) {
                Ok(asts) => {
                    assert forall|x: VarId| #[trigger] free_in(x, f) implies bound.contains_key(
                        x,
                    ) by {
                        let i = choose|i: int| 0 <= i < args.len() && occurs(x, #[trigger] args[i]);
                        assert(occurs(x, args[i]));
                    }
                    term_asts_len(args, args.len(), bound);
                },
                Err(_) => {},
            }
        },
        FormulaModel::And(l, r) | FormulaModel::Or(l, r) => {
            let n1 = formula_ast(*l, bound, n).1;
            formula_accepted(*l, bound, n);
            formula_accepted(*r, bound, n1);
            match formula_ast(f, bound, n).0 {
                Ok(_) => {
                    assert forall|x: VarId| #[trigger] free_in(x, f) implies bound.contains_key(
                        x,
                    ) by {
                        assert(free_in(x, *l) || free_in(x, *r));
                    }
                },
                Err(_) => {},
            }
        },
        FormulaModel::ForAll(v, body) => {
            let inner = bound.insert(v, constant(n + 1));
            formula_accepted(*body, inner, n + 1);
            match formula_ast(*body, inner, n + 1).0 {
                Ok(_) => {
                    assert forall|x: VarId| #[trigger] free_in(x, f) implies bound.contains_key(
                        x,
                    ) by {
                        assert(free_in(x, *body));
                    }
                },
                Err(_) => {},
            }
        },
        _ => {},
    }
}

proof fn term_asts_len(args: Seq<TermModel>, k: nat, bound: Map<VarId, AstModel>)
    requires
        k <= args.len(),
        term_asts(args, k, bound) is Ok,
    ensures
        term_asts(args, k, bound)->Ok_0.len() == k,
    decreases k,
{
    if k > 0 {
        term_asts_len(args, (k - 1) as nat, bound);
    }
}

/// Terms do not depend on what `=` means.
proof fn values_with_equality<D>(s: Structure<D>, env: spec_fn(VarId) -> D, args: Seq<TermModel>)
    ensures
        values(with_equality(s), env, args) == values(s, env, args),
{
    crate::semantics::values_depend(with_equality(s), s, env, env, args);
}

/// Giving the next constant the value `d` is giving the variable that it stands for that value.
proof fn bound_value<D>(
    f: FormulaModel,
    v: VarId,
    body: FormulaModel,
    bound: Map<VarId, AstModel>,
    n: nat,
    s: Structure<D>,
    env: spec_fn(VarId) -> D,
    d: D,
    limit: nat,
)
    requires
        n < limit,
        f == FormulaModel::ForAll(v, Box::new(body)),
        bound_by(bound, n),
        follows(env, s, bound),
        clear_of_constants(f, n, limit),
    ensures
        follows(
            assigned(env, v, d),
            with_constant(s, constant_decl(n + 1).name, d),
            bound.insert(v, constant(n + 1)),
        ),
        clear_of_constants(body, n + 1, limit),
        with_equality(with_constant(s, constant_decl(n + 1).name, d)).dom == with_equality(s).dom,
        with_equality(with_constant(s, constant_decl(n + 1).name, d)).rel == with_equality(s).rel,
        forall|m: Seq<char>| #[trigger]
            mentions(m, body) ==> agree_on(
                with_equality(with_constant(s, constant_decl(n + 1).name, d)),
                with_equality(s),
                m,
            ),
{
    let c = constant_decl(n + 1).name;
    let s1 = with_constant(s, c, d);
    let inner = bound.insert(v, constant(n + 1));
    let env1 = assigned(env, v, d);
    assert forall|w: VarId| #[trigger] inner.contains_key(w) implies env1(w) == ast_value(
        s1,
        inner[w],
    ) by {
        assert(ast_values(s1, Seq::<AstModel>::empty()) =~= Seq::<D>::empty());
        assert(ast_values(s, Seq::<AstModel>::empty()) =~= Seq::<D>::empty());
        if w != v {
            let i = choose|i: nat| 1 <= i <= n && bound[w] == #[trigger] constant(i);
            constants_differ(i, n + 1);
            assert(bound.contains_key(w));
        }
    }
    assert forall|i: nat| n + 1 < i <= limit implies !mentions(#[trigger] constant_decl(i).name, body) by {
        assert(!mentions(constant_decl(i).name, f));
    }
    assert(with_equality(s1).rel =~= with_equality(s).rel);
    assert forall|m: Seq<char>| #[trigger] mentions(m, body) implies agree_on(
        with_equality(s1),
        with_equality(s),
        m,
    ) by {
        assert(mentions(m, f));
        assert(m != c) by {
            assert(!mentions(constant_decl(n + 1).name, f));
        }
    }
}

/// The variables of a term that are not among `bound`, in the order in which they are written.
pub open spec fn unbound_in_term(t: TermModel, bound: Set<VarId>) -> Seq<VarId>
    decreases t, 0nat,
{
    match t {
        TermModel::Var(v) => if bound.contains(v) {
            Seq::empty()
        } else {
            seq![v]
        },
        TermModel::Func(_, args) => unbound_in_terms(args, args.len(), bound),
    }
}

/// The same of the first `n` terms.
pub open spec fn unbound_in_terms(args: Seq<TermModel>, n: nat, bound: Set<VarId>) -> Seq<VarId>
    decreases args, n,
{
    if n == 0 || n > args.len() {
        Seq::empty()
    } else {
        unbound_in_terms(args, (n - 1) as nat, bound) + unbound_in_term(args[n - 1], bound)
    }
}

/// The free variables of a formula that are not among `bound`, in the order in which they are
/// written.
pub open spec fn unbound_in(f: FormulaModel, bound: Set<VarId>) -> Seq<VarId>
    decreases f,
{
    match f {
        FormulaModel::Pred { name, args, negated } => unbound_in_terms(args, args.len(), bound),
        FormulaModel::And(l, r) | FormulaModel::Or(l, r) => unbound_in(*l, bound) + unbound_in(
            *r,
            bound,
        ),
        FormulaModel::ForAll(v, body) | FormulaModel::Exists(v, body) => unbound_in(
            *body,
            bound.insert(v),
        ),
        FormulaModel::True | FormulaModel::False => Seq::empty(),
    }
}

/// Whether a translation that was given up for a variable names the first of `unbound`, and whether
/// there are none if it was not given up.
pub open spec fn names_the_first<T>(r: Result<T, Trouble>, unbound: Seq<VarId>) -> bool {
    match r {
        Ok(_) => unbound.len() == 0,
        Err(Trouble::Refused(BridgeError::UnboundVariable(v))) => unbound.len() > 0 && unbound[0]
            == v,
        Err(_) => true,
    }
}

proof fn term_names_the_first(t: TermModel, bound: Map<VarId, AstModel>)
    ensures
        names_the_first(term_ast(t, bound), unbound_in_term(t, bound.dom())),
    decreases t, 0nat,
{
    if let TermModel::Func(name, args) = t {
        terms_name_the_first(args, args.len(), bound);
    }
}

proof fn terms_name_the_first(args: Seq<TermModel>, n: nat, bound: Map<VarId, AstModel>)
    requires
        n <= args.len(),
    ensures
        names_the_first(
            term_asts(args, n, bound),
            unbound_in_terms(args, n, bound.dom()),
        ),
    decreases args, n,
{
    if n > 0 {
        terms_name_the_first(args, (n - 1) as nat, bound);
        term_names_the_first(args[n - 1], bound);
    }
}

/// A formula that is refused for a free variable is refused for the first of them, in the order in
/// which they are written.
pub proof fn refusals_name_the_first(f: FormulaModel, bound: Map<VarId, AstModel>, n: nat)
    ensures
        names_the_first(formula_ast(f, bound, n).0, unbound_in(f, bound.dom())),
    decreases f,
{
    match f {
        FormulaModel::Pred { name, args, negated } => {
            terms_name_the_first(args, args.len(), bound);
        },
        FormulaModel::And(l, r) | FormulaModel::Or(l, r) => {
            refusals_name_the_first(*l, bound, n);
            refusals_name_the_first(*r, bound, formula_ast(*l, bound, n).1);
        },
        FormulaModel::ForAll(v, body) => {
            let inner = bound.insert(v, constant(n + 1));
            refusals_name_the_first(*body, inner, n + 1);
            assert(inner.dom() =~= bound.dom().insert(v));
        },
        _ => {},
    }
}

} // verus!
