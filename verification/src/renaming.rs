//! Renaming the symbols of a formula.
//!
//! Reading commutes with renaming. So two formulas that differ only in the names of their
//! quantified variables are read as the same formula.

use crate::model::{TermModel, VarId};
use crate::nnf::RawModel;
use crate::reading::{
    atom_reading, binding_readings, equation, formula_reading, formula_readings, implication,
    meaning, quantified_reading, restored, term_reading, term_readings, unlike, unlike_later,
    Reading, Scope,
};
use crate::sexpr::SexprModel;
use vstd::prelude::*;

verus! {

/// A renaming of symbols.
pub type Renaming = spec_fn(Seq<char>) -> Seq<char>;

/// Whether a renaming keeps different symbols different and leaves the words of the language alone.
pub open spec fn proper(rho: Renaming) -> bool {
    &&& forall|a: Seq<char>, b: Seq<char>| #[trigger] rho(a) == #[trigger] rho(b) ==> a == b
    &&& rho("true"@) == "true"@
    &&& rho("false"@) == "false"@
    &&& rho("and"@) == "and"@
    &&& rho("or"@) == "or"@
    &&& rho("not"@) == "not"@
    &&& rho("=>"@) == "=>"@
    &&& rho("="@) == "="@
    &&& rho("distinct"@) == "distinct"@
    &&& rho("forall"@) == "forall"@
    &&& rho("exists"@) == "exists"@
}

/// An S-expression with its symbols renamed.
pub open spec fn renamed(s: SexprModel, rho: Renaming) -> SexprModel
    decreases s,
{
    match s {
        SexprModel::Atom(name) => SexprModel::Atom(rho(name)),
        SexprModel::List(items) => SexprModel::List(renamed_all(items, rho)),
    }
}

/// S-expressions with their symbols renamed.
pub open spec fn renamed_all(items: Seq<SexprModel>, rho: Renaming) -> Seq<SexprModel>
    decreases items,
{
    Seq::new(
        items.len(),
        |i: int|
            if 0 <= i < items.len() {
                renamed(items[i], rho)
            } else {
                items[i]
            },
    )
}

/// A term with its symbols renamed.
pub open spec fn renamed_term(t: TermModel, rho: Renaming) -> TermModel
    decreases t,
{
    match t {
        TermModel::Var(v) => t,
        TermModel::Func(name, args) => TermModel::Func(rho(name), renamed_terms(args, rho)),
    }
}

/// Terms with their symbols renamed.
pub open spec fn renamed_terms(args: Seq<TermModel>, rho: Renaming) -> Seq<TermModel>
    decreases args,
{
    Seq::new(
        args.len(),
        |i: int|
            if 0 <= i < args.len() {
                renamed_term(args[i], rho)
            } else {
                args[i]
            },
    )
}

/// A formula with its symbols renamed.
pub open spec fn renamed_formula(f: RawModel, rho: Renaming) -> RawModel
    decreases f,
{
    match f {
        RawModel::Pred { name, args } => RawModel::Pred {
            name: rho(name),
            args: renamed_terms(args, rho),
        },
        RawModel::Not(inner) => RawModel::Not(Box::new(renamed_formula(*inner, rho))),
        RawModel::And(items) => RawModel::And(renamed_formulas(items, rho)),
        RawModel::Or(items) => RawModel::Or(renamed_formulas(items, rho)),
        RawModel::Implies(l, r) => RawModel::Implies(
            Box::new(renamed_formula(*l, rho)),
            Box::new(renamed_formula(*r, rho)),
        ),
        RawModel::ForAll(vars, body) => RawModel::ForAll(
            vars,
            Box::new(renamed_formula(*body, rho)),
        ),
        RawModel::Exists(vars, body) => RawModel::Exists(
            vars,
            Box::new(renamed_formula(*body, rho)),
        ),
        RawModel::True | RawModel::False => f,
    }
}

/// Formulas with their symbols renamed.
pub open spec fn renamed_formulas(items: Seq<RawModel>, rho: Renaming) -> Seq<RawModel>
    decreases items,
{
    Seq::new(
        items.len(),
        |i: int|
            if 0 <= i < items.len() {
                renamed_formula(items[i], rho)
            } else {
                items[i]
            },
    )
}

/// Whether names mean in one scope what their new names mean in the other.
pub open spec fn corresponds(
    env: Map<Seq<char>, VarId>,
    env2: Map<Seq<char>, VarId>,
    rho: Renaming,
) -> bool {
    forall|name: Seq<char>| meaning(env2, #[trigger] rho(name)) == meaning(env, name)
}

/// Whether two scopes correspond and number their next variable alike.
pub open spec fn scopes_correspond(a: Scope, b: Scope, rho: Renaming) -> bool {
    &&& corresponds(a.env, b.env, rho)
    &&& a.next == b.next
}

/// Whether two ways of reading agree up to the renaming.
pub open spec fn same_terms(
    r: Reading<Seq<TermModel>>,
    r2: Reading<Seq<TermModel>>,
    rho: Renaming,
) -> bool {
    match r {
        Reading::Read(ts) => r2 == Reading::Read(renamed_terms(ts, rho)),
        other => r2 == other,
    }
}

proof fn term_renamed(
    s: SexprModel,
    env: Map<Seq<char>, VarId>,
    env2: Map<Seq<char>, VarId>,
    rho: Renaming,
)
    requires
        proper(rho),
        corresponds(env, env2, rho),
    ensures
        match term_reading(s, env) {
            Reading::Read(t) => term_reading(renamed(s, rho), env2) == Reading::Read(
                renamed_term(t, rho),
            ),
            other => term_reading(renamed(s, rho), env2) == other,
        },
    decreases s, 0nat,
{
    match s {
        SexprModel::Atom(name) => {
            assert(meaning(env2, rho(name)) == meaning(env, name));
            assert(renamed_terms(Seq::<TermModel>::empty(), rho) =~= Seq::<TermModel>::empty());
        },
        SexprModel::List(items) => {
            let items2 = renamed_all(items, rho);
            if items.len() > 0 {
                assert(items2[0] == renamed(items[0], rho));
                terms_renamed(items, items.len(), env, env2, rho);
            }
        },
    }
}

proof fn terms_renamed(
    items: Seq<SexprModel>,
    n: nat,
    env: Map<Seq<char>, VarId>,
    env2: Map<Seq<char>, VarId>,
    rho: Renaming,
)
    requires
        proper(rho),
        corresponds(env, env2, rho),
        n <= items.len(),
    ensures
        same_terms(
            term_readings(items, n, env),
            term_readings(renamed_all(items, rho), n, env2),
            rho,
        ),
    decreases items, n,
{
    let items2 = renamed_all(items, rho);
    if n <= 1 {
        assert(renamed_terms(Seq::<TermModel>::empty(), rho) =~= Seq::<TermModel>::empty());
    } else {
        terms_renamed(items, (n - 1) as nat, env, env2, rho);
        term_renamed(items[n - 1], env, env2, rho);
        assert(items2[n - 1] == renamed(items[n - 1], rho));
        if let Reading::Read(done) = term_readings(items, (n - 1) as nat, env) {
            if let Reading::Read(t) = term_reading(items[n - 1], env) {
                assert(renamed_terms(done.push(t), rho) =~= renamed_terms(done, rho).push(
                    renamed_term(t, rho),
                ));
            }
        }
    }
}

/// The same shadowed meanings, under their new names.
pub open spec fn renamed_shadowed(
    shadowed: Seq<(Seq<char>, Option<VarId>)>,
    rho: Renaming,
) -> Seq<(Seq<char>, Option<VarId>)> {
    Seq::new(shadowed.len(), |i: int| (rho(shadowed[i].0), shadowed[i].1))
}

proof fn bindings_renamed(
    bindings: Seq<SexprModel>,
    n: nat,
    scope: Scope,
    scope2: Scope,
    rho: Renaming,
)
    requires
        proper(rho),
        scopes_correspond(scope, scope2, rho),
        n <= bindings.len(),
    ensures
        ({
            let r2 = binding_readings(renamed_all(bindings, rho), n, scope2);
            match binding_readings(bindings, n, scope) {
                Reading::Read(b) => {
                    &&& r2 is Read
                    &&& r2->Read_0.vars == b.vars
                    &&& r2->Read_0.shadowed == renamed_shadowed(b.shadowed, rho)
                    &&& scopes_correspond(b.inner, r2->Read_0.inner, rho)
                },
                other => r2 == other,
            }
        }),
    decreases n,
{
    let bindings2 = renamed_all(bindings, rho);
    if n == 0 {
        assert(renamed_shadowed(Seq::empty(), rho) =~= Seq::<(Seq<char>, Option<VarId>)>::empty());
    } else {
        bindings_renamed(bindings, (n - 1) as nat, scope, scope2, rho);
        assert(bindings2[n - 1] == renamed(bindings[n - 1], rho));
        if let Reading::Read(done) = binding_readings(bindings, (n - 1) as nat, scope) {
            let done2 = binding_readings(bindings2, (n - 1) as nat, scope2)->Read_0;
            if let SexprModel::List(pair) = bindings[n - 1] {
                if pair.len() > 0 {
                    assert(renamed_all(pair, rho)[0] == renamed(pair[0], rho));
                    if let SexprModel::Atom(name) = pair[0] {
                        assert(meaning(done2.inner.env, rho(name)) == meaning(
                            done.inner.env,
                            name,
                        ));
                        let entry = (name, meaning(done.inner.env, name));
                        assert(renamed_shadowed(done.shadowed.push(entry), rho)
                            =~= renamed_shadowed(done.shadowed, rho).push(
                            (rho(name), meaning(done.inner.env, name)),
                        ));
                        inserting(done.inner.env, done2.inner.env, name, done.inner.next, rho);
                    }
                }
            }
        }
    }
}

proof fn inserting(
    env: Map<Seq<char>, VarId>,
    env2: Map<Seq<char>, VarId>,
    name: Seq<char>,
    v: VarId,
    rho: Renaming,
)
    requires
        proper(rho),
        corresponds(env, env2, rho),
    ensures
        corresponds(env.insert(name, v), env2.insert(rho(name), v), rho),
        corresponds(env.remove(name), env2.remove(rho(name)), rho),
{
    assert forall|other: Seq<char>| {
        &&& meaning(env2.insert(rho(name), v), #[trigger] rho(other)) == meaning(
            env.insert(name, v),
            other,
        )
        &&& meaning(env2.remove(rho(name)), rho(other)) == meaning(env.remove(name), other)
    } by {
        assert(meaning(env2, rho(other)) == meaning(env, other));
        if other != name {
            assert(rho(other) != rho(name));
        }
    }
}

proof fn restoring_renamed(
    env: Map<Seq<char>, VarId>,
    env2: Map<Seq<char>, VarId>,
    shadowed: Seq<(Seq<char>, Option<VarId>)>,
    n: nat,
    rho: Renaming,
)
    requires
        proper(rho),
        corresponds(env, env2, rho),
        n <= shadowed.len(),
    ensures
        corresponds(
            restored(env, shadowed, n),
            restored(env2, renamed_shadowed(shadowed, rho), n),
            rho,
        ),
    decreases n,
{
    if n > 0 {
        restoring_renamed(env, env2, shadowed, (n - 1) as nat, rho);
        let done = restored(env, shadowed, (n - 1) as nat);
        let done2 = restored(env2, renamed_shadowed(shadowed, rho), (n - 1) as nat);
        let v = match shadowed[n - 1].1 {
            Some(v) => v,
            None => 0,
        };
        inserting(done, done2, shadowed[n - 1].0, v, rho);
    }
}

/// Reading commutes with renaming: a formula whose symbols are renamed is read as the formula with
/// its symbols renamed, and fails to be read for the same reason.
pub proof fn reading_commutes_with_renaming(
    s: SexprModel,
    scope: Scope,
    scope2: Scope,
    rho: Renaming,
)
    requires
        proper(rho),
        scopes_correspond(scope, scope2, rho),
    ensures
        ({
            let r2 = formula_reading(renamed(s, rho), scope2);
            match formula_reading(s, scope) {
                Reading::Read((f, after)) => {
                    &&& r2 is Read
                    &&& r2->Read_0.0 == renamed_formula(f, rho)
                    &&& scopes_correspond(after, r2->Read_0.1, rho)
                },
                other => r2 == other,
            }
        }),
    decreases s, 0nat,
{
    let s2 = renamed(s, rho);
    match s {
        SexprModel::Atom(name) => {
            assert(renamed_terms(Seq::<TermModel>::empty(), rho) =~= Seq::<TermModel>::empty());
            keyword(name, "true"@, rho);
            keyword(name, "false"@, rho);
        },
        SexprModel::List(items) => {
            let items2 = renamed_all(items, rho);
            if items.len() > 0 {
                assert(items2[0] == renamed(items[0], rho));
                if let SexprModel::Atom(head) = items[0] {
                    keyword(head, "and"@, rho);
                    keyword(head, "or"@, rho);
                    keyword(head, "=>"@, rho);
                    keyword(head, "not"@, rho);
                    keyword(head, "forall"@, rho);
                    keyword(head, "exists"@, rho);
                    if head == "and"@ || head == "or"@ || head == "=>"@ {
                        readings_renamed(items, items.len(), scope, scope2, rho);
                        if let Reading::Read((parts, after)) = formula_readings(
                            items,
                            items.len(),
                            scope,
                        ) {
                            implication_renamed(parts, rho);
                        }
                    } else if head == "not"@ {
                        if items.len() >= 2 {
                            assert(items2[1] == renamed(items[1], rho));
                            reading_commutes_with_renaming(items[1], scope, scope2, rho);
                        }
                    } else if head == "forall"@ || head == "exists"@ {
                        quantified_renamed(items, scope, scope2, rho);
                    } else {
                        atom_renamed(head, items, scope.env, scope2.env, rho);
                    }
                }
            }
        },
    }
}

/// A renaming that leaves a word alone takes nothing else to it.
proof fn keyword(name: Seq<char>, word: Seq<char>, rho: Renaming)
    requires
        proper(rho),
        rho(word) == word,
    ensures
        rho(name) == word <==> name == word,
{
}

proof fn quantified_renamed(items: Seq<SexprModel>, scope: Scope, scope2: Scope, rho: Renaming)
    requires
        proper(rho),
        scopes_correspond(scope, scope2, rho),
    ensures
        ({
            let r2 = quantified_reading(renamed_all(items, rho), scope2);
            match quantified_reading(items, scope) {
                Reading::Read((vars, body, after)) => {
                    &&& r2 is Read
                    &&& r2->Read_0.0 == vars
                    &&& r2->Read_0.1 == renamed_formula(body, rho)
                    &&& scopes_correspond(after, r2->Read_0.2, rho)
                },
                other => r2 == other,
            }
        }),
    decreases items, 0nat,
{
    let items2 = renamed_all(items, rho);
    if items.len() >= 2 {
        assert(items2[1] == renamed(items[1], rho));
        if let SexprModel::List(bindings) = items[1] {
            bindings_renamed(bindings, bindings.len(), scope, scope2, rho);
            if let Reading::Read(b) = binding_readings(bindings, bindings.len(), scope) {
                let b2 = binding_readings(
                    renamed_all(bindings, rho),
                    bindings.len(),
                    scope2,
                )->Read_0;
                if items.len() >= 3 {
                    assert(items2[2] == renamed(items[2], rho));
                    reading_commutes_with_renaming(items[2], b.inner, b2.inner, rho);
                    if let Reading::Read((body, after)) = formula_reading(items[2], b.inner) {
                        let after2 = formula_reading(items2[2], b2.inner)->Read_0.1;
                        restoring_renamed(
                            after.env,
                            after2.env,
                            b.shadowed,
                            b.shadowed.len(),
                            rho,
                        );
                    }
                }
            }
        }
    }
}

proof fn readings_renamed(
    items: Seq<SexprModel>,
    n: nat,
    scope: Scope,
    scope2: Scope,
    rho: Renaming,
)
    requires
        proper(rho),
        scopes_correspond(scope, scope2, rho),
        n <= items.len(),
    ensures
        ({
            let r2 = formula_readings(renamed_all(items, rho), n, scope2);
            match formula_readings(items, n, scope) {
                Reading::Read((fs, after)) => {
                    &&& r2 is Read
                    &&& r2->Read_0.0 == renamed_formulas(fs, rho)
                    &&& scopes_correspond(after, r2->Read_0.1, rho)
                },
                other => r2 == other,
            }
        }),
    decreases items, n,
{
    let items2 = renamed_all(items, rho);
    if n <= 1 {
        assert(renamed_formulas(Seq::<RawModel>::empty(), rho) =~= Seq::<RawModel>::empty());
    } else {
        readings_renamed(items, (n - 1) as nat, scope, scope2, rho);
        assert(items2[n - 1] == renamed(items[n - 1], rho));
        if let Reading::Read((done, mid)) = formula_readings(items, (n - 1) as nat, scope) {
            let mid2 = formula_readings(items2, (n - 1) as nat, scope2)->Read_0.1;
            reading_commutes_with_renaming(items[n - 1], mid, mid2, rho);
            if let Reading::Read((f, after)) = formula_reading(items[n - 1], mid) {
                assert(renamed_formulas(done.push(f), rho) =~= renamed_formulas(done, rho).push(
                    renamed_formula(f, rho),
                ));
            }
        }
    }
}

proof fn implication_renamed(parts: Seq<RawModel>, rho: Renaming)
    ensures
        parts.len() > 0 ==> implication(renamed_formulas(parts, rho)) == renamed_formula(
            implication(parts),
            rho,
        ),
    decreases parts.len(),
{
    if parts.len() > 1 {
        implication_renamed(parts.skip(1), rho);
        assert(renamed_formulas(parts, rho).skip(1) =~= renamed_formulas(parts.skip(1), rho));
    }
}

proof fn atom_renamed(
    head: Seq<char>,
    items: Seq<SexprModel>,
    env: Map<Seq<char>, VarId>,
    env2: Map<Seq<char>, VarId>,
    rho: Renaming,
)
    requires
        proper(rho),
        corresponds(env, env2, rho),
    ensures
        match atom_reading(head, items, env) {
            Reading::Read(f) => atom_reading(rho(head), renamed_all(items, rho), env2)
                == Reading::Read(renamed_formula(f, rho)),
            other => atom_reading(rho(head), renamed_all(items, rho), env2) == other,
        },
{
    let items2 = renamed_all(items, rho);
    keyword(head, "="@, rho);
    keyword(head, "distinct"@, rho);
    if head == "="@ {
        if items.len() >= 2 {
            assert(items2[1] == renamed(items[1], rho));
            term_renamed(items[1], env, env2, rho);
        }
        if items.len() >= 3 {
            assert(items2[2] == renamed(items[2], rho));
            term_renamed(items[2], env, env2, rho);
            if let Reading::Read(l) = term_reading(items[1], env) {
                if let Reading::Read(r) = term_reading(items[2], env) {
                    equation_renamed(l, r, rho);
                }
            }
        }
    } else {
        terms_renamed(items, items.len(), env, env2, rho);
        if head == "distinct"@ {
            if let Reading::Read(args) = term_readings(items, items.len(), env) {
                unlike_renamed(args, args.len(), rho);
            }
        }
    }
}

proof fn equation_renamed(l: TermModel, r: TermModel, rho: Renaming)
    requires
        proper(rho),
    ensures
        renamed_formula(equation(l, r), rho) == equation(
            renamed_term(l, rho),
            renamed_term(r, rho),
        ),
{
    assert(renamed_terms(seq![l, r], rho) =~= seq![renamed_term(l, rho), renamed_term(r, rho)]);
}

proof fn unlike_renamed(terms: Seq<TermModel>, n: nat, rho: Renaming)
    requires
        proper(rho),
        n <= terms.len(),
    ensures
        unlike(renamed_terms(terms, rho), n) == renamed_formulas(unlike(terms, n), rho),
    decreases n,
{
    let terms2 = renamed_terms(terms, rho);
    if n == 0 {
        assert(renamed_formulas(Seq::<RawModel>::empty(), rho) =~= Seq::<RawModel>::empty());
    } else {
        unlike_renamed(terms, (n - 1) as nat, rho);
        let row = unlike_later(terms, n - 1);
        let row2 = unlike_later(terms2, n - 1);
        assert forall|k: int| 0 <= k < row.len() implies #[trigger] row2[k] == renamed_formula(
            row[k],
            rho,
        ) by {
            equation_renamed(terms[n - 1], terms[n + k], rho);
        }
        assert(row2 =~= renamed_formulas(row, rho));
        assert(renamed_formulas(unlike(terms, (n - 1) as nat) + row, rho) =~= renamed_formulas(
            unlike(terms, (n - 1) as nat),
            rho,
        ) + renamed_formulas(row, rho));
    }
}

/// The names of variables make no difference: a formula with other names for its quantified
/// variables is read as the same formula. The names of predicates, functions and constants are
/// those that the renaming leaves alone in what is read.
pub proof fn variable_names_make_no_difference(s: SexprModel, rho: Renaming)
    requires
        proper(rho),
        ({
            let r = formula_reading(s, Scope { env: Map::empty(), next: 0 });
            r is Read ==> renamed_formula(r->Read_0.0, rho) == r->Read_0.0
        }),
    ensures
        ({
            let r = formula_reading(s, Scope { env: Map::empty(), next: 0 });
            let r2 = formula_reading(renamed(s, rho), Scope { env: Map::empty(), next: 0 });
            match r {
                Reading::Read((f, _)) => r2 is Read && r2->Read_0.0 == f,
                other => r2 == other,
            }
        }),
{
    let scope = Scope { env: Map::empty(), next: 0 };
    reading_commutes_with_renaming(s, scope, scope, rho);
}

} // verus!
