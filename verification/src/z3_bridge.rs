//! The bridge to Z3: a solver that Skolemizes what it is given, translates the result into Z3's
//! syntax trees, and hands it on.
//!
//! This is untyped first-order logic: every variable, function value and argument lives in the one
//! uninterpreted sort `U`. Predicates are uninterpreted functions into the truth values, except
//! that `=` between two terms is Z3's own equality.

use crate::model::{
    height, subst, subst_height, subst_term, subst_term_func, subst_terms, FormulaModel, TermModel,
};
use crate::skolem_table::{
    among_minted, looked_up_wf, symbol, KeyModel, SkolemTable, TableModel, DEFAULT_IDLE_WINDOW,
    DEFAULT_SOFT_CAPACITY,
};
use crate::skolemize::{
    skolem_interned, skolem_term, skolemized, var_terms, witnessed, Skolemizer,
};
use crate::term::{func_view, term_models, Formula, Interner, InternerModel, Term, VarId};
use crate::text::{
    concat, decimal, decimal_digits, decimal_injective, decimal_nonempty, numeral_of, same_text,
    Counter,
};
use crate::z3_api::{
    about_one_sort, answer_given, apply, as_claim, bool_sort, conjunction, consistent, copy, decl_model, declare,
    disjunction, equal, expr_models, for_all, nameable, negation, new_solver, nul_free,
    solver_assert, solver_check, solver_pop, solver_push, solver_stack, sort_model, sort_models,
    sort_of, sorts_of, thread_context, truth, uninterpreted_sort, z3_answers, AstModel, Claim, DeclModel, Expr,
    SortModel, StackModel,
};
use std::collections::HashMap;
use std::rc::Rc;
use vstd::hash_map::StringHashMap;
use vstd::prelude::*;
use z3::{Context, FuncDecl, SatResult, Solver, Sort};

verus! {

/// Why a formula has no translation.
#[derive(Debug)]
pub enum BridgeError {
    /// A variable that no quantifier binds.
    UnboundVariable(VarId),
    /// An existential quantifier.
    UnskolemizedExistential,
}

/// Why a translation was given up.
#[derive(Debug)]
pub enum Trouble {
    /// The formula has no translation.
    Refused(BridgeError),
    /// It has a symbol that cannot be declared in Z3.
    Stuck,
}

/// The context that everything in this thread is made in. Which one that is depends on the thread
/// and on what was set in it, so nothing is said of the result.
pub fn default_context() -> Context {
    thread_context()
}

/// The sort of all terms.
pub open spec fn domain_sort() -> SortModel {
    SortModel::Uninterpreted("U"@)
}

/// The symbol of this name with `arity` arguments.
pub open spec fn symbol_decl(name: Seq<char>, arity: nat, range: SortModel) -> DeclModel {
    DeclModel { name, domain: Seq::new(arity, |i: int| domain_sort()), range }
}

/// The `n`-th constant that stands for a bound variable.
pub open spec fn constant_decl(n: nat) -> DeclModel {
    symbol_decl("v"@ + "!"@ + decimal(n), 0, domain_sort())
}

/// Whether Z3 can take a symbol: its name is not empty and has no NUL in it, and it has no more
/// arguments than a `u32` counts.
pub open spec fn declarable(name: Seq<char>, arity: nat) -> bool {
    nameable(name) && arity <= u32::MAX
}

/// The translation of a term, where `bound` gives the constant for each bound variable.
pub open spec fn term_ast(t: TermModel, bound: Map<VarId, AstModel>) -> Result<
    AstModel,
    Trouble,
>
    decreases t, 0nat,
{
    match t {
        TermModel::Var(v) => if bound.contains_key(v) {
            Ok(bound[v])
        } else {
            Err(Trouble::Refused(BridgeError::UnboundVariable(v)))
        },
        TermModel::Func(name, args) => match term_asts(args, args.len(), bound) {
            Ok(asts) => if declarable(name, args.len()) {
                Ok(AstModel::App(symbol_decl(name, args.len(), domain_sort()), asts))
            } else {
                Err(Trouble::Stuck)
            },
            Err(e) => Err(e),
        },
    }
}

/// The translations of the first `n` terms, or the error of the first that has none.
pub open spec fn term_asts(args: Seq<TermModel>, n: nat, bound: Map<VarId, AstModel>) -> Result<
    Seq<AstModel>,
    Trouble,
>
    decreases args, n,
{
    if n == 0 || n > args.len() {
        Ok(Seq::empty())
    } else {
        match term_asts(args, (n - 1) as nat, bound) {
            Ok(asts) => match term_ast(args[n - 1], bound) {
                Ok(ast) => Ok(asts.push(ast)),
                Err(e) => Err(e),
            },
            Err(e) => Err(e),
        }
    }
}

/// The translation of a predicate applied to translated arguments.
pub open spec fn atom_ast(name: Seq<char>, args: Seq<AstModel>) -> Result<AstModel, Trouble> {
    if name == "="@ && args.len() == 2 {
        Ok(AstModel::Equal(Box::new(args[0]), Box::new(args[1])))
    } else if declarable(name, args.len()) {
        Ok(AstModel::App(symbol_decl(name, args.len(), SortModel::Bool), args))
    } else {
        Err(Trouble::Stuck)
    }
}

/// The translation of a formula, and how many constants there are after it if there were `n`
/// before: each universal quantifier that is reached takes a new one.
pub open spec fn formula_ast(f: FormulaModel, bound: Map<VarId, AstModel>, n: nat) -> (
    Result<AstModel, Trouble>,
    nat,
)
    decreases f,
{
    match f {
        FormulaModel::Pred { name, args, negated } => (
            match term_asts(args, args.len(), bound) {
                Ok(asts) => match atom_ast(name, asts) {
                    Ok(atom) => Ok(
                        if negated {
                            AstModel::Not(Box::new(atom))
                        } else {
                            atom
                        },
                    ),
                    Err(e) => Err(e),
                },
                Err(e) => Err(e),
            },
            n,
        ),
        FormulaModel::And(l, r) => match formula_ast(*l, bound, n) {
            (Ok(nl), n1) => match formula_ast(*r, bound, n1) {
                (Ok(nr), n2) => (Ok(AstModel::And(Box::new(nl), Box::new(nr))), n2),
                (Err(e), n2) => (Err(e), n2),
            },
            (Err(e), n1) => (Err(e), n1),
        },
        FormulaModel::Or(l, r) => match formula_ast(*l, bound, n) {
            (Ok(nl), n1) => match formula_ast(*r, bound, n1) {
                (Ok(nr), n2) => (Ok(AstModel::Or(Box::new(nl), Box::new(nr))), n2),
                (Err(e), n2) => (Err(e), n2),
            },
            (Err(e), n1) => (Err(e), n1),
        },
        FormulaModel::ForAll(v, body) => {
            let constant = constant_decl(n + 1);
            let inner = bound.insert(v, AstModel::App(constant, Seq::empty()));
            match formula_ast(*body, inner, n + 1) {
                (Ok(nb), n1) => (Ok(AstModel::ForAll(constant, Box::new(nb))), n1),
                (Err(e), n1) => (Err(e), n1),
            }
        },
        FormulaModel::Exists(_, _) => (Err(Trouble::Refused(BridgeError::UnskolemizedExistential)), n),
        FormulaModel::True => (Ok(AstModel::Truth(true)), n),
        FormulaModel::False => (Ok(AstModel::Truth(false)), n),
    }
}

/// Whether the symbols of a term can be declared in Z3: their names are not empty and have no NUL in
/// them, and they have no more arguments than a `u32` counts.
pub open spec fn encodable_term(t: TermModel) -> bool
    decreases t,
{
    match t {
        TermModel::Var(_) => true,
        TermModel::Func(name, args) => {
            &&& name.len() > 0
            &&& forall|i: int| 0 <= i < name.len() ==> #[trigger] name[i] != '\0'
            &&& encodable_terms(args)
        },
    }
}

/// The same of a list of arguments.
pub open spec fn encodable_terms(args: Seq<TermModel>) -> bool
    decreases args,
{
    &&& args.len() <= u32::MAX
    &&& forall|i: int| 0 <= i < args.len() ==> encodable_term(#[trigger] args[i])
}

/// Whether the symbols of a formula can be declared in Z3.
pub open spec fn encodable(f: FormulaModel) -> bool
    decreases f,
{
    match f {
        FormulaModel::Pred { name, args, negated } => {
            &&& name.len() > 0
            &&& forall|i: int| 0 <= i < name.len() ==> #[trigger] name[i] != '\0'
            &&& encodable_terms(args)
        },
        FormulaModel::And(l, r) | FormulaModel::Or(l, r) => encodable(*l) && encodable(*r),
        FormulaModel::ForAll(_, body) | FormulaModel::Exists(_, body) => encodable(*body),
        FormulaModel::True | FormulaModel::False => true,
    }
}

fn is_nameable(name: &str) -> (r: bool)
    ensures
        r == nameable(name@),
{
    let mut some = false;
    for c in it: name.chars()
        invariant
            it.seq() == name@,
            some == (it.index() > 0),
            forall|i: int| 0 <= i < it.index() ==> #[trigger] name@[i] != '\0',
    {
        if c == '\0' {
            assert(name@[it.index() as int] == '\0');
            return false;
        }
        some = true;
    }
    some
}

fn is_declarable(name: &str, arity: usize) -> (r: bool)
    ensures
        r == declarable(name@, arity as nat),
{
    arity <= u32::MAX as usize && is_nameable(name)
}

/// The symbols declared so far. A symbol is known by its name and its number of arguments; see
/// [`symbol_key`].
struct DeclRegistry {
    u_sort: Sort,
    preds: StringHashMap<FuncDecl>,
    funcs: StringHashMap<FuncDecl>,
    fresh_var_counter: Counter,
}

/// What a symbol is looked up by: its number of arguments, a space, and its name.
spec fn symbol_key(name: Seq<char>, arity: nat) -> Seq<char> {
    decimal(arity) + " "@ + name
}

/// Different symbols have different keys.
proof fn symbol_key_injective(n1: Seq<char>, a1: nat, n2: Seq<char>, a2: nat)
    requires
        symbol_key(n1, a1) == symbol_key(n2, a2),
    ensures
        n1 == n2,
        a1 == a2,
{
    reveal_strlit(" ");
    decimal_digits(a1);
    decimal_digits(a2);
    let k1 = symbol_key(n1, a1);
    let k2 = symbol_key(n2, a2);
    let l1 = decimal(a1).len() as int;
    let l2 = decimal(a2).len() as int;
    assert(k1[l1] == ' ' && k2[l2] == ' ');
    if l1 < l2 {
        assert(k2[l1] == decimal(a2)[l1]);
    }
    if l2 < l1 {
        assert(k1[l2] == decimal(a1)[l2]);
    }
    assert(k1.take(l1) =~= decimal(a1));
    assert(k2.take(l2) =~= decimal(a2));
    decimal_injective(a1, a2);
    assert(k1.skip(l1 + 1) =~= n1);
    assert(k2.skip(l2 + 1) =~= n2);
}

/// What a symbol is looked up by.
fn key_of(name: &str, arity: u32) -> (r: String)
    ensures
        r@ == symbol_key(name@, arity as nat),
{
    let numeral = numeral_of(arity);
    let start = concat(numeral.as_str(), " ");
    concat(start.as_str(), name)
}

/// Whether each declaration is that of its name and number of arguments.
spec fn declared_as(known: Map<Seq<char>, FuncDecl>, range: SortModel) -> bool {
    forall|name: Seq<char>, arity: nat| #[trigger]
        known.contains_key(symbol_key(name, arity)) ==> decl_model(
            known[symbol_key(name, arity)],
        ) == symbol_decl(name, arity, range)
}

/// Adding a declaration keeps the others.
proof fn declared_one_more(
    known: Map<Seq<char>, FuncDecl>,
    range: SortModel,
    name: Seq<char>,
    arity: nat,
    decl: FuncDecl,
)
    requires
        declared_as(known, range),
        decl_model(decl) == symbol_decl(name, arity, range),
    ensures
        declared_as(known.insert(symbol_key(name, arity), decl), range),
{
    let key = symbol_key(name, arity);
    assert forall|n: Seq<char>, a: nat| #[trigger]
        known.insert(key, decl).contains_key(symbol_key(n, a)) implies decl_model(
        known.insert(key, decl)[symbol_key(n, a)],
    ) == symbol_decl(n, a, range) by {
        if symbol_key(n, a) == key {
            symbol_key_injective(n, a, name, arity);
        } else {
            assert(known.contains_key(symbol_key(n, a)));
        }
    }
}

/// Declares a symbol over the domain sort.
fn declare_symbol(name: &str, arity: u32, u_sort: &Sort, range: &Sort) -> (r: FuncDecl)
    requires
        nameable(name@),
        sort_model(*u_sort) == domain_sort(),
    ensures
        decl_model(r) == symbol_decl(name@, arity as nat, sort_model(*range)),
{
    let mut domain: Vec<&Sort> = Vec::new();
    let mut i: u32 = 0;
    while i < arity
        invariant
            i <= arity,
            sort_model(*u_sort) == domain_sort(),
            domain@.len() == i,
            forall|k: int| 0 <= k < i ==> sort_model(*#[trigger] domain@[k]) == domain_sort(),
        decreases arity - i,
    {
        domain.push(u_sort);
        i += 1;
    }
    assert(sort_models(domain@) =~= Seq::new(arity as nat, |i: int| domain_sort()));
    declare(name, &domain, range)
}

impl DeclRegistry {
    spec fn wf(&self) -> bool {
        &&& sort_model(self.u_sort) == domain_sort()
        &&& declared_as(self.preds@, SortModel::Bool)
        &&& declared_as(self.funcs@, domain_sort())
        &&& self.fresh_var_counter.wf()
    }

    fn new() -> (r: DeclRegistry)
        ensures
            r.wf(),
            r.fresh_var_counter@ == 0,
    {
        proof {
            reveal_strlit("U");
        }
        DeclRegistry {
            u_sort: uninterpreted_sort("U"),
            preds: StringHashMap::new(),
            funcs: StringHashMap::new(),
            fresh_var_counter: Counter::new(),
        }
    }

    /// The predicate of this name applied to terms.
    fn apply_pred(&mut self, name: &str, args: &Vec<Expr>) -> (r: Expr)
        requires
            old(self).wf(),
            nameable(name@),
            args@.len() <= u32::MAX,
            forall|i: int| 0 <= i < args@.len() ==> sort_of((#[trigger] args@[i])@) == domain_sort(),
        ensures
            final(self).wf(),
            final(self).fresh_var_counter == old(self).fresh_var_counter,
            r@ == AstModel::App(
                symbol_decl(name@, args@.len(), SortModel::Bool),
                expr_models(args@),
            ),
    {
        let arity: u32 = args.len() as u32;
        assert(sorts_of(expr_models(args@)) =~= Seq::new(arity as nat, |i: int| domain_sort()));
        let key = key_of(name, arity);
        if let Some(decl) = self.preds.get(key.as_str()) {
            return apply(decl, args);
        }
        let range = bool_sort();
        let decl = declare_symbol(name, arity, &self.u_sort, &range);
        let applied = apply(&decl, args);
        proof {
            declared_one_more(self.preds@, SortModel::Bool, name@, arity as nat, decl);
        }
        self.preds.insert(key, decl);
        applied
    }

    /// The function of this name applied to terms.
    fn apply_func(&mut self, name: &str, args: &Vec<Expr>) -> (r: Expr)
        requires
            old(self).wf(),
            nameable(name@),
            args@.len() <= u32::MAX,
            forall|i: int| 0 <= i < args@.len() ==> sort_of((#[trigger] args@[i])@) == domain_sort(),
        ensures
            final(self).wf(),
            final(self).fresh_var_counter == old(self).fresh_var_counter,
            r@ == AstModel::App(
                symbol_decl(name@, args@.len(), domain_sort()),
                expr_models(args@),
            ),
    {
        let arity: u32 = args.len() as u32;
        assert(sorts_of(expr_models(args@)) =~= Seq::new(arity as nat, |i: int| domain_sort()));
        let key = key_of(name, arity);
        if let Some(decl) = self.funcs.get(key.as_str()) {
            return apply(decl, args);
        }
        let decl = declare_symbol(name, arity, &self.u_sort, &self.u_sort);
        let applied = apply(&decl, args);
        proof {
            declared_one_more(self.funcs@, domain_sort(), name@, arity as nat, decl);
        }
        self.funcs.insert(key, decl);
        applied
    }

    /// A new constant, named after `hint`.
    fn fresh_const(&mut self, hint: &str) -> (r: Expr)
        requires
            old(self).wf(),
            nameable(hint@),
        ensures
            final(self).wf(),
            final(self).fresh_var_counter@ == old(self).fresh_var_counter@ + 1,
            r@ == AstModel::App(
                symbol_decl(
                    hint@ + "!"@ + decimal(old(self).fresh_var_counter@ + 1),
                    0,
                    domain_sort(),
                ),
                Seq::empty(),
            ),
    {
        self.fresh_var_counter.next();
        let numeral = self.fresh_var_counter.numeral();
        let mark = concat(hint, "!");
        let name = concat(mark.as_str(), numeral.as_str());
        proof {
            reveal_strlit("!");
            decimal_digits(self.fresh_var_counter@);
        }
        let decl = declare_symbol(name.as_str(), 0, &self.u_sort, &self.u_sort);
        let none: Vec<Expr> = Vec::new();
        assert(sorts_of(expr_models(none@)) =~= decl_model(decl).domain);
        assert(expr_models(none@) =~= Seq::<AstModel>::empty());
        apply(&decl, &none)
    }
}

/// The constants that stand for the bound variables, as trees.
spec fn bound_models(bound: Map<VarId, Expr>) -> Map<VarId, AstModel> {
    bound.map_values(|e: Expr| e@)
}

/// Whether the bound variables stand for elements of the domain.
spec fn bound_in_domain(bound: Map<VarId, Expr>) -> bool {
    forall|v: VarId| #[trigger] bound.contains_key(v) ==> sort_of(bound[v]@) == domain_sort()
}

/// Whether a translation came out as `expected`.
spec fn term_result(r: Result<Expr, Trouble>, expected: Result<AstModel, Trouble>) -> bool {
    match expected {
        Ok(ast) => r is Ok && r->Ok_0@ == ast,
        Err(e) => r == Err::<Expr, Trouble>(e),
    }
}

fn translate_term(decls: &mut DeclRegistry, bound: &HashMap<VarId, Expr>, t: &Term) -> (r: Result<
    Expr,
    Trouble,
>)
    requires
        old(decls).wf(),
        bound_in_domain(bound@),
    ensures
        final(decls).wf(),
        final(decls).fresh_var_counter == old(decls).fresh_var_counter,
        term_result(r, term_ast(t@, bound_models(bound@))),
        r is Ok ==> sort_of(r->Ok_0@) == domain_sort(),
    decreases *t, 0nat,
{
    broadcast use vstd::std_specs::hash::group_hash_axioms;

    match t {
        Term::Var(v) => match bound.get(v) {
            Some(e) => Ok(copy(e)),
            None => Err(Trouble::Refused(BridgeError::UnboundVariable(*v))),
        },
        Term::Func(name, args) => {
            proof {
                func_view(*name, *args);
            }
            match translate_terms(decls, bound, args) {
                Ok(translated) => {
                    if is_declarable(name.as_str(), translated.len()) {
                        Ok(decls.apply_func(name.as_str(), &translated))
                    } else {
                        Err(Trouble::Stuck)
                    }
                },
                Err(e) => Err(e),
            }
        },
    }
}

fn translate_terms(
    decls: &mut DeclRegistry,
    bound: &HashMap<VarId, Expr>,
    args: &Vec<Rc<Term>>,
) -> (r: Result<Vec<Expr>, Trouble>)
    requires
        old(decls).wf(),
        bound_in_domain(bound@),
    ensures
        final(decls).wf(),
        final(decls).fresh_var_counter == old(decls).fresh_var_counter,
        match term_asts(term_models(args@), args@.len(), bound_models(bound@)) {
            Ok(asts) => {
                &&& r is Ok
                &&& expr_models(r->Ok_0@) == asts
                &&& r->Ok_0@.len() == args@.len()
                &&& forall|i: int|
                    0 <= i < args@.len() ==> sort_of((#[trigger] r->Ok_0@[i])@) == domain_sort()
            },
            Err(e) => r == Err::<Vec<Expr>, Trouble>(e),
        },
    decreases *args, 0nat,
{
    let ghost models = term_models(args@);
    let ghost consts = bound_models(bound@);
    let mut translated: Vec<Expr> = Vec::new();
    let mut i: usize = 0;
    assert(expr_models(translated@) =~= Seq::<AstModel>::empty());
    while i < args.len()
        invariant
            decls.wf(),
            decls.fresh_var_counter == old(decls).fresh_var_counter,
            bound_in_domain(bound@),
            models == term_models(args@),
            consts == bound_models(bound@),
            i <= args@.len(),
            translated@.len() == i,
            term_asts(models, i as nat, consts) == Ok::<Seq<AstModel>, Trouble>(
                expr_models(translated@),
            ),
            forall|k: int| 0 <= k < i ==> sort_of((#[trigger] translated@[k])@) == domain_sort(),
        decreases args@.len() - i,
    {
        assert(models[i as int] == args@[i as int]@);
        match translate_term(decls, bound, &args[i]) {
            Ok(e) => {
                let ghost before = translated@;
                translated.push(e);
                assert(expr_models(translated@) =~= expr_models(before).push(e@));
            },
            Err(e) => {
                proof {
                    term_asts_stop(models, (i + 1) as nat, consts, e);
                }
                return Err(e);
            },
        }
        i += 1;
    }
    Ok(translated)
}

/// An error in a first part of a list is the error of the list.
proof fn term_asts_stop(
    args: Seq<TermModel>,
    n: nat,
    bound: Map<VarId, AstModel>,
    e: Trouble,
)
    requires
        n <= args.len(),
        term_asts(args, n, bound) == Err::<Seq<AstModel>, Trouble>(e),
    ensures
        term_asts(args, args.len(), bound) == Err::<Seq<AstModel>, Trouble>(e),
    decreases args.len() - n,
{
    if n < args.len() {
        term_asts_stop(args, n + 1, bound, e);
    }
}

/// Whether a translation came out as `expected`.
spec fn claim_result(
    r: Result<Claim, Trouble>,
    expected: Result<AstModel, Trouble>,
) -> bool {
    match expected {
        Ok(ast) => r is Ok && r->Ok_0@ == ast,
        Err(e) => r == Err::<Claim, Trouble>(e),
    }
}

fn translate_formula(
    decls: &mut DeclRegistry,
    bound: &mut HashMap<VarId, Expr>,
    f: &Formula,
) -> (r: Result<Claim, Trouble>)
    requires
        old(decls).wf(),
        bound_in_domain(old(bound)@),
    ensures
        final(decls).wf(),
        final(bound)@ == old(bound)@,
        claim_result(
            r,
            formula_ast(
                f@,
                bound_models(old(bound)@),
                old(decls).fresh_var_counter@,
            ).0,
        ),
        final(decls).fresh_var_counter@ == formula_ast(
            f@,
            bound_models(old(bound)@),
            old(decls).fresh_var_counter@,
        ).1,
    decreases *f,
{
    broadcast use vstd::std_specs::hash::group_hash_axioms;

    match f {
        Formula::Pred { name, args, negated } => {
            let translated = match translate_terms(decls, bound, args) {
                Ok(translated) => translated,
                Err(e) => {
                    return Err(e);
                },
            };
            let atom = if translated.len() == 2 && same_text(name.as_str(), "=") {
                equal(&translated[0], &translated[1])
            } else if is_declarable(name.as_str(), translated.len()) {
                let applied = decls.apply_pred(name.as_str(), &translated);
                as_claim(&applied).unwrap()
            } else {
                return Err(Trouble::Stuck);
            };
            assert(atom_ast(name@, expr_models(translated@)) == Ok::<AstModel, Trouble>(atom@));
            Ok(
                if *negated {
                    negation(&atom)
                } else {
                    atom
                },
            )
        },
        Formula::And(l, r) => {
            let nl = match translate_formula(decls, bound, l) {
                Ok(nl) => nl,
                Err(e) => {
                    return Err(e);
                },
            };
            match translate_formula(decls, bound, r) {
                Ok(nr) => Ok(conjunction(&nl, &nr)),
                Err(e) => Err(e),
            }
        },
        Formula::Or(l, r) => {
            let nl = match translate_formula(decls, bound, l) {
                Ok(nl) => nl,
                Err(e) => {
                    return Err(e);
                },
            };
            match translate_formula(decls, bound, r) {
                Ok(nr) => Ok(disjunction(&nl, &nr)),
                Err(e) => Err(e),
            }
        },
        Formula::ForAll(v, body) => {
            let ghost outer = bound@;
            proof {
                reveal_strlit("v");
            }
            let constant = decls.fresh_const("v");
            let shadowed = bound.insert(*v, copy(&constant));
            assert(bound_models(bound@) =~= bound_models(outer).insert(*v, constant@));
            let inner = translate_formula(decls, bound, body);
            match shadowed {
                Some(e) => {
                    bound.insert(*v, e);
                },
                None => {
                    bound.remove(v);
                },
            }
            assert(bound@ =~= outer);
            match inner {
                Ok(nb) => Ok(for_all(&constant, &nb)),
                Err(e) => Err(e),
            }
        },
        Formula::Exists(_, _) => Err(Trouble::Refused(BridgeError::UnskolemizedExistential)),
        Formula::True => Ok(truth(true)),
        Formula::False => Ok(truth(false)),
    }
}

proof fn encodable_subst_term(t: TermModel, v: VarId, rep: TermModel)
    requires
        encodable_term(t),
        encodable_term(rep),
    ensures
        encodable_term(subst_term(t, v, rep)),
    decreases t,
{
    if let TermModel::Func(name, args) = t {
        subst_term_func(name, args, v, rep);
        encodable_subst_terms(args, v, rep);
    }
}

proof fn encodable_subst_terms(args: Seq<TermModel>, v: VarId, rep: TermModel)
    requires
        encodable_terms(args),
        encodable_term(rep),
    ensures
        encodable_terms(subst_terms(args, v, rep)),
    decreases args,
{
    assert forall|i: int| 0 <= i < args.len() implies encodable_term(
        #[trigger] subst_terms(args, v, rep)[i],
    ) by {
        encodable_subst_term(args[i], v, rep);
    }
}

proof fn encodable_subst(f: FormulaModel, v: VarId, rep: TermModel)
    requires
        encodable(f),
        encodable_term(rep),
    ensures
        encodable(subst(f, v, rep)),
    decreases f,
{
    match f {
        FormulaModel::Pred { name, args, negated } => {
            encodable_subst_terms(args, v, rep);
        },
        FormulaModel::And(l, r) | FormulaModel::Or(l, r) => {
            encodable_subst(*l, v, rep);
            encodable_subst(*r, v, rep);
        },
        FormulaModel::ForAll(w, body) | FormulaModel::Exists(w, body) => {
            encodable_subst(*body, v, rep);
        },
        FormulaModel::True | FormulaModel::False => {},
    }
}

/// Skolemization keeps a formula encodable, and the table well formed.
pub proof fn skolemized_is_encodable(f: FormulaModel, deps: Seq<VarId>, t: TableModel)
    requires
        t.wf(),
        nul_free(t.prefix),
        encodable(f),
        deps.len() + height(f) <= u32::MAX,
    ensures
        encodable(skolemized(f, deps, t).0),
        skolemized(f, deps, t).1.wf(),
        skolemized(f, deps, t).1.prefix == t.prefix,
    decreases height(f),
{
    match f {
        FormulaModel::And(l, r) | FormulaModel::Or(l, r) => {
            skolemized_is_encodable(*l, deps, t);
            skolemized_is_encodable(*r, deps, skolemized(*l, deps, t).1);
        },
        FormulaModel::ForAll(v, body) => {
            skolemized_is_encodable(*body, deps.push(v), t);
        },
        FormulaModel::Exists(v, body) => {
            let key = KeyModel { body: *body, deps };
            let sym = t.entry_for(key).symbol;
            let rep = skolem_term(sym, deps);
            looked_up_wf(t, key);
            assert(nameable(sym)) by {
                let n = if t.entries.contains_key(key) {
                    choose|i: nat| 1 <= i <= t.minted && sym == #[trigger] symbol(t.prefix, i)
                } else {
                    t.minted + 1
                };
                assert(among_minted(t.prefix, t.minted, sym) || sym == symbol(
                    t.prefix,
                    t.minted + 1,
                ));
                decimal_digits(n);
                decimal_nonempty(n);
            }
            assert(encodable_terms(var_terms(deps)));
            subst_height(*body, v, rep);
            encodable_subst(*body, v, rep);
            skolemized_is_encodable(witnessed(v, *body, deps, t), deps, t.looked_up(key));
        },
        _ => {},
    }
}

/// The state of a Skolemizing solver.
#[verifier::ext_equal]
pub struct SolverModel {
    /// What Z3 was told.
    pub stack: StackModel<AstModel>,
    pub interner: InternerModel,
    pub table: TableModel,
    /// How many constants stand for bound variables.
    pub constants: nat,
}

impl SolverModel {
    /// A solver that was told nothing.
    pub open spec fn empty() -> SolverModel {
        SolverModel {
            stack: StackModel::empty(),
            interner: InternerModel::empty(),
            table: TableModel::empty("sk!"@, DEFAULT_SOFT_CAPACITY, DEFAULT_IDLE_WINDOW),
            constants: 0,
        }
    }

    /// One scope deeper.
    pub open spec fn pushed(self) -> SolverModel {
        SolverModel { stack: self.stack.pushed(), table: self.table.pushed(), ..self }
    }

    /// The translation of a formula after it was Skolemized, and the number of constants then.
    pub open spec fn translation(self, f: FormulaModel) -> (Result<AstModel, Trouble>, nat) {
        formula_ast(skolemized(f, Seq::empty(), self.table).0, Map::empty(), self.constants)
    }

    /// After a formula was asserted. One without a translation leaves its mark on the table, the
    /// interner and the number of constants, but not on what Z3 was told.
    pub open spec fn asserted(self, f: FormulaModel) -> SolverModel {
        SolverModel {
            stack: match self.translation(f).0 {
                Ok(ast) => self.stack.with(ast),
                Err(_) => self.stack,
            },
            interner: skolem_interned(self.interner, f, Seq::empty(), self.table),
            table: skolemized(f, Seq::empty(), self.table).1,
            constants: self.translation(f).1,
        }
    }
}

/// Whether an answer is right for these assertions: a definite answer about assertions of the one
/// sort says whether they can hold together.
pub open spec fn right_answer(r: SatResult, asserted: Seq<AstModel>) -> bool {
    about_one_sort(asserted, domain_sort()) ==> match r {
        SatResult::Unsat => !consistent(asserted),
        SatResult::Sat => consistent(asserted),
        SatResult::Unknown => true,
    }
}

/// A Z3 solver behind a Skolemizing layer: what is asserted is Skolemized first, with an interner
/// and a table of symbols that last as long as the solver.
pub struct SkolemizingSolver {
    solver: Solver,
    interner: Interner,
    table: SkolemTable,
    decls: DeclRegistry,
}

impl View for SkolemizingSolver {
    type V = SolverModel;

    closed spec fn view(&self) -> SolverModel {
        SolverModel {
            stack: solver_stack(self.solver),
            interner: self.interner@,
            table: self.table@,
            constants: self.decls.fresh_var_counter@,
        }
    }
}

impl SkolemizingSolver {
    /// The parts are well formed.
    pub closed spec fn wf(&self) -> bool {
        &&& self.interner.wf()
        &&& self.table.wf()
        &&& self.decls.wf()
    }

    /// A solver that was told nothing.
    pub fn new() -> (r: SkolemizingSolver)
        ensures
            r.wf(),
            r@ == SolverModel::empty(),
    {
        SkolemizingSolver {
            solver: new_solver(),
            interner: Interner::new(),
            table: SkolemTable::new("sk!"),
            decls: DeclRegistry::new(),
        }
    }

    /// Asserts a formula. One with a variable that nothing binds is refused, and Z3 is told
    /// nothing. There is no result if the translation comes to a symbol that cannot be declared in
    /// Z3; it is told nothing then either.
    pub fn try_assert_formula(&mut self, formula: &Rc<Formula>) -> (r: Option<
        Result<(), BridgeError>,
    >)
        requires
            old(self).wf(),
        ensures
            final(self).wf(),
            final(self)@ == old(self)@.asserted(formula@),
            match old(self)@.translation(formula@).0 {
                Ok(_) => r == Some(Ok::<(), BridgeError>(())),
                Err(Trouble::Refused(e)) => r == Some(Err::<(), BridgeError>(e)),
                Err(Trouble::Stuck) => r is None,
            },
    {
        let none: Vec<VarId> = Vec::new();
        assert(none@ =~= Seq::<VarId>::empty());
        let skolemized = {
            let mut pass = Skolemizer::new(&mut self.interner, &mut self.table);
            pass.skolemize(formula, none.as_slice())
        };
        let mut bound: HashMap<VarId, Expr> = HashMap::new();
        assert(bound_models(bound@) =~= Map::<VarId, AstModel>::empty());
        match translate_formula(&mut self.decls, &mut bound, &skolemized) {
            Ok(translated) => {
                solver_assert(&mut self.solver, &translated);
                Some(Ok(()))
            },
            Err(Trouble::Refused(e)) => Some(Err(e)),
            Err(Trouble::Stuck) => None,
        }
    }

    /// Asserts a formula whose symbols can be declared in Z3, as far as the translation comes. One
    /// with a variable that nothing binds is refused, and Z3 is told nothing.
    pub fn assert_formula(&mut self, formula: &Rc<Formula>) -> (r: Result<(), BridgeError>)
        requires
            old(self).wf(),
            old(self)@.translation(formula@).0 != Err::<AstModel, Trouble>(Trouble::Stuck),
        ensures
            final(self).wf(),
            final(self)@ == old(self)@.asserted(formula@),
            match old(self)@.translation(formula@).0 {
                Ok(_) => r is Ok,
                Err(trouble) => r is Err && trouble == Trouble::Refused(r->Err_0),
            },
    {
        self.try_assert_formula(formula).unwrap()
    }

    /// Enters a scope.
    pub fn push(&mut self)
        requires
            old(self).wf(),
        ensures
            final(self).wf(),
            final(self)@ == old(self)@.pushed(),
    {
        solver_push(&mut self.solver);
        self.table.push();
    }

    /// Leaves `n` scopes: what was asserted in them goes, and the Skolem symbols stay. What Z3 holds
    /// after leaving more scopes than were entered is not stated; the table is then at its
    /// outermost scope.
    pub fn pop(&mut self, n: u32)
        requires
            old(self).wf(),
        ensures
            final(self).wf(),
            final(self)@ == (SolverModel {
                stack: final(self)@.stack,
                table: old(self)@.table.popped(n as usize),
                ..old(self)@
            }),
            n <= old(self)@.stack.marks.len() ==> final(self)@.stack == old(self)@.stack.popped(
                n as nat,
            ),
    {
        solver_pop(&mut self.solver, n);
        self.table.pop(n as usize);
    }

    /// Asks Z3 whether the assertions can hold together, and gives its answer. A definite answer is
    /// right, as long as the assertions are about the one sort; which answer comes is up to Z3.
    pub fn check_sat(&self) -> (r: SatResult)
        ensures
            z3_answers(self@.stack, r),
            right_answer(r, self@.stack.asserted),
    {
        let answer = solver_check(&self.solver);
        proof {
            answer_given(self.solver, answer);
        }
        answer
    }

    /// How many symbols were minted, how many were found again, and how many are live.
    pub fn stats(&self) -> (r: (usize, usize, usize))
        requires
            self.wf(),
        ensures
            r.0 == self@.table.fresh_generations,
            r.1 == self@.table.reuse_hits,
            r.2 == self@.table.entries.dom().len(),
    {
        (self.table.fresh_generations, self.table.reuse_hits, self.table.len())
    }

    /// The table of symbols.
    pub fn table_mut(&mut self) -> (r: &mut SkolemTable)
        requires
            old(self).wf(),
        ensures
            r.wf(),
            r@ == old(self)@.table,
            final(r).wf() ==> final(self).wf(),
            final(self)@ == (SolverModel { table: final(r)@, ..old(self)@ }),
    {
        &mut self.table
    }
}

} // verus!
