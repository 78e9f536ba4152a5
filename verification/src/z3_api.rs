//! The parts of Z3 that the library calls, and what is taken for granted of them.
//!
//! Z3 values are opaque. What a value holds is given by a name: a sort, a declaration, a syntax
//! tree, or the stack of assertions of a solver. The functions of this module each make one call
//! into the `z3` crate and say what comes of it over those names. All of them work in the context
//! of the current thread, and expect that their arguments were made in that same context.

use crate::semantics::Structure;
use vstd::prelude::*;
use z3::ast::{Ast, Bool, Dynamic};
use z3::{Context, FuncDecl, SatResult, Solver, Sort, Symbol};

verus! {

/// `z3::Context`, in which Z3 keeps everything. Nothing is read of it.
#[verifier::external_type_specification]
#[verifier::external_body]
pub struct ExContext(Context);

/// `z3::Sort`; see [`sort_model`].
#[verifier::external_type_specification]
#[verifier::external_body]
pub struct ExSort(Sort);

/// `z3::FuncDecl`; see [`decl_model`].
#[verifier::external_type_specification]
#[verifier::external_body]
pub struct ExFuncDecl(FuncDecl);

/// `z3::Solver`; see [`solver_stack`].
#[verifier::external_type_specification]
#[verifier::external_body]
pub struct ExSolver(Solver);

/// `z3::SatResult`, with its three variants.
#[verifier::external_type_specification]
pub struct ExSatResult(SatResult);

/// A syntax tree of any sort, as Z3 holds it: a `z3::ast::Dynamic`; see [`expr_model`].
#[verifier::external_body]
pub struct Expr {
    ast: Dynamic,
}

/// A syntax tree of a truth value, as Z3 holds it: a `z3::ast::Bool`; see [`claim_model`].
#[verifier::external_body]
pub struct Claim {
    ast: Bool,
}

/// A sort of Z3.
#[verifier::ext_equal]
pub enum SortModel {
    Bool,
    Uninterpreted(Seq<char>),
}

/// A declared symbol: a name with the sorts of its arguments and of its value.
#[verifier::ext_equal]
pub struct DeclModel {
    pub name: Seq<char>,
    pub domain: Seq<SortModel>,
    pub range: SortModel,
}

/// A syntax tree of Z3.
#[verifier::ext_equal]
pub enum AstModel {
    App(DeclModel, Seq<AstModel>),
    Equal(Box<AstModel>, Box<AstModel>),
    Not(Box<AstModel>),
    And(Box<AstModel>, Box<AstModel>),
    Or(Box<AstModel>, Box<AstModel>),
    /// The body for every value of the constant that the declaration names.
    ForAll(DeclModel, Box<AstModel>),
    Truth(bool),
}

/// A stack of assertions.
#[verifier::ext_equal]
#[verifier::reject_recursive_types(T)]
pub struct StackModel<T> {
    /// What is asserted now, the oldest first.
    pub asserted: Seq<T>,
    /// For each backtracking point, the oldest first, how much was asserted when it was set.
    pub marks: Seq<nat>,
}

impl<T> StackModel<T> {
    /// Nothing asserted, and no backtracking point.
    pub open spec fn empty() -> StackModel<T> {
        StackModel { asserted: Seq::empty(), marks: Seq::empty() }
    }

    /// With one more assertion.
    pub open spec fn with(self, a: T) -> StackModel<T> {
        StackModel { asserted: self.asserted.push(a), ..self }
    }

    /// With one more backtracking point.
    pub open spec fn pushed(self) -> StackModel<T> {
        StackModel { marks: self.marks.push(self.asserted.len()), ..self }
    }

    /// Back at the `n`-th backtracking point from the end.
    pub open spec fn popped(self, n: nat) -> StackModel<T>
        recommends
            n <= self.marks.len(),
    {
        if n == 0 {
            self
        } else {
            StackModel {
                asserted: self.asserted.take(self.marks[self.marks.len() - n] as int),
                marks: self.marks.take(self.marks.len() - n),
            }
        }
    }
}

/// The structure `s` with `d` for the constant `name`.
pub open spec fn with_constant<D>(s: Structure<D>, name: Seq<char>, d: D) -> Structure<D> {
    Structure {
        fun: |n: Seq<char>, args: Seq<D>|
            if n == name && args.len() == 0 {
                d
            } else {
                (s.fun)(n, args)
            },
        ..s
    }
}

/// The element that a tree of the domain sort denotes.
pub open spec fn ast_value<D>(s: Structure<D>, a: AstModel) -> D
    decreases a,
{
    match a {
        AstModel::App(decl, args) => (s.fun)(decl.name, ast_values(s, args)),
        _ => arbitrary(),
    }
}

/// The elements that a list of trees of the domain sort denotes.
pub open spec fn ast_values<D>(s: Structure<D>, args: Seq<AstModel>) -> Seq<D>
    decreases args,
{
    Seq::new(
        args.len(),
        |i: int|
            if 0 <= i < args.len() {
                ast_value(s, args[i])
            } else {
                arbitrary()
            },
    )
}

/// Whether a truth value holds in a structure.
pub open spec fn ast_holds<D>(s: Structure<D>, a: AstModel) -> bool
    decreases a,
{
    match a {
        AstModel::App(decl, args) => (s.rel)(decl.name, ast_values(s, args)),
        AstModel::Equal(l, r) => ast_value(s, *l) == ast_value(s, *r),
        AstModel::Not(inner) => !ast_holds(s, *inner),
        AstModel::And(l, r) => ast_holds(s, *l) && ast_holds(s, *r),
        AstModel::Or(l, r) => ast_holds(s, *l) || ast_holds(s, *r),
        AstModel::ForAll(constant, body) => forall|d: D|
            s.dom.contains(d) ==> ast_holds(#[trigger] with_constant(s, constant.name, d), *body),
        AstModel::Truth(value) => value,
    }
}

/// Whether a tree is a term of the sort `u` in which everything is of that sort.
pub open spec fn one_sorted_term(a: AstModel, u: SortModel) -> bool
    decreases a,
{
    match a {
        AstModel::App(decl, args) => {
            &&& decl.range == u
            &&& decl.domain == Seq::new(args.len(), |i: int| u)
            &&& forall|i: int| 0 <= i < args.len() ==> one_sorted_term(#[trigger] args[i], u)
        },
        _ => false,
    }
}

/// Whether a tree is a truth value in which every term is of the sort `u`.
pub open spec fn one_sorted(a: AstModel, u: SortModel) -> bool
    decreases a,
{
    match a {
        AstModel::App(decl, args) => {
            &&& decl.range is Bool
            &&& decl.domain == Seq::new(args.len(), |i: int| u)
            &&& forall|i: int| 0 <= i < args.len() ==> one_sorted_term(#[trigger] args[i], u)
        },
        AstModel::Equal(l, r) => one_sorted_term(*l, u) && one_sorted_term(*r, u),
        AstModel::Not(inner) => one_sorted(*inner, u),
        AstModel::And(l, r) | AstModel::Or(l, r) => one_sorted(*l, u) && one_sorted(*r, u),
        AstModel::ForAll(constant, body) => {
            &&& constant.range == u
            &&& constant.domain.len() == 0
            &&& one_sorted(*body, u)
        },
        AstModel::Truth(_) => true,
    }
}

/// Whether all the assertions are about one uninterpreted sort.
pub open spec fn about_one_sort(asserted: Seq<AstModel>, u: SortModel) -> bool {
    &&& u is Uninterpreted
    &&& forall|i: int| 0 <= i < asserted.len() ==> one_sorted(#[trigger] asserted[i], u)
}

/// Whether `s` is a model of the assertions.
pub open spec fn models<D>(s: Structure<D>, asserted: Seq<AstModel>) -> bool {
    &&& s.valid()
    &&& forall|i: int| 0 <= i < asserted.len() ==> ast_holds(s, #[trigger] asserted[i])
}

/// Whether assertions about one uninterpreted sort can hold together. A countable domain is enough
/// for that, so the structures are those whose elements are numbers.
pub open spec fn consistent(asserted: Seq<AstModel>) -> bool {
    exists|s: Structure<int>| models(s, asserted)
}

/// The sort of a tree.
pub open spec fn sort_of(a: AstModel) -> SortModel {
    match a {
        AstModel::App(decl, _) => decl.range,
        _ => SortModel::Bool,
    }
}

/// The sorts of a list of trees.
pub open spec fn sorts_of(args: Seq<AstModel>) -> Seq<SortModel> {
    Seq::new(args.len(), |i: int| sort_of(args[i]))
}

/// Whether a text can be handed to Z3, which takes it as a C string: there is no NUL in it.
pub open spec fn nul_free(text: Seq<char>) -> bool {
    forall|i: int| 0 <= i < text.len() ==> #[trigger] text[i] != '\0'
}

/// Whether a text can be the name of a symbol in Z3: it is not empty, and there is no NUL in it.
pub open spec fn nameable(name: Seq<char>) -> bool {
    name.len() > 0 && nul_free(name)
}

/// What a sort is.
pub uninterp spec fn sort_model(s: Sort) -> SortModel;

/// What a declaration declares.
pub uninterp spec fn decl_model(d: FuncDecl) -> DeclModel;

/// The tree that a value of any sort holds.
pub uninterp spec fn expr_model(e: Expr) -> AstModel;

/// The tree that a truth value holds.
pub uninterp spec fn claim_model(c: Claim) -> AstModel;

/// The assertions that a solver holds.
pub uninterp spec fn solver_stack(s: Solver) -> StackModel<AstModel>;

/// The sorts that a list of sort values stands for.
pub open spec fn sort_models(sorts: Seq<&Sort>) -> Seq<SortModel> {
    Seq::new(sorts.len(), |i: int| sort_model(*sorts[i]))
}

/// The trees that a list of values holds.
pub open spec fn expr_models(args: Seq<Expr>) -> Seq<AstModel> {
    Seq::new(args.len(), |i: int| args[i]@)
}

impl View for Expr {
    type V = AstModel;

    open spec fn view(&self) -> AstModel {
        expr_model(*self)
    }
}

impl View for Claim {
    type V = AstModel;

    open spec fn view(&self) -> AstModel {
        claim_model(*self)
    }
}

/// `Context::thread_local`: the context of the current thread, in which everything is made.
/// Nothing is claimed of it.
#[verifier::external_body]
pub(crate) fn thread_context() -> Context {
    Context::thread_local()
}

/// `Sort::uninterpreted`, on a name that is not empty and has no NUL in it: the uninterpreted sort
/// of that name.
#[verifier::external_body]
pub(crate) fn uninterpreted_sort(name: &str) -> (r: Sort)
    requires
        nameable(name@),
    ensures
        sort_model(r) == SortModel::Uninterpreted(name@),
{
    Sort::uninterpreted(Symbol::String(name.to_string()))
}

/// `Sort::bool`: the sort of truth values.
#[verifier::external_body]
pub(crate) fn bool_sort() -> (r: Sort)
    ensures
        sort_model(r) == SortModel::Bool,
{
    Sort::bool()
}

/// `FuncDecl::new`, on a name that is not empty and has no NUL in it, with no more arguments than a
/// `u32` counts: the declaration of that name with these sorts.
#[verifier::external_body]
pub(crate) fn declare(name: &str, domain: &Vec<&Sort>, range: &Sort) -> (r: FuncDecl)
    requires
        nameable(name@),
        domain@.len() <= u32::MAX,
    ensures
        decl_model(r) == (DeclModel {
            name: name@,
            domain: sort_models(domain@),
            range: sort_model(*range),
        }),
{
    FuncDecl::new(name, domain.as_slice(), range)
}

/// `FuncDecl::apply`, on arguments of the declared sorts: the application.
#[verifier::external_body]
pub(crate) fn apply(decl: &FuncDecl, args: &Vec<Expr>) -> (r: Expr)
    requires
        sorts_of(expr_models(args@)) == decl_model(*decl).domain,
        args@.len() <= u32::MAX,
    ensures
        expr_model(r) == AstModel::App(decl_model(*decl), expr_models(args@)),
{
    let args: Vec<&dyn Ast> = args.iter().map(|e| &e.ast as &dyn Ast).collect();
    Expr { ast: decl.apply(&args) }
}

/// `Dynamic::clone`: another handle on the same tree.
#[verifier::external_body]
pub(crate) fn copy(e: &Expr) -> (r: Expr)
    ensures
        expr_model(r) == e@,
{
    Expr { ast: e.ast.clone() }
}

/// `Dynamic::as_bool`: the same tree as a truth value, exactly if that is its sort.
#[verifier::external_body]
pub(crate) fn as_claim(e: &Expr) -> (r: Option<Claim>)
    ensures
        match r {
            Some(c) => sort_of(e@) is Bool && claim_model(c) == e@,
            None => !(sort_of(e@) is Bool),
        },
{
    e.ast.as_bool().map(|ast| Claim { ast })
}

/// `Dynamic::eq`, on two trees of one sort: the equation between them.
#[verifier::external_body]
pub(crate) fn equal(a: &Expr, b: &Expr) -> (r: Claim)
    requires
        sort_of(a@) == sort_of(b@),
    ensures
        claim_model(r) == AstModel::Equal(Box::new(a@), Box::new(b@)),
{
    Claim { ast: a.ast.eq(&b.ast) }
}

/// `Bool::not`: the negation.
#[verifier::external_body]
pub(crate) fn negation(c: &Claim) -> (r: Claim)
    ensures
        claim_model(r) == AstModel::Not(Box::new(c@)),
{
    Claim { ast: c.ast.not() }
}

/// `Bool::and`, on two truth values: their conjunction.
#[verifier::external_body]
pub(crate) fn conjunction(a: &Claim, b: &Claim) -> (r: Claim)
    ensures
        claim_model(r) == AstModel::And(Box::new(a@), Box::new(b@)),
{
    Claim { ast: Bool::and(&[&a.ast, &b.ast]) }
}

/// `Bool::or`, on two truth values: their disjunction.
#[verifier::external_body]
pub(crate) fn disjunction(a: &Claim, b: &Claim) -> (r: Claim)
    ensures
        claim_model(r) == AstModel::Or(Box::new(a@), Box::new(b@)),
{
    Claim { ast: Bool::or(&[&a.ast, &b.ast]) }
}

/// `Bool::from_bool`: the tree that is always true, or always false.
#[verifier::external_body]
pub(crate) fn truth(value: bool) -> (r: Claim)
    ensures
        claim_model(r) == AstModel::Truth(value),
{
    Claim { ast: Bool::from_bool(value) }
}

/// `z3::ast::forall_const`, on one constant and no patterns: the body for every value of the
/// constant.
#[verifier::external_body]
pub(crate) fn for_all(constant: &Expr, body: &Claim) -> (r: Claim)
    requires
        constant@ is App,
        constant@->App_1.len() == 0,
    ensures
        claim_model(r) == AstModel::ForAll(constant@->App_0, Box::new(body@)),
{
    Claim { ast: z3::ast::forall_const(&[&constant.ast], &[], &body.ast) }
}

/// `Solver::new`: a solver with nothing asserted.
#[verifier::external_body]
pub(crate) fn new_solver() -> (r: Solver)
    ensures
        solver_stack(r) == StackModel::<AstModel>::empty(),
{
    Solver::new()
}

/// `Solver::assert`: the assertion is added.
#[verifier::external_body]
pub(crate) fn solver_assert(solver: &mut Solver, c: &Claim)
    ensures
        solver_stack(*final(solver)) == solver_stack(*old(solver)).with(c@),
{
    solver.assert(&c.ast)
}

/// `Solver::push`: a backtracking point is set.
#[verifier::external_body]
pub(crate) fn solver_push(solver: &mut Solver)
    ensures
        solver_stack(*final(solver)) == solver_stack(*old(solver)).pushed(),
{
    solver.push()
}

/// `Solver::pop`: what was asserted since the `n`-th last backtracking point goes. Z3 asks that
/// there be that many points; of a call that asks for more nothing is claimed.
#[verifier::external_body]
pub(crate) fn solver_pop(solver: &mut Solver, n: u32)
    ensures
        n <= solver_stack(*old(solver)).marks.len() ==> solver_stack(*final(solver))
            == solver_stack(*old(solver)).popped(n as nat),
{
    solver.pop(n)
}

/// `Solver::check`: "unsatisfiable" is answered only if the assertions cannot hold together, and
/// "satisfiable" only if they can. That is claimed of assertions about one uninterpreted sort.
/// Which of the three answers comes is up to Z3, its limits and the time it has.
#[verifier::external_body]
pub(crate) fn solver_check(solver: &Solver) -> (r: SatResult)
    ensures
        forall|u: SortModel| #[trigger]
            about_one_sort(solver_stack(*solver).asserted, u) ==> match r {
                SatResult::Unsat => !consistent(solver_stack(*solver).asserted),
                SatResult::Sat => consistent(solver_stack(*solver).asserted),
                SatResult::Unknown => true,
            },
{
    solver.check()
}

/// Whether `r` is an answer that `Solver::check` gave for a solver with these assertions.
pub closed spec fn z3_answers(stack: StackModel<AstModel>, r: SatResult) -> bool {
    exists|solver: Solver| #[trigger]
        solver_stack(solver) == stack && call_ensures(solver_check, (&solver,), r)
}

/// Whether `r` is an answer that `Solver::check` gave for some solver.
pub open spec fn z3_answered(r: SatResult) -> bool {
    exists|stack: StackModel<AstModel>| #[trigger] z3_answers(stack, r)
}

/// What comes back from `Solver::check` is an answer that it gave.
pub(crate) proof fn answer_given(solver: Solver, r: SatResult)
    requires
        call_ensures(solver_check, (&solver,), r),
    ensures
        z3_answers(solver_stack(solver), r),
{
}

/// An answer that Z3 gave came back from `Solver::check` on a solver with just these assertions.
pub(crate) proof fn answers_come_from_z3(stack: StackModel<AstModel>, r: SatResult) -> (solver:
    Solver)
    requires
        z3_answers(stack, r),
    ensures
        solver_stack(solver) == stack,
        call_ensures(solver_check, (&solver,), r),
{
    choose|solver: Solver| #[trigger]
        solver_stack(solver) == stack && call_ensures(solver_check, (&solver,), r)
}

} // verus!
