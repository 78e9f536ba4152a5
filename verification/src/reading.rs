//! What the S-expressions of a script mean as terms and formulas.
//!
//! Every quantified variable gets a number of its own, counted from the start of the assertion, so
//! that two assertions that differ only in the names of their variables read alike. A symbol that
//! is not a variable in scope is a constant, whether it was declared or not.

use crate::model::{TermModel, VarId};
use crate::nnf::{junction_view, raw_models, RawFormula, RawModel};
use crate::sexpr::{list_view, sexpr_models, Sexpr, SexprModel};
use crate::term::{func_view, term_models, Term};
use crate::text::same_text;
use std::rc::Rc;
use vstd::hash_map::StringHashMap;
use vstd::prelude::*;

verus! {

/// What comes of reading something.
#[verifier::ext_equal]
pub enum Reading<T> {
    /// It means this.
    Read(T),
    /// It is wrong, with this explanation.
    Wrong(Seq<char>),
    /// It lacks a part that has to be there, or asks for more than can be counted.
    Stuck,
}

/// Why something could not be read.
#[derive(Debug)]
pub enum Failure {
    /// It is wrong, with this explanation.
    Wrong(String),
    /// It lacks a part that has to be there, or asks for more than can be counted.
    Stuck,
}

impl Failure {
    /// Whether `r` is the failure that this is.
    pub open spec fn is<T>(self, r: Reading<T>) -> bool {
        match self {
            Failure::Wrong(message) => r == Reading::<T>::Wrong(message@),
            Failure::Stuck => r is Stuck,
        }
    }
}

/// The meaning of a term, where `env` gives the variables in scope.
pub open spec fn term_reading(s: SexprModel, env: Map<Seq<char>, VarId>) -> Reading<TermModel>
    decreases s, 0nat,
{
    match s {
        SexprModel::Atom(name) => Reading::Read(
            if env.contains_key(name) {
                TermModel::Var(env[name])
            } else {
                TermModel::Func(name, Seq::empty())
            },
        ),
        SexprModel::List(items) => if items.len() == 0 {
            Reading::Stuck
        } else {
            match items[0] {
                SexprModel::Atom(name) => match term_readings(items, items.len(), env) {
                    Reading::Read(args) => Reading::Read(TermModel::Func(name, args)),
                    Reading::Wrong(message) => Reading::Wrong(message),
                    Reading::Stuck => Reading::Stuck,
                },
                SexprModel::List(_) => Reading::Wrong("term head must be a symbol"@),
            }
        },
    }
}

/// The meanings of the terms after the first among the first `n` items.
pub open spec fn term_readings(
    items: Seq<SexprModel>,
    n: nat,
    env: Map<Seq<char>, VarId>,
) -> Reading<Seq<TermModel>>
    decreases items, n,
{
    if n <= 1 || n > items.len() {
        Reading::Read(Seq::empty())
    } else {
        match term_readings(items, (n - 1) as nat, env) {
            Reading::Read(done) => match term_reading(items[n - 1], env) {
                Reading::Read(t) => Reading::Read(done.push(t)),
                Reading::Wrong(message) => Reading::Wrong(message),
                Reading::Stuck => Reading::Stuck,
            },
            other => other,
        }
    }
}

/// A failure among the first items is the failure of all.
proof fn term_readings_stop(items: Seq<SexprModel>, n: nat, env: Map<Seq<char>, VarId>)
    requires
        n <= items.len(),
        !(term_readings(items, n, env) is Read),
    ensures
        term_readings(items, items.len(), env) == term_readings(items, n, env),
    decreases items.len() - n,
{
    if n < items.len() {
        term_readings_stop(items, n + 1, env);
    }
}

/// Reads a term.
pub fn parse_term(s: &Sexpr, env: &StringHashMap<VarId>) -> (r: Result<Rc<Term>, Failure>)
    ensures
        match r {
            Ok(t) => term_reading(s@, env@) == Reading::Read(t@),
            Err(e) => e.is(term_reading(s@, env@)),
        },
    decreases *s, 0nat,
{
    match s {
        Sexpr::Atom(name) => {
            if let Some(v) = env.get(name.as_str()) {
                return Ok(Rc::new(Term::Var(*v)));
            }
            let none: Vec<Rc<Term>> = Vec::new();
            let constant = name.clone();
            proof {
                func_view(constant, none);
                assert(term_models(none@) =~= Seq::<TermModel>::empty());
            }
            Ok(Rc::new(Term::Func(constant, none)))
        },
        Sexpr::List(items) => {
            proof {
                list_view(*items);
            }
            if items.len() == 0 {
                return Err(Failure::Stuck);
            }
            assert(sexpr_models(items@)[0] == items@[0]@);
            match &items[0] {
                Sexpr::Atom(name) => match parse_terms(items, env) {
                    Ok(args) => {
                        let symbol = name.clone();
                        proof {
                            func_view(symbol, args);
                        }
                        Ok(Rc::new(Term::Func(symbol, args)))
                    },
                    Err(e) => Err(e),
                },
                Sexpr::List(_) => Err(Failure::Wrong("term head must be a symbol".to_owned())),
            }
        },
    }
}

/// Reads the terms after the first item.
fn parse_terms(items: &Vec<Sexpr>, env: &StringHashMap<VarId>) -> (r: Result<
    Vec<Rc<Term>>,
    Failure,
>)
    ensures
        match r {
            Ok(args) => term_readings(sexpr_models(items@), items@.len(), env@) == Reading::Read(
                term_models(args@),
            ),
            Err(e) => e.is(term_readings(sexpr_models(items@), items@.len(), env@)),
        },
    decreases *items, 0nat,
{
    let ghost models = sexpr_models(items@);
    let mut args: Vec<Rc<Term>> = Vec::new();
    assert(term_models(args@) =~= Seq::<TermModel>::empty());
    if items.len() == 0 {
        return Ok(args);
    }
    let mut i: usize = 1;
    while i < items.len()
        invariant
            1 <= i <= items@.len(),
            models == sexpr_models(items@),
            term_readings(models, i as nat, env@) == Reading::Read(term_models(args@)),
        decreases items@.len() - i,
    {
        assert(models[i as int] == items@[i as int]@);
        match parse_term(&items[i], env) {
            Ok(t) => {
                let ghost before = args@;
                args.push(t);
                assert(term_models(args@) =~= term_models(before).push(t@));
            },
            Err(e) => {
                proof {
                    term_readings_stop(models, (i + 1) as nat, env@);
                }
                return Err(e);
            },
        }
        i += 1;
    }
    Ok(args)
}

/// The variables in scope, and the number of the next new one.
#[verifier::ext_equal]
pub struct Scope {
    pub env: Map<Seq<char>, VarId>,
    pub next: VarId,
}

/// The variables that a quantifier binds.
#[verifier::ext_equal]
pub struct Binding {
    /// Their numbers.
    pub vars: Seq<VarId>,
    /// Their names, each with what it stood for when it was bound.
    pub shadowed: Seq<(Seq<char>, Option<VarId>)>,
    /// The scope inside the quantifier.
    pub inner: Scope,
}

/// What a name stands for.
pub open spec fn meaning(env: Map<Seq<char>, VarId>, name: Seq<char>) -> Option<VarId> {
    if env.contains_key(name) {
        Some(env[name])
    } else {
        None
    }
}

/// The first `n` bindings of a quantifier. Each takes the next number.
pub open spec fn binding_readings(bindings: Seq<SexprModel>, n: nat, scope: Scope) -> Reading<
    Binding,
>
    decreases n,
{
    if n == 0 || n > bindings.len() {
        Reading::Read(Binding { vars: Seq::empty(), shadowed: Seq::empty(), inner: scope })
    } else {
        match binding_readings(bindings, (n - 1) as nat, scope) {
            Reading::Read(done) => match bindings[n - 1] {
                SexprModel::Atom(_) => Reading::Wrong("quantifier binding must be (name sort)"@),
                SexprModel::List(pair) => if pair.len() == 0 {
                    Reading::Stuck
                } else {
                    match pair[0] {
                        SexprModel::List(_) => Reading::Wrong(
                            "quantifier binding name must be a symbol"@,
                        ),
                        SexprModel::Atom(name) => if done.inner.next == u32::MAX {
                            Reading::Stuck
                        } else {
                            Reading::Read(
                                Binding {
                                    vars: done.vars.push(done.inner.next),
                                    shadowed: done.shadowed.push(
                                        (name, meaning(done.inner.env, name)),
                                    ),
                                    inner: Scope {
                                        env: done.inner.env.insert(name, done.inner.next),
                                        next: (done.inner.next + 1) as VarId,
                                    },
                                },
                            )
                        },
                    }
                },
            },
            other => other,
        }
    }
}

/// The variables in scope after the first `n` shadowed meanings were put back, first to last.
pub open spec fn restored(
    env: Map<Seq<char>, VarId>,
    shadowed: Seq<(Seq<char>, Option<VarId>)>,
    n: nat,
) -> Map<Seq<char>, VarId>
    decreases n,
{
    if n == 0 || n > shadowed.len() {
        env
    } else {
        let done = restored(env, shadowed, (n - 1) as nat);
        match shadowed[n - 1].1 {
            Some(v) => done.insert(shadowed[n - 1].0, v),
            None => done.remove(shadowed[n - 1].0),
        }
    }
}

/// A chain of implications, nested to the right.
pub open spec fn implication(parts: Seq<RawModel>) -> RawModel
    recommends
        parts.len() > 0,
    decreases parts.len(),
{
    if parts.len() <= 1 {
        parts[0]
    } else {
        RawModel::Implies(Box::new(parts[0]), Box::new(implication(parts.skip(1))))
    }
}

/// The equation of two terms.
pub open spec fn equation(l: TermModel, r: TermModel) -> RawModel {
    RawModel::Pred { name: "="@, args: seq![l, r] }
}

/// The inequations between the term at `i` and each term after it.
pub open spec fn unlike_later(terms: Seq<TermModel>, i: int) -> Seq<RawModel> {
    Seq::new(
        (terms.len() - i - 1) as nat,
        |k: int| RawModel::Not(Box::new(equation(terms[i], terms[i + 1 + k]))),
    )
}

/// The inequations between each of the first `n` terms and each term after it.
pub open spec fn unlike(terms: Seq<TermModel>, n: nat) -> Seq<RawModel>
    decreases n,
{
    if n == 0 {
        Seq::empty()
    } else {
        unlike(terms, (n - 1) as nat) + unlike_later(terms, n - 1)
    }
}

/// The meaning of a formula, and the scope after it.
pub open spec fn formula_reading(s: SexprModel, scope: Scope) -> Reading<(RawModel, Scope)>
    decreases s, 0nat,
{
    match s {
        SexprModel::Atom(name) => Reading::Read(
            (
                if name == "true"@ {
                    RawModel::True
                } else if name == "false"@ {
                    RawModel::False
                } else {
                    RawModel::Pred { name, args: Seq::empty() }
                },
                scope,
            ),
        ),
        SexprModel::List(items) => if items.len() == 0 {
            Reading::Stuck
        } else {
            match items[0] {
                SexprModel::List(_) => Reading::Wrong("formula head must be a symbol"@),
                SexprModel::Atom(head) => if head == "and"@ || head == "or"@ || head == "=>"@ {
                    match formula_readings(items, items.len(), scope) {
                        Reading::Read((parts, after)) => if head == "and"@ {
                            Reading::Read((RawModel::And(parts), after))
                        } else if head == "or"@ {
                            Reading::Read((RawModel::Or(parts), after))
                        } else if parts.len() == 0 {
                            Reading::Stuck
                        } else {
                            Reading::Read((implication(parts), after))
                        },
                        Reading::Wrong(message) => Reading::Wrong(message),
                        Reading::Stuck => Reading::Stuck,
                    }
                } else if head == "not"@ {
                    if items.len() < 2 {
                        Reading::Stuck
                    } else {
                        match formula_reading(items[1], scope) {
                            Reading::Read((inner, after)) => Reading::Read(
                                (RawModel::Not(Box::new(inner)), after),
                            ),
                            Reading::Wrong(message) => Reading::Wrong(message),
                            Reading::Stuck => Reading::Stuck,
                        }
                    }
                } else if head == "forall"@ || head == "exists"@ {
                    match quantified_reading(items, scope) {
                        Reading::Read((vars, body, after)) => Reading::Read(
                            (
                                if head == "forall"@ {
                                    RawModel::ForAll(vars, Box::new(body))
                                } else {
                                    RawModel::Exists(vars, Box::new(body))
                                },
                                after,
                            ),
                        ),
                        Reading::Wrong(message) => Reading::Wrong(message),
                        Reading::Stuck => Reading::Stuck,
                    }
                } else {
                    match atom_reading(head, items, scope.env) {
                        Reading::Read(f) => Reading::Read((f, scope)),
                        Reading::Wrong(message) => Reading::Wrong(message),
                        Reading::Stuck => Reading::Stuck,
                    }
                },
            }
        },
    }
}

/// The variables and the body of a quantifier, and the scope after it.
pub open spec fn quantified_reading(items: Seq<SexprModel>, scope: Scope) -> Reading<
    (Seq<VarId>, RawModel, Scope),
>
    decreases items, 0nat,
{
    if items.len() < 2 {
        Reading::Stuck
    } else {
        match items[1] {
            SexprModel::Atom(_) => Reading::Wrong("quantifier: expected binding list"@),
            SexprModel::List(bindings) => match binding_readings(bindings, bindings.len(), scope) {
                Reading::Read(b) => if items.len() < 3 {
                    Reading::Stuck
                } else {
                    match formula_reading(items[2], b.inner) {
                        Reading::Read((body, after)) => Reading::Read(
                            (
                                b.vars,
                                body,
                                Scope {
                                    env: restored(after.env, b.shadowed, b.shadowed.len()),
                                    next: after.next,
                                },
                            ),
                        ),
                        Reading::Wrong(message) => Reading::Wrong(message),
                        Reading::Stuck => Reading::Stuck,
                    }
                },
                Reading::Wrong(message) => Reading::Wrong(message),
                Reading::Stuck => Reading::Stuck,
            },
        }
    }
}

/// The meaning of an equation, a `distinct`, or the application of a predicate.
pub open spec fn atom_reading(
    head: Seq<char>,
    items: Seq<SexprModel>,
    env: Map<Seq<char>, VarId>,
) -> Reading<RawModel> {
    if head == "="@ {
        if items.len() < 2 {
            Reading::Stuck
        } else {
            match term_reading(items[1], env) {
                Reading::Read(l) => if items.len() < 3 {
                    Reading::Stuck
                } else {
                    match term_reading(items[2], env) {
                        Reading::Read(r) => Reading::Read(equation(l, r)),
                        Reading::Wrong(message) => Reading::Wrong(message),
                        Reading::Stuck => Reading::Stuck,
                    }
                },
                Reading::Wrong(message) => Reading::Wrong(message),
                Reading::Stuck => Reading::Stuck,
            }
        }
    } else {
        match term_readings(items, items.len(), env) {
            Reading::Read(args) => Reading::Read(
                if head == "distinct"@ {
                    RawModel::And(unlike(args, args.len()))
                } else {
                    RawModel::Pred { name: head, args }
                },
            ),
            Reading::Wrong(message) => Reading::Wrong(message),
            Reading::Stuck => Reading::Stuck,
        }
    }
}

/// The meanings of the formulas after the first among the first `n` items, and the scope after
/// them.
pub open spec fn formula_readings(items: Seq<SexprModel>, n: nat, scope: Scope) -> Reading<
    (Seq<RawModel>, Scope),
>
    decreases items, n,
{
    if n <= 1 || n > items.len() {
        Reading::Read((Seq::empty(), scope))
    } else {
        match formula_readings(items, (n - 1) as nat, scope) {
            Reading::Read((done, mid)) => match formula_reading(items[n - 1], mid) {
                Reading::Read((f, after)) => Reading::Read((done.push(f), after)),
                Reading::Wrong(message) => Reading::Wrong(message),
                Reading::Stuck => Reading::Stuck,
            },
            other => other,
        }
    }
}

/// The scope that the first `n` bindings of a quantifier leave, whether or not they can all be
/// read: that of those before the first that cannot.
pub open spec fn bindings_left(bindings: Seq<SexprModel>, n: nat, scope: Scope) -> Scope
    decreases n,
{
    match binding_readings(bindings, n, scope) {
        Reading::Read(b) => b.inner,
        _ => if n == 0 {
            scope
        } else {
            bindings_left(bindings, (n - 1) as nat, scope)
        },
    }
}

/// The scope that a formula leaves, whether or not it can be read. Where it cannot, the bindings of
/// the quantifiers around the place of the failure are still there.
pub open spec fn scope_left(s: SexprModel, scope: Scope) -> Scope
    decreases s, 0nat,
{
    match formula_reading(s, scope) {
        Reading::Read((_, after)) => after,
        _ => match s {
            SexprModel::Atom(_) => scope,
            SexprModel::List(items) => if items.len() == 0 || items[0] is List {
                scope
            } else {
                let head = items[0]->Atom_0;
                if head == "and"@ || head == "or"@ || head == "=>"@ {
                    scopes_left(items, items.len(), scope)
                } else if head == "not"@ {
                    if items.len() < 2 {
                        scope
                    } else {
                        scope_left(items[1], scope)
                    }
                } else if head == "forall"@ || head == "exists"@ {
                    quantifier_left(items, scope)
                } else {
                    scope
                }
            },
        },
    }
}

/// The scope that a quantifier leaves which cannot be read.
pub open spec fn quantifier_left(items: Seq<SexprModel>, scope: Scope) -> Scope
    decreases items, 0nat,
{
    if items.len() < 2 || items[1] is Atom {
        scope
    } else {
        let bindings = items[1]->List_0;
        let inner = bindings_left(bindings, bindings.len(), scope);
        if binding_readings(bindings, bindings.len(), scope) is Read && items.len() > 2 {
            scope_left(items[2], inner)
        } else {
            inner
        }
    }
}

/// The scope that the formulas after the first among the first `n` items leave, whether or not they
/// can all be read: that after the first that cannot.
pub open spec fn scopes_left(items: Seq<SexprModel>, n: nat, scope: Scope) -> Scope
    decreases items, n,
{
    if n <= 1 || n > items.len() {
        scope
    } else {
        match formula_readings(items, (n - 1) as nat, scope) {
            Reading::Read((_, mid)) => scope_left(items[n - 1], mid),
            _ => scopes_left(items, (n - 1) as nat, scope),
        }
    }
}

/// A failure among the first items is the failure of all.
proof fn formula_readings_stop(items: Seq<SexprModel>, n: nat, scope: Scope)
    requires
        n <= items.len(),
        !(formula_readings(items, n, scope) is Read),
    ensures
        formula_readings(items, items.len(), scope) == formula_readings(items, n, scope),
        scopes_left(items, items.len(), scope) == scopes_left(items, n, scope),
    decreases items.len() - n,
{
    if n < items.len() {
        formula_readings_stop(items, n + 1, scope);
    }
}

/// A failure among the first bindings is the failure of all.
proof fn binding_readings_stop(bindings: Seq<SexprModel>, n: nat, scope: Scope)
    requires
        n <= bindings.len(),
        !(binding_readings(bindings, n, scope) is Read),
    ensures
        binding_readings(bindings, bindings.len(), scope) == binding_readings(bindings, n, scope),
        bindings_left(bindings, bindings.len(), scope) == bindings_left(bindings, n, scope),
    decreases bindings.len() - n,
{
    if n < bindings.len() {
        binding_readings_stop(bindings, n + 1, scope);
    }
}

/// Takes the next number for a variable, if there is one.
fn fresh_var(counter: &mut VarId) -> (r: Option<VarId>)
    ensures
        match r {
            Some(v) => v == *old(counter) && *final(counter) == *old(counter) + 1,
            None => *old(counter) == u32::MAX && *final(counter) == *old(counter),
        },
{
    let v: VarId = *counter;
    if v == u32::MAX {
        return None;
    }
    *counter = v + 1;
    Some(v)
}

/// Reads an equation, a `distinct`, or the application of a predicate.
fn parse_atom(head: &str, items: &Vec<Sexpr>, env: &StringHashMap<VarId>) -> (r: Result<
    RawFormula,
    Failure,
>)
    ensures
        match r {
            Ok(f) => atom_reading(head@, sexpr_models(items@), env@) == Reading::Read(f@),
            Err(e) => e.is(atom_reading(head@, sexpr_models(items@), env@)),
        },
{
    let ghost models = sexpr_models(items@);
    if same_text(head, "=") {
        if items.len() < 2 {
            return Err(Failure::Stuck);
        }
        assert(models[1] == items@[1]@);
        let l = match parse_term(&items[1], env) {
            Ok(l) => l,
            Err(e) => {
                return Err(e);
            },
        };
        if items.len() < 3 {
            return Err(Failure::Stuck);
        }
        assert(models[2] == items@[2]@);
        return match parse_term(&items[2], env) {
            Ok(r) => Ok(parsed_equation(&l, &r)),
            Err(e) => Err(e),
        };
    }
    match parse_terms(items, env) {
        Ok(args) => {
            if same_text(head, "distinct") {
                let pairs = parsed_inequations(&args);
                proof {
                    junction_view(pairs);
                }
                Ok(RawFormula::And(pairs))
            } else {
                Ok(RawFormula::Pred { name: head.to_owned(), args })
            }
        },
        Err(e) => Err(e),
    }
}

fn parsed_equation(l: &Rc<Term>, r: &Rc<Term>) -> (f: RawFormula)
    ensures
        f@ == equation(l@, r@),
{
    let mut args: Vec<Rc<Term>> = Vec::new();
    args.push(l.clone());
    args.push(r.clone());
    assert(term_models(args@) =~= seq![l@, r@]);
    RawFormula::Pred { name: "=".to_owned(), args }
}

fn parsed_inequations(terms: &Vec<Rc<Term>>) -> (r: Vec<RawFormula>)
    ensures
        raw_models(r@) == unlike(term_models(terms@), terms@.len()),
{
    let ghost models = term_models(terms@);
    let mut pairs: Vec<RawFormula> = Vec::new();
    assert(raw_models(pairs@) =~= unlike(models, 0));
    let mut i: usize = 0;
    while i < terms.len()
        invariant
            i <= terms@.len(),
            models == term_models(terms@),
            raw_models(pairs@) == unlike(models, i as nat),
        decreases terms@.len() - i,
    {
        let mut j: usize = i + 1;
        assert(unlike_later(models, i as int).take(0) =~= Seq::empty());
        assert(unlike(models, i as nat) + unlike_later(models, i as int).take(0) =~= unlike(
            models,
            i as nat,
        ));
        while j < terms.len()
            invariant
                i < j <= terms@.len(),
                models == term_models(terms@),
                raw_models(pairs@) == unlike(models, i as nat) + unlike_later(
                    models,
                    i as int,
                ).take(j - i - 1),
            decreases terms@.len() - j,
        {
            let ghost before = pairs@;
            let ghost row = unlike_later(models, i as int);
            let inequation = RawFormula::Not(Box::new(parsed_equation(&terms[i], &terms[j])));
            pairs.push(inequation);
            assert(row[j - i - 1] == inequation@);
            assert(raw_models(pairs@) =~= raw_models(before).push(inequation@));
            assert(row.take(j - i) =~= row.take(j - i - 1).push(inequation@));
            assert(raw_models(pairs@) =~= unlike(models, i as nat) + row.take(j - i));
            j += 1;
        }
        let ghost row = unlike_later(models, i as int);
        assert(row.take(row.len() as int) =~= row);
        i += 1;
    }
    pairs
}

/// Nests the parts of an implication.
fn parsed_implication(parts: Vec<RawFormula>) -> (r: RawFormula)
    requires
        parts@.len() > 0,
    ensures
        r@ == implication(raw_models(parts@)),
{
    let ghost models = raw_models(parts@);
    let mut parts = parts;
    let mut acc = parts.pop().unwrap();
    let ghost last = models.len() - 1;
    assert(models.skip(last) =~= seq![models[last]]);
    assert(acc@ == models[last]);
    while parts.len() > 0
        invariant
            parts@.len() < models.len(),
            forall|k: int| 0 <= k < parts@.len() ==> (#[trigger] parts@[k])@ == models[k],
            acc@ == implication(models.skip(parts@.len() as int)),
        decreases parts@.len(),
    {
        let ghost n = parts@.len() as int;
        let p = parts.pop().unwrap();
        assert(models.skip(n - 1).skip(1) =~= models.skip(n));
        acc = RawFormula::Implies(Box::new(p), Box::new(acc));
    }
    assert(models.skip(0) =~= models);
    acc
}

/// A name that a quantifier binds, and what it stood for before.
struct Shadowed {
    name: String,
    meaning: Option<VarId>,
}

spec fn shadowed_models(shadowed: Seq<Shadowed>) -> Seq<(Seq<char>, Option<VarId>)> {
    Seq::new(shadowed.len(), |i: int| (shadowed[i].name@, shadowed[i].meaning))
}

/// Reads the bindings of a quantifier and brings them into scope.
fn parse_bindings(
    bindings: &Vec<Sexpr>,
    env: &mut StringHashMap<VarId>,
    counter: &mut VarId,
) -> (r: Result<(Vec<VarId>, Vec<Shadowed>), Failure>)
    ensures
        ({
            let reading = binding_readings(
                sexpr_models(bindings@),
                bindings@.len(),
                Scope { env: old(env)@, next: *old(counter) },
            );
            match r {
                Ok((vars, shadowed)) => reading == Reading::Read(
                    Binding {
                        vars: vars@,
                        shadowed: shadowed_models(shadowed@),
                        inner: Scope { env: final(env)@, next: *final(counter) },
                    },
                ),
                Err(e) => e.is(reading),
            }
        }),
        (Scope { env: final(env)@, next: *final(counter) }) == bindings_left(
            sexpr_models(bindings@),
            bindings@.len(),
            Scope { env: old(env)@, next: *old(counter) },
        ),
{
    let ghost models = sexpr_models(bindings@);
    let ghost scope = Scope { env: env@, next: *counter };
    let mut vars: Vec<VarId> = Vec::new();
    let mut shadowed: Vec<Shadowed> = Vec::new();
    assert(shadowed_models(shadowed@) =~= Seq::empty());
    let mut i: usize = 0;
    while i < bindings.len()
        invariant
            i <= bindings@.len(),
            models == sexpr_models(bindings@),
            scope == (Scope { env: old(env)@, next: *old(counter) }),
            binding_readings(models, i as nat, scope) == Reading::Read(
                Binding {
                    vars: vars@,
                    shadowed: shadowed_models(shadowed@),
                    inner: Scope { env: env@, next: *counter },
                },
            ),
        decreases bindings@.len() - i,
    {
        assert(models[i as int] == bindings@[i as int]@);
        proof {
            if !(binding_readings(models, (i + 1) as nat, scope) is Read) {
                binding_readings_stop(models, (i + 1) as nat, scope);
                assert(bindings_left(models, (i + 1) as nat, scope) == bindings_left(
                    models,
                    i as nat,
                    scope,
                ));
            }
        }
        let pair = match &bindings[i] {
            Sexpr::List(pair) => pair,
            Sexpr::Atom(_) => {
                return Err(Failure::Wrong("quantifier binding must be (name sort)".to_owned()));
            },
        };
        proof {
            list_view(*pair);
        }
        if pair.len() == 0 {
            return Err(Failure::Stuck);
        }
        assert(sexpr_models(pair@)[0] == pair@[0]@);
        let name = match &pair[0] {
            Sexpr::Atom(name) => name,
            Sexpr::List(_) => {
                return Err(Failure::Wrong("quantifier binding name must be a symbol".to_owned()));
            },
        };
        let v: VarId = match fresh_var(counter) {
            Some(v) => v,
            None => {
                return Err(Failure::Stuck);
            },
        };
        let before: Option<VarId> = match env.get(name.as_str()) {
            Some(w) => Some(*w),
            None => None,
        };
        let ghost earlier = shadowed@;
        shadowed.push(Shadowed { name: name.clone(), meaning: before });
        assert(shadowed_models(shadowed@) =~= shadowed_models(earlier).push((name@, before)));
        env.insert(name.clone(), v);
        vars.push(v);
        i += 1;
    }
    Ok((vars, shadowed))
}

/// Puts the shadowed meanings back, first to last.
fn restore(env: &mut StringHashMap<VarId>, shadowed: Vec<Shadowed>)
    ensures
        final(env)@ == restored(old(env)@, shadowed_models(shadowed@), shadowed@.len()),
{
    let ghost models = shadowed_models(shadowed@);
    let mut i: usize = 0;
    while i < shadowed.len()
        invariant
            i <= shadowed@.len(),
            models == shadowed_models(shadowed@),
            env@ == restored(old(env)@, models, i as nat),
        decreases shadowed@.len() - i,
    {
        assert(models[i as int] == (shadowed@[i as int].name@, shadowed@[i as int].meaning));
        match shadowed[i].meaning {
            Some(v) => {
                env.insert(shadowed[i].name.clone(), v);
            },
            None => {
                env.remove(shadowed[i].name.as_str());
            },
        }
        i += 1;
    }
}

/// Reads a formula. Afterwards the variables in scope are what they were before, unless a
/// quantifier binds one name more than once: the name then keeps the meaning that the last but one
/// of those bindings gave it. Of a formula that cannot be read, the bindings around the place of
/// the failure are left in scope.
pub fn parse_formula(s: &Sexpr, env: &mut StringHashMap<VarId>, counter: &mut VarId) -> (r: Result<
    RawFormula,
    Failure,
>)
    ensures
        ({
            let reading = formula_reading(s@, Scope { env: old(env)@, next: *old(counter) });
            match r {
                Ok(f) => reading == Reading::Read(
                    (f@, Scope { env: final(env)@, next: *final(counter) }),
                ),
                Err(e) => e.is(reading),
            }
        }),
        (Scope { env: final(env)@, next: *final(counter) }) == scope_left(
            s@,
            Scope { env: old(env)@, next: *old(counter) },
        ),
    decreases *s, 0nat,
{
    match s {
        Sexpr::Atom(name) => {
            if same_text(name.as_str(), "true") {
                return Ok(RawFormula::True);
            }
            if same_text(name.as_str(), "false") {
                return Ok(RawFormula::False);
            }
            let none: Vec<Rc<Term>> = Vec::new();
            assert(term_models(none@) =~= Seq::<TermModel>::empty());
            Ok(RawFormula::Pred { name: name.clone(), args: none })
        },
        Sexpr::List(items) => {
            proof {
                list_view(*items);
            }
            if items.len() == 0 {
                return Err(Failure::Stuck);
            }
            assert(sexpr_models(items@)[0] == items@[0]@);
            let head: &str = match &items[0] {
                Sexpr::Atom(name) => name.as_str(),
                Sexpr::List(_) => {
                    return Err(Failure::Wrong("formula head must be a symbol".to_owned()));
                },
            };
            if same_text(head, "and") {
                match parse_formulas(items, env, counter) {
                    Ok(parts) => {
                        proof {
                            junction_view(parts);
                        }
                        Ok(RawFormula::And(parts))
                    },
                    Err(e) => Err(e),
                }
            } else if same_text(head, "or") {
                match parse_formulas(items, env, counter) {
                    Ok(parts) => {
                        proof {
                            junction_view(parts);
                        }
                        Ok(RawFormula::Or(parts))
                    },
                    Err(e) => Err(e),
                }
            } else if same_text(head, "=>") {
                match parse_formulas(items, env, counter) {
                    Ok(parts) => {
                        if parts.len() == 0 {
                            Err(Failure::Stuck)
                        } else {
                            Ok(parsed_implication(parts))
                        }
                    },
                    Err(e) => Err(e),
                }
            } else if same_text(head, "not") {
                if items.len() < 2 {
                    return Err(Failure::Stuck);
                }
                assert(sexpr_models(items@)[1] == items@[1]@);
                match parse_formula(&items[1], env, counter) {
                    Ok(inner) => Ok(RawFormula::Not(Box::new(inner))),
                    Err(e) => Err(e),
                }
            } else if same_text(head, "forall") {
                match parse_quantified(items, env, counter) {
                    Ok((vars, body)) => Ok(RawFormula::ForAll(vars, Box::new(body))),
                    Err(e) => Err(e),
                }
            } else if same_text(head, "exists") {
                match parse_quantified(items, env, counter) {
                    Ok((vars, body)) => Ok(RawFormula::Exists(vars, Box::new(body))),
                    Err(e) => Err(e),
                }
            } else {
                parse_atom(head, items, env)
            }
        },
    }
}

/// Reads the formulas after the first item.
fn parse_formulas(
    items: &Vec<Sexpr>,
    env: &mut StringHashMap<VarId>,
    counter: &mut VarId,
) -> (r: Result<Vec<RawFormula>, Failure>)
    ensures
        ({
            let reading = formula_readings(
                sexpr_models(items@),
                items@.len(),
                Scope { env: old(env)@, next: *old(counter) },
            );
            match r {
                Ok(parts) => reading == Reading::Read(
                    (raw_models(parts@), Scope { env: final(env)@, next: *final(counter) }),
                ),
                Err(e) => e.is(reading),
            }
        }),
        (Scope { env: final(env)@, next: *final(counter) }) == scopes_left(
            sexpr_models(items@),
            items@.len(),
            Scope { env: old(env)@, next: *old(counter) },
        ),
    decreases *items, 0nat,
{
    let ghost models = sexpr_models(items@);
    let ghost scope = Scope { env: env@, next: *counter };
    let mut parts: Vec<RawFormula> = Vec::new();
    assert(raw_models(parts@) =~= Seq::<RawModel>::empty());
    if items.len() == 0 {
        return Ok(parts);
    }
    let mut i: usize = 1;
    while i < items.len()
        invariant
            1 <= i <= items@.len(),
            models == sexpr_models(items@),
            scope == (Scope { env: old(env)@, next: *old(counter) }),
            formula_readings(models, i as nat, scope) == Reading::Read(
                (raw_models(parts@), Scope { env: env@, next: *counter }),
            ),
            scopes_left(models, i as nat, scope) == (Scope { env: env@, next: *counter }),
        decreases items@.len() - i,
    {
        assert(models[i as int] == items@[i as int]@);
        match parse_formula(&items[i], env, counter) {
            Ok(f) => {
                let ghost before = parts@;
                parts.push(f);
                assert(raw_models(parts@) =~= raw_models(before).push(f@));
            },
            Err(e) => {
                proof {
                    formula_readings_stop(models, (i + 1) as nat, scope);
                }
                return Err(e);
            },
        }
        i += 1;
    }
    Ok(parts)
}

/// Reads the bindings and the body of a quantifier.
fn parse_quantified(
    items: &Vec<Sexpr>,
    env: &mut StringHashMap<VarId>,
    counter: &mut VarId,
) -> (r: Result<(Vec<VarId>, RawFormula), Failure>)
    ensures
        ({
            let reading = quantified_reading(
                sexpr_models(items@),
                Scope { env: old(env)@, next: *old(counter) },
            );
            match r {
                Ok((vars, body)) => reading == Reading::Read(
                    (vars@, body@, Scope { env: final(env)@, next: *final(counter) }),
                ),
                Err(e) => e.is(reading),
            }
        }),
        r is Err ==> (Scope { env: final(env)@, next: *final(counter) }) == quantifier_left(
            sexpr_models(items@),
            Scope { env: old(env)@, next: *old(counter) },
        ),
    decreases *items, 0nat,
{
    if items.len() < 2 {
        return Err(Failure::Stuck);
    }
    assert(sexpr_models(items@)[1] == items@[1]@);
    let bindings = match &items[1] {
        Sexpr::List(bindings) => bindings,
        Sexpr::Atom(_) => {
            return Err(Failure::Wrong("quantifier: expected binding list".to_owned()));
        },
    };
    proof {
        list_view(*bindings);
    }
    let (vars, shadowed) = match parse_bindings(bindings, env, counter) {
        Ok(bound) => bound,
        Err(e) => {
            return Err(e);
        },
    };
    if items.len() < 3 {
        return Err(Failure::Stuck);
    }
    assert(sexpr_models(items@)[2] == items@[2]@);
    match parse_formula(&items[2], env, counter) {
        Ok(body) => {
            restore(env, shadowed);
            Ok((vars, body))
        },
        Err(e) => Err(e),
    }
}

} // verus!
