//! The first-order abstract syntax and the interner that shares it.
//!
//! Formulas are in negation normal form: negation stands on atomic predicates only.

use crate::fingerprint::fingerprint;
use crate::fingerprint::print_of;
use crate::model::{subst, subst_term, subst_term_func, subst_terms, FormulaModel, TermModel};
use std::collections::HashMap;
use std::rc::Rc;
use vstd::prelude::*;

pub use crate::model::VarId;

verus! {

/// A term: a variable, or a function symbol applied to terms.
#[derive(Debug, Eq, Hash)]
pub enum Term {
    Var(VarId),
    Func(String, Vec<Rc<Term>>),
}

/// A formula in negation normal form.
#[derive(Debug, Eq, Hash)]
pub enum Formula {
    /// A predicate applied to terms, possibly negated.
    Pred { name: String, args: Vec<Rc<Term>>, negated: bool },
    And(Rc<Formula>, Rc<Formula>),
    Or(Rc<Formula>, Rc<Formula>),
    ForAll(VarId, Rc<Formula>),
    Exists(VarId, Rc<Formula>),
    True,
    False,
}

/// The value of a term.
pub open spec fn term_model(t: Term) -> TermModel
    decreases t,
{
    match t {
        Term::Var(v) => TermModel::Var(v),
        Term::Func(name, args) => TermModel::Func(
            name@,
            Seq::new(
                args@.len(),
                |i: int|
                    if 0 <= i < args@.len() {
                        term_model(*args@[i])
                    } else {
                        TermModel::Var(0)
                    },
            ),
        ),
    }
}

impl View for Term {
    type V = TermModel;

    open spec fn view(&self) -> TermModel {
        term_model(*self)
    }
}

/// The values of a list of terms.
pub open spec fn term_models(args: Seq<Rc<Term>>) -> Seq<TermModel> {
    Seq::new(args.len(), |i: int| args[i]@)
}

/// The value of a formula.
pub open spec fn formula_model(f: Formula) -> FormulaModel
    decreases f,
{
    match f {
        Formula::Pred { name, args, negated } => FormulaModel::Pred {
            name: name@,
            args: term_models(args@),
            negated,
        },
        Formula::And(l, r) => FormulaModel::And(
            Box::new(formula_model(*l)),
            Box::new(formula_model(*r)),
        ),
        Formula::Or(l, r) => FormulaModel::Or(
            Box::new(formula_model(*l)),
            Box::new(formula_model(*r)),
        ),
        Formula::ForAll(v, body) => FormulaModel::ForAll(v, Box::new(formula_model(*body))),
        Formula::Exists(v, body) => FormulaModel::Exists(v, Box::new(formula_model(*body))),
        Formula::True => FormulaModel::True,
        Formula::False => FormulaModel::False,
    }
}

impl View for Formula {
    type V = FormulaModel;

    open spec fn view(&self) -> FormulaModel {
        formula_model(*self)
    }
}

/// The value of an application is the symbol applied to the values of the arguments.
pub proof fn func_view(name: String, args: Vec<Rc<Term>>)
    ensures
        Term::Func(name, args)@ == TermModel::Func(name@, term_models(args@)),
{
    assert(Term::Func(name, args)@->Func_1 =~= term_models(args@));
}

/// The same terms again, shared.
pub(crate) fn copy_terms(args: &Vec<Rc<Term>>) -> (r: Vec<Rc<Term>>)
    ensures
        r@ == args@,
{
    let mut copies: Vec<Rc<Term>> = Vec::new();
    let mut i: usize = 0;
    while i < args.len()
        invariant
            i <= args@.len(),
            copies@ =~= args@.take(i as int),
        decreases args@.len() - i,
    {
        copies.push(args[i].clone());
        i += 1;
    }
    copies
}

impl Clone for Term {
    fn clone(&self) -> (r: Self)
        ensures
            r@ == self@,
    {
        match self {
            Term::Var(v) => Term::Var(*v),
            Term::Func(name, args) => {
                let new_name = name.clone();
                let new_args = copy_terms(args);
                proof {
                    func_view(*name, *args);
                    func_view(new_name, new_args);
                }
                Term::Func(new_name, new_args)
            },
        }
    }
}

impl Clone for Formula {
    fn clone(&self) -> (r: Self)
        ensures
            r@ == self@,
    {
        match self {
            Formula::Pred { name, args, negated } => Formula::Pred {
                name: name.clone(),
                args: copy_terms(args),
                negated: *negated,
            },
            Formula::And(l, r) => Formula::And(l.clone(), r.clone()),
            Formula::Or(l, r) => Formula::Or(l.clone(), r.clone()),
            Formula::ForAll(v, body) => Formula::ForAll(*v, body.clone()),
            Formula::Exists(v, body) => Formula::Exists(*v, body.clone()),
            Formula::True => Formula::True,
            Formula::False => Formula::False,
        }
    }
}

fn same_term(a: &Term, b: &Term) -> (r: bool)
    ensures
        r == (a@ == b@),
    decreases a,
{
    match (a, b) {
        (Term::Var(v), Term::Var(w)) => *v == *w,
        (Term::Func(n, xs), Term::Func(m, ys)) => {
            proof {
                func_view(*n, *xs);
                func_view(*m, *ys);
            }
            if !(*n == *m) {
                return false;
            }
            if xs.len() != ys.len() {
                assert(term_models(xs@).len() != term_models(ys@).len());
                return false;
            }
            let mut i: usize = 0;
            while i < xs.len()
                invariant
                    *a == Term::Func(*n, *xs),
                    a@ == TermModel::Func(n@, term_models(xs@)),
                    b@ == TermModel::Func(m@, term_models(ys@)),
                    xs@.len() == ys@.len(),
                    i <= xs@.len(),
                    forall|k: int| 0 <= k < i ==> (#[trigger] xs@[k])@ == ys@[k]@,
                decreases xs@.len() - i,
            {
                if !same_term(&xs[i], &ys[i]) {
                    assert(term_models(xs@)[i as int] != term_models(ys@)[i as int]);
                    return false;
                }
                i += 1;
            }
            assert(term_models(xs@) =~= term_models(ys@));
            true
        },
        _ => false,
    }
}

fn same_terms(xs: &Vec<Rc<Term>>, ys: &Vec<Rc<Term>>) -> (r: bool)
    ensures
        r == (term_models(xs@) == term_models(ys@)),
{
    if xs.len() != ys.len() {
        assert(term_models(xs@).len() != term_models(ys@).len());
        return false;
    }
    let mut i: usize = 0;
    while i < xs.len()
        invariant
            xs@.len() == ys@.len(),
            i <= xs@.len(),
            forall|k: int| 0 <= k < i ==> (#[trigger] xs@[k])@ == ys@[k]@,
        decreases xs@.len() - i,
    {
        if !same_term(&xs[i], &ys[i]) {
            assert(term_models(xs@)[i as int] != term_models(ys@)[i as int]);
            return false;
        }
        i += 1;
    }
    assert(term_models(xs@) =~= term_models(ys@));
    true
}

fn same_formula(a: &Formula, b: &Formula) -> (r: bool)
    ensures
        r == (a@ == b@),
    decreases a,
{
    match (a, b) {
        (
            Formula::Pred { name: n, args: xs, negated: p },
            Formula::Pred { name: m, args: ys, negated: q },
        ) => *p == *q && *n == *m && same_terms(xs, ys),
        (Formula::And(l, r), Formula::And(l2, r2)) => same_formula(l, l2) && same_formula(r, r2),
        (Formula::Or(l, r), Formula::Or(l2, r2)) => same_formula(l, l2) && same_formula(r, r2),
        (Formula::ForAll(v, x), Formula::ForAll(w, y)) => *v == *w && same_formula(x, y),
        (Formula::Exists(v, x), Formula::Exists(w, y)) => *v == *w && same_formula(x, y),
        (Formula::True, Formula::True) => true,
        (Formula::False, Formula::False) => true,
        _ => false,
    }
}

impl PartialEq for Term {
    fn eq(&self, other: &Self) -> (r: bool) {
        same_term(self, other)
    }
}

impl vstd::std_specs::cmp::PartialEqSpecImpl for Term {
    open spec fn obeys_eq_spec() -> bool {
        true
    }

    open spec fn eq_spec(&self, other: &Self) -> bool {
        self@ == other@
    }
}

impl PartialEq for Formula {
    fn eq(&self, other: &Self) -> (r: bool) {
        same_formula(self, other)
    }
}

impl vstd::std_specs::cmp::PartialEqSpecImpl for Formula {
    open spec fn obeys_eq_spec() -> bool {
        true
    }

    open spec fn eq_spec(&self, other: &Self) -> bool {
        self@ == other@
    }
}

/// What an interner has seen: the distinct formulas, and how often it was asked and could share.
/// The two counts are statistics and start again at zero after `usize::MAX`.
#[verifier::ext_equal]
pub struct InternerModel {
    pub known: Set<FormulaModel>,
    pub hits: usize,
    pub total: usize,
}

/// The next value of a count that starts again at zero after `usize::MAX`.
pub open spec fn bumped(n: usize) -> usize {
    if n == usize::MAX {
        0
    } else {
        (n + 1) as usize
    }
}

impl InternerModel {
    /// Nothing was asked.
    pub open spec fn empty() -> InternerModel {
        InternerModel { known: Set::empty(), hits: 0, total: 0 }
    }

    /// After one more request, for `f`.
    pub open spec fn interned(self, f: FormulaModel) -> InternerModel {
        InternerModel {
            known: self.known.insert(f),
            hits: if self.known.contains(f) {
                bumped(self.hits)
            } else {
                self.hits
            },
            total: bumped(self.total),
        }
    }
}

/// A count as a statistic shows it, which starts again at zero after `usize::MAX`.
pub open spec fn shown(n: nat) -> usize {
    (n % (usize::MAX + 1) as nat) as usize
}

/// One more.
pub proof fn shown_next(n: nat)
    ensures
        shown(n + 1) == bumped(shown(n)),
{
    let m = (usize::MAX + 1) as nat;
    let r = n % m;
    assert(n == m * (n / m) + r) by {
        vstd::arithmetic::div_mod::lemma_fundamental_div_mod(n as int, m as int);
    }
    if r + 1 == m {
        assert(n + 1 == m * (n / m + 1)) by (nonlinear_arith)
            requires
                n == m * (n / m) + r,
                r + 1 == m,
        ;
        vstd::arithmetic::div_mod::lemma_fundamental_div_mod_converse(
            (n + 1) as int,
            m as int,
            (n / m + 1) as int,
            0,
        );
    } else {
        vstd::arithmetic::div_mod::lemma_fundamental_div_mod_converse(
            (n + 1) as int,
            m as int,
            (n / m) as int,
            (r + 1) as int,
        );
    }
}

/// A number that fits is shown as it is.
pub proof fn shown_small(n: usize)
    ensures
        shown(n as nat) == n,
{
    vstd::arithmetic::div_mod::lemma_small_mod(n as nat, (usize::MAX + 1) as nat);
}

/// Counting on from what is shown is the same as counting on from the count.
pub proof fn shown_more(a: nat, b: nat)
    ensures
        shown(shown(a) as nat + b) == shown(a + b),
    decreases b,
{
    if b == 0 {
        shown_small(shown(a));
    } else {
        let c = (b - 1) as nat;
        shown_more(a, c);
        shown_next(shown(a) as nat + c);
        shown_next(a + c);
    }
}

/// After the first `n` of the requests.
pub open spec fn interned_all(m: InternerModel, requests: Seq<FormulaModel>, n: nat) -> InternerModel
    decreases n,
{
    if n == 0 {
        m
    } else {
        interned_all(m, requests, (n - 1) as nat).interned(requests[n - 1])
    }
}

/// Over any requests to a new interner: it knows exactly the formulas that were asked for, a request
/// is a hit exactly if the formula was asked for before, and the requests that were no hits are as
/// many as there are different formulas.
pub proof fn different_formulas_are_counted(requests: Seq<FormulaModel>, n: nat)
    requires
        n <= requests.len(),
    ensures
        ({
            let m = interned_all(InternerModel::empty(), requests, n);
            &&& m.known == requests.take(n as int).to_set()
            &&& m.known.finite()
            &&& m.known.len() <= n
            &&& m.total == shown(n)
            &&& m.hits == shown((n - m.known.len()) as nat)
            &&& n <= usize::MAX ==> m.total - m.hits == m.known.len()
            &&& n < requests.len() ==> (m.interned(requests[n as int]).hits == (if exists|j: int|
                0 <= j < n && #[trigger] requests[j] == requests[n as int] {
                bumped(m.hits)
            } else {
                m.hits
            }))
        }),
    decreases n,
{
    let m = interned_all(InternerModel::empty(), requests, n);
    if n == 0 {
        assert(m.known =~= requests.take(0).to_set());
        assert(shown(0) == 0);
    } else {
        let k = (n - 1) as nat;
        different_formulas_are_counted(requests, k);
        let before = interned_all(InternerModel::empty(), requests, k);
        let f = requests[k as int];
        let old = requests.take(k as int);
        assert(requests.take(n as int) =~= old.push(f));
        assert(old.push(f).to_set() =~= old.to_set().insert(f)) by {
            assert forall|g: FormulaModel| old.push(f).contains(g) == (old.contains(g) || g == f) by {
                if old.contains(g) {
                    let i = choose|i: int| 0 <= i < old.len() && old[i] == g;
                    assert(old.push(f)[i] == g);
                }
                if g == f {
                    assert(old.push(f)[k as int] == g);
                }
            }
        }
        shown_next(k);
        shown_next((k - before.known.len()) as nat);
        if before.known.contains(f) {
            assert(m.known =~= before.known);
            assert((n - m.known.len()) as nat == (k - before.known.len()) as nat + 1);
        } else {
            assert((n - m.known.len()) as nat == (k - before.known.len()) as nat);
        }
    }
    if n < requests.len() {
        let f = requests[n as int];
        assert(m.known.contains(f) == exists|j: int| 0 <= j < n && #[trigger] requests[j] == f) by {
            let seen = requests.take(n as int);
            if m.known.contains(f) {
                let j = choose|j: int| 0 <= j < seen.len() && seen[j] == f;
                assert(requests[j] == f);
            }
            if exists|j: int| 0 <= j < n && #[trigger] requests[j] == f {
                let j = choose|j: int| 0 <= j < n && #[trigger] requests[j] == f;
                assert(seen[j] == f);
            }
        }
    }
    if n <= usize::MAX {
        vstd::arithmetic::div_mod::lemma_small_mod(n, (usize::MAX + 1) as nat);
        vstd::arithmetic::div_mod::lemma_small_mod(
            (n - m.known.len()) as nat,
            (usize::MAX + 1) as nat,
        );
    }
}

/// A formula that an interner has seen is found from then on: asking for it again counts as a hit
/// and adds nothing, and no other request makes it forget.
pub proof fn interned_formula_is_found(m: InternerModel, f: FormulaModel, other: FormulaModel)
    ensures
        m.interned(f).known.contains(f),
        m.known.contains(f) ==> {
            &&& m.interned(f).known == m.known
            &&& m.interned(f).hits == bumped(m.hits)
            &&& m.interned(other).known.contains(f)
        },
{
    if m.known.contains(f) {
        assert(m.known.insert(f) =~= m.known);
    }
}

/// Adds one to a statistic.
pub(crate) fn bump_count(n: usize) -> (r: usize)
    ensures
        r == bumped(n),
{
    n.wrapping_add(1)
}

/// The shared formulas of an interner.
pub struct Shared {
    /// The formulas, no two of them equal.
    table: Vec<Rc<Formula>>,
    /// For each formula, the place of the last formula before it with the same fingerprint.
    older: Vec<Option<usize>>,
    /// For each fingerprint, the place of the last formula that has it.
    newest: HashMap<u64, usize>,
}

impl View for Shared {
    type V = Set<FormulaModel>;

    closed spec fn view(&self) -> Set<FormulaModel> {
        Set::new(|f: FormulaModel| holds(self.table@, f))
    }
}

/// The interner: structurally equal formulas that pass through [`Interner::intern`] become one
/// shared allocation, which is kept for as long as the interner lives.
pub struct Interner {
    /// The formulas that are shared.
    pub shared: Shared,
    /// How often a request was answered with a formula that was already there.
    pub hits: usize,
    /// How many requests there were.
    pub total: usize,
}

impl View for Interner {
    type V = InternerModel;

    open spec fn view(&self) -> InternerModel {
        InternerModel { known: self.shared@, hits: self.hits, total: self.total }
    }
}

spec fn holds(table: Seq<Rc<Formula>>, f: FormulaModel) -> bool {
    exists|i: int| 0 <= i < table.len() && (#[trigger] table[i])@ == f
}

spec fn print_at(table: Seq<Rc<Formula>>, i: int) -> u64 {
    print_of(table[i]@)
}

/// The formulas of `table` are distinct, and the two indexes lead from a fingerprint to every
/// formula that has it.
spec fn indexed(
    table: Seq<Rc<Formula>>,
    older: Seq<Option<usize>>,
    newest: Map<u64, usize>,
) -> bool {
    &&& older.len() == table.len()
    &&& forall|i: int, j: int|
        0 <= i < j < table.len() ==> (#[trigger] table[i])@ != (#[trigger] table[j])@
    &&& forall|i: int|
        0 <= i < table.len() ==> {
            &&& newest.contains_key(#[trigger] print_at(table, i))
            &&& i <= newest[print_at(table, i)]
        }
    &&& forall|h: u64| #[trigger]
        newest.contains_key(h) ==> {
            &&& newest[h] < table.len()
            &&& print_at(table, newest[h] as int) == h
        }
    &&& forall|i: int|
        0 <= i < table.len() ==> match #[trigger] older[i] {
            Some(j) => {
                &&& j < i
                &&& print_at(table, j as int) == print_at(table, i)
                &&& forall|k: int| j < k < i ==> #[trigger] print_at(table, k) != print_at(table, i)
            },
            None => forall|k: int|
                0 <= k < i ==> #[trigger] print_at(table, k) != print_at(table, i),
        }
}

impl Interner {
    /// The formulas are distinct and can be found by their fingerprints.
    pub closed spec fn wf(&self) -> bool {
        indexed(self.shared.table@, self.shared.older@, self.shared.newest@)
    }

    /// An interner that has seen nothing.
    pub fn new() -> (r: Interner)
        ensures
            r.wf(),
            r@ == InternerModel::empty(),
    {
        broadcast use vstd::std_specs::hash::group_hash_axioms;

        let r = Interner {
            shared: Shared { table: Vec::new(), older: Vec::new(), newest: HashMap::new() },
            hits: 0,
            total: 0,
        };
        assert(r@.known =~= Set::empty());
        r
    }

    /// The formula in the table that equals `f`, if there is one.
    fn find(&self, f: &Formula, print: u64) -> (r: Option<usize>)
        requires
            self.wf(),
            print == print_of(f@),
        ensures
            match r {
                Some(i) => i < self.shared.table@.len() && self.shared.table@[i as int]@ == f@,
                None => !holds(self.shared.table@, f@),
            },
    {
        broadcast use vstd::std_specs::hash::group_hash_axioms;

        let ghost table = self.shared.table@;
        let mut cur: usize = match self.shared.newest.get(&print) {
            Some(i) => *i,
            None => {
                assert forall|i: int| 0 <= i < table.len() implies (#[trigger] table[i])@ != f@ by {
                    assert(self.shared.newest@.contains_key(print_at(table, i)));
                }
                return None;
            },
        };
        assert forall|k: int| cur < k < table.len() implies (#[trigger] table[k])@ != f@ by {
            assert(self.shared.newest@.contains_key(print_at(table, k)));
        }
        loop
            invariant
                self.wf(),
                table == self.shared.table@,
                print == print_of(f@),
                cur < table.len(),
                print_at(table, cur as int) == print,
                forall|k: int| cur < k < table.len() ==> (#[trigger] table[k])@ != f@,
            decreases cur,
        {
            if same_formula(&self.shared.table[cur], f) {
                return Some(cur);
            }
            let ghost here = cur as int;
            match self.shared.older[cur] {
                Some(j) => {
                    assert forall|k: int| j < k < table.len() implies (#[trigger] table[k])@
                        != f@ by {
                        if k < here {
                            assert(print_at(table, k) != print_at(table, here));
                        }
                    }
                    cur = j;
                },
                None => {
                    assert forall|k: int| 0 <= k < table.len() implies (#[trigger] table[k])@
                        != f@ by {
                        if k < here {
                            assert(print_at(table, k) != print_at(table, here));
                        }
                    }
                    return None;
                },
            }
        }
    }

    /// Shares `f`: hands out the allocation of the equal formula that is already there, or keeps
    /// `f` and hands it out.
    pub fn intern(&mut self, f: Formula) -> (r: Rc<Formula>)
        requires
            old(self).wf(),
        ensures
            final(self).wf(),
            r@ == f@,
            final(self)@ == old(self)@.interned(f@),
    {
        broadcast use vstd::std_specs::hash::group_hash_axioms;

        let ghost before = *self;
        self.total = bump_count(self.total);
        let print: u64 = fingerprint(&f);
        match self.find(&f, print) {
            Some(i) => {
                self.hits = bump_count(self.hits);
                assert(holds(before.shared.table@, f@)) by {
                    assert(before.shared.table@[i as int]@ == f@);
                }
                assert(before@.known.insert(f@) =~= before@.known);
                self.shared.table[i].clone()
            },
            None => {
                let shared = Rc::new(f);
                let place: usize = self.shared.table.len();
                let last: Option<usize> = match self.shared.newest.get(&print) {
                    Some(i) => Some(*i),
                    None => None,
                };
                self.shared.table.push(shared.clone());
                self.shared.older.push(last);
                self.shared.newest.insert(print, place);
                proof {
                    indexed_push(before.shared.table@, before.shared.older@, before.shared.newest@, shared, last);
                    holds_push(before.shared.table@, shared);
                    assert(self@.known =~= before@.known.insert(f@));
                }
                shared
            },
        }
    }
}

/// The indexes stay right when a new formula comes last.
proof fn indexed_push(
    table: Seq<Rc<Formula>>,
    older: Seq<Option<usize>>,
    newest: Map<u64, usize>,
    f: Rc<Formula>,
    last: Option<usize>,
)
    requires
        indexed(table, older, newest),
        !holds(table, f@),
        table.len() <= usize::MAX,
        last == (if newest.contains_key(print_of(f@)) {
            Some(newest[print_of(f@)])
        } else {
            None
        }),
    ensures
        indexed(
            table.push(f),
            older.push(last),
            newest.insert(print_of(f@), table.len() as usize),
        ),
{
    let n = table.len() as int;
    let print = print_of(f@);
    let table2 = table.push(f);
    let older2 = older.push(last);
    let newest2 = newest.insert(print, n as usize);
    assert forall|i: int| 0 <= i < n implies print_at(table2, i) == #[trigger] print_at(
        table,
        i,
    ) by {}
    assert(print_at(table2, n) == print);
    assert forall|i: int| 0 <= i < table2.len() implies {
        &&& newest2.contains_key(#[trigger] print_at(table2, i))
        &&& i <= newest2[print_at(table2, i)]
    } by {
        if i < n {
            assert(newest.contains_key(print_at(table, i)));
        }
    }
    assert forall|h: u64| #[trigger] newest2.contains_key(h) implies {
        &&& newest2[h] < table2.len()
        &&& print_at(table2, newest2[h] as int) == h
    } by {
        if h != print {
            assert(newest.contains_key(h));
            assert(print_at(table, newest[h] as int) == h);
        }
    }
    assert forall|i: int| 0 <= i < table2.len() implies match #[trigger] older2[i] {
        Some(j) => {
            &&& j < i
            &&& print_at(table2, j as int) == print_at(table2, i)
            &&& forall|k: int| j < k < i ==> #[trigger] print_at(table2, k) != print_at(table2, i)
        },
        None => forall|k: int| 0 <= k < i ==> #[trigger] print_at(table2, k) != print_at(table2, i),
    } by {
        if i < n {
            assert(older2[i] == older[i]);
            assert forall|k: int| 0 <= k < i implies #[trigger] print_at(table2, k) == print_at(
                table,
                k,
            ) by {
                assert(print_at(table, k) == print_at(table2, k));
            }
        } else {
            assert forall|k: int| 0 <= k < n implies newest.contains_key(
                #[trigger] print_at(table2, k),
            ) && k <= newest[print_at(table2, k)] by {
                assert(newest.contains_key(print_at(table, k)));
            }
            if newest.contains_key(print) {
                let j = newest[print] as int;
                assert(print_at(table, j) == print);
            }
        }
    }
    assert forall|i: int, j: int| 0 <= i < j < table2.len() implies (#[trigger] table2[i])@ != (
    #[trigger] table2[j])@ by {
        if j == n {
            assert(table[i]@ != f@);
        } else {
            assert(table[i]@ != table[j]@);
        }
    }
}

/// Pushing a formula adds exactly that formula.
proof fn holds_push(table: Seq<Rc<Formula>>, f: Rc<Formula>)
    ensures
        forall|g: FormulaModel| #[trigger] holds(table.push(f), g) == (holds(table, g) || g == f@),
{
    assert forall|g: FormulaModel| #[trigger] holds(table.push(f), g) == (holds(table, g) || g
        == f@) by {
        let n = table.len() as int;
        if holds(table, g) {
            let i = choose|i: int| 0 <= i < table.len() && (#[trigger] table[i])@ == g;
            assert(table.push(f)[i]@ == g);
        }
        if g == f@ {
            assert(table.push(f)[n]@ == g);
        }
        if holds(table.push(f), g) {
            let i = choose|i: int|
                0 <= i < table.push(f).len() && (#[trigger] table.push(f)[i])@ == g;
            if i < n {
                assert(table[i]@ == g);
            }
        }
    }
}

impl Default for Interner {
    fn default() -> (r: Interner)
        ensures
            r.wf(),
            r@ == InternerModel::empty(),
    {
        Interner::new()
    }
}

/// An interned predicate application.
pub fn mk_pred(
    interner: &mut Interner,
    name: &str,
    args: Vec<Rc<Term>>,
    negated: bool,
) -> (r: Rc<Formula>)
    requires
        old(interner).wf(),
    ensures
        final(interner).wf(),
        r@ == (FormulaModel::Pred { name: name@, args: term_models(args@), negated }),
        final(interner)@ == old(interner)@.interned(r@),
{
    interner.intern(Formula::Pred { name: name.to_owned(), args, negated })
}

/// An interned conjunction.
pub fn mk_and(interner: &mut Interner, l: Rc<Formula>, r: Rc<Formula>) -> (f: Rc<Formula>)
    requires
        old(interner).wf(),
    ensures
        final(interner).wf(),
        f@ == FormulaModel::And(Box::new(l@), Box::new(r@)),
        final(interner)@ == old(interner)@.interned(f@),
{
    interner.intern(Formula::And(l, r))
}

/// An interned disjunction.
pub fn mk_or(interner: &mut Interner, l: Rc<Formula>, r: Rc<Formula>) -> (f: Rc<Formula>)
    requires
        old(interner).wf(),
    ensures
        final(interner).wf(),
        f@ == FormulaModel::Or(Box::new(l@), Box::new(r@)),
        final(interner)@ == old(interner)@.interned(f@),
{
    interner.intern(Formula::Or(l, r))
}

/// An interned universal quantification.
pub fn mk_forall(interner: &mut Interner, v: VarId, body: Rc<Formula>) -> (f: Rc<Formula>)
    requires
        old(interner).wf(),
    ensures
        final(interner).wf(),
        f@ == FormulaModel::ForAll(v, Box::new(body@)),
        final(interner)@ == old(interner)@.interned(f@),
{
    interner.intern(Formula::ForAll(v, body))
}

/// An interned existential quantification.
pub fn mk_exists(interner: &mut Interner, v: VarId, body: Rc<Formula>) -> (f: Rc<Formula>)
    requires
        old(interner).wf(),
    ensures
        final(interner).wf(),
        f@ == FormulaModel::Exists(v, Box::new(body@)),
        final(interner)@ == old(interner)@.interned(f@),
{
    interner.intern(Formula::Exists(v, body))
}

/// The interned formula that always holds.
pub fn mk_true(interner: &mut Interner) -> (f: Rc<Formula>)
    requires
        old(interner).wf(),
    ensures
        final(interner).wf(),
        f@ == FormulaModel::True,
        final(interner)@ == old(interner)@.interned(f@),
{
    interner.intern(Formula::True)
}

/// The interned formula that never holds.
pub fn mk_false(interner: &mut Interner) -> (f: Rc<Formula>)
    requires
        old(interner).wf(),
    ensures
        final(interner).wf(),
        f@ == FormulaModel::False,
        final(interner)@ == old(interner)@.interned(f@),
{
    interner.intern(Formula::False)
}

/// `t` with `replacement` in place of `var`.
pub fn substitute_term(t: &Rc<Term>, var: VarId, replacement: &Rc<Term>) -> (r: Rc<Term>)
    ensures
        r@ == subst_term(t@, var, replacement@),
    decreases **t,
{
    match &**t {
        Term::Var(v) => if *v == var {
            replacement.clone()
        } else {
            t.clone()
        },
        Term::Func(name, args) => {
            let mut new_args: Vec<Rc<Term>> = Vec::new();
            let mut i: usize = 0;
            while i < args.len()
                invariant
                    **t == Term::Func(*name, *args),
                    i <= args@.len(),
                    new_args@.len() == i,
                    forall|k: int|
                        0 <= k < i ==> (#[trigger] new_args@[k])@ == subst_term(
                            args@[k]@,
                            var,
                            replacement@,
                        ),
                decreases args@.len() - i,
            {
                assert(decreases_to!(**t => (**t)->Func_1));
                new_args.push(substitute_term(&args[i], var, replacement));
                i += 1;
            }
            proof {
                func_view(*name, *args);
                subst_term_func(name@, term_models(args@), var, replacement@);
                assert(term_models(new_args@) =~= subst_terms(
                    term_models(args@),
                    var,
                    replacement@,
                ));
            }
            let new_name = name.clone();
            proof {
                func_view(new_name, new_args);
            }
            Rc::new(Term::Func(new_name, new_args))
        },
    }
}

/// What a substitution leaves in the interner: every rebuilt part of the formula is interned,
/// innermost first, and a part that binds the variable is left alone.
pub open spec fn subst_interned(
    m: InternerModel,
    f: FormulaModel,
    var: VarId,
    rep: TermModel,
) -> InternerModel
    decreases f,
{
    match f {
        FormulaModel::Pred { .. } => m.interned(subst(f, var, rep)),
        FormulaModel::And(l, r) | FormulaModel::Or(l, r) => subst_interned(
            subst_interned(m, *l, var, rep),
            *r,
            var,
            rep,
        ).interned(subst(f, var, rep)),
        FormulaModel::ForAll(v, body) | FormulaModel::Exists(v, body) => if v == var {
            m
        } else {
            subst_interned(m, *body, var, rep).interned(subst(f, var, rep))
        },
        FormulaModel::True | FormulaModel::False => m,
    }
}

/// `f` with `replacement` in place of the occurrences of `var` that `f` does not bind.
pub fn substitute(
    interner: &mut Interner,
    f: &Rc<Formula>,
    var: VarId,
    replacement: &Rc<Term>,
) -> (r: Rc<Formula>)
    requires
        old(interner).wf(),
    ensures
        final(interner).wf(),
        r@ == subst(f@, var, replacement@),
        final(interner)@ == subst_interned(old(interner)@, f@, var, replacement@),
    decreases f,
{
    match &**f {
        Formula::Pred { name, args, negated } => {
            let mut new_args: Vec<Rc<Term>> = Vec::new();
            let mut i: usize = 0;
            while i < args.len()
                invariant
                    i <= args@.len(),
                    new_args@.len() == i,
                    forall|k: int|
                        0 <= k < i ==> (#[trigger] new_args@[k])@ == subst_term(
                            args@[k]@,
                            var,
                            replacement@,
                        ),
                decreases args@.len() - i,
            {
                new_args.push(substitute_term(&args[i], var, replacement));
                i += 1;
            }
            assert(term_models(new_args@) =~= subst_terms(
                term_models(args@),
                var,
                replacement@,
            ));
            interner.intern(
                Formula::Pred { name: name.clone(), args: new_args, negated: *negated },
            )
        },
        Formula::And(l, r) => {
            let nl = substitute(interner, l, var, replacement);
            let nr = substitute(interner, r, var, replacement);
            interner.intern(Formula::And(nl, nr))
        },
        Formula::Or(l, r) => {
            let nl = substitute(interner, l, var, replacement);
            let nr = substitute(interner, r, var, replacement);
            interner.intern(Formula::Or(nl, nr))
        },
        Formula::ForAll(v, body) => {
            if *v == var {
                f.clone()
            } else {
                let nb = substitute(interner, body, var, replacement);
                interner.intern(Formula::ForAll(*v, nb))
            }
        },
        Formula::Exists(v, body) => {
            if *v == var {
                f.clone()
            } else {
                let nb = substitute(interner, body, var, replacement);
                interner.intern(Formula::Exists(*v, nb))
            }
        },
        Formula::True => f.clone(),
        Formula::False => f.clone(),
    }
}

} // verus!
