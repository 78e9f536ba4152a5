//! An interpreter for SMT-LIB scripts, as far as they are about uninterpreted functions and
//! quantifiers: `declare-sort`, `declare-fun`, `declare-const`, `assert`, `push`, `pop`,
//! `check-sat` and `exit`. `set-logic`, `set-info` and `set-option` are accepted and ignored. Any
//! other command is ignored too, with a note among the diagnostics.
//!
//! All sorts are folded into one. A `let` is not known.

use crate::nnf::{nnf, nnf_interned, to_nnf};
use crate::reading::{formula_reading, parse_formula, Failure, Reading, Scope};
use crate::sexpr::{
    list_view, parse_all, script, sexpr_models, texts, ParseError, Sexpr, SexprModel,
};
use crate::term::{Interner, InternerModel, VarId};
use crate::text::{concat, decimal, number, numeral_of, parse_number, same_text};
use crate::z3_api::{z3_answered, z3_answers, AstModel, StackModel};
use crate::z3_bridge::{right_answer, BridgeError, SkolemizingSolver, SolverModel, Trouble};
use vstd::hash_map::StringHashMap;
use vstd::prelude::*;
use z3::{Context, SatResult};

verus! {

/// What is known of a declared symbol.
#[derive(Debug, Clone, Copy, PartialEq, Eq, Structural)]
pub struct DeclKind {
    pub arity: usize,
    pub is_bool: bool,
}

/// Why a script was given up.
#[derive(Debug)]
pub enum InterpError {
    /// The text is not a sequence of S-expressions.
    Parse(String),
    /// A formula has no translation.
    Bridge(String),
    /// A command is not well formed.
    Semantic(String),
}

/// Why a script was given up.
#[verifier::ext_equal]
pub enum ErrorModel {
    Parse(Seq<char>),
    Bridge(Seq<char>),
    Semantic(Seq<char>),
}

impl View for InterpError {
    type V = ErrorModel;

    open spec fn view(&self) -> ErrorModel {
        match self {
            InterpError::Parse(message) => ErrorModel::Parse(message@),
            InterpError::Bridge(message) => ErrorModel::Bridge(message@),
            InterpError::Semantic(message) => ErrorModel::Semantic(message@),
        }
    }
}

/// How an error of the bridge is reported.
pub open spec fn bridge_message(e: BridgeError) -> Seq<char> {
    match e {
        BridgeError::UnboundVariable(v) => "UnboundVariable("@ + decimal(v as nat) + ")"@,
        BridgeError::UnskolemizedExistential => "UnskolemizedExistential"@,
    }
}

impl From<ParseError> for InterpError {
    fn from(e: ParseError) -> (r: InterpError) {
        InterpError::Parse(e.0)
    }
}

impl vstd::std_specs::convert::FromSpecImpl<ParseError> for InterpError {
    open spec fn obeys_from_spec() -> bool {
        true
    }

    open spec fn from_spec(e: ParseError) -> InterpError {
        InterpError::Parse(e.0)
    }
}

impl From<BridgeError> for InterpError {
    fn from(e: BridgeError) -> (r: InterpError)
        ensures
            r@ == ErrorModel::Bridge(bridge_message(e)),
    {
        InterpError::Bridge(
            match e {
                BridgeError::UnboundVariable(v) => {
                    let opened = concat("UnboundVariable(", numeral_of(v).as_str());
                    concat(opened.as_str(), ")")
                },
                BridgeError::UnskolemizedExistential => "UnskolemizedExistential".to_owned(),
            },
        )
    }
}

impl vstd::std_specs::convert::FromSpecImpl<BridgeError> for InterpError {
    open spec fn obeys_from_spec() -> bool {
        false
    }

    open spec fn from_spec(e: BridgeError) -> InterpError {
        arbitrary()
    }
}

/// The state of an interpreter.
#[verifier::ext_equal]
pub struct InterpModel {
    pub solver: SolverModel,
    pub interner: InternerModel,
    pub declared: Map<Seq<char>, DeclKind>,
    pub results: Seq<SatResult>,
    pub diagnostics: Seq<Seq<char>>,
}

impl InterpModel {
    /// A new session, in which equality is declared.
    pub open spec fn fresh() -> InterpModel {
        InterpModel {
            solver: SolverModel::empty(),
            interner: InternerModel::empty(),
            declared: Map::<Seq<char>, DeclKind>::empty().insert(
                "="@,
                DeclKind { arity: 2, is_bool: true },
            ),
            results: Seq::empty(),
            diagnostics: Seq::empty(),
        }
    }
}

/// How far a script has come.
#[verifier::ext_equal]
pub struct Progress {
    /// The state that is reached, but for the results. Its stack of assertions counts only while
    /// it is not lost.
    pub at: InterpModel,
    /// Whether the script has left more scopes than it had entered: what Z3 still holds is then
    /// not known.
    pub lost: bool,
    /// For each `check-sat`, what was asserted then, if that is known.
    pub checks: Seq<Option<StackModel<AstModel>>>,
}

/// What comes of a command or a script.
#[verifier::ext_equal]
pub enum Outcome {
    /// It was carried out.
    Done,
    /// It was carried out, and no further command is.
    Exit,
    /// It was given up.
    Fails(ErrorModel),
    /// It lacks a part that has to be there, or asks for more than can be counted or named.
    Stuck,
}

/// The start of a script.
pub open spec fn starting(at: InterpModel) -> Progress {
    Progress { at, lost: false, checks: Seq::empty() }
}

/// After `n` scopes were entered.
pub open spec fn entered(s: SolverModel, n: nat) -> SolverModel
    decreases n,
{
    if n == 0 {
        s
    } else {
        entered(s, (n - 1) as nat).pushed()
    }
}

/// The number in a `push` or `pop`; without one it is one.
pub open spec fn scope_count(items: Seq<SexprModel>) -> u32 {
    if items.len() > 1 && items[1] is Atom && number(items[1]->Atom_0) is Some {
        number(items[1]->Atom_0)->0
    } else {
        1
    }
}

/// The symbol at a place of a command, or nothing.
pub open spec fn atom_or_empty(s: SexprModel) -> Seq<char> {
    match s {
        SexprModel::Atom(name) => name,
        SexprModel::List(_) => Seq::empty(),
    }
}

/// After a symbol was declared.
pub open spec fn declaring(m: Progress, name: Seq<char>, kind: DeclKind) -> Progress {
    Progress { at: InterpModel { declared: m.at.declared.insert(name, kind), ..m.at }, ..m }
}

/// After `(declare-const name sort)`.
pub open spec fn declare_const(m: Progress, items: Seq<SexprModel>) -> (Progress, Outcome) {
    if items.len() < 2 {
        (m, Outcome::Stuck)
    } else {
        match items[1] {
            SexprModel::List(_) => (
                m,
                Outcome::Fails(ErrorModel::Semantic("declare-const: expected symbol name"@)),
            ),
            SexprModel::Atom(name) => if items.len() < 3 {
                (m, Outcome::Stuck)
            } else {
                (
                    declaring(
                        m,
                        name,
                        DeclKind { arity: 0, is_bool: atom_or_empty(items[2]) == "Bool"@ },
                    ),
                    Outcome::Done,
                )
            },
        }
    }
}

/// After `(declare-fun name (sort ..) sort)`.
pub open spec fn declare_fun(m: Progress, items: Seq<SexprModel>) -> (Progress, Outcome) {
    if items.len() < 2 {
        (m, Outcome::Stuck)
    } else {
        match items[1] {
            SexprModel::List(_) => (
                m,
                Outcome::Fails(ErrorModel::Semantic("declare-fun: expected symbol name"@)),
            ),
            SexprModel::Atom(name) => if items.len() < 3 {
                (m, Outcome::Stuck)
            } else {
                match items[2] {
                    SexprModel::Atom(_) => (
                        m,
                        Outcome::Fails(
                            ErrorModel::Semantic("declare-fun: expected domain sort list"@),
                        ),
                    ),
                    SexprModel::List(domain) => if items.len() < 4 {
                        (m, Outcome::Stuck)
                    } else {
                        (
                            declaring(
                                m,
                                name,
                                DeclKind {
                                    arity: domain.len() as usize,
                                    is_bool: atom_or_empty(items[3]) == "Bool"@,
                                },
                            ),
                            Outcome::Done,
                        )
                    },
                }
            },
        }
    }
}

/// After `(assert formula)`. The variables of each assertion are numbered from zero.
pub open spec fn assertion(m: Progress, items: Seq<SexprModel>) -> (Progress, Outcome) {
    if items.len() < 2 {
        (m, Outcome::Stuck)
    } else {
        match formula_reading(items[1], Scope { env: Map::empty(), next: 0 }) {
            Reading::Wrong(message) => (m, Outcome::Fails(ErrorModel::Semantic(message))),
            Reading::Stuck => (m, Outcome::Stuck),
            Reading::Read((raw, _)) => {
                let f = nnf(raw, true);
                let read = InterpModel {
                    interner: nnf_interned(m.at.interner, raw, true),
                    ..m.at
                };
                (
                    Progress {
                        at: InterpModel { solver: m.at.solver.asserted(f), ..read },
                        ..m
                    },
                    match m.at.solver.translation(f).0 {
                        Ok(_) => Outcome::Done,
                        Err(Trouble::Refused(e)) => Outcome::Fails(
                            ErrorModel::Bridge(bridge_message(e)),
                        ),
                        Err(Trouble::Stuck) => Outcome::Stuck,
                    },
                )
            },
        }
    }
}

/// After `n` scopes were left.
pub open spec fn leaving(m: Progress, n: u32) -> Progress {
    Progress {
        at: InterpModel {
            solver: SolverModel {
                stack: if n <= m.at.solver.stack.marks.len() {
                    m.at.solver.stack.popped(n as nat)
                } else {
                    m.at.solver.stack
                },
                table: m.at.solver.table.popped(n as usize),
                ..m.at.solver
            },
            ..m.at
        },
        lost: m.lost || n > m.at.solver.stack.marks.len(),
        ..m
    }
}

/// After a command with its head.
pub open spec fn commanded(m: Progress, head: Seq<char>, items: Seq<SexprModel>) -> (
    Progress,
    Outcome,
) {
    if head == "set-logic"@ || head == "set-info"@ || head == "set-option"@ || head
        == "declare-sort"@ {
        (m, Outcome::Done)
    } else if head == "declare-const"@ {
        declare_const(m, items)
    } else if head == "declare-fun"@ {
        declare_fun(m, items)
    } else if head == "assert"@ {
        assertion(m, items)
    } else if head == "push"@ {
        (
            Progress {
                at: InterpModel {
                    solver: entered(m.at.solver, scope_count(items) as nat),
                    ..m.at
                },
                ..m
            },
            Outcome::Done,
        )
    } else if head == "pop"@ {
        (leaving(m, scope_count(items)), Outcome::Done)
    } else if head == "check-sat"@ {
        (
            Progress {
                checks: m.checks.push(
                    if m.lost {
                        None
                    } else {
                        Some(m.at.solver.stack)
                    },
                ),
                ..m
            },
            Outcome::Done,
        )
    } else if head == "exit"@ {
        (m, Outcome::Exit)
    } else {
        (
            Progress {
                at: InterpModel {
                    diagnostics: m.at.diagnostics.push("ignored unsupported command: "@ + head),
                    ..m.at
                },
                ..m
            },
            Outcome::Done,
        )
    }
}

/// After one command.
pub open spec fn step(m: Progress, cmd: SexprModel) -> (Progress, Outcome) {
    match cmd {
        SexprModel::Atom(_) => (
            m,
            Outcome::Fails(ErrorModel::Semantic("top-level command must be a list"@)),
        ),
        SexprModel::List(items) => if items.len() == 0 {
            (m, Outcome::Done)
        } else {
            match items[0] {
                SexprModel::List(_) => (
                    m,
                    Outcome::Fails(ErrorModel::Semantic("command head must be a symbol"@)),
                ),
                SexprModel::Atom(head) => commanded(m, head, items),
            }
        },
    }
}

/// After the commands from the `i`-th on, up to the first that exits, fails or gets stuck.
pub open spec fn run(m: Progress, cmds: Seq<SexprModel>, i: nat) -> (Progress, Outcome)
    decreases cmds.len() - i,
{
    if i >= cmds.len() {
        (m, Outcome::Done)
    } else {
        match step(m, cmds[i as int]) {
            (after, Outcome::Done) => run(after, cmds, i + 1),
            (after, Outcome::Exit) => (after, Outcome::Done),
            (after, other) => (after, other),
        }
    }
}

/// Whether a state is one that the script reached from a state with the results `before`. Each
/// `check-sat` has added one result. That is the answer that Z3 gave for what was asserted then, and
/// it is right for that.
pub open spec fn reached(at: InterpModel, before: Seq<SatResult>, m: Progress) -> bool {
    &&& at.solver == (SolverModel { stack: at.solver.stack, ..m.at.solver })
    &&& !m.lost ==> at.solver.stack == m.at.solver.stack
    &&& at.interner == m.at.interner
    &&& at.declared == m.at.declared
    &&& at.diagnostics == m.at.diagnostics
    &&& at.results.len() == before.len() + m.checks.len()
    &&& at.results.take(before.len() as int) == before
    &&& forall|k: int|
        0 <= k < m.checks.len() ==> match #[trigger] m.checks[k] {
            Some(stack) => {
                &&& z3_answers(stack, at.results[before.len() + k])
                &&& right_answer(at.results[before.len() + k], stack.asserted)
            },
            None => z3_answered(at.results[before.len() + k]),
        }
}

/// What an interpreter works on.
pub struct Session {
    solver: SkolemizingSolver,
    /// Shared by all the assertions of the session, so that equal formulas in different assertions
    /// are one allocation.
    interner: Interner,
    declared: StringHashMap<DeclKind>,
}

impl View for Session {
    type V = InterpModel;

    /// The state with no results and no diagnostics.
    closed spec fn view(&self) -> InterpModel {
        InterpModel {
            solver: self.solver@,
            interner: self.interner@,
            declared: self.declared@,
            results: Seq::empty(),
            diagnostics: Seq::empty(),
        }
    }
}

/// The interpreter of a session.
pub struct Interpreter {
    /// Everything but what it has to report.
    pub session: Session,
    /// The result of each `check-sat` so far.
    pub results: Vec<SatResult>,
    /// Notes about commands that were ignored.
    pub diagnostics: Vec<String>,
}

impl View for Interpreter {
    type V = InterpModel;

    open spec fn view(&self) -> InterpModel {
        InterpModel {
            results: self.results@,
            diagnostics: texts(self.diagnostics@),
            ..self.session@
        }
    }
}

impl Interpreter {
    /// The parts are well formed.
    pub closed spec fn wf(&self) -> bool {
        &&& self.session.solver.wf()
        &&& self.session.interner.wf()
    }

    /// A new session. Equality is declared in it.
    pub fn new(_ctx: &Context) -> (r: Interpreter)
        ensures
            r.wf(),
            r@ == InterpModel::fresh(),
    {
        let mut declared: StringHashMap<DeclKind> = StringHashMap::new();
        declared.insert("=".to_owned(), DeclKind { arity: 2, is_bool: true });
        let diagnostics: Vec<String> = Vec::new();
        proof {
            assert(texts(diagnostics@) =~= Seq::<Seq<char>>::empty());
        }
        Interpreter {
            session: Session {
                solver: SkolemizingSolver::new(),
                interner: Interner::new(),
                declared,
            },
            results: Vec::new(),
            diagnostics,
        }
    }

    /// Adds the answer to a `check-sat` to the results.
    pub fn record(&mut self, answer: SatResult)
        requires
            old(self).wf(),
        ensures
            final(self).wf(),
            final(self)@ == (InterpModel {
                results: old(self)@.results.push(answer),
                ..old(self)@
            }),
    {
        self.results.push(answer);
    }

    /// How many Skolem symbols were minted, how many were found again, and how many are live.
    pub fn solver_stats(&self) -> (r: (usize, usize, usize))
        requires
            self.wf(),
        ensures
            r.0 == self@.solver.table.fresh_generations,
            r.1 == self@.solver.table.reuse_hits,
            r.2 == self@.solver.table.entries.dom().len(),
    {
        self.session.solver.stats()
    }
}

/// What a command came to, if it did not get stuck: an error, or whether to go on.
type CommandResult = Option<Result<bool, InterpError>>;

/// Whether the result of a command is the one expected.
spec fn comes_to(r: CommandResult, expected: Outcome) -> bool {
    match expected {
        Outcome::Done => r == Some(Ok::<bool, InterpError>(true)),
        Outcome::Exit => r == Some(Ok::<bool, InterpError>(false)),
        Outcome::Fails(e) => r is Some && r->0 is Err && r->0->Err_0@ == e,
        Outcome::Stuck => r is None,
    }
}

fn semantic_error(message: &str) -> (r: CommandResult)
    ensures
        comes_to(r, Outcome::Fails(ErrorModel::Semantic(message@))),
{
    Some(Err(InterpError::Semantic(message.to_owned())))
}

/// Whether the symbol at a place of a command is `Bool`.
fn names_bool(s: &Sexpr) -> (r: bool)
    ensures
        r == (atom_or_empty(s@) == "Bool"@),
{
    match s.atom() {
        Some(name) => same_text(name, "Bool"),
        None => {
            proof {
                reveal_strlit("Bool");
                assert("Bool"@.len() == 4);
            }
            false
        },
    }
}

/// The number in a `push` or `pop`; without one it is one.
fn parse_scope_count(items: &Vec<Sexpr>) -> (r: u32)
    ensures
        r == scope_count(sexpr_models(items@)),
{
    if items.len() > 1 {
        assert(sexpr_models(items@)[1] == items@[1]@);
        if let Some(text) = items[1].atom() {
            if let Some(n) = parse_number(text) {
                return n;
            }
        }
    }
    1
}

impl Interpreter {
    fn run_declare_const(
        &mut self,
        items: &Vec<Sexpr>,
        Ghost(before): Ghost<Seq<SatResult>>,
        Ghost(m): Ghost<Progress>,
    ) -> (r: CommandResult)
        requires
            old(self).wf(),
            reached(old(self)@, before, m),
        ensures
            final(self).wf(),
            reached(final(self)@, before, declare_const(m, sexpr_models(items@)).0),
            comes_to(r, declare_const(m, sexpr_models(items@)).1),
    {
        if items.len() < 2 {
            return None;
        }
        assert(sexpr_models(items@)[1] == items@[1]@);
        let name = match items[1].atom() {
            Some(name) => name,
            None => {
                return semantic_error("declare-const: expected symbol name");
            },
        };
        if items.len() < 3 {
            return None;
        }
        assert(sexpr_models(items@)[2] == items@[2]@);
        let is_bool = names_bool(&items[2]);
        self.session.declared.insert(name.to_owned(), DeclKind { arity: 0, is_bool });
        Some(Ok(true))
    }

    fn run_declare_fun(
        &mut self,
        items: &Vec<Sexpr>,
        Ghost(before): Ghost<Seq<SatResult>>,
        Ghost(m): Ghost<Progress>,
    ) -> (r: CommandResult)
        requires
            old(self).wf(),
            reached(old(self)@, before, m),
        ensures
            final(self).wf(),
            reached(final(self)@, before, declare_fun(m, sexpr_models(items@)).0),
            comes_to(r, declare_fun(m, sexpr_models(items@)).1),
    {
        if items.len() < 2 {
            return None;
        }
        assert(sexpr_models(items@)[1] == items@[1]@);
        let name = match items[1].atom() {
            Some(name) => name,
            None => {
                return semantic_error("declare-fun: expected symbol name");
            },
        };
        if items.len() < 3 {
            return None;
        }
        assert(sexpr_models(items@)[2] == items@[2]@);
        let arity: usize = match items[2].list() {
            Some(domain) => domain.len(),
            None => {
                return semantic_error("declare-fun: expected domain sort list");
            },
        };
        if items.len() < 4 {
            return None;
        }
        assert(sexpr_models(items@)[3] == items@[3]@);
        let is_bool = names_bool(&items[3]);
        self.session.declared.insert(name.to_owned(), DeclKind { arity, is_bool });
        Some(Ok(true))
    }

    fn run_assert(
        &mut self,
        items: &Vec<Sexpr>,
        Ghost(before): Ghost<Seq<SatResult>>,
        Ghost(m): Ghost<Progress>,
    ) -> (r: CommandResult)
        requires
            old(self).wf(),
            reached(old(self)@, before, m),
        ensures
            final(self).wf(),
            reached(final(self)@, before, assertion(m, sexpr_models(items@)).0),
            comes_to(r, assertion(m, sexpr_models(items@)).1),
    {
        if items.len() < 2 {
            return None;
        }
        assert(sexpr_models(items@)[1] == items@[1]@);
        let mut env: StringHashMap<VarId> = StringHashMap::new();
        let mut counter: VarId = 0;
        let raw = match parse_formula(&items[1], &mut env, &mut counter) {
            Ok(raw) => raw,
            Err(Failure::Wrong(message)) => {
                return Some(Err(InterpError::Semantic(message)));
            },
            Err(Failure::Stuck) => {
                return None;
            },
        };
        let formula = to_nnf(&mut self.session.interner, &raw, true);
        match self.session.solver.try_assert_formula(&formula) {
            Some(Ok(_)) => Some(Ok(true)),
            Some(Err(e)) => Some(Err(InterpError::from(e))),
            None => None,
        }
    }

    fn run_push(
        &mut self,
        n: u32,
        Ghost(before): Ghost<Seq<SatResult>>,
        Ghost(m): Ghost<Progress>,
    )
        requires
            old(self).wf(),
            reached(old(self)@, before, m),
        ensures
            final(self).wf(),
            reached(
                final(self)@,
                before,
                (Progress {
                    at: InterpModel { solver: entered(m.at.solver, n as nat), ..m.at },
                    ..m
                }),
            ),
    {
        let mut i: u32 = 0;
        while i < n
            invariant
                i <= n,
                self.wf(),
                reached(
                    self@,
                    before,
                    (Progress {
                        at: InterpModel { solver: entered(m.at.solver, i as nat), ..m.at },
                        ..m
                    }),
                ),
            decreases n - i,
        {
            self.session.solver.push();
            i += 1;
        }
    }

    /// Carries out one command. The result says whether to go on; there is none if the command
    /// gets stuck.
    fn run_command(
        &mut self,
        cmd: &Sexpr,
        Ghost(before): Ghost<Seq<SatResult>>,
        Ghost(m): Ghost<Progress>,
    ) -> (r: CommandResult)
        requires
            old(self).wf(),
            reached(old(self)@, before, m),
        ensures
            final(self).wf(),
            reached(final(self)@, before, step(m, cmd@).0),
            comes_to(r, step(m, cmd@).1),
    {
        let items = match cmd {
            Sexpr::List(items) => items,
            Sexpr::Atom(_) => {
                return semantic_error("top-level command must be a list");
            },
        };
        proof {
            list_view(*items);
        }
        if items.len() == 0 {
            return Some(Ok(true));
        }
        assert(sexpr_models(items@)[0] == items@[0]@);
        let head = match items[0].atom() {
            Some(head) => head,
            None => {
                return semantic_error("command head must be a symbol");
            },
        };
        if same_text(head, "set-logic") || same_text(head, "set-info") || same_text(
            head,
            "set-option",
        ) || same_text(head, "declare-sort") {
            Some(Ok(true))
        } else if same_text(head, "declare-const") {
            self.run_declare_const(items, Ghost(before), Ghost(m))
        } else if same_text(head, "declare-fun") {
            self.run_declare_fun(items, Ghost(before), Ghost(m))
        } else if same_text(head, "assert") {
            self.run_assert(items, Ghost(before), Ghost(m))
        } else if same_text(head, "push") {
            let n: u32 = parse_scope_count(items);
            self.run_push(n, Ghost(before), Ghost(m));
            Some(Ok(true))
        } else if same_text(head, "pop") {
            let n: u32 = parse_scope_count(items);
            self.session.solver.pop(n);
            Some(Ok(true))
        } else if same_text(head, "check-sat") {
            let answer = self.session.solver.check_sat();
            let ghost earlier = self@.results;
            self.record(answer);
            assert(self@.results.take(before.len() as int) =~= earlier.take(before.len() as int));
            Some(Ok(true))
        } else if same_text(head, "exit") {
            Some(Ok(false))
        } else {
            let ghost earlier = self.diagnostics@;
            let note = concat("ignored unsupported command: ", head);
            self.diagnostics.push(note);
            assert(texts(self.diagnostics@) =~= texts(earlier).push(note@));
            Some(Ok(true))
        }
    }

    /// Runs a script, up to the first command that exits or fails. There is no result if a command
    /// gets stuck: it lacks a part that has to be there, or asks for more than can be counted or
    /// named.
    pub fn try_run_source(&mut self, src: &str) -> (r: Option<Result<(), InterpError>>)
        requires
            old(self).wf(),
        ensures
            final(self).wf(),
            match script(src@) {
                Err(message) => {
                    &&& final(self)@ == old(self)@
                    &&& r is Some && r->0 is Err && r->0->Err_0@ == ErrorModel::Parse(message)
                },
                Ok(cmds) => {
                    let (end, outcome) = run(starting(old(self)@), cmds, 0);
                    &&& reached(final(self)@, old(self)@.results, end)
                    &&& match outcome {
                        Outcome::Fails(e) => r is Some && r->0 is Err && r->0->Err_0@ == e,
                        Outcome::Stuck => r is None,
                        _ => r == Some(Ok::<(), InterpError>(())),
                    }
                },
            },
    {
        let cmds = match parse_all(src) {
            Ok(cmds) => cmds,
            Err(e) => {
                return Some(Err(InterpError::from(e)));
            },
        };
        let ghost all = sexpr_models(cmds@);
        let ghost start = starting(self@);
        let ghost before = self.results@;
        let ghost mut m = start;
        assert(self.results@.take(before.len() as int) =~= before);
        let mut i: usize = 0;
        while i < cmds.len()
            invariant
                i <= cmds@.len(),
                all == sexpr_models(cmds@),
                script(src@) == Ok::<Seq<SexprModel>, Seq<char>>(all),
                start == starting(old(self)@),
                before == old(self)@.results,
                self.wf(),
                reached(self@, before, m),
                run(start, all, 0) == run(m, all, i as nat),
            decreases cmds@.len() - i,
        {
            assert(all[i as int] == cmds@[i as int]@);
            let ghost here = m;
            match self.run_command(&cmds[i], Ghost(before), Ghost(here)) {
                Some(Ok(go_on)) => {
                    if !go_on {
                        return Some(Ok(()));
                    }
                },
                Some(Err(e)) => {
                    return Some(Err(e));
                },
                None => {
                    return None;
                },
            }
            proof {
                m = step(here, all[i as int]).0;
            }
            i += 1;
        }
        Some(Ok(()))
    }

    /// Runs a script in which no command gets stuck, up to the first command that exits or fails.
    pub fn run_source(&mut self, src: &str) -> (r: Result<(), InterpError>)
        requires
            old(self).wf(),
            match script(src@) {
                Err(_) => true,
                Ok(cmds) => !(run(starting(old(self)@), cmds, 0).1 is Stuck),
            },
        ensures
            final(self).wf(),
            match script(src@) {
                Err(message) => {
                    &&& final(self)@ == old(self)@
                    &&& r is Err && r->Err_0@ == ErrorModel::Parse(message)
                },
                Ok(cmds) => {
                    let (end, outcome) = run(starting(old(self)@), cmds, 0);
                    &&& reached(final(self)@, old(self)@.results, end)
                    &&& match outcome {
                        Outcome::Fails(e) => r is Err && r->Err_0@ == e,
                        _ => r is Ok,
                    }
                },
            },
    {
        self.try_run_source(src).unwrap()
    }
}

} // verus!
