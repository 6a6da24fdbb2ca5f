//! The cost-metered evaluator.
//!
//! A program is a tree. An atom is a path into the environment. A pair is an
//! operator and its operands: `quote` gives its operand back unevaluated,
//! `args` gives the environment, an operator that is itself a pair is
//! evaluated to a new program and environment, and every other operator is
//! applied to its evaluated operands by the handlers of the context.

use crate::f_table::{lemma_operator_cost, operator_outcome, FLookup, Operator};
use crate::number::{lemma_unsigned_positive, lemma_unsigned_take, lemma_unsigned_zeros, unsigned};
use crate::sexp::{first_of_atom, lemma_chain_nil, lemma_chain_one, lemma_chain_push};
use crate::sexp::{opcode_of, rest_of_atom};
use crate::sexp::{views, Node, Tree};
use vstd::prelude::*;

verus! {

/// A failure: the node that it is about, and a message.
#[derive(Debug, Clone, PartialEq, Eq)]
pub struct EvalErr(pub Node, pub String);

/// The result of a step: a node, and the cost counted so far.
#[derive(Debug, Clone, PartialEq, Eq)]
pub struct Reduction(pub Node, pub u32);

/// What an [`EvalErr`] stands for.
pub struct Failure {
    pub node: Tree,
    pub message: Seq<char>,
}

/// What a [`Reduction`] stands for.
pub struct Reduced {
    pub node: Tree,
    pub cost: nat,
}

/// What a step yields: a reduction or a failure.
pub type Outcome = Result<Reduced, Failure>;

impl View for EvalErr {
    type V = Failure;

    open spec fn view(&self) -> Failure {
        Failure { node: self.0@, message: self.1@ }
    }
}

impl View for Reduction {
    type V = Reduced;

    open spec fn view(&self) -> Reduced {
        Reduced { node: self.0@, cost: self.1 as nat }
    }
}

/// The outcome that an executable result stands for.
pub open spec fn outcome_of(r: Result<Reduction, EvalErr>) -> Outcome {
    match r {
        Ok(reduction) => Ok(reduction@),
        Err(e) => Err(e@),
    }
}

/// What the answer of a handler stands for: `None` if it declined.
pub open spec fn answer_of(r: Option<Result<Reduction, EvalErr>>) -> Option<Outcome> {
    match r {
        None => None,
        Some(result) => Some(outcome_of(result)),
    }
}

/// The failure that names `node` and carries `message`.
pub open spec fn failure(node: Tree, message: Seq<char>) -> Outcome {
    Err(Failure { node, message })
}

impl Node {
    /// The failure that names this node, as the result of a step.
    pub fn err(&self, msg: &str) -> (r: Result<Reduction, EvalErr>)
        ensures
            outcome_of(r) == failure(self@, msg@),
    {
        Err(EvalErr(self.clone(), msg.to_owned()))
    }

    /// The failure that names this node, as the result of an access.
    pub fn node_err(&self, msg: &str) -> (r: Result<Node, EvalErr>)
        ensures
            r matches Err(e) && e@ == (Failure { node: self@, message: msg@ }),
    {
        Err(EvalErr(self.clone(), msg.to_owned()))
    }
}

/// A node is a reduction of cost one.
impl From<Node> for Reduction {
    fn from(node: Node) -> (r: Reduction) {
        Reduction(node, 1)
    }
}

impl vstd::std_specs::convert::FromSpecImpl<Node> for Reduction {
    open spec fn obeys_from_spec() -> bool {
        true
    }

    open spec fn from_spec(node: Node) -> Reduction {
        Reduction(node, 1)
    }
}

/// Something that may be able to apply an operator to its evaluated
/// operands. `None` says that it does not know the operator.
pub trait FApply {
    /// Applies `operator` to the evaluated operands `args`, or declines.
    fn apply(&self, operator: &Node, args: &Node) -> (r: Option<Result<Reduction, EvalErr>>);
}

/// An observer that is told the result of a step.
pub trait PostEval {
    /// Takes note of the result of the step.
    fn post_eval(&self, result: &Node);
}

/// An observer that is told of each step before it is taken. It may stop the
/// evaluation with a failure, and may name an observer for the result of the
/// step.
pub trait PreEval {
    /// The observer for the result of a step.
    type Post: PostEval;

    /// Takes note of the step that evaluates `form` in `env` from the cost
    /// `current_cost` under the ceiling `max_cost`.
    fn pre_eval(&self, form: &Node, env: &Node, current_cost: u32, max_cost: u32) -> (r: Result<
        Option<Self::Post>,
        EvalErr,
    >);
}

/// The observer that sees nothing and never stops an evaluation.
#[derive(Debug, Clone, Copy)]
pub struct NoHook;

impl PostEval for NoHook {
    fn post_eval(&self, result: &Node) {
    }
}

impl PreEval for NoHook {
    type Post = NoHook;

    fn pre_eval(&self, form: &Node, env: &Node, current_cost: u32, max_cost: u32) -> (r: Result<
        Option<NoHook>,
        EvalErr,
    >)
        ensures
            r matches Ok(None),
    {
        Ok(None)
    }
}

/// The handler that never knows the operator.
#[derive(Debug, Clone, Copy)]
pub struct NoFallback;

impl FApply for NoFallback {
    fn apply(&self, operator: &Node, args: &Node) -> (r: Option<Result<Reduction, EvalErr>>)
        ensures
            r is None,
    {
        None
    }
}

/// True if `operator` is an atom of one byte for which the table holds an
/// operator.
pub open spec fn table_holds(table: Seq<Option<Operator>>, operator: Tree) -> bool {
    opcode_of(operator) matches Some(opcode) && table[opcode as int] is Some
}

/// What a table of operators answers: the outcome of the operator that it
/// holds for an operator atom of one byte, and nothing for any other
/// operator.
pub open spec fn table_answer(table: Seq<Option<Operator>>, operator: Tree, args: Tree) -> Option<
    Outcome,
> {
    match opcode_of(operator) {
        None => None,
        Some(opcode) => match table[opcode as int] {
            None => None,
            Some(op) => Some(operator_outcome(op, args)),
        },
    }
}

/// The handler that looks the operator up in a table of built-in operators.
pub struct FTableApply {
    pub f_table: FLookup,
}

impl FApply for FTableApply {
    fn apply(&self, operator: &Node, args: &Node) -> (r: Option<Result<Reduction, EvalErr>>)
        ensures
            answer_of(r) == table_answer(self.f_table@, operator@, args@),
    {
        let opcode = operator.as_u8()?;
        let op = self.f_table[opcode as usize]?;
        Some(op.apply(args))
    }
}

/// Two handlers, asked in order: the second is asked only if the first
/// declines.
pub struct SequentialApplies<A, B> {
    pub first: A,
    pub second: B,
}

/// The handler that asks `first`, and `second` only if `first` declines.
pub fn make_sequential_applies<A: FApply, B: FApply>(first: A, second: B) -> (r: SequentialApplies<
    A,
    B,
>)
    ensures
        r.first == first,
        r.second == second,
{
    SequentialApplies { first, second }
}

impl<A: FApply, B: FApply> FApply for SequentialApplies<A, B> {
    fn apply(&self, operator: &Node, args: &Node) -> (r: Option<Result<Reduction, EvalErr>>)
        ensures
            (r is Some && call_ensures(A::apply, (&self.first, operator, args), r)) || (
            call_ensures(A::apply, (&self.first, operator, args), None) && call_ensures(
                B::apply,
                (&self.second, operator, args),
                r,
            )),
    {
        let r = self.first.apply(operator, args);
        if r.is_some() {
            return r;
        }
        self.second.apply(operator, args)
    }
}

/// What a program that is an atom means.
#[derive(Debug, Clone, Copy, PartialEq, Eq, Structural)]
pub enum AtomEval {
    /// An atom is no program: evaluating one fails.
    NotAList,
    /// An atom is a path into the environment.
    TreePath,
}

/// What an evaluation works with: the meaning of atoms, the handlers that
/// apply operators, and the observer, if there is one.
pub struct EvalContext<F, P> {
    pub eval_atom: AtomEval,
    pub apply_f: SequentialApplies<FTableApply, F>,
    pub pre_eval: Option<P>,
}

impl<F, P: PreEval> EvalContext<F, P> {
    /// The table of built-in operators that is asked first.
    pub open spec fn table(&self) -> Seq<Option<Operator>> {
        self.apply_f.first.f_table@
    }
}

/// The largest cost that can be counted.
pub open spec fn cost_limit() -> nat {
    u32::MAX as nat
}

/// `node` at one more unit of cost than `cost`; a failure that names `form`
/// if that cost cannot be counted.
pub open spec fn bump(form: Tree, node: Tree, cost: nat) -> Outcome {
    if cost + 1 > cost_limit() {
        failure(form, "exceed max cost"@)
    } else {
        Ok(Reduced { node, cost: cost + 1 })
    }
}

/// Follows the path `index` from `env`: while the index is above one, its low
/// bit chooses `rest` (one) or `first` (zero) and is then shifted out, at one
/// unit of cost.
pub open spec fn path_outcome(form: Tree, index: nat, env: Tree, cost: nat) -> Outcome
    decreases index,
{
    if index <= 1 {
        Ok(Reduced { node: env, cost })
    } else {
        match env {
            Tree::Atom(_) => if index % 2 == 1 {
                Err(rest_of_atom(env))
            } else {
                Err(first_of_atom(env))
            },
            Tree::Pair(first, rest) => if cost + 1 > cost_limit() {
                failure(form, "exceed max cost"@)
            } else {
                path_outcome(
                    form,
                    index / 2,
                    if index % 2 == 1 {
                        *rest
                    } else {
                        *first
                    },
                    cost + 1,
                )
            },
        }
    }
}

/// The outcome of a program that is an atom: its bytes, read as a number
/// without sign, are the path. The path zero leads nowhere.
pub open spec fn atom_outcome(rule: AtomEval, form: Tree, env: Tree, cost: nat) -> Outcome {
    match rule {
        AtomEval::NotAList => failure(form, "not a list"@),
        AtomEval::TreePath => if unsigned(form.bytes()) == 0 {
            failure(form, "invalid path index"@)
        } else {
            path_outcome(form, unsigned(form.bytes()), env, cost)
        },
    }
}

/// The outcome of `quote`: its one operand, unevaluated.
pub open spec fn quote_outcome(form: Tree, operands: Tree, cost: nat) -> Outcome {
    match operands {
        Tree::Pair(item, tail) => if tail.is_nil() {
            bump(form, *item, cost)
        } else {
            failure(form, "quote requires exactly 1 parameter"@)
        },
        Tree::Atom(_) => failure(form, "quote requires exactly 1 parameter"@),
    }
}

/// The outcome of an application once the handlers have answered: `spent` is
/// the cost counted for the operands, to which the cost that the handler
/// reports is added.
pub open spec fn apply_outcome(operator: Tree, spent: nat, answer: Option<Outcome>) -> Outcome {
    match answer {
        None => failure(operator, "unknown operator"@),
        Some(Err(e)) => Err(e),
        Some(Ok(reduced)) => if spent + reduced.cost > cost_limit() {
            failure(operator, "exceed max cost"@)
        } else {
            Ok(Reduced { node: reduced.node, cost: spent + reduced.cost })
        },
    }
}

/// What is known of the answers of a fallback handler: for an operator and
/// its operand list, `None` where nothing is known, else the answer, which is
/// `None` where the handler declines.
pub type Oracle = spec_fn(Tree, Tree) -> Option<Option<Outcome>>;

/// The oracle that tells nothing.
pub open spec fn unknown() -> Oracle {
    |operator: Tree, args: Tree| None
}

/// The oracle of a handler that always declines.
pub open spec fn declining() -> Oracle {
    |operator: Tree, args: Tree| Some(None)
}

/// True if `fallback` answers as `oracle` tells, wherever `oracle` tells
/// anything: every answer that the contract of its `apply` admits is then the
/// one told.
pub open spec fn agrees<F: FApply>(fallback: F, oracle: Oracle) -> bool {
    forall|operator: &Node, args: &Node, r: Option<Result<Reduction, EvalErr>>|
        #![trigger call_ensures(F::apply, (&fallback, operator, args), r)]
        call_ensures(F::apply, (&fallback, operator, args), r) ==> (oracle(operator@, args@)
            matches Some(answer) ==> answer_of(r) == answer)
}

/// Every handler agrees with the oracle that tells nothing.
pub proof fn lemma_agrees_unknown<F: FApply>(fallback: F)
    ensures
        agrees(fallback, unknown()),
{
}

/// The handler that never knows the operator agrees with the oracle of a
/// handler that always declines.
pub proof fn lemma_agrees_declining()
    ensures
        agrees(NoFallback, declining()),
{
}

/// What is known of an observer: for a step, which is a program, an
/// environment, a cost and a ceiling, `None` where nothing is known, else
/// `None` where the observer lets the step be taken and the failure with which
/// it stops the evaluation where it does not.
pub type Watch = spec_fn(Tree, Tree, nat, u32) -> Option<Option<Failure>>;

/// The watch that tells nothing.
pub open spec fn unwatched() -> Watch {
    |form: Tree, env: Tree, cost: nat, max_cost: u32| None
}

/// The watch of an observer that lets every step be taken.
pub open spec fn permitting() -> Watch {
    |form: Tree, env: Tree, cost: nat, max_cost: u32| Some(None)
}

/// True if `told` is what `watch` tells of the step, wherever it tells
/// anything.
pub open spec fn as_watched<Post>(
    watch: Watch,
    form: Tree,
    env: Tree,
    cost: nat,
    max_cost: u32,
    told: Result<Option<Post>, EvalErr>,
) -> bool {
    match watch(form, env, cost, max_cost) {
        None => true,
        Some(None) => told is Ok,
        Some(Some(given)) => told matches Err(e) && e@ == given,
    }
}

/// True if the observer, where there is one, does as `watch` tells, wherever
/// `watch` tells anything: whatever the contract of its `pre_eval` admits for
/// a step is then what is told of that step.
pub open spec fn watches<P: PreEval>(pre_eval: Option<P>, watch: Watch) -> bool {
    pre_eval matches Some(observer) ==> forall|
        form: &Node,
        env: &Node,
        current_cost: u32,
        max_cost: u32,
        told: Result<Option<P::Post>, EvalErr>,
    |
        #![trigger call_ensures(P::pre_eval, (&observer, form, env, current_cost, max_cost), told)]
        call_ensures(P::pre_eval, (&observer, form, env, current_cost, max_cost), told)
            ==> as_watched(watch, form@, env@, current_cost as nat, max_cost, told)
}

/// The watch that an evaluation goes by: without an observer every step is
/// taken.
pub open spec fn watch_of<P>(pre_eval: Option<P>, watch: Watch) -> Watch {
    if pre_eval is None {
        permitting()
    } else {
        watch
    }
}

/// True if `got` is a failure with which the observer may have stopped an
/// evaluation: one that the contract of its `pre_eval` admits for some step.
pub open spec fn stopped_by<P: PreEval>(pre_eval: Option<P>, got: Outcome) -> bool {
    pre_eval matches Some(observer) && got matches Err(given) && exists|
        form: &Node,
        env: &Node,
        current_cost: u32,
        max_cost: u32,
        e: EvalErr,
    |
        #![trigger
            call_ensures(
                P::pre_eval,
                (&observer, form, env, current_cost, max_cost),
                Err::<Option<P::Post>, EvalErr>(e),
            )]
        call_ensures(
            P::pre_eval,
            (&observer, form, env, current_cost, max_cost),
            Err::<Option<P::Post>, EvalErr>(e),
        ) && e@ == given
}

/// True if `got` is the outcome `expected`, where that is known, or a failure
/// with which the observer may have stopped the evaluation.
pub open spec fn unless_stopped<P: PreEval>(
    pre_eval: Option<P>,
    expected: Option<Outcome>,
    got: Outcome,
) -> bool {
    expected matches Some(outcome) ==> got == outcome || stopped_by(pre_eval, got)
}

/// True if the handler and the observer do as `fallback` and `watch` tell,
/// wherever these tell anything.
pub open spec fn known<F: FApply, P: PreEval>(
    handler: F,
    pre_eval: Option<P>,
    fallback: Oracle,
    watch: Watch,
) -> bool {
    agrees(handler, fallback) && watches(pre_eval, watch)
}

/// Every observer does as the watch tells that tells nothing.
pub proof fn lemma_watches_unwatched<P: PreEval>(pre_eval: Option<P>)
    ensures
        watches(pre_eval, unwatched()),
{
}

/// The observer that sees nothing lets every step be taken.
pub proof fn lemma_watches_permitting()
    ensures
        watches(Some(NoHook), permitting()),
{
}

/// What an evaluation goes by: the table of built-in operators, what is known
/// of the fallback handler and of the observer, the meaning of atoms, the
/// ceiling on the cost of operands, and the opcodes of `quote` and `args`.
pub struct Rules {
    pub table: Seq<Option<Operator>>,
    pub fallback: Oracle,
    pub observer: Watch,
    pub atoms: AtomEval,
    pub max_cost: u32,
    pub op_quote: u8,
    pub op_args: u8,
}

/// What the handlers answer, the table first and the fallback where the
/// table declines: `None` where that is not known.
pub open spec fn handlers_answer(rules: Rules, operator: Tree, args: Tree) -> Option<
    Option<Outcome>,
> {
    match table_answer(rules.table, operator, args) {
        Some(outcome) => Some(Some(outcome)),
        None => (rules.fallback)(operator, args),
    }
}

/// The outcome of the step that evaluates `form` in `env` from the cost
/// `cost`: the observer is told first, and the failure with which it stops
/// the evaluation is the outcome; where it lets the step be taken, the
/// outcome is that of [`eval_outcome`]. `None` where it depends on what is
/// not known of the observer or of the fallback handler.
pub open spec fn step_outcome(rules: Rules, form: Tree, env: Tree, cost: nat) -> Option<Outcome>
    decreases cost_limit() - cost, form, 1nat,
{
    match (rules.observer)(form, env, cost, rules.max_cost) {
        None => None,
        Some(Some(given)) => Some(Err(given)),
        Some(None) => eval_outcome(rules, form, env, cost),
    }
}

/// The outcome of evaluating `form` in `env` from the cost `cost`, once the
/// observer has let the step be taken: `None` where it depends on what is not
/// known of the fallback handler or, for the steps below this one, of the
/// observer.
///
/// Where the operator is a pair, it is evaluated to a new program and a new
/// environment, and the new program is evaluated from the cost that the
/// operator was evaluated to. That cost must be above `cost`: an operator
/// that was evaluated at no cost is refused, so that every evaluation ends.
/// (The definition also asks that the cost can be counted; by
/// [`lemma_step_cost`] it can, if `cost` can.)
pub open spec fn eval_outcome(rules: Rules, form: Tree, env: Tree, cost: nat) -> Option<Outcome>
    decreases cost_limit() - cost, form, 0nat,
{
    match form {
        Tree::Atom(_) => Some(atom_outcome(rules.atoms, form, env, cost)),
        Tree::Pair(operator, operands) => if *operator is Pair {
            match step_outcome(rules, *operator, env, cost) {
                None => None,
                Some(Err(e)) => Some(Err(e)),
                Some(Ok(reduced)) => match reduced.node {
                    Tree::Atom(_) => Some(Err(first_of_atom(reduced.node))),
                    Tree::Pair(new_form, new_env) => if cost < reduced.cost <= cost_limit() {
                        step_outcome(rules, *new_form, *new_env, reduced.cost)
                    } else {
                        Some(failure(*operator, "operator consumed no cost"@))
                    },
                },
            }
        } else if opcode_of(*operator) == Some(rules.op_quote) {
            Some(quote_outcome(form, *operands, cost))
        } else if opcode_of(*operator) == Some(rules.op_args) {
            Some(bump(form, env, cost))
        } else {
            match params_outcome(rules, *operands, env, cost) {
                None => None,
                Some(Err(e)) => Some(Err(e)),
                Some(Ok(reduced)) => match handlers_answer(rules, *operator, reduced.node) {
                    None => None,
                    Some(answer) => Some(apply_outcome(*operator, reduced.cost, answer)),
                },
            }
        },
    }
}

/// The outcome of evaluating the operands `params` from left to right: the
/// list of their values. Each operand is evaluated from the running cost, and
/// the cost that its evaluation returns is the running cost from then on; the
/// evaluation fails, naming the operand, as soon as the running cost is not
/// below the ceiling. (The definition also asks that the cost which an
/// operand returns be not below the cost that it was evaluated from; by
/// [`lemma_step_cost`] it never is.)
pub open spec fn params_outcome(rules: Rules, params: Tree, env: Tree, cost: nat) -> Option<
    Outcome,
>
    decreases cost_limit() - cost, params, 0nat,
{
    match params {
        Tree::Atom(_) => Some(Ok(Reduced { node: Tree::nil(), cost })),
        Tree::Pair(item, tail) => match step_outcome(rules, *item, env, cost) {
            None => None,
            Some(Err(e)) => Some(Err(e)),
            Some(Ok(reduced)) => if cost <= reduced.cost < rules.max_cost {
                with_front(seq![reduced.node], params_outcome(rules, *tail, env, reduced.cost))
            } else {
                Some(failure(*item, "exceed max cost"@))
            },
        },
    }
}

/// The outcome `tail` with the values `front` laid before its list.
pub open spec fn with_front(front: Seq<Tree>, tail: Option<Outcome>) -> Option<Outcome> {
    match tail {
        None => None,
        Some(Err(e)) => Some(Err(e)),
        Some(Ok(reduced)) => Some(
            Ok(Reduced { node: Tree::chain(front, reduced.node), cost: reduced.cost }),
        ),
    }
}

/// True if `got` is the outcome `expected`, where that is known.
pub open spec fn conforms(expected: Option<Outcome>, got: Outcome) -> bool {
    expected matches Some(outcome) ==> got == outcome
}

/// True if, by the rules, the operands `params` evaluated from the cost
/// `start` give what the values `front` give when they are laid before the
/// values of the operands `rest` evaluated from the cost `cost`, wherever the
/// first is known.
pub open spec fn gathered(
    rules: Rules,
    params: Tree,
    env: Tree,
    start: nat,
    front: Seq<Tree>,
    rest: Tree,
    cost: nat,
) -> bool {
    let expected = params_outcome(rules, params, env, start);
    expected is Some ==> expected == with_front(front, params_outcome(rules, rest, env, cost))
}

/// One more operand gathered: if the first of the operands that are left was
/// evaluated to `value` below the ceiling, its value joins the values and its
/// cost is the running cost.
pub proof fn lemma_gathered_more(
    rules: Rules,
    params: Tree,
    env: Tree,
    start: nat,
    front: Seq<Tree>,
    item: Tree,
    tail: Tree,
    cost: nat,
    value: Reduced,
)
    requires
        gathered(rules, params, env, start, front, Tree::cons(item, tail), cost),
        conforms(step_outcome(rules, item, env, cost), Ok(value)),
        cost <= value.cost < rules.max_cost,
    ensures
        gathered(rules, params, env, start, front.push(value.node), tail, value.cost),
{
    match params_outcome(rules, tail, env, value.cost) {
        Some(Ok(reduced)) => {
            lemma_chain_push(front, value.node, reduced.node);
            lemma_chain_one(value.node, reduced.node);
        },
        _ => {},
    }
}

/// All operands gathered: where no operand is left, the values are the list
/// and the running cost is the cost.
pub proof fn lemma_gathered_all(
    rules: Rules,
    params: Tree,
    env: Tree,
    start: nat,
    front: Seq<Tree>,
    rest: Tree,
    cost: nat,
)
    requires
        gathered(rules, params, env, start, front, rest, cost),
        rest is Atom,
    ensures
        conforms(
            params_outcome(rules, params, env, start),
            Ok(Reduced { node: Tree::list(front), cost }),
        ),
{
    lemma_chain_nil(front);
}

/// Following a path never lowers the cost, and keeps it countable.
pub proof fn lemma_path_cost(form: Tree, index: nat, env: Tree, cost: nat)
    ensures
        path_outcome(form, index, env, cost) matches Ok(reduced) ==> reduced.cost >= cost && (cost
            <= cost_limit() ==> reduced.cost <= cost_limit()),
    decreases index,
{
    if index > 1 {
        match env {
            Tree::Atom(_) => {},
            Tree::Pair(first, rest) => {
                if cost + 1 <= cost_limit() {
                    lemma_path_cost(
                        form,
                        index / 2,
                        if index % 2 == 1 {
                            *rest
                        } else {
                            *first
                        },
                        cost + 1,
                    );
                }
            },
        }
    }
}

/// Cost never decreases: where the outcome of a step is a reduction, its cost
/// is not below the cost that the step began with. A cost that can be counted
/// stays so.
pub proof fn lemma_step_cost(rules: Rules, form: Tree, env: Tree, cost: nat)
    ensures
        step_outcome(rules, form, env, cost) matches Some(Ok(reduced)) ==> reduced.cost >= cost
            && (cost <= cost_limit() ==> reduced.cost <= cost_limit()),
    decreases cost_limit() - cost, form, 1nat,
{
    lemma_eval_cost(rules, form, env, cost);
}

/// Cost never decreases: where the outcome of an evaluation is a reduction,
/// its cost is not below the cost that the evaluation began with. A cost that
/// can be counted stays so.
pub proof fn lemma_eval_cost(rules: Rules, form: Tree, env: Tree, cost: nat)
    ensures
        eval_outcome(rules, form, env, cost) matches Some(Ok(reduced)) ==> reduced.cost >= cost
            && (cost <= cost_limit() ==> reduced.cost <= cost_limit()),
    decreases cost_limit() - cost, form, 0nat,
{
    match form {
        Tree::Atom(_) => {
            lemma_path_cost(form, unsigned(form.bytes()), env, cost);
        },
        Tree::Pair(operator, operands) => {
            if *operator is Pair {
                lemma_step_cost(rules, *operator, env, cost);
                match step_outcome(rules, *operator, env, cost) {
                    Some(Ok(reduced)) => match reduced.node {
                        Tree::Pair(new_form, new_env) => {
                            if cost < reduced.cost <= cost_limit() {
                                lemma_step_cost(rules, *new_form, *new_env, reduced.cost);
                            }
                        },
                        _ => {},
                    },
                    _ => {},
                }
            } else if opcode_of(*operator) == Some(rules.op_quote) {
            } else if opcode_of(*operator) == Some(rules.op_args) {
            } else {
                lemma_params_cost(rules, *operands, env, cost);
            }
        },
    }
}

/// The cost counted for a list of operands is not below the cost that their
/// evaluation began with, and is below the ceiling if there is any operand.
pub proof fn lemma_params_cost(rules: Rules, params: Tree, env: Tree, cost: nat)
    ensures
        params_outcome(rules, params, env, cost) matches Some(Ok(reduced)) ==> reduced.cost
            >= cost && (params is Pair ==> reduced.cost < rules.max_cost),
    decreases cost_limit() - cost, params, 0nat,
{
    match params {
        Tree::Atom(_) => {},
        Tree::Pair(item, tail) => {
            match step_outcome(rules, *item, env, cost) {
                Some(Ok(reduced)) => {
                    if cost <= reduced.cost < rules.max_cost {
                        lemma_params_cost(rules, *tail, env, reduced.cost);
                    }
                },
                _ => {},
            }
        },
    }
}

/// The ceiling bounds every step that the table decides by itself: where a
/// program is `quote`, `args` or the application of an operator that the
/// table holds, and either begins below the ceiling or has operands to
/// evaluate, the cost of its reduction is not above the ceiling.
pub proof fn lemma_cost_bounded(rules: Rules, form: Tree, env: Tree, cost: nat)
    requires
        form is Pair,
        form.first() is Atom,
        opcode_of(form.first()) == Some(rules.op_quote) || opcode_of(form.first()) == Some(
            rules.op_args,
        ) || table_holds(rules.table, form.first()),
        cost < rules.max_cost || (opcode_of(form.first()) != Some(rules.op_quote) && opcode_of(
            form.first(),
        ) != Some(rules.op_args) && form.rest() is Pair),
    ensures
        eval_outcome(rules, form, env, cost) matches Some(Ok(reduced)) ==> reduced.cost
            <= rules.max_cost,
{
    if opcode_of(form.first()) == Some(rules.op_quote) {
    } else if opcode_of(form.first()) == Some(rules.op_args) {
    } else {
        lemma_params_cost(rules, form.rest(), env, cost);
        match params_outcome(rules, form.rest(), env, cost) {
            Some(Ok(reduced)) => {
                match opcode_of(form.first()) {
                    Some(opcode) => match rules.table[opcode as int] {
                        Some(op) => {
                            lemma_operator_cost(op, reduced.node);
                        },
                        None => {},
                    },
                    None => {},
                }
            },
            _ => {},
        }
    }
}

/// The number of steps of the path `index`: one for each bit below its
/// highest.
pub open spec fn path_steps(index: nat) -> nat
    decreases index,
{
    if index <= 1 {
        0
    } else {
        1 + path_steps(index / 2)
    }
}

/// A path that leads somewhere costs one unit for each of its steps.
pub proof fn lemma_path_steps(form: Tree, index: nat, env: Tree, cost: nat)
    ensures
        path_outcome(form, index, env, cost) matches Ok(reduced) ==> reduced.cost == cost
            + path_steps(index),
    decreases index,
{
    if index > 1 {
        match env {
            Tree::Atom(_) => {},
            Tree::Pair(first, rest) => {
                if cost + 1 <= cost_limit() {
                    lemma_path_steps(
                        form,
                        index / 2,
                        if index % 2 == 1 {
                            *rest
                        } else {
                            *first
                        },
                        cost + 1,
                    );
                }
            },
        }
    }
}

/// True if the rules tell the answer of the fallback handler for every
/// operator and operand list, and what the observer does at every step.
pub open spec fn telling(rules: Rules) -> bool {
    &&& forall|operator: Tree, args: Tree| #[trigger] (rules.fallback)(operator, args) is Some
    &&& forall|form: Tree, env: Tree, cost: nat, max_cost: u32| #[trigger]
        (rules.observer)(form, env, cost, max_cost) is Some
}

/// Rules that tell everything of the fallback handler and of the observer
/// tell the outcome of every step, of every evaluation and of every list of
/// operands.
pub proof fn lemma_told(rules: Rules, form: Tree, env: Tree, cost: nat)
    requires
        telling(rules),
    ensures
        step_outcome(rules, form, env, cost) is Some,
        eval_outcome(rules, form, env, cost) is Some,
        params_outcome(rules, form, env, cost) is Some,
    decreases cost_limit() - cost, form,
{
    match form {
        Tree::Atom(_) => {},
        Tree::Pair(first, second) => {
            lemma_told(rules, *first, env, cost);
            lemma_told(rules, *second, env, cost);
            match step_outcome(rules, *first, env, cost) {
                Some(Ok(reduced)) => {
                    if cost <= reduced.cost < rules.max_cost {
                        lemma_told(rules, *second, env, reduced.cost);
                    }
                    match reduced.node {
                        Tree::Pair(new_form, new_env) => {
                            if cost < reduced.cost <= cost_limit() {
                                lemma_told(rules, *new_form, *new_env, reduced.cost);
                            }
                        },
                        _ => {},
                    }
                },
                _ => {},
            }
        },
    }
}

/// Evaluation is deterministic: two evaluations by the same rules of one
/// program in one environment from one cost return the same outcome, wherever
/// the rules tell it. By [`lemma_told`] they tell it wherever the fallback
/// handler and the observer are known to answer by their arguments alone.
pub proof fn lemma_deterministic(
    rules: Rules,
    form: Tree,
    env: Tree,
    cost: nat,
    once: Outcome,
    again: Outcome,
)
    requires
        step_outcome(rules, form, env, cost) is Some,
        conforms(step_outcome(rules, form, env, cost), once),
        conforms(step_outcome(rules, form, env, cost), again),
    ensures
        once == again,
{
}

/// The outcome of `quote` is its one operand at one unit of cost, whatever
/// the environment, the handlers and the observer.
pub proof fn lemma_quote(rules: Rules, operand: Tree, env: Tree, cost: nat)
    requires
        cost < cost_limit(),
    ensures
        eval_outcome(
            rules,
            Tree::cons(Tree::byte(rules.op_quote), Tree::cons(operand, Tree::nil())),
            env,
            cost,
        ) == Some(Ok::<Reduced, Failure>(Reduced { node: operand, cost: cost + 1 })),
{
}

/// The outcome of `args` is the environment at one unit of cost, whatever
/// its operands, the handlers and the observer.
pub proof fn lemma_args(rules: Rules, operands: Tree, env: Tree, cost: nat)
    requires
        cost < cost_limit(),
        rules.op_args != rules.op_quote,
    ensures
        eval_outcome(rules, Tree::cons(Tree::byte(rules.op_args), operands), env, cost) == Some(
            Ok::<Reduced, Failure>(Reduced { node: env, cost: cost + 1 }),
        ),
{
}

/// An observer that stops a step stops it before anything is evaluated: its
/// failure is the outcome of the step.
pub proof fn lemma_stopped(rules: Rules, form: Tree, env: Tree, cost: nat, given: Failure)
    requires
        (rules.observer)(form, env, cost, rules.max_cost) == Some(Some(given)),
    ensures
        step_outcome(rules, form, env, cost) == Some(Err::<Reduced, Failure>(given)),
{
}

/// What the handlers answer for an application is what the application
/// gives: a failure is handed on unchanged, a declined operator is unknown,
/// and the cost of a reduction is added to the cost of the operands.
pub proof fn lemma_applied(rules: Rules, form: Tree, env: Tree, cost: nat)
    requires
        form is Pair,
        form.first() is Atom,
        opcode_of(form.first()) != Some(rules.op_quote),
        opcode_of(form.first()) != Some(rules.op_args),
        params_outcome(rules, form.rest(), env, cost) matches Some(Ok(_)),
    ensures
        params_outcome(rules, form.rest(), env, cost) matches Some(Ok(params)) && (
        handlers_answer(rules, form.first(), params.node) matches Some(answer) ==> eval_outcome(
            rules,
            form,
            env,
            cost,
        ) == Some(apply_outcome(form.first(), params.cost, answer))),
{
}

/// The weight of the bits of a byte that are still to be read, once `read`
/// of them have been: two to the power `8 - read`.
pub open spec fn weight(read: nat) -> nat {
    if read == 0 {
        256
    } else if read == 1 {
        128
    } else if read == 2 {
        64
    } else if read == 3 {
        32
    } else if read == 4 {
        16
    } else if read == 5 {
        8
    } else if read == 6 {
        4
    } else if read == 7 {
        2
    } else {
        1
    }
}

/// `node` at one more unit of cost than `cost`.
fn bumped(form: &Node, node: Node, cost: u32) -> (r: Result<Reduction, EvalErr>)
    ensures
        outcome_of(r) == bump(form@, node@, cost as nat),
{
    if cost == u32::MAX {
        form.err("exceed max cost")
    } else {
        Ok(Reduction(node, cost + 1))
    }
}

/// One step of a path from `at`: to `rest` if `right`, else to `first`.
fn path_step(form: &Node, at: &Node, cost: u32, right: bool) -> (r: Result<Reduction, EvalErr>)
    ensures
        outcome_of(r) == match at@ {
            Tree::Atom(_) => if right {
                Err(rest_of_atom(at@))
            } else {
                Err(first_of_atom(at@))
            },
            Tree::Pair(first, rest) => bump(
                form@,
                if right {
                    *rest
                } else {
                    *first
                },
                cost as nat,
            ),
        },
{
    let next = if right {
        at.rest()?
    } else {
        at.first()?
    };
    bumped(form, next, cost)
}

/// The rule that takes no atom for a program: always the failure
/// "not a list", which names the atom.
pub fn default_eval_atom<F, P>(
    _eval_context: &EvalContext<F, P>,
    form: &Node,
    _env: &Node,
    _current_cost: u32,
    _max_cost: u32,
    _op_quote: u8,
    _op_args: u8,
) -> (r: Result<Reduction, EvalErr>)
    ensures
        outcome_of(r) == atom_outcome(AtomEval::NotAList, form@, _env@, _current_cost as nat),
{
    form.err("not a list")
}

/// The rule that takes an atom for a path into the environment: see
/// [`atom_outcome`].
pub fn eval_atom_as_tree<F, P>(
    _eval_context: &EvalContext<F, P>,
    form: &Node,
    env: &Node,
    current_cost: u32,
    _max_cost: u32,
    _op_quote: u8,
    _op_args: u8,
) -> (r: Result<Reduction, EvalErr>)
    ensures
        outcome_of(r) == atom_outcome(AtomEval::TreePath, form@, env@, current_cost as nat),
        r matches Ok(reduction) ==> reduction.1 >= current_cost,
{
    let bytes: &[u8] = match form.as_blob() {
        Some(b) => b,
        None => {
            return form.err("invalid path index");
        },
    };
    let len = bytes.len();
    let mut top: usize = 0;
    while top < len && bytes[top] == 0
        invariant
            top <= len,
            len == bytes@.len(),
            forall|i: int| 0 <= i < top ==> bytes@[i] == 0,
        decreases len - top,
    {
        top += 1;
    }
    if top == len {
        proof {
            lemma_unsigned_zeros(bytes@);
        }
        return form.err("invalid path index");
    }
    let ghost goal = atom_outcome(AtomEval::TreePath, form@, env@, current_cost as nat);
    proof {
        lemma_unsigned_positive(bytes@, top as int);
        assert(bytes@.take(len as int) =~= bytes@);
    }
    let mut at = env.clone();
    let mut cost = current_cost;
    let mut j = len;
    while j - 1 > top
        invariant
            top < j <= len,
            len == bytes@.len(),
            bytes@[top as int] != 0,
            cost >= current_cost,
            goal == atom_outcome(AtomEval::TreePath, form@, env@, current_cost as nat),
            goal == path_outcome(form@, unsigned(bytes@.take(j as int)), at@, cost as nat),
        decreases j,
    {
        let ghost hi = unsigned(bytes@.take(j - 1));
        proof {
            lemma_unsigned_take(bytes@, j - 1);
            lemma_unsigned_positive(bytes@.take(j - 1), top as int);
        }
        let mut shifted = bytes[j - 1];
        let mut read: u8 = 0;
        while read < 8
            invariant
                read <= 8,
                hi >= 1,
                shifted < weight(read as nat),
                cost >= current_cost,
                goal == atom_outcome(AtomEval::TreePath, form@, env@, current_cost as nat),
                goal == path_outcome(
                    form@,
                    (hi * weight(read as nat) + shifted) as nat,
                    at@,
                    cost as nat,
                ),
            decreases 8 - read,
        {
            let right = shifted & 1 == 1;
            let ghost index = (hi * weight(read as nat) + shifted) as nat;
            proof {
                assert(shifted & 1 == shifted % 2) by (bit_vector);
                assert(shifted >> 1 == shifted / 2) by (bit_vector);
                assert(index > 1);
                assert(index % 2 == shifted % 2);
                assert(index / 2 == hi * weight((read + 1) as nat) + shifted / 2);
            }
            let Reduction(next, next_cost) = path_step(form, &at, cost, right)?;
            at = next;
            cost = next_cost;
            shifted = shifted >> 1;
            read += 1;
        }
        j -= 1;
    }
    proof {
        lemma_unsigned_take(bytes@, top as int);
        if top > 0 {
            assert forall|i: int| 0 <= i < bytes@.take(top as int).len() implies bytes@.take(
                top as int,
            )[i] == 0 by {}
        }
        lemma_unsigned_zeros(bytes@.take(top as int));
    }
    let mut shifted = bytes[top];
    while shifted > 1
        invariant
            cost >= current_cost,
            goal == atom_outcome(AtomEval::TreePath, form@, env@, current_cost as nat),
            goal == path_outcome(form@, shifted as nat, at@, cost as nat),
        decreases shifted,
    {
        let right = shifted & 1 == 1;
        proof {
            assert(shifted & 1 == shifted % 2) by (bit_vector);
            assert(shifted >> 1 == shifted / 2) by (bit_vector);
        }
        let Reduction(next, next_cost) = path_step(form, &at, cost, right)?;
        at = next;
        cost = next_cost;
        shifted = shifted >> 1;
    }
    Ok(Reduction(at, cost))
}

/// What an application gives once the handlers have answered: see
/// [`apply_outcome`].
pub fn conclude_apply(
    operator: &Node,
    spent: u32,
    answer: Option<Result<Reduction, EvalErr>>,
) -> (r: Result<Reduction, EvalErr>)
    ensures
        outcome_of(r) == apply_outcome(operator@, spent as nat, answer_of(answer)),
{
    match answer {
        None => operator.err("unknown operator"),
        Some(Err(e)) => Err(e),
        Some(Ok(Reduction(node, cost))) => match spent.checked_add(cost) {
            None => operator.err("exceed max cost"),
            Some(total) => Ok(Reduction(node, total)),
        },
    }
}

impl<F: FApply, P: PreEval> EvalContext<F, P> {
    /// The rules that the context evaluates by, given what is known of its
    /// fallback handler and of its observer.
    pub open spec fn rules(
        &self,
        fallback: Oracle,
        watch: Watch,
        max_cost: u32,
        op_quote: u8,
        op_args: u8,
    ) -> Rules {
        Rules {
            table: self.table(),
            fallback,
            observer: watch_of(self.pre_eval, watch),
            atoms: self.eval_atom,
            max_cost,
            op_quote,
            op_args,
        }
    }

    /// True if the handler and the observer of the context do as `fallback`
    /// and `watch` tell.
    pub open spec fn known(&self, fallback: Oracle, watch: Watch) -> bool {
        known(self.apply_f.second, self.pre_eval, fallback, watch)
    }

    /// Takes the step that evaluates `form` in `env`: tells the observer, if
    /// there is one, and returns its failure if it stops the evaluation;
    /// else evaluates as [`default_eval`] does and tells the observer that
    /// the first one named, if any, of the result.
    ///
    /// The result is the outcome that [`step_outcome`] gives by the rules of
    /// the context, whatever is known of the fallback handler and of the
    /// observer. Whatever the observer, the result is the outcome that the
    /// rules give without it, or a failure that its contract admits. The cost
    /// of a reduction is never below `current_cost`.
    pub fn eval_f(
        &self,
        form: &Node,
        env: &Node,
        current_cost: u32,
        max_cost: u32,
        op_quote: u8,
        op_args: u8,
    ) -> (r: Result<Reduction, EvalErr>)
        ensures
            forall|fallback: Oracle, watch: Watch| #[trigger]
                self.known(fallback, watch) ==> conforms(
                    step_outcome(
                        self.rules(fallback, watch, max_cost, op_quote, op_args),
                        form@,
                        env@,
                        current_cost as nat,
                    ),
                    outcome_of(r),
                ),
            forall|fallback: Oracle| #[trigger]
                agrees(self.apply_f.second, fallback) ==> unless_stopped(
                    self.pre_eval,
                    step_outcome(
                        self.rules(fallback, permitting(), max_cost, op_quote, op_args),
                        form@,
                        env@,
                        current_cost as nat,
                    ),
                    outcome_of(r),
                ),
            r matches Ok(reduction) ==> reduction.1 >= current_cost,
        decreases u32::MAX - current_cost, form@.height(), 2nat,
    {
        match &self.pre_eval {
            None => default_eval(self, form, env, current_cost, max_cost, op_quote, op_args),
            Some(observer) => {
                let told = observer.pre_eval(form, env, current_cost, max_cost);
                proof {
                    assert(call_ensures(
                        P::pre_eval,
                        (observer, form, env, current_cost, max_cost),
                        told,
                    ));
                }
                let post = told?;
                let r = default_eval(self, form, env, current_cost, max_cost, op_quote, op_args)?;
                if let Some(after) = post {
                    after.post_eval(&r.0);
                }
                Ok(r)
            },
        }
    }
}

/// Evaluates `form` in `env` from the cost `current_cost`, without telling
/// the observer of this step; it is told of the steps below it.
///
/// The result is the outcome that [`eval_outcome`] gives by the rules of the
/// context, whatever is known of the fallback handler and of the observer.
/// Whatever the observer, the result is the outcome that the rules give
/// without it, or a failure that its contract admits. The cost of a reduction
/// is never below `current_cost`.
pub fn default_eval<F: FApply, P: PreEval>(
    eval_context: &EvalContext<F, P>,
    form: &Node,
    env: &Node,
    current_cost: u32,
    max_cost: u32,
    op_quote: u8,
    op_args: u8,
) -> (r: Result<Reduction, EvalErr>)
    ensures
        forall|fallback: Oracle, watch: Watch| #[trigger]
            eval_context.known(fallback, watch) ==> conforms(
                eval_outcome(
                    eval_context.rules(fallback, watch, max_cost, op_quote, op_args),
                    form@,
                    env@,
                    current_cost as nat,
                ),
                outcome_of(r),
            ),
        forall|fallback: Oracle| #[trigger]
            agrees(eval_context.apply_f.second, fallback) ==> unless_stopped(
                eval_context.pre_eval,
                eval_outcome(
                    eval_context.rules(fallback, permitting(), max_cost, op_quote, op_args),
                    form@,
                    env@,
                    current_cost as nat,
                ),
                outcome_of(r),
            ),
        r matches Ok(reduction) ==> reduction.1 >= current_cost,
    decreases u32::MAX - current_cost, form@.height(), 1nat,
{
    match form.as_pair() {
        None => match eval_context.eval_atom {
            AtomEval::NotAList => default_eval_atom(
                eval_context,
                form,
                env,
                current_cost,
                max_cost,
                op_quote,
                op_args,
            ),
            AtomEval::TreePath => eval_atom_as_tree(
                eval_context,
                form,
                env,
                current_cost,
                max_cost,
                op_quote,
                op_args,
            ),
        },
        Some((left, right)) => {
            if left.is_pair() {
                let Reduction(result, new_cost) = eval_context.eval_f(
                    &left,
                    env,
                    current_cost,
                    max_cost,
                    op_quote,
                    op_args,
                )?;
                let new_form = result.first()?;
                let new_env = result.rest()?;
                if new_cost <= current_cost {
                    return left.err("operator consumed no cost");
                }
                eval_context.eval_f(&new_form, &new_env, new_cost, max_cost, op_quote, op_args)
            } else {
                let as_operator = left.as_u8();
                if let Some(opcode) = as_operator {
                    if opcode == op_quote {
                        return match right.as_pair() {
                            Some((item, tail)) => if tail.nullp() {
                                bumped(form, item, current_cost)
                            } else {
                                form.err("quote requires exactly 1 parameter")
                            },
                            None => form.err("quote requires exactly 1 parameter"),
                        };
                    } else if opcode == op_args {
                        return bumped(form, env.clone(), current_cost);
                    }
                }
                let Reduction(params, new_cost) = eval_params(
                    eval_context,
                    &right,
                    env,
                    current_cost,
                    max_cost,
                    op_quote,
                    op_args,
                )?;
                let answer = eval_context.apply_f.apply(&left, &params);
                conclude_apply(&left, new_cost, answer)
            }
        },
    }
}

/// Evaluates the operands `params` from left to right and gives the list of
/// their values: see [`params_outcome`].
pub fn eval_params<F: FApply, P: PreEval>(
    eval_context: &EvalContext<F, P>,
    params: &Node,
    env: &Node,
    current_cost: u32,
    max_cost: u32,
    op_quote: u8,
    op_args: u8,
) -> (r: Result<Reduction, EvalErr>)
    ensures
        forall|fallback: Oracle, watch: Watch| #[trigger]
            eval_context.known(fallback, watch) ==> conforms(
                params_outcome(
                    eval_context.rules(fallback, watch, max_cost, op_quote, op_args),
                    params@,
                    env@,
                    current_cost as nat,
                ),
                outcome_of(r),
            ),
        forall|fallback: Oracle| #[trigger]
            agrees(eval_context.apply_f.second, fallback) ==> unless_stopped(
                eval_context.pre_eval,
                params_outcome(
                    eval_context.rules(fallback, permitting(), max_cost, op_quote, op_args),
                    params@,
                    env@,
                    current_cost as nat,
                ),
                outcome_of(r),
            ),
        r matches Ok(reduction) ==> reduction.1 >= current_cost && (params@ is Pair
            ==> reduction.1 < max_cost),
    decreases u32::MAX - current_cost, params@.height(), 0nat,
{
    let mut new_cost = current_cost;
    let mut values: Vec<Node> = Vec::new();
    let mut at = params.clone();
    proof {
        assert(views(values@) =~= Seq::<Tree>::empty());
    }
    loop
        invariant
            new_cost >= current_cost,
            at@.height() <= params@.height(),
            values@.len() > 0 ==> new_cost < max_cost,
            values@.len() == 0 ==> at@ == params@,
            forall|fallback: Oracle, watch: Watch| #[trigger]
                eval_context.known(fallback, watch) ==> gathered(
                    eval_context.rules(fallback, watch, max_cost, op_quote, op_args),
                    params@,
                    env@,
                    current_cost as nat,
                    views(values@),
                    at@,
                    new_cost as nat,
                ),
            forall|fallback: Oracle| #[trigger]
                agrees(eval_context.apply_f.second, fallback) ==> gathered(
                    eval_context.rules(fallback, permitting(), max_cost, op_quote, op_args),
                    params@,
                    env@,
                    current_cost as nat,
                    views(values@),
                    at@,
                    new_cost as nat,
                ),
        ensures
            at@ is Atom,
            new_cost >= current_cost,
            params@ is Pair ==> new_cost < max_cost,
            forall|fallback: Oracle, watch: Watch| #[trigger]
                eval_context.known(fallback, watch) ==> gathered(
                    eval_context.rules(fallback, watch, max_cost, op_quote, op_args),
                    params@,
                    env@,
                    current_cost as nat,
                    views(values@),
                    at@,
                    new_cost as nat,
                ),
            forall|fallback: Oracle| #[trigger]
                agrees(eval_context.apply_f.second, fallback) ==> gathered(
                    eval_context.rules(fallback, permitting(), max_cost, op_quote, op_args),
                    params@,
                    env@,
                    current_cost as nat,
                    views(values@),
                    at@,
                    new_cost as nat,
                ),
        decreases at@.height(),
    {
        let (item, tail) = match at.as_pair() {
            None => {
                break ;
            },
            Some(pair) => pair,
        };
        let Reduction(value, cost) = eval_context.eval_f(
            &item,
            env,
            new_cost,
            max_cost,
            op_quote,
            op_args,
        )?;
        if cost >= max_cost {
            return item.err("exceed max cost");
        }
        proof {
            let taken = Reduced { node: value@, cost: cost as nat };
            assert(views(values@.push(value)) =~= views(values@).push(value@));
            assert forall|rules: Rules|
                rules.max_cost == max_cost && gathered(
                    rules,
                    params@,
                    env@,
                    current_cost as nat,
                    views(values@),
                    at@,
                    new_cost as nat,
                ) && conforms(
                    #[trigger] step_outcome(rules, item@, env@, new_cost as nat),
                    Ok(taken),
                ) implies gathered(
                rules,
                params@,
                env@,
                current_cost as nat,
                views(values@.push(value)),
                tail@,
                cost as nat,
            ) by {
                lemma_gathered_more(
                    rules,
                    params@,
                    env@,
                    current_cost as nat,
                    views(values@),
                    item@,
                    tail@,
                    new_cost as nat,
                    taken,
                );
            }
        }
        values.push(value);
        new_cost = cost;
        at = tail;
    }
    proof {
        assert forall|rules: Rules| #[trigger]
            gathered(
                rules,
                params@,
                env@,
                current_cost as nat,
                views(values@),
                at@,
                new_cost as nat,
            ) implies conforms(
            params_outcome(rules, params@, env@, current_cost as nat),
            Ok(Reduced { node: Tree::list(views(values@)), cost: new_cost as nat }),
        ) by {
            lemma_gathered_all(
                rules,
                params@,
                env@,
                current_cost as nat,
                views(values@),
                at@,
                new_cost as nat,
            );
        }
    }
    Ok(Reduction(Node::from_list(values), new_cost))
}

/// The context for an evaluation in which atoms are paths and operators are
/// looked up in `f_lookup` first and handed to `apply_fallback` where the
/// table does not hold them.
pub fn make_default_eval_context<F: FApply, P: PreEval>(
    f_lookup: FLookup,
    apply_fallback: F,
    pre_eval: Option<P>,
) -> (r: EvalContext<F, P>)
    ensures
        r.eval_atom == AtomEval::TreePath,
        r.table() == f_lookup@,
        r.apply_f.second == apply_fallback,
        r.pre_eval == pre_eval,
{
    let table = FTableApply { f_table: f_lookup };
    EvalContext {
        eval_atom: AtomEval::TreePath,
        apply_f: make_sequential_applies(table, apply_fallback),
        pre_eval,
    }
}

/// The rules of [`run_program`]: atoms are paths.
pub open spec fn program_rules(
    table: Seq<Option<Operator>>,
    fallback: Oracle,
    observer: Watch,
    max_cost: u32,
    op_quote: u8,
    op_args: u8,
) -> Rules {
    Rules { table, fallback, observer, atoms: AtomEval::TreePath, max_cost, op_quote, op_args }
}

/// Evaluates the program `form` in the environment `env` from the cost
/// `current_cost`, with atoms as paths, the operators of `f_table`,
/// `apply_fallback` for every other operator, and `pre_eval`, if there is
/// one, as the observer of every step.
///
/// The result is the outcome that [`step_outcome`] gives by these rules,
/// whatever is known of the fallback handler and of the observer. Whatever
/// the observer, the result is the outcome that the rules give without it, or
/// a failure that its contract admits. The cost of a reduction is never below
/// `current_cost`.
pub fn run_program<F: FApply, P: PreEval>(
    form: &Node,
    env: &Node,
    current_cost: u32,
    max_cost: u32,
    f_table: &FLookup,
    apply_fallback: F,
    pre_eval: Option<P>,
    op_quote: u8,
    op_args: u8,
) -> (r: Result<Reduction, EvalErr>)
    ensures
        forall|fallback: Oracle, watch: Watch| #[trigger]
            known(apply_fallback, pre_eval, fallback, watch) ==> conforms(
                step_outcome(
                    program_rules(
                        f_table@,
                        fallback,
                        watch_of(pre_eval, watch),
                        max_cost,
                        op_quote,
                        op_args,
                    ),
                    form@,
                    env@,
                    current_cost as nat,
                ),
                outcome_of(r),
            ),
        forall|fallback: Oracle| #[trigger]
            agrees(apply_fallback, fallback) ==> unless_stopped(
                pre_eval,
                step_outcome(
                    program_rules(f_table@, fallback, permitting(), max_cost, op_quote, op_args),
                    form@,
                    env@,
                    current_cost as nat,
                ),
                outcome_of(r),
            ),
        r matches Ok(reduction) ==> reduction.1 >= current_cost,
{
    let eval_context = make_default_eval_context(*f_table, apply_fallback, pre_eval);
    let r = eval_context.eval_f(form, env, current_cost, max_cost, op_quote, op_args);
    proof {
        assert forall|fallback: Oracle, watch: Watch| #[trigger]
            known(apply_fallback, pre_eval, fallback, watch) implies conforms(
            step_outcome(
                program_rules(
                    f_table@,
                    fallback,
                    watch_of(pre_eval, watch),
                    max_cost,
                    op_quote,
                    op_args,
                ),
                form@,
                env@,
                current_cost as nat,
            ),
            outcome_of(r),
        ) by {
            assert(eval_context.known(fallback, watch));
        }
    }
    r
}

} // verus!
