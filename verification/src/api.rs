//! Evaluation from bytes to bytes: a program and its environment come in
//! their canonical encoding, and the result goes out in it.

use crate::eval::{agrees, conforms, known, outcome_of, permitting, program_rules, run_program};
use crate::eval::{step_outcome, unless_stopped, watch_of};
use crate::eval::{EvalErr, FApply, Oracle, Outcome, PreEval, Reduction, Watch};
use crate::f_table::{make_f_lookup, standard_table};
use crate::serialize::{encodable, node_from_bytes, node_to_bytes, parse, serialize};
use crate::serialize::{DecodeError, EncodeError};
use vstd::prelude::*;

verus! {

/// The cost that an evaluation from bytes begins with.
pub const START_COST: u32 = 0;

/// The ceiling on the cost of an evaluation from bytes.
pub const MAX_COST: u32 = 100_000;

/// Why an evaluation from bytes gave no reply.
#[derive(Debug, Clone, Copy, PartialEq, Eq, Structural)]
pub enum ApiError {
    /// The program or the environment is not the encoding of a tree.
    Decode(DecodeError),
    /// The node of the reply has no encoding.
    Encode(EncodeError),
}

/// A reply: a message, which is empty for a reduction; the encoding of the
/// result, or of the node that a failure names; and the cost, which is zero
/// for a failure.
pub type Reply = (String, Vec<u8>, u32);

/// What a reply stands for.
pub type ReplyView = Result<(Seq<char>, Seq<u8>, nat), ApiError>;

/// What an executable reply stands for.
pub open spec fn reply_of(r: Result<Reply, ApiError>) -> ReplyView {
    match r {
        Ok(reply) => Ok((reply.0@, reply.1@, reply.2 as nat)),
        Err(e) => Err(e),
    }
}

/// The reply for an outcome.
pub open spec fn reply_for(outcome: Outcome) -> ReplyView {
    match outcome {
        Ok(reduced) => if encodable(reduced.node) {
            Ok((Seq::empty(), serialize(reduced.node), reduced.cost))
        } else {
            Err(ApiError::Encode(EncodeError::AtomTooLong))
        },
        Err(failure) => if encodable(failure.node) {
            Ok((failure.message, serialize(failure.node), 0))
        } else {
            Err(ApiError::Encode(EncodeError::AtomTooLong))
        },
    }
}

/// The reply for the result of an evaluation: see [`reply_for`].
pub fn make_reply(r: Result<Reduction, EvalErr>) -> (reply: Result<Reply, ApiError>)
    ensures
        reply_of(reply) == reply_for(outcome_of(r)),
{
    match r {
        Ok(Reduction(node, cycles)) => match node_to_bytes(&node) {
            Ok(bytes) => Ok((String::new(), bytes, cycles)),
            Err(e) => Err(ApiError::Encode(e)),
        },
        Err(EvalErr(node, message)) => match node_to_bytes(&node) {
            Ok(bytes) => Ok((message, bytes, 0)),
            Err(e) => Err(ApiError::Encode(e)),
        },
    }
}

/// Decodes the program `form_u8` and the environment `env_u8`, evaluates the
/// program with the standard table from the cost zero under the ceiling
/// [`MAX_COST`], and encodes the result.
///
/// If either input does not decode, the error says why, the program's first.
/// Otherwise the reply is that of the outcome of the evaluation, which is the
/// outcome that [`step_outcome`] gives, whatever is known of the fallback
/// handler and of the observer. Whatever the observer, the outcome is the one
/// that the rules give without it, or a failure that its contract admits.
pub fn do_eval<F: FApply, P: PreEval>(
    form_u8: &[u8],
    env_u8: &[u8],
    apply3: F,
    pre_eval: Option<P>,
    op_quote: u8,
    op_args: u8,
) -> (r: Result<Reply, ApiError>)
    ensures
        match (parse(form_u8@), parse(env_u8@)) {
            (Err(e), _) => reply_of(r) == Err::<(Seq<char>, Seq<u8>, nat), ApiError>(
                ApiError::Decode(e),
            ),
            (Ok(_), Err(e)) => reply_of(r) == Err::<(Seq<char>, Seq<u8>, nat), ApiError>(
                ApiError::Decode(e),
            ),
            (Ok((form, _)), Ok((env, _))) => exists|got: Outcome|
                reply_of(r) == #[trigger] reply_for(got) && forall|
                    fallback: Oracle,
                    watch: Watch,
                | #[trigger]
                    known(apply3, pre_eval, fallback, watch) ==> conforms(
                        step_outcome(
                            program_rules(
                                standard_table(),
                                fallback,
                                watch_of(pre_eval, watch),
                                MAX_COST,
                                op_quote,
                                op_args,
                            ),
                            form,
                            env,
                            START_COST as nat,
                        ),
                        got,
                    ) && forall|fallback: Oracle| #[trigger]
                    agrees(apply3, fallback) ==> unless_stopped(
                        pre_eval,
                        step_outcome(
                            program_rules(
                                standard_table(),
                                fallback,
                                permitting(),
                                MAX_COST,
                                op_quote,
                                op_args,
                            ),
                            form,
                            env,
                            START_COST as nat,
                        ),
                        got,
                    ),
        },
{
    let sexp = match node_from_bytes(form_u8) {
        Ok(node) => node,
        Err(e) => {
            return Err(ApiError::Decode(e));
        },
    };
    let env = match node_from_bytes(env_u8) {
        Ok(node) => node,
        Err(e) => {
            return Err(ApiError::Decode(e));
        },
    };
    let f_table = make_f_lookup();
    let r = run_program(
        &sexp,
        &env,
        START_COST,
        MAX_COST,
        &f_table,
        apply3,
        pre_eval,
        op_quote,
        op_args,
    );
    let ghost got = outcome_of(r);
    let reply = make_reply(r);
    proof {
        assert(reply_of(reply) == reply_for(got));
    }
    reply
}

} // verus!
