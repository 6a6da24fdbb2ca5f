use clvm_rs::api::{do_eval, make_reply, ApiError, MAX_COST, START_COST};
use clvm_rs::eval::{EvalErr, FApply, NoFallback, NoHook, PostEval, PreEval, Reduction};
use clvm_rs::serialize::{node_from_bytes, node_to_bytes, DecodeError};
use clvm_rs::sexp::Node;

struct Host;

impl FApply for Host {
    fn apply(&self, operator: &Node, args: &Node) -> Option<Result<Reduction, EvalErr>> {
        let op = node_to_bytes(operator).ok()?;
        let operands = node_to_bytes(args).ok()?;
        let mut answer = vec![0xff];
        answer.extend_from_slice(&op);
        answer.extend_from_slice(&operands);
        match node_from_bytes(&answer) {
            Ok(node) => Some(Ok(Reduction(node, 1000))),
            Err(_) => Some(Err(EvalErr(Node::blob("std::io::Error"), "bad answer".to_string()))),
        }
    }
}

struct Refuse;

struct Silent;

impl PostEval for Silent {
    fn post_eval(&self, _result: &Node) {}
}

impl PreEval for Refuse {
    type Post = Silent;

    fn pre_eval(
        &self,
        form: &Node,
        _env: &Node,
        _cost: u32,
        _max: u32,
    ) -> Result<Option<Silent>, EvalErr> {
        Err(EvalErr(form.clone(), "refused".to_string()))
    }
}

#[test]
fn the_limits_of_an_evaluation_from_bytes() {
    assert_eq!(START_COST, 0);
    assert_eq!(MAX_COST, 100_000);
}

#[test]
fn do_eval_replies_with_the_encoded_result() {
    let program = [
        0xff, 0x0c, 0xff, 0xff, 0x01, 0xff, 0x02, 0x80, 0xff, 0xff, 0x01, 0xff, 0x03, 0x80, 0x80,
    ];
    let r = do_eval(&program, &[0x80], NoFallback, None::<NoHook>, 1, 3);
    assert_eq!(r, Ok((String::new(), vec![0x05], 3)));
}

#[test]
fn do_eval_replies_with_the_environment_for_the_path_one() {
    let env = [0xff, 0xff, 0x04, 0x05, 0x06];
    let r = do_eval(&[0x01], &env, NoFallback, None::<NoHook>, 1, 3);
    assert_eq!(r, Ok((String::new(), env.to_vec(), 0)));
    let r = do_eval(&[0x06], &env, NoFallback, None::<NoHook>, 1, 3);
    assert_eq!(r, Ok((String::new(), vec![0x05], 2)));
}

#[test]
fn do_eval_replies_with_the_failure() {
    let program = [0xff, 0x09, 0xff, 0xff, 0x01, 0xff, 0x82, 0x6e, 0x6f, 0x80, 0x80];
    let r = do_eval(&program, &[0x80], NoFallback, None::<NoHook>, 1, 3);
    assert_eq!(r, Ok(("clvm raise".to_string(), vec![0x82, 0x6e, 0x6f], 0)));
    let r = do_eval(&[0xff, 0x63, 0x80], &[0x80], NoFallback, None::<NoHook>, 1, 3);
    assert_eq!(r, Ok(("unknown operator".to_string(), vec![0x63], 0)));
}

#[test]
fn do_eval_refuses_bytes_that_do_not_decode() {
    let r = do_eval(&[0xc0], &[0x80], NoFallback, None::<NoHook>, 1, 3);
    assert_eq!(r, Err(ApiError::Decode(DecodeError::Truncated)));
    let r = do_eval(&[0x01], &[0xfe], NoFallback, None::<NoHook>, 1, 3);
    assert_eq!(r, Err(ApiError::Decode(DecodeError::UnknownPrefix)));
    let r = do_eval(&[0x81, 0x01], &[0xfe], NoFallback, None::<NoHook>, 1, 3);
    assert_eq!(r, Err(ApiError::Decode(DecodeError::NonCanonical)));
    let r = do_eval(&[], &[], NoFallback, None::<NoHook>, 1, 3);
    assert_eq!(r, Err(ApiError::Decode(DecodeError::Truncated)));
}

#[test]
fn do_eval_asks_the_host_for_unknown_operators() {
    let program = [0xff, 0x63, 0xff, 0xff, 0x01, 0xff, 0x07, 0x80, 0x80];
    let r = do_eval(&program, &[0x80], Host, None::<NoHook>, 1, 3);
    assert_eq!(r, Ok((String::new(), vec![0xff, 0x63, 0xff, 0x07, 0x80], 1001)));
}

#[test]
fn do_eval_stops_where_the_observer_stops_it() {
    let r = do_eval(&[0x01], &[0x80], NoFallback, Some(Refuse), 1, 3);
    assert_eq!(r, Ok(("refused".to_string(), vec![0x01], 0)));
}

#[test]
fn make_reply_encodes_the_node_of_either_outcome() {
    let node = Node::pair(&Node::blob_u8(&[1]), &Node::null());
    assert_eq!(
        make_reply(Ok(Reduction(node.clone(), 77))),
        Ok((String::new(), vec![0xff, 0x01, 0x80], 77)),
    );
    let failed = Err(EvalErr(node, "why".to_string()));
    assert_eq!(make_reply(failed), Ok(("why".to_string(), vec![0xff, 0x01, 0x80], 0)));
}
