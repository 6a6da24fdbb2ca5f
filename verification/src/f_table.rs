//! The table of built-in operators.

use crate::core_ops::{
    cons_outcome, eq_outcome, first_outcome, if_outcome, listp_outcome, raise_outcome,
    rest_outcome,
};
use crate::core_ops::{op_cons, op_eq, op_first, op_if, op_listp, op_raise, op_rest};
use crate::more_ops::{
    op_add, op_gr, op_multiply, op_sha256, op_sha256_tree, op_subtract, op_unwrap, op_wrap,
};
use crate::eval::{outcome_of, EvalErr, Outcome, Reduction};
use crate::more_ops::{
    add_outcome, gr_outcome, multiply_outcome, sha256_outcome, sha256_tree_outcome,
    subtract_outcome, unwrap_outcome, wrap_outcome,
};
use crate::sexp::{Node, Tree};
use vstd::prelude::*;

verus! {

/// A built-in operator.
#[derive(Debug, Clone, Copy, PartialEq, Eq, Structural)]
pub enum Operator {
    If,
    Cons,
    First,
    Rest,
    Listp,
    Raise,
    Eq,
    Sha256,
    Add,
    Subtract,
    Multiply,
    Gr,
    Wrap,
    Unwrap,
    Sha256Tree,
}

/// The operator, if any, that each of the 256 opcodes of one byte stands for.
pub type FLookup = [Option<Operator>; 256];

/// What `op` gives for the operand list `args`.
pub open spec fn operator_outcome(op: Operator, args: Tree) -> Outcome {
    match op {
        Operator::If => if_outcome(args),
        Operator::Cons => cons_outcome(args),
        Operator::First => first_outcome(args),
        Operator::Rest => rest_outcome(args),
        Operator::Listp => listp_outcome(args),
        Operator::Raise => raise_outcome(args),
        Operator::Eq => eq_outcome(args),
        Operator::Sha256 => sha256_outcome(args),
        Operator::Add => add_outcome(args),
        Operator::Subtract => subtract_outcome(args),
        Operator::Multiply => multiply_outcome(args),
        Operator::Gr => gr_outcome(args),
        Operator::Wrap => wrap_outcome(args),
        Operator::Unwrap => unwrap_outcome(args),
        Operator::Sha256Tree => sha256_tree_outcome(args),
    }
}

/// The operator that the standard table holds for `opcode`.
pub open spec fn standard_entry(opcode: int) -> Option<Operator> {
    if opcode == 4 {
        Some(Operator::If)
    } else if opcode == 5 {
        Some(Operator::Cons)
    } else if opcode == 6 {
        Some(Operator::First)
    } else if opcode == 7 {
        Some(Operator::Rest)
    } else if opcode == 8 {
        Some(Operator::Listp)
    } else if opcode == 9 {
        Some(Operator::Raise)
    } else if opcode == 10 {
        Some(Operator::Eq)
    } else if opcode == 11 {
        Some(Operator::Sha256)
    } else if opcode == 12 {
        Some(Operator::Add)
    } else if opcode == 13 {
        Some(Operator::Subtract)
    } else if opcode == 14 {
        Some(Operator::Multiply)
    } else if opcode == 16 {
        Some(Operator::Wrap)
    } else if opcode == 17 {
        Some(Operator::Unwrap)
    } else if opcode == 21 {
        Some(Operator::Sha256Tree)
    } else {
        None
    }
}

/// The standard table.
pub open spec fn standard_table() -> Seq<Option<Operator>> {
    Seq::new(256, |opcode: int| standard_entry(opcode))
}

/// Every built-in operator reports a cost of one.
pub proof fn lemma_operator_cost(op: Operator, args: Tree)
    ensures
        operator_outcome(op, args) matches Ok(reduced) ==> reduced.cost == 1,
{
}

impl Operator {
    /// Applies the operator to the operand list `args`.
    pub fn apply(&self, args: &Node) -> (r: Result<Reduction, EvalErr>)
        ensures
            outcome_of(r) == operator_outcome(*self, args@),
    {
        match self {
            Operator::If => op_if(args),
            Operator::Cons => op_cons(args),
            Operator::First => op_first(args),
            Operator::Rest => op_rest(args),
            Operator::Listp => op_listp(args),
            Operator::Raise => op_raise(args),
            Operator::Eq => op_eq(args),
            Operator::Sha256 => op_sha256(args),
            Operator::Add => op_add(args),
            Operator::Subtract => op_subtract(args),
            Operator::Multiply => op_multiply(args),
            Operator::Gr => op_gr(args),
            Operator::Wrap => op_wrap(args),
            Operator::Unwrap => op_unwrap(args),
            Operator::Sha256Tree => op_sha256_tree(args),
        }
    }
}

/// The standard table: fourteen operators at their opcodes, and nothing
/// elsewhere.
pub fn make_f_lookup() -> (r: FLookup)
    ensures
        r@ == standard_table(),
{
    let mut f_lookup: FLookup = [None; 256];
    f_lookup[4] = Some(Operator::If);
    f_lookup[5] = Some(Operator::Cons);
    f_lookup[6] = Some(Operator::First);
    f_lookup[7] = Some(Operator::Rest);
    f_lookup[8] = Some(Operator::Listp);
    f_lookup[9] = Some(Operator::Raise);
    f_lookup[10] = Some(Operator::Eq);
    f_lookup[11] = Some(Operator::Sha256);
    f_lookup[12] = Some(Operator::Add);
    f_lookup[13] = Some(Operator::Subtract);
    f_lookup[14] = Some(Operator::Multiply);
    f_lookup[16] = Some(Operator::Wrap);
    f_lookup[17] = Some(Operator::Unwrap);
    f_lookup[21] = Some(Operator::Sha256Tree);
    assert(f_lookup@ =~= standard_table());
    f_lookup
}

} // verus!
