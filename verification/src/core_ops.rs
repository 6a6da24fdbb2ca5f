//! The structural operators. Each takes the list of its operands, already
//! evaluated, and gives a reduction of cost one or a failure.

use crate::eval::{failure, outcome_of, EvalErr, Outcome, Reduced, Reduction};
use crate::sexp::{first_of_atom, rest_of_atom, Node, Tree};
use vstd::prelude::*;

verus! {

/// A node for a reduction of cost one.
pub open spec fn done(node: Tree) -> Outcome {
    Ok(Reduced { node, cost: 1 })
}

/// The first operand of `args`, or the failure of asking an atom for it.
pub open spec fn operand0(args: Tree) -> Result<Tree, crate::eval::Failure> {
    match args {
        Tree::Atom(_) => Err(first_of_atom(args)),
        Tree::Pair(first, _) => Ok(*first),
    }
}

/// The second operand of `args`, or the failure met on the way to it.
pub open spec fn operand1(args: Tree) -> Result<Tree, crate::eval::Failure> {
    match args {
        Tree::Atom(_) => Err(rest_of_atom(args)),
        Tree::Pair(_, rest) => operand0(*rest),
    }
}

/// The atom that stands for true.
pub open spec fn truthy() -> Tree {
    Tree::byte(1)
}

/// `if`: the second operand unless the first is nil, else the third.
pub open spec fn if_outcome(args: Tree) -> Outcome {
    match args {
        Tree::Atom(_) => Err(first_of_atom(args)),
        Tree::Pair(cond, branches) => if cond.is_nil() {
            match *branches {
                Tree::Atom(_) => Err(rest_of_atom(*branches)),
                Tree::Pair(_, tail) => match operand0(*tail) {
                    Ok(chosen) => done(chosen),
                    Err(e) => Err(e),
                },
            }
        } else {
            match operand0(*branches) {
                Ok(chosen) => done(chosen),
                Err(e) => Err(e),
            }
        },
    }
}

/// `cons`: the pair of the first two operands.
pub open spec fn cons_outcome(args: Tree) -> Outcome {
    match operand0(args) {
        Err(e) => Err(e),
        Ok(a) => match operand1(args) {
            Err(e) => Err(e),
            Ok(b) => done(Tree::cons(a, b)),
        },
    }
}

/// `first`: the left component of the operand, which must be a pair.
pub open spec fn first_outcome(args: Tree) -> Outcome {
    match operand0(args) {
        Err(e) => Err(e),
        Ok(a) => match a {
            Tree::Atom(_) => Err(first_of_atom(a)),
            Tree::Pair(first, _) => done(*first),
        },
    }
}

/// `rest`: the right component of the operand, which must be a pair.
pub open spec fn rest_outcome(args: Tree) -> Outcome {
    match operand0(args) {
        Err(e) => Err(e),
        Ok(a) => match a {
            Tree::Atom(_) => Err(rest_of_atom(a)),
            Tree::Pair(_, rest) => done(*rest),
        },
    }
}

/// `listp`: true if the operand is a pair, else nil.
pub open spec fn listp_outcome(args: Tree) -> Outcome {
    match operand0(args) {
        Err(e) => Err(e),
        Ok(a) => if a is Pair {
            done(truthy())
        } else {
            done(Tree::nil())
        },
    }
}

/// `raise`: always a failure, which names the operand.
pub open spec fn raise_outcome(args: Tree) -> Outcome {
    match operand0(args) {
        Err(e) => Err(e),
        Ok(a) => failure(a, "clvm raise"@),
    }
}

/// `eq`: true if both operands are atoms of the same bytes, nil if they are
/// atoms that differ, a failure that names the operand list if either is a pair.
pub open spec fn eq_outcome(args: Tree) -> Outcome {
    match operand0(args) {
        Err(e) => Err(e),
        Ok(a) => match operand1(args) {
            Err(e) => Err(e),
            Ok(b) => match (a, b) {
                (Tree::Atom(x), Tree::Atom(y)) => if x == y {
                    done(truthy())
                } else {
                    done(Tree::nil())
                },
                _ => failure(args, "= on list"@),
            },
        },
    }
}

/// The atom `[1]`.
pub fn one() -> (r: Node)
    ensures
        r@ == truthy(),
{
    let bytes: [u8; 1] = [1];
    let r = Node::blob_u8(bytes.as_slice());
    assert(r@.bytes() =~= seq![1u8]);
    r
}

/// True if the two slices hold the same bytes.
pub fn same_bytes(a: &[u8], b: &[u8]) -> (r: bool)
    ensures
        r == (a@ == b@),
{
    if a.len() != b.len() {
        return false;
    }
    let mut i: usize = 0;
    while i < a.len()
        invariant
            a.len() == b.len(),
            i <= a.len(),
            forall|k: int| 0 <= k < i ==> a@[k] == b@[k],
        decreases a.len() - i,
    {
        if a[i] != b[i] {
            return false;
        }
        i += 1;
    }
    assert(a@ =~= b@);
    true
}

/// The second operand unless the first is nil, else the third.
pub fn op_if(args: &Node) -> (r: Result<Reduction, EvalErr>)
    ensures
        outcome_of(r) == if_outcome(args@),
{
    let cond = args.first()?;
    let mut chosen = args.rest()?;
    if cond.nullp() {
        chosen = chosen.rest()?;
    }
    Ok(Reduction(chosen.first()?, 1))
}

/// The pair of the first two operands.
pub fn op_cons(args: &Node) -> (r: Result<Reduction, EvalErr>)
    ensures
        outcome_of(r) == cons_outcome(args@),
{
    let a = args.first()?;
    let b = args.rest()?.first()?;
    Ok(Reduction(Node::pair(&a, &b), 1))
}

/// The left component of the first operand, which must be a pair.
pub fn op_first(args: &Node) -> (r: Result<Reduction, EvalErr>)
    ensures
        outcome_of(r) == first_outcome(args@),
{
    Ok(Reduction(args.first()?.first()?, 1))
}

/// The right component of the first operand, which must be a pair.
pub fn op_rest(args: &Node) -> (r: Result<Reduction, EvalErr>)
    ensures
        outcome_of(r) == rest_outcome(args@),
{
    Ok(Reduction(args.first()?.rest()?, 1))
}

/// The atom for true if the first operand is a pair, else nil.
pub fn op_listp(args: &Node) -> (r: Result<Reduction, EvalErr>)
    ensures
        outcome_of(r) == listp_outcome(args@),
{
    let a = args.first()?;
    if a.is_pair() {
        Ok(Reduction(one(), 1))
    } else {
        Ok(Reduction(Node::null(), 1))
    }
}

/// Always a failure, which names the first operand.
pub fn op_raise(args: &Node) -> (r: Result<Reduction, EvalErr>)
    ensures
        outcome_of(r) == raise_outcome(args@),
{
    let a = args.first()?;
    a.err("clvm raise")
}

/// The atom for true if the first two operands are atoms of the same bytes,
/// nil if they are atoms that differ.
pub fn op_eq(args: &Node) -> (r: Result<Reduction, EvalErr>)
    ensures
        outcome_of(r) == eq_outcome(args@),
{
    let a = args.first()?;
    let b = args.rest()?.first()?;
    match (a.as_blob(), b.as_blob()) {
        (Some(x), Some(y)) => {
            if same_bytes(x, y) {
                Ok(Reduction(one(), 1))
            } else {
                Ok(Reduction(Node::null(), 1))
            }
        },
        _ => args.err("= on list"),
    }
}

} // verus!
