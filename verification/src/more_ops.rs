//! The operators that hash, that encode and decode, and that compute with
//! numbers. Each takes the list of its operands, already evaluated, and gives
//! a reduction of cost one or a failure.

use crate::core_ops::{done, one, operand0, operand1, truthy};
use crate::eval::{failure, outcome_of, EvalErr, Outcome, Reduction};
use crate::number::{decode, encode, Number};
use crate::serialize::{encodable, lemma_parse_serialize, node_from_bytes, node_to_bytes};
use crate::serialize::{parse, serialize};
use crate::sexp::{views, Node, SExp, Tree};
use sha2::Digest;
use sha2::Sha256;
use vstd::prelude::*;

verus! {

/// The digest that `sha2` computes for `data` with SHA-256.
pub uninterp spec fn sha256_digest(data: Seq<u8>) -> Seq<u8>;

/// `Sha256::digest` of the `sha2` crate: makes a hasher, feeds it `data` and
/// returns what it yields, copied into a vector. The result depends on the
/// bytes of `data` alone, and the contract gives it its name. The crate fixes
/// the size of what the hasher yields at 32 bytes; the contract claims no
/// more.
#[verifier::external_body]
fn sha256(data: &[u8]) -> (r: Vec<u8>)
    ensures
        r@ == sha256_digest(data@),
        r@.len() == 32,
{
    Sha256::digest(data).to_vec()
}

/// The content hash of a tree: an atom hashes as `1` followed by its bytes, a
/// pair as `2` followed by the hashes of its two components.
pub open spec fn tree_hash(t: Tree) -> Seq<u8>
    decreases t,
{
    match t {
        Tree::Atom(bytes) => sha256_digest(seq![1u8] + bytes),
        Tree::Pair(first, rest) => sha256_digest(seq![2u8] + tree_hash(*first) + tree_hash(*rest)),
    }
}

/// True if every item is an atom.
pub open spec fn all_atoms(items: Seq<Tree>) -> bool {
    forall|i: int| 0 <= i < items.len() ==> (#[trigger] items[i]) is Atom
}

/// The bytes of the items, one after the other.
pub open spec fn joined(items: Seq<Tree>) -> Seq<u8>
    decreases items.len(),
{
    if items.len() == 0 {
        Seq::empty()
    } else {
        joined(items.drop_last()) + items.last().bytes()
    }
}

/// The sum of the numbers that the items stand for.
pub open spec fn sum_of(items: Seq<Tree>) -> int
    decreases items.len(),
{
    if items.len() == 0 {
        0
    } else {
        sum_of(items.drop_last()) + decode(items.last().bytes())
    }
}

/// The first number less all the others; zero for no items.
pub open spec fn difference_of(items: Seq<Tree>) -> int {
    if items.len() == 0 {
        0
    } else {
        decode(items[0].bytes()) - sum_of(items.skip(1))
    }
}

/// The product of the numbers that the items stand for; one for no items.
pub open spec fn product_of(items: Seq<Tree>) -> int
    decreases items.len(),
{
    if items.len() == 0 {
        1
    } else {
        product_of(items.drop_last()) * decode(items.last().bytes())
    }
}

/// `sha256`: the digest of the operands' bytes, one after the other.
pub open spec fn sha256_outcome(args: Tree) -> Outcome {
    if all_atoms(args.items()) {
        done(Tree::Atom(sha256_digest(joined(args.items()))))
    } else {
        failure(args, "atom expected"@)
    }
}

/// `sha256_tree`: the content hash of the operand.
pub open spec fn sha256_tree_outcome(args: Tree) -> Outcome {
    match operand0(args) {
        Err(e) => Err(e),
        Ok(a) => done(Tree::Atom(tree_hash(a))),
    }
}

/// `+`: the sum of the operands.
pub open spec fn add_outcome(args: Tree) -> Outcome {
    if all_atoms(args.items()) {
        done(Tree::Atom(encode(sum_of(args.items()))))
    } else {
        failure(args, "+ takes integer arguments"@)
    }
}

/// `-`: the first operand less all the others.
pub open spec fn subtract_outcome(args: Tree) -> Outcome {
    if all_atoms(args.items()) {
        done(Tree::Atom(encode(difference_of(args.items()))))
    } else {
        failure(args, "- takes integer arguments"@)
    }
}

/// `*`: the product of the operands.
pub open spec fn multiply_outcome(args: Tree) -> Outcome {
    if all_atoms(args.items()) {
        done(Tree::Atom(encode(product_of(args.items()))))
    } else {
        failure(args, "* takes integer arguments"@)
    }
}

/// `>`: true if the first operand is the greater number, else nil.
pub open spec fn gr_outcome(args: Tree) -> Outcome {
    match operand0(args) {
        Err(e) => Err(e),
        Ok(a) => match operand1(args) {
            Err(e) => Err(e),
            Ok(b) => match (a, b) {
                (Tree::Atom(x), Tree::Atom(y)) => if decode(x) > decode(y) {
                    done(truthy())
                } else {
                    done(Tree::nil())
                },
                _ => failure(args, "> on list"@),
            },
        },
    }
}

/// `wrap`: the atom that holds the encoding of the operand.
pub open spec fn wrap_outcome(args: Tree) -> Outcome {
    match operand0(args) {
        Err(e) => Err(e),
        Ok(a) => if encodable(a) {
            done(Tree::Atom(serialize(a)))
        } else {
            failure(args, "sexp too long"@)
        },
    }
}

/// `unwrap`: the tree whose encoding begins the operand, which must be an
/// atom.
pub open spec fn unwrap_outcome(args: Tree) -> Outcome {
    match operand0(args) {
        Err(e) => Err(e),
        Ok(a) => match a {
            Tree::Atom(bytes) => match parse(bytes) {
                Ok((t, _)) => done(t),
                Err(_) => failure(args, "bad stream"@),
            },
            Tree::Pair(_, _) => failure(args, "bad stream"@),
        },
    }
}

/// `unwrap` undoes `wrap`: unwrapping the atom that `wrap` gives for a tree
/// gives the tree back.
pub proof fn lemma_unwrap_wrap(t: Tree)
    requires
        encodable(t),
    ensures
        wrap_outcome(Tree::cons(t, Tree::nil())) == done(Tree::Atom(serialize(t))),
        unwrap_outcome(Tree::cons(Tree::Atom(serialize(t)), Tree::nil())) == done(t),
{
    lemma_parse_serialize(t, Seq::empty());
    assert(serialize(t) + Seq::<u8>::empty() =~= serialize(t));
}

/// The operands of `args` as numbers, if all of them are atoms.
fn numbers(args: &Node) -> (r: Option<Vec<Number>>)
    ensures
        match r {
            Some(values) => all_atoms(args@.items()) && values@.len() == args@.items().len()
                && forall|i: int|
                0 <= i < values@.len() ==> (#[trigger] values@[i])@ == decode(
                    args@.items()[i].bytes(),
                ),
            None => !all_atoms(args@.items()),
        },
{
    let items = args.to_list();
    let mut values: Vec<Number> = Vec::new();
    let mut i: usize = 0;
    while i < items.len()
        invariant
            i <= items@.len(),
            views(items@) == args@.items(),
            values@.len() == i,
            forall|k: int| 0 <= k < i ==> (#[trigger] args@.items()[k]) is Atom,
            forall|k: int|
                0 <= k < i ==> (#[trigger] values@[k])@ == decode(args@.items()[k].bytes()),
        decreases items@.len() - i,
    {
        assert(views(items@)[i as int] == items@[i as int]@);
        match items[i].as_number() {
            Some(n) => {
                values.push(n);
            },
            None => {
                return None;
            },
        }
        i += 1;
    }
    Some(values)
}

/// The digest of the bytes of all operands, which must be atoms: an atom of
/// 32 bytes.
pub fn op_sha256(args: &Node) -> (r: Result<Reduction, EvalErr>)
    ensures
        outcome_of(r) == sha256_outcome(args@),
        r matches Ok(reduction) ==> reduction.0@.bytes().len() == 32,
{
    let items = args.to_list();
    let mut data: Vec<u8> = Vec::new();
    let mut i: usize = 0;
    assert(views(items@).take(0) =~= Seq::<Tree>::empty());
    while i < items.len()
        invariant
            i <= items@.len(),
            views(items@) == args@.items(),
            all_atoms(args@.items().take(i as int)),
            data@ == joined(args@.items().take(i as int)),
        decreases items@.len() - i,
    {
        let ghost all = args@.items();
        assert(all[i as int] == items@[i as int]@);
        assert(all.take(i + 1).drop_last() =~= all.take(i as int));
        match items[i].as_blob() {
            Some(blob) => {
                data.extend_from_slice(blob);
            },
            None => {
                return args.err("atom expected");
            },
        }
        i += 1;
    }
    assert(args@.items().take(i as int) =~= args@.items());
    Ok(Reduction(Node::from_bytes(sha256(data.as_slice())), 1))
}

/// The content hash of `node`, which has 32 bytes: see [`tree_hash`].
pub fn sha256_tree(node: &Node) -> (r: Vec<u8>)
    ensures
        r@ == tree_hash(node@),
        r@.len() == 32,
    decreases node@.height(),
{
    let mut data: Vec<u8> = Vec::new();
    match &*node.0 {
        SExp::Atom(bytes) => {
            data.push(1);
            data.extend_from_slice(bytes.as_slice());
            assert(data@ =~= seq![1u8] + bytes@);
        },
        SExp::Pair(first, rest) => {
            data.push(2);
            let left = sha256_tree(first);
            let right = sha256_tree(rest);
            data.extend_from_slice(left.as_slice());
            data.extend_from_slice(right.as_slice());
            assert(data@ =~= seq![2u8] + tree_hash(first@) + tree_hash(rest@));
        },
    }
    sha256(data.as_slice())
}

/// The content hash of the first operand: an atom of 32 bytes.
pub fn op_sha256_tree(args: &Node) -> (r: Result<Reduction, EvalErr>)
    ensures
        outcome_of(r) == sha256_tree_outcome(args@),
        r matches Ok(reduction) ==> reduction.0@.bytes().len() == 32,
{
    let n = args.first()?;
    Ok(Reduction(Node::from_bytes(sha256_tree(&n)), 1))
}

/// The sum of the operands, which must be atoms.
pub fn op_add(args: &Node) -> (r: Result<Reduction, EvalErr>)
    ensures
        outcome_of(r) == add_outcome(args@),
{
    let values = match numbers(args) {
        Some(values) => values,
        None => {
            return args.err("+ takes integer arguments");
        },
    };
    let ghost all = args@.items();
    let mut total = Number::zero();
    let mut i: usize = 0;
    assert(all.take(0) =~= Seq::<Tree>::empty());
    while i < values.len()
        invariant
            i <= values@.len(),
            all == args@.items(),
            values@.len() == all.len(),
            forall|k: int|
                0 <= k < values@.len() ==> (#[trigger] values@[k])@ == decode(all[k].bytes()),
            total@ == sum_of(all.take(i as int)),
        decreases values@.len() - i,
    {
        assert(all.take(i + 1).drop_last() =~= all.take(i as int));
        total = total.plus(&values[i]);
        i += 1;
    }
    assert(all.take(i as int) =~= all);
    Ok(Reduction(Node::from_number(&total), 1))
}

/// The first operand less all the others; zero for no operands. All must be
/// atoms.
pub fn op_subtract(args: &Node) -> (r: Result<Reduction, EvalErr>)
    ensures
        outcome_of(r) == subtract_outcome(args@),
{
    let values = match numbers(args) {
        Some(values) => values,
        None => {
            return args.err("- takes integer arguments");
        },
    };
    let ghost all = args@.items();
    let mut total = Number::zero();
    let mut is_first = true;
    let mut i: usize = 0;
    while i < values.len()
        invariant
            i <= values@.len(),
            all == args@.items(),
            values@.len() == all.len(),
            forall|k: int|
                0 <= k < values@.len() ==> (#[trigger] values@[k])@ == decode(all[k].bytes()),
            is_first == (i == 0),
            i == 0 ==> total@ == 0,
            i > 0 ==> total@ == decode(all[0].bytes()) - sum_of(all.subrange(1, i as int)),
        decreases values@.len() - i,
    {
        if is_first {
            total = total.plus(&values[i]);
            assert(all.subrange(1, 1) =~= Seq::<Tree>::empty());
        } else {
            total = total.minus(&values[i]);
            assert(all.subrange(1, i + 1).drop_last() =~= all.subrange(1, i as int));
        }
        is_first = false;
        i += 1;
    }
    assert(i > 0 ==> all.subrange(1, i as int) =~= all.skip(1));
    Ok(Reduction(Node::from_number(&total), 1))
}

/// The product of the operands, which must be atoms; one for no operands.
pub fn op_multiply(args: &Node) -> (r: Result<Reduction, EvalErr>)
    ensures
        outcome_of(r) == multiply_outcome(args@),
{
    let values = match numbers(args) {
        Some(values) => values,
        None => {
            return args.err("* takes integer arguments");
        },
    };
    let ghost all = args@.items();
    let mut total = Number::one();
    let mut i: usize = 0;
    assert(all.take(0) =~= Seq::<Tree>::empty());
    while i < values.len()
        invariant
            i <= values@.len(),
            all == args@.items(),
            values@.len() == all.len(),
            forall|k: int|
                0 <= k < values@.len() ==> (#[trigger] values@[k])@ == decode(all[k].bytes()),
            total@ == product_of(all.take(i as int)),
        decreases values@.len() - i,
    {
        assert(all.take(i + 1).drop_last() =~= all.take(i as int));
        total = total.times(&values[i]);
        i += 1;
    }
    assert(all.take(i as int) =~= all);
    Ok(Reduction(Node::from_number(&total), 1))
}

/// True if the first operand is a greater number than the second. Both must
/// be atoms.
pub fn op_gr(args: &Node) -> (r: Result<Reduction, EvalErr>)
    ensures
        outcome_of(r) == gr_outcome(args@),
{
    let a0 = args.first()?;
    let v0 = a0.as_number();
    let a1 = args.rest()?.first()?;
    let v1 = a1.as_number();
    if let Some(n0) = v0 {
        if let Some(n1) = v1 {
            return Ok(
                if n0.greater_than(&n1) {
                    Reduction(one(), 1)
                } else {
                    Reduction(Node::null(), 1)
                },
            );
        }
    }
    args.err("> on list")
}

/// The atom that holds the encoding of the first operand.
pub fn op_wrap(args: &Node) -> (r: Result<Reduction, EvalErr>)
    ensures
        outcome_of(r) == wrap_outcome(args@),
{
    let n = args.first()?;
    match node_to_bytes(&n) {
        Ok(bytes) => Ok(Reduction(Node::from_bytes(bytes), 1)),
        Err(_) => args.err("sexp too long"),
    }
}

/// The tree whose encoding begins the first operand, which must be an atom.
pub fn op_unwrap(args: &Node) -> (r: Result<Reduction, EvalErr>)
    ensures
        outcome_of(r) == unwrap_outcome(args@),
{
    let n = args.first()?;
    if let Some(b) = n.as_blob() {
        if let Ok(node) = node_from_bytes(b) {
            return Ok(Reduction(node, 1));
        }
    }
    args.err("bad stream")
}

} // verus!
