//! The value model: a tree whose leaves are byte strings and whose inner
//! nodes are ordered pairs.

use crate::eval::{EvalErr, Failure};
use std::sync::Arc;
use vstd::string::StringSliceAdditionalSpecFns;
use vstd::prelude::*;

verus! {

/// The mathematical value that a [`Node`] stands for.
pub enum Tree {
    /// A leaf: a byte string, possibly empty.
    Atom(Seq<u8>),
    /// An ordered pair of two trees: `first` and `rest`.
    Pair(Box<Tree>, Box<Tree>),
}

impl Tree {
    /// The empty atom, which serves as nil, false and the empty list.
    pub open spec fn nil() -> Tree {
        Tree::Atom(Seq::empty())
    }

    /// The pair of `first` and `rest`.
    pub open spec fn cons(first: Tree, rest: Tree) -> Tree {
        Tree::Pair(Box::new(first), Box::new(rest))
    }

    /// An atom of exactly one byte.
    pub open spec fn byte(b: u8) -> Tree {
        Tree::Atom(seq![b])
    }

    /// True for the atom of length zero and for nothing else.
    pub open spec fn is_nil(self) -> bool {
        self matches Tree::Atom(bytes) && bytes.len() == 0
    }

    /// The bytes of an atom; the empty sequence for a pair.
    pub open spec fn bytes(self) -> Seq<u8> {
        match self {
            Tree::Atom(bytes) => bytes,
            Tree::Pair(_, _) => Seq::empty(),
        }
    }

    /// The left component of a pair; nil for an atom.
    pub open spec fn first(self) -> Tree {
        match self {
            Tree::Atom(_) => Tree::nil(),
            Tree::Pair(first, _) => *first,
        }
    }

    /// The right component of a pair; nil for an atom.
    pub open spec fn rest(self) -> Tree {
        match self {
            Tree::Atom(_) => Tree::nil(),
            Tree::Pair(_, rest) => *rest,
        }
    }

    /// The tree read as a list: the `first` of every pair met while following
    /// `rest`. The walk ends at the first atom, whether it is nil or not.
    pub open spec fn items(self) -> Seq<Tree>
        decreases self,
    {
        match self {
            Tree::Atom(_) => Seq::empty(),
            Tree::Pair(first, rest) => seq![*first] + rest.items(),
        }
    }

    /// The right-nested chain of pairs that holds `items` in order and ends in
    /// nil.
    pub open spec fn list(items: Seq<Tree>) -> Tree
        decreases items.len(),
    {
        if items.len() == 0 {
            Tree::nil()
        } else {
            Tree::cons(items[0], Tree::list(items.drop_first()))
        }
    }

    /// `front` laid in order before `tail`: `list` with another ending.
    pub open spec fn chain(front: Seq<Tree>, tail: Tree) -> Tree
        decreases front.len(),
    {
        if front.len() == 0 {
            tail
        } else {
            Tree::cons(front[0], Tree::chain(front.drop_first(), tail))
        }
    }

    /// One more than the longest run of pairs below this tree.
    pub open spec fn height(self) -> nat
        decreases self,
    {
        match self {
            Tree::Atom(_) => 0,
            Tree::Pair(first, rest) => 1 + if first.height() >= rest.height() {
                first.height()
            } else {
                rest.height()
            },
        }
    }
}

/// A chain that ends in nil is the list of its front.
pub proof fn lemma_chain_nil(front: Seq<Tree>)
    ensures
        Tree::chain(front, Tree::nil()) == Tree::list(front),
    decreases front.len(),
{
    if front.len() > 0 {
        lemma_chain_nil(front.drop_first());
    }
}

/// A chain of one item is a pair.
pub proof fn lemma_chain_one(item: Tree, tail: Tree)
    ensures
        Tree::chain(seq![item], tail) == Tree::cons(item, tail),
{
    reveal_with_fuel(Tree::chain, 2);
    assert(seq![item].drop_first() =~= Seq::<Tree>::empty());
}

/// Laying one more item at the end of the front is laying it at the head of
/// the tail.
pub proof fn lemma_chain_push(front: Seq<Tree>, item: Tree, tail: Tree)
    ensures
        Tree::chain(front.push(item), tail) == Tree::chain(front, Tree::cons(item, tail)),
    decreases front.len(),
{
    if front.len() == 0 {
        assert(front.push(item).drop_first() =~= Seq::<Tree>::empty());
        assert(Tree::chain(front.push(item).drop_first(), tail) == tail);
    } else {
        assert(front.push(item).drop_first() =~= front.drop_first().push(item));
        lemma_chain_push(front.drop_first(), item, tail);
    }
}

/// Reading a built list gives back its items.
pub proof fn lemma_items_of_list(items: Seq<Tree>)
    ensures
        Tree::list(items).items() == items,
    decreases items.len(),
{
    if items.len() > 0 {
        lemma_items_of_list(items.drop_first());
        assert(seq![items[0]] + items.drop_first() =~= items);
    } else {
        assert(items =~= Seq::<Tree>::empty());
    }
}

/// The shape of a node: a leaf of bytes, or a pair of nodes.
#[derive(Debug, PartialEq, Eq)]
pub enum SExp {
    Atom(Vec<u8>),
    Pair(Node, Node),
}

/// An immutable tree value. Clones share their subtrees.
#[derive(Debug, PartialEq, Eq)]
pub struct Node(pub Arc<SExp>);

impl View for Node {
    type V = Tree;

    open spec fn view(&self) -> Tree
        decreases self,
    {
        match *self.0 {
            SExp::Atom(bytes) => Tree::Atom(bytes@),
            SExp::Pair(first, rest) => Tree::Pair(Box::new(first@), Box::new(rest@)),
        }
    }
}

/// The views of a sequence of nodes, in order.
pub open spec fn views(nodes: Seq<Node>) -> Seq<Tree> {
    nodes.map_values(|n: Node| n@)
}

/// `Arc::clone`: a second handle to the same shared value. Nothing is copied,
/// so the new handle stands for the value that the old one stands for.
#[verifier::external_body]
fn share(shared: &Arc<SExp>) -> (r: Arc<SExp>)
    ensures
        r == *shared,
{
    Arc::clone(shared)
}

impl Clone for Node {
    fn clone(&self) -> (r: Node)
        ensures
            r == *self,
    {
        Node(share(&self.0))
    }
}

impl Node {
    /// The empty atom.
    pub fn null() -> (r: Node)
        ensures
            r@ == Tree::nil(),
    {
        Node(Arc::new(SExp::Atom(Vec::new())))
    }

    /// The atom that holds the bytes of `text`.
    pub fn blob(text: &str) -> (r: Node)
        ensures
            r@ == Tree::Atom(text.spec_bytes()),
    {
        Node::blob_u8(text.as_bytes())
    }

    /// The atom that holds a copy of `bytes`.
    pub fn blob_u8(bytes: &[u8]) -> (r: Node)
        ensures
            r@ == Tree::Atom(bytes@),
    {
        Node(Arc::new(SExp::Atom(vstd::slice::slice_to_vec(bytes))))
    }

    /// The atom that takes over `bytes`.
    pub fn from_bytes(bytes: Vec<u8>) -> (r: Node)
        ensures
            r@ == Tree::Atom(bytes@),
    {
        Node(Arc::new(SExp::Atom(bytes)))
    }

    /// The pair of `first` and `rest`, which are shared, not copied.
    pub fn pair(first: &Node, rest: &Node) -> (r: Node)
        ensures
            r@ == Tree::cons(first@, rest@),
    {
        Node(Arc::new(SExp::Pair(first.clone(), rest.clone())))
    }

    /// The right-nested chain of pairs that holds `items` in order and ends in
    /// nil.
    pub fn from_list(items: Vec<Node>) -> (r: Node)
        ensures
            r@ == Tree::list(views(items@)),
    {
        let mut items = items;
        let ghost all = views(items@);
        let mut built = Node::null();
        proof {
            lemma_chain_nil(all);
        }
        while items.len() > 0
            invariant
                Tree::chain(views(items@), built@) == Tree::list(all),
            decreases items.len(),
        {
            let ghost before = views(items@);
            let ghost tail = built@;
            let last = items.pop().unwrap();
            built = Node::pair(&last, &built);
            proof {
                assert(before =~= views(items@).push(last@));
                lemma_chain_push(views(items@), last@, tail);
            }
        }
        built
    }

    /// True for a pair, false for an atom.
    pub fn is_pair(&self) -> (r: bool)
        ensures
            r == (self@ is Pair),
    {
        match &*self.0 {
            SExp::Atom(_) => false,
            SExp::Pair(_, _) => true,
        }
    }

    /// True for the atom of length zero, false for every other node.
    pub fn nullp(&self) -> (r: bool)
        ensures
            r == self@.is_nil(),
    {
        match &*self.0 {
            SExp::Atom(bytes) => bytes.len() == 0,
            SExp::Pair(_, _) => false,
        }
    }

    /// Both components of a pair; `None` for an atom.
    pub fn as_pair(&self) -> (r: Option<(Node, Node)>)
        ensures
            match self@ {
                Tree::Atom(_) => r is None,
                Tree::Pair(first, rest) => r matches Some(p) && p.0@ == *first && p.1@ == *rest,
            },
    {
        match &*self.0 {
            SExp::Atom(_) => None,
            SExp::Pair(first, rest) => Some((first.clone(), rest.clone())),
        }
    }

    /// The bytes of an atom; `None` for a pair.
    pub fn as_blob(&self) -> (r: Option<&[u8]>)
        ensures
            match self@ {
                Tree::Atom(bytes) => r matches Some(b) && b@ == bytes,
                Tree::Pair(_, _) => r is None,
            },
    {
        match &*self.0 {
            SExp::Atom(bytes) => Some(bytes.as_slice()),
            SExp::Pair(_, _) => None,
        }
    }

    /// The bytes of an atom; `None` for a pair.
    pub fn as_atom(&self) -> (r: Option<&[u8]>)
        ensures
            match self@ {
                Tree::Atom(bytes) => r matches Some(b) && b@ == bytes,
                Tree::Pair(_, _) => r is None,
            },
    {
        self.as_blob()
    }

    /// The byte of an atom of length one; `None` for every other node.
    pub fn as_u8(&self) -> (r: Option<u8>)
        ensures
            r == opcode_of(self@),
    {
        match &*self.0 {
            SExp::Atom(bytes) => if bytes.len() == 1 {
                Some(bytes[0])
            } else {
                None
            },
            SExp::Pair(_, _) => None,
        }
    }

    /// The left component of a pair. An atom has none: the error names the
    /// atom.
    pub fn first(&self) -> (r: Result<Node, EvalErr>)
        ensures
            match self@ {
                Tree::Pair(first, _) => r matches Ok(n) && n@ == *first,
                Tree::Atom(_) => r matches Err(e) && e@ == first_of_atom(self@),
            },
    {
        match &*self.0 {
            SExp::Atom(_) => self.node_err("first of non-cons"),
            SExp::Pair(first, _) => Ok(first.clone()),
        }
    }

    /// The right component of a pair. An atom has none: the error names the
    /// atom.
    pub fn rest(&self) -> (r: Result<Node, EvalErr>)
        ensures
            match self@ {
                Tree::Pair(_, rest) => r matches Ok(n) && n@ == *rest,
                Tree::Atom(_) => r matches Err(e) && e@ == rest_of_atom(self@),
            },
    {
        match &*self.0 {
            SExp::Atom(_) => self.node_err("rest of non-cons"),
            SExp::Pair(_, rest) => Ok(rest.clone()),
        }
    }

    /// The node read as a list: see [`Tree::items`].
    pub fn to_list(&self) -> (r: Vec<Node>)
        ensures
            views(r@) == self@.items(),
    {
        let mut out: Vec<Node> = Vec::new();
        let mut at = self.clone();
        assert(views(out@) =~= Seq::<Tree>::empty());
        loop
            invariant
                views(out@) + at@.items() == self@.items(),
            ensures
                views(out@) == self@.items(),
            decreases at@.height(),
        {
            let next = match &*at.0 {
                SExp::Atom(_) => None,
                SExp::Pair(first, rest) => Some((first.clone(), rest.clone())),
            };
            match next {
                None => {
                    assert(at@.items() =~= Seq::<Tree>::empty());
                    assert(views(out@) + at@.items() =~= views(out@));
                    break ;
                },
                Some((first, rest)) => {
                    let ghost before = views(out@);
                    out.push(first);
                    proof {
                        assert(views(out@) =~= before.push(first@));
                        assert(before.push(first@) + rest@.items() =~= before + (seq![first@]
                            + rest@.items()));
                    }
                    at = rest;
                },
            }
        }
        out
    }
}

/// The byte that an operator atom of length one holds.
pub open spec fn opcode_of(t: Tree) -> Option<u8> {
    match t {
        Tree::Atom(bytes) => if bytes.len() == 1 {
            Some(bytes[0])
        } else {
            None
        },
        Tree::Pair(_, _) => None,
    }
}

/// The failure of taking `first` of the atom `t`.
pub open spec fn first_of_atom(t: Tree) -> Failure {
    Failure { node: t, message: "first of non-cons"@ }
}

/// The failure of taking `rest` of the atom `t`.
pub open spec fn rest_of_atom(t: Tree) -> Failure {
    Failure { node: t, message: "rest of non-cons"@ }
}

} // verus!
