use clvm_rs::core_ops::{
    one, op_cons, op_eq, op_first, op_if, op_listp, op_raise, op_rest, same_bytes,
};
use clvm_rs::eval::{EvalErr, Reduction};
use clvm_rs::f_table::{make_f_lookup, Operator};
use clvm_rs::more_ops::{
    op_add, op_gr, op_multiply, op_sha256, op_sha256_tree, op_subtract, op_unwrap, op_wrap,
    sha256_tree,
};
use clvm_rs::sexp::Node;
use sha2::{Digest, Sha256};

fn a(bytes: &[u8]) -> Node {
    Node::blob_u8(bytes)
}

fn l(items: &[Node]) -> Node {
    Node::from_list(items.to_vec())
}

fn ok(node: Node) -> Result<Reduction, EvalErr> {
    Ok(Reduction(node, 1))
}

fn fails(node: Node, message: &str) -> Result<Reduction, EvalErr> {
    Err(EvalErr(node, message.to_string()))
}

const HASH_01_AB: [u8; 32] = [
    0x17, 0x04, 0x04, 0xe0, 0x54, 0x40, 0xf4, 0x50, 0x62, 0xc4, 0x23, 0x05, 0x2d, 0x5a, 0xdc, 0xfb,
    0x2c, 0x9d, 0x54, 0x6e, 0xcf, 0xcb, 0x20, 0x22, 0xd6, 0xc3, 0x4a, 0xf4, 0x74, 0xdb, 0xaf, 0x18,
];

const HASH_EMPTY: [u8; 32] = [
    0xe3, 0xb0, 0xc4, 0x42, 0x98, 0xfc, 0x1c, 0x14, 0x9a, 0xfb, 0xf4, 0xc8, 0x99, 0x6f, 0xb9, 0x24,
    0x27, 0xae, 0x41, 0xe4, 0x64, 0x9b, 0x93, 0x4c, 0xa4, 0x95, 0x99, 0x1b, 0x78, 0x52, 0xb8, 0x55,
];

const HASH_HELLO_WORLD: [u8; 32] = [
    0xb9, 0x4d, 0x27, 0xb9, 0x93, 0x4d, 0x3e, 0x08, 0xa5, 0x2e, 0x52, 0xd7, 0xda, 0x7d, 0xab, 0xfa,
    0xc4, 0x84, 0xef, 0xe3, 0x7a, 0x53, 0x80, 0xee, 0x90, 0x88, 0xf7, 0xac, 0xe2, 0xef, 0xcd, 0xe9,
];

const TREE_HASH_A_B: [u8; 32] = [
    0x5f, 0x51, 0x73, 0xab, 0x60, 0xb0, 0xdf, 0x63, 0x4a, 0xb9, 0xe2, 0x01, 0x99, 0x16, 0x63, 0x51,
    0x05, 0x8f, 0x96, 0x73, 0x88, 0x7f, 0x3e, 0xb0, 0x6a, 0x9b, 0x6c, 0x8e, 0xd4, 0xc8, 0x99, 0x79,
];

const TREE_HASH_NIL: [u8; 32] = [
    0x4b, 0xf5, 0x12, 0x2f, 0x34, 0x45, 0x54, 0xc5, 0x3b, 0xde, 0x2e, 0xbb, 0x8c, 0xd2, 0xb7, 0xe3,
    0xd1, 0x60, 0x0a, 0xd6, 0x31, 0xc3, 0x85, 0xa5, 0xd7, 0xcc, 0xe2, 0x3c, 0x77, 0x85, 0x45, 0x9a,
];

#[test]
fn if_chooses_by_the_condition() {
    assert_eq!(op_if(&l(&[a(&[1]), a(&[10]), a(&[20])])), ok(a(&[10])));
    assert_eq!(op_if(&l(&[a(&[]), a(&[10]), a(&[20])])), ok(a(&[20])));
    assert_eq!(op_if(&l(&[a(&[0]), a(&[10]), a(&[20])])), ok(a(&[10])));
    let pair = Node::pair(&a(&[]), &a(&[]));
    assert_eq!(op_if(&l(&[pair, a(&[10]), a(&[20])])), ok(a(&[10])));
}

#[test]
fn if_needs_the_chosen_branch() {
    assert_eq!(op_if(&Node::null()), fails(Node::null(), "first of non-cons"));
    assert_eq!(op_if(&l(&[a(&[1])])), fails(Node::null(), "first of non-cons"));
    assert_eq!(op_if(&l(&[a(&[])])), fails(Node::null(), "rest of non-cons"));
    assert_eq!(op_if(&l(&[a(&[]), a(&[10])])), fails(Node::null(), "first of non-cons"));
    assert_eq!(op_if(&l(&[a(&[1]), a(&[10])])), ok(a(&[10])));
}

#[test]
fn cons_pairs_its_operands() {
    assert_eq!(op_cons(&l(&[a(&[1]), a(&[2])])), ok(Node::pair(&a(&[1]), &a(&[2]))));
    assert_eq!(op_cons(&l(&[a(&[1])])), fails(Node::null(), "first of non-cons"));
    assert_eq!(op_cons(&Node::null()), fails(Node::null(), "first of non-cons"));
}

#[test]
fn first_and_rest_take_a_pair_apart() {
    let pair = Node::pair(&a(&[1]), &a(&[2]));
    assert_eq!(op_first(&l(&[pair.clone()])), ok(a(&[1])));
    assert_eq!(op_rest(&l(&[pair])), ok(a(&[2])));
    assert_eq!(op_first(&l(&[a(&[5])])), fails(a(&[5]), "first of non-cons"));
    assert_eq!(op_rest(&l(&[a(&[5])])), fails(a(&[5]), "rest of non-cons"));
    assert_eq!(op_first(&Node::null()), fails(Node::null(), "first of non-cons"));
    assert_eq!(op_rest(&Node::null()), fails(Node::null(), "first of non-cons"));
}

#[test]
fn listp_tells_pairs_from_atoms() {
    assert_eq!(op_listp(&l(&[Node::pair(&a(&[1]), &a(&[2]))])), ok(a(&[1])));
    assert_eq!(op_listp(&l(&[a(&[1])])), ok(Node::null()));
    assert_eq!(op_listp(&l(&[Node::null()])), ok(Node::null()));
    assert_eq!(op_listp(&Node::null()), fails(Node::null(), "first of non-cons"));
}

#[test]
fn raise_always_fails_and_names_its_operand() {
    assert_eq!(op_raise(&l(&[a(&[7, 7])])), fails(a(&[7, 7]), "clvm raise"));
    let pair = Node::pair(&a(&[1]), &a(&[2]));
    assert_eq!(op_raise(&l(&[pair.clone()])), fails(pair, "clvm raise"));
    assert!(op_raise(&Node::null()).is_err());
}

#[test]
fn eq_compares_the_bytes_of_atoms() {
    assert_eq!(op_eq(&l(&[a(&[1, 2]), a(&[1, 2])])), ok(a(&[1])));
    assert_eq!(op_eq(&l(&[a(&[1, 2]), a(&[1, 3])])), ok(Node::null()));
    assert_eq!(op_eq(&l(&[a(&[]), a(&[])])), ok(a(&[1])));
    assert_eq!(op_eq(&l(&[a(&[0]), a(&[])])), ok(Node::null()));
    assert_eq!(op_eq(&l(&[a(&[1]), a(&[0, 1])])), ok(Node::null()));
}

#[test]
fn eq_refuses_pairs() {
    let pair = Node::pair(&a(&[1]), &a(&[2]));
    let args = l(&[pair.clone(), a(&[1])]);
    assert_eq!(op_eq(&args), fails(args.clone(), "= on list"));
    let args = l(&[a(&[1]), pair.clone()]);
    assert_eq!(op_eq(&args), fails(args.clone(), "= on list"));
    assert_eq!(op_eq(&l(&[a(&[1])])), fails(Node::null(), "first of non-cons"));
}

#[test]
fn same_bytes_compares_slices() {
    assert!(same_bytes(&[], &[]));
    assert!(same_bytes(&[1, 2, 3], &[1, 2, 3]));
    assert!(!same_bytes(&[1, 2, 3], &[1, 2, 4]));
    assert!(!same_bytes(&[1, 2, 3], &[1, 2]));
    assert_eq!(one(), a(&[1]));
}

#[test]
fn sha256_hashes_the_operands_in_a_row() {
    assert_eq!(op_sha256(&Node::null()), ok(a(&HASH_EMPTY)));
    assert_eq!(op_sha256(&l(&[a(b"hello world")])), ok(a(&HASH_HELLO_WORLD)));
    assert_eq!(op_sha256(&l(&[a(b"hello"), a(b" "), a(b"world")])), ok(a(&HASH_HELLO_WORLD)));
    assert_eq!(op_sha256(&l(&[a(&[1]), a(b"ab")])), ok(a(&HASH_01_AB)));
    assert_eq!(op_sha256(&l(&[a(&[]), a(&[1, b'a']), a(&[]), a(b"b")])), ok(a(&HASH_01_AB)));
}

#[test]
fn sha256_agrees_with_the_hasher() {
    let data: Vec<u8> = (0..1000u32).map(|i| (i * 7 % 256) as u8).collect();
    let expected = Sha256::digest(&data).to_vec();
    assert_eq!(op_sha256(&l(&[a(&data[..500]), a(&data[500..])])), ok(a(&expected)));
    assert_ne!(expected, data);
}

#[test]
fn sha256_refuses_pairs() {
    let args = l(&[a(&[1]), Node::pair(&a(&[1]), &a(&[2]))]);
    assert_eq!(op_sha256(&args), fails(args.clone(), "atom expected"));
}

#[test]
fn tree_hash_of_an_atom() {
    assert_eq!(sha256_tree(&Node::blob("ab")), HASH_01_AB.to_vec());
    assert_eq!(sha256_tree(&Node::null()), TREE_HASH_NIL.to_vec());
    let mut hasher = Sha256::new();
    hasher.input([1u8]);
    hasher.input(b"ab");
    assert_eq!(sha256_tree(&Node::blob("ab")), hasher.result().to_vec());
}

#[test]
fn tree_hash_of_a_pair() {
    let left = Node::blob("A");
    let right = Node::blob("B");
    let pair = Node::pair(&left, &right);
    assert_eq!(sha256_tree(&pair), TREE_HASH_A_B.to_vec());
    let mut hasher = Sha256::new();
    hasher.input([2u8]);
    hasher.input(sha256_tree(&left));
    hasher.input(sha256_tree(&right));
    assert_eq!(sha256_tree(&pair), hasher.result().to_vec());
    let nested = Node::pair(&pair, &Node::pair(&right, &pair));
    let mut hasher = Sha256::new();
    hasher.input([2u8]);
    hasher.input(sha256_tree(&pair));
    hasher.input(sha256_tree(&Node::pair(&right, &pair)));
    assert_eq!(sha256_tree(&nested), hasher.result().to_vec());
}

#[test]
fn op_sha256_tree_hashes_its_operand() {
    assert_eq!(op_sha256_tree(&l(&[Node::blob("ab")])), ok(a(&HASH_01_AB)));
    let pair = Node::pair(&Node::blob("A"), &Node::blob("B"));
    assert_eq!(op_sha256_tree(&l(&[pair])), ok(a(&TREE_HASH_A_B)));
    assert_eq!(op_sha256_tree(&Node::null()), fails(Node::null(), "first of non-cons"));
}

#[test]
fn add_sums_its_operands() {
    assert_eq!(op_add(&l(&[a(&[2]), a(&[3])])), ok(a(&[5])));
    assert_eq!(op_add(&Node::null()), ok(Node::null()));
    assert_eq!(op_add(&l(&[a(&[0x7f]), a(&[1])])), ok(a(&[0x00, 0x80])));
    assert_eq!(op_add(&l(&[a(&[0xff]), a(&[1])])), ok(Node::null()));
    assert_eq!(op_add(&l(&[a(&[1]), a(&[2]), a(&[3]), a(&[0xfa])])), ok(Node::null()));
    assert_eq!(op_add(&l(&[a(&[0x00, 0xff]), a(&[0x00, 0xff])])), ok(a(&[0x01, 0xfe])));
}

#[test]
fn subtract_takes_the_rest_from_the_first() {
    assert_eq!(op_subtract(&Node::null()), ok(Node::null()));
    assert_eq!(op_subtract(&l(&[a(&[5])])), ok(a(&[5])));
    assert_eq!(op_subtract(&l(&[a(&[5]), a(&[3])])), ok(a(&[2])));
    assert_eq!(op_subtract(&l(&[a(&[3]), a(&[5])])), ok(a(&[0xfe])));
    assert_eq!(op_subtract(&l(&[a(&[10]), a(&[1]), a(&[2]), a(&[3])])), ok(a(&[4])));
    assert_eq!(op_subtract(&l(&[a(&[0x80]), a(&[1])])), ok(a(&[0xff, 0x7f])));
}

#[test]
fn multiply_multiplies_its_operands() {
    assert_eq!(op_multiply(&Node::null()), ok(a(&[1])));
    assert_eq!(op_multiply(&l(&[a(&[6]), a(&[7])])), ok(a(&[42])));
    assert_eq!(op_multiply(&l(&[a(&[16]), a(&[16])])), ok(a(&[0x01, 0x00])));
    assert_eq!(op_multiply(&l(&[a(&[0xff]), a(&[0xff])])), ok(a(&[1])));
    assert_eq!(op_multiply(&l(&[a(&[2]), a(&[3]), a(&[0xfc])])), ok(a(&[0xe8])));
    assert_eq!(op_multiply(&l(&[a(&[9]), a(&[])])), ok(Node::null()));
}

#[test]
fn arithmetic_refuses_pairs() {
    let args = l(&[a(&[1]), Node::pair(&a(&[1]), &a(&[2]))]);
    assert_eq!(op_add(&args), fails(args.clone(), "+ takes integer arguments"));
    assert_eq!(op_subtract(&args), fails(args.clone(), "- takes integer arguments"));
    assert_eq!(op_multiply(&args), fails(args.clone(), "* takes integer arguments"));
}

#[test]
fn gr_compares_numbers() {
    assert_eq!(op_gr(&l(&[a(&[5]), a(&[3])])), ok(a(&[1])));
    assert_eq!(op_gr(&l(&[a(&[3]), a(&[5])])), ok(Node::null()));
    assert_eq!(op_gr(&l(&[a(&[5]), a(&[5])])), ok(Node::null()));
    assert_eq!(op_gr(&l(&[a(&[0x00, 0x80]), a(&[0x7f])])), ok(a(&[1])));
    assert_eq!(op_gr(&l(&[a(&[0x80]), a(&[0x7f])])), ok(Node::null()));
    assert_eq!(op_gr(&l(&[a(&[]), a(&[0xff])])), ok(a(&[1])));
}

#[test]
fn gr_refuses_pairs() {
    let pair = Node::pair(&a(&[1]), &a(&[2]));
    let args = l(&[pair.clone(), a(&[1])]);
    assert_eq!(op_gr(&args), fails(args.clone(), "> on list"));
    let args = l(&[a(&[1]), pair]);
    assert_eq!(op_gr(&args), fails(args.clone(), "> on list"));
    assert_eq!(op_gr(&l(&[a(&[1])])), fails(Node::null(), "first of non-cons"));
    assert_eq!(op_gr(&Node::null()), fails(Node::null(), "first of non-cons"));
}

#[test]
fn wrap_encodes_its_operand() {
    let tree = Node::pair(&a(&[1]), &Node::null());
    assert_eq!(op_wrap(&l(&[tree])), ok(a(&[0xff, 0x01, 0x80])));
    assert_eq!(op_wrap(&l(&[Node::null()])), ok(a(&[0x80])));
    assert_eq!(op_wrap(&Node::null()), fails(Node::null(), "first of non-cons"));
}

#[test]
fn unwrap_decodes_its_operand() {
    let tree = Node::pair(&a(&[1]), &Node::null());
    assert_eq!(op_unwrap(&l(&[a(&[0xff, 0x01, 0x80])])), ok(tree));
    let args = l(&[a(&[0xff, 0x01])]);
    assert_eq!(op_unwrap(&args), fails(args.clone(), "bad stream"));
    let args = l(&[a(&[0x81, 0x01])]);
    assert_eq!(op_unwrap(&args), fails(args.clone(), "bad stream"));
    let args = l(&[Node::pair(&a(&[1]), &a(&[2]))]);
    assert_eq!(op_unwrap(&args), fails(args.clone(), "bad stream"));
    let args = l(&[Node::null()]);
    assert_eq!(op_unwrap(&args), fails(args.clone(), "bad stream"));
}

#[test]
fn unwrap_undoes_wrap() {
    let tree = l(&[a(b"some"), Node::pair(&a(&[0x80]), &a(&[])), a(&[0; 100])]);
    let Reduction(wrapped, _) = op_wrap(&l(&[tree.clone()])).unwrap();
    assert_eq!(op_unwrap(&l(&[wrapped])), ok(tree));
}

#[test]
fn the_table_holds_fourteen_operators() {
    let table = make_f_lookup();
    let expected: [(usize, Operator); 14] = [
        (4, Operator::If),
        (5, Operator::Cons),
        (6, Operator::First),
        (7, Operator::Rest),
        (8, Operator::Listp),
        (9, Operator::Raise),
        (10, Operator::Eq),
        (11, Operator::Sha256),
        (12, Operator::Add),
        (13, Operator::Subtract),
        (14, Operator::Multiply),
        (16, Operator::Wrap),
        (17, Operator::Unwrap),
        (21, Operator::Sha256Tree),
    ];
    for opcode in 0..256usize {
        let found = expected.iter().find(|(code, _)| *code == opcode).map(|(_, op)| *op);
        assert_eq!(table[opcode], found, "opcode {}", opcode);
    }
}

#[test]
fn operators_apply_their_functions() {
    let args = l(&[a(&[5]), a(&[3])]);
    assert_eq!(Operator::Add.apply(&args), ok(a(&[8])));
    assert_eq!(Operator::Subtract.apply(&args), ok(a(&[2])));
    assert_eq!(Operator::Multiply.apply(&args), ok(a(&[15])));
    assert_eq!(Operator::Gr.apply(&args), ok(a(&[1])));
    assert_eq!(Operator::Eq.apply(&args), ok(Node::null()));
    assert_eq!(Operator::Cons.apply(&args), ok(Node::pair(&a(&[5]), &a(&[3]))));
    assert_eq!(Operator::If.apply(&args), ok(a(&[3])));
    assert_eq!(Operator::Listp.apply(&args), ok(Node::null()));
    assert_eq!(Operator::Raise.apply(&args), fails(a(&[5]), "clvm raise"));
    assert_eq!(Operator::First.apply(&args), fails(a(&[5]), "first of non-cons"));
    assert_eq!(Operator::Rest.apply(&args), fails(a(&[5]), "rest of non-cons"));
    assert_eq!(Operator::Wrap.apply(&args), ok(a(&[0x05])));
    assert_eq!(Operator::Unwrap.apply(&args), ok(a(&[0x05])));
    assert_eq!(Operator::Sha256.apply(&l(&[a(&[1]), a(b"ab")])), ok(a(&HASH_01_AB)));
    assert_eq!(Operator::Sha256Tree.apply(&l(&[Node::blob("ab")])), ok(a(&HASH_01_AB)));
}
