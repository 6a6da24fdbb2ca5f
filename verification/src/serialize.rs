//! The canonical byte encoding of trees.
//!
//! An atom of one byte below `0x80` is that byte. Every other atom is a size
//! prefix of one to five bytes followed by its bytes; the leading bits of the
//! prefix tell how many bytes the prefix has, and the shortest prefix that
//! can hold the length is the only one accepted. A pair is the byte `0xff`
//! followed by its two components.

use crate::number::{lemma_first_byte, lemma_unsigned_bound, lemma_unsigned_take, pow256, unsigned};
use crate::sexp::{Node, SExp, Tree};
use vstd::prelude::*;

verus! {

/// The largest byte that stands for itself.
pub const MAX_SINGLE_BYTE: u8 = 0x7f;

/// The byte that opens a pair.
pub const CONS_BOX_MARKER: u8 = 0xff;

/// One more than the longest atom that can be written.
pub const MAX_ATOM_LEN: u64 = 0x4_0000_0000;

/// Why a byte string is not the encoding of a tree.
#[derive(Debug, Clone, Copy, PartialEq, Eq, Structural)]
pub enum DecodeError {
    /// The bytes end inside a size prefix, inside an atom, or before one of
    /// the two components of a pair.
    Truncated,
    /// The leading byte opens no size class.
    UnknownPrefix,
    /// The bytes can be read, but a shorter encoding stands for the same atom.
    NonCanonical,
}

/// The number of prefix bytes that an atom of length `len` takes; zero if the
/// atom is too long to be written.
pub open spec fn class_of_len(len: nat) -> nat {
    if len < 0x40 {
        1
    } else if len < 0x2000 {
        2
    } else if len < 0x10_0000 {
        3
    } else if len < 0x800_0000 {
        4
    } else if len < 0x4_0000_0000 {
        5
    } else {
        0
    }
}

/// The number of prefix bytes that the leading byte `b` announces, for
/// `0x80 <= b < 0xff`; zero if it announces none.
pub open spec fn class_of_byte(b: u8) -> nat {
    if b < 0xc0 {
        1
    } else if b < 0xe0 {
        2
    } else if b < 0xf0 {
        3
    } else if b < 0xf8 {
        4
    } else if b < 0xfc {
        5
    } else {
        0
    }
}

/// The leading bits of a prefix of `k` bytes, as a byte.
pub open spec fn class_mark(k: nat) -> nat {
    if k == 1 {
        0x80
    } else if k == 2 {
        0xc0
    } else if k == 3 {
        0xe0
    } else if k == 4 {
        0xf0
    } else {
        0xf8
    }
}

/// The smallest length that needs a prefix of `k` bytes.
pub open spec fn class_floor(k: nat) -> nat {
    if k <= 1 {
        0
    } else if k == 2 {
        0x40
    } else if k == 3 {
        0x2000
    } else if k == 4 {
        0x10_0000
    } else {
        0x800_0000
    }
}

/// The `k` low bytes of `v`, most significant first.
pub open spec fn be_bytes(v: nat, k: nat) -> Seq<u8>
    decreases k,
{
    if k == 0 {
        Seq::empty()
    } else {
        be_bytes(v / 256, (k - 1) as nat).push((v % 256) as u8)
    }
}

/// The size prefix for an atom of length `len`: the length, written in as
/// many bytes as its class takes, under the leading bits of that class.
pub open spec fn size_prefix(len: nat) -> Seq<u8> {
    let k = class_of_len(len);
    be_bytes(class_mark(k) * pow256((k - 1) as nat) + len, k)
}

/// The encoding of the atom `bytes`.
pub open spec fn serialize_atom(bytes: Seq<u8>) -> Seq<u8> {
    if bytes.len() == 1 && bytes[0] <= MAX_SINGLE_BYTE {
        bytes
    } else {
        size_prefix(bytes.len()) + bytes
    }
}

/// The encoding of `t`.
pub open spec fn serialize(t: Tree) -> Seq<u8>
    decreases t,
{
    match t {
        Tree::Atom(bytes) => serialize_atom(bytes),
        Tree::Pair(first, rest) => seq![CONS_BOX_MARKER] + serialize(*first) + serialize(*rest),
    }
}

/// True if every atom of `t` is short enough to be written.
pub open spec fn encodable(t: Tree) -> bool
    decreases t,
{
    match t {
        Tree::Atom(bytes) => bytes.len() < MAX_ATOM_LEN,
        Tree::Pair(first, rest) => encodable(*first) && encodable(*rest),
    }
}

/// Reads the atom that begins `s` with a size prefix: its bytes, and how many
/// bytes of `s` it takes. Meant for `0x80 <= s[0] < 0xff`.
pub open spec fn parse_atom(s: Seq<u8>) -> Result<(Seq<u8>, nat), DecodeError> {
    let k = class_of_byte(s[0]);
    let len = unsigned(s.take(k as int)) - class_mark(k) * pow256((k - 1) as nat);
    if k == 0 {
        Err(DecodeError::UnknownPrefix)
    } else if s.len() < k {
        Err(DecodeError::Truncated)
    } else if len < class_floor(k) {
        Err(DecodeError::NonCanonical)
    } else if s.len() < k + len {
        Err(DecodeError::Truncated)
    } else if len == 1 && s[1] <= MAX_SINGLE_BYTE {
        Err(DecodeError::NonCanonical)
    } else {
        Ok((s.subrange(k as int, k + len), (k + len) as nat))
    }
}

/// Reads the tree that begins `s`: the tree, and how many bytes of `s` it
/// takes. Bytes after it are not looked at.
///
/// For a pair the definition asks that the first component take fewer bytes
/// than `s` has, which makes it well founded; by [`lemma_parse_bounds`] it
/// never takes more than follow the marker.
pub open spec fn parse(s: Seq<u8>) -> Result<(Tree, nat), DecodeError>
    decreases s.len(),
{
    if s.len() == 0 {
        Err(DecodeError::Truncated)
    } else if s[0] == CONS_BOX_MARKER {
        match parse(s.skip(1)) {
            Err(e) => Err(e),
            Ok((first, n1)) => if n1 >= s.len() {
                Err(DecodeError::Truncated)
            } else {
                match parse(s.skip(1 + n1 as int)) {
                    Err(e) => Err(e),
                    Ok((rest, n2)) => Ok((Tree::cons(first, rest), 1 + n1 + n2)),
                }
            },
        }
    } else if s[0] <= MAX_SINGLE_BYTE {
        Ok((Tree::Atom(seq![s[0]]), 1))
    } else {
        match parse_atom(s) {
            Err(e) => Err(e),
            Ok((bytes, n)) => Ok((Tree::Atom(bytes), n)),
        }
    }
}

/// Why a tree has no encoding.
#[derive(Debug, Clone, Copy, PartialEq, Eq, Structural)]
pub enum EncodeError {
    /// An atom of the tree is too long for the largest size class.
    AtomTooLong,
}

/// What `parse` reads is never longer than what it is given, and never empty.
pub proof fn lemma_parse_bounds(s: Seq<u8>)
    ensures
        parse(s) matches Ok((_, n)) ==> 1 <= n <= s.len(),
    decreases s.len(),
{
    if s.len() > 0 && s[0] == CONS_BOX_MARKER {
        lemma_parse_bounds(s.skip(1));
        if let Ok((_, n1)) = parse(s.skip(1)) {
            if n1 < s.len() {
                lemma_parse_bounds(s.skip(1 + n1 as int));
            }
        }
    }
}

/// Appends the `k` low bytes of `v` to `out`, most significant first.
fn write_be(v: u64, k: u8, out: &mut Vec<u8>)
    requires
        k <= 5,
    ensures
        final(out)@ == old(out)@ + be_bytes(v as nat, k as nat),
    decreases k,
{
    if k == 0 {
        assert(old(out)@ + be_bytes(v as nat, 0) =~= old(out)@);
    } else {
        write_be(v / 256, k - 1, out);
        out.push((v % 256) as u8);
        assert(final(out)@ =~= old(out)@ + be_bytes(v as nat, k as nat));
    }
}

/// The number of prefix bytes for an atom of length `len`.
fn size_class(len: u64) -> (k: u8)
    ensures
        k == class_of_len(len as nat),
        k <= 5,
{
    if len < 0x40 {
        1
    } else if len < 0x2000 {
        2
    } else if len < 0x10_0000 {
        3
    } else if len < 0x800_0000 {
        4
    } else if len < 0x4_0000_0000 {
        5
    } else {
        0
    }
}

/// The leading bits of a prefix of `k` bytes, shifted to the head of `k`
/// bytes.
fn class_base(k: u8) -> (base: u64)
    requires
        1 <= k <= 5,
    ensures
        base == class_mark(k as nat) * pow256((k - 1) as nat),
        base <= 0xf8_0000_0000,
{
    reveal_with_fuel(pow256, 6);
    if k == 1 {
        0x80
    } else if k == 2 {
        0xc000
    } else if k == 3 {
        0xe0_0000
    } else if k == 4 {
        0xf000_0000
    } else {
        0xf8_0000_0000
    }
}

/// Appends the encoding of the atom `bytes` to `out`, if it has one.
fn write_atom(bytes: &[u8], out: &mut Vec<u8>) -> (r: Result<(), EncodeError>)
    ensures
        (r is Ok) == (bytes@.len() < MAX_ATOM_LEN),
        r is Ok ==> final(out)@ == old(out)@ + serialize_atom(bytes@),
{
    let len = bytes.len() as u64;
    if len == 1 && bytes[0] <= MAX_SINGLE_BYTE {
        out.push(bytes[0]);
        assert(final(out)@ =~= old(out)@ + bytes@);
        return Ok(());
    }
    let k = size_class(len);
    if k == 0 {
        return Err(EncodeError::AtomTooLong);
    }
    let base = class_base(k);
    write_be(base + len, k, out);
    out.extend_from_slice(bytes);
    assert(final(out)@ =~= old(out)@ + (size_prefix(bytes@.len()) + bytes@));
    Ok(())
}

/// Appends the encoding of `node` to `out`, if it has one.
fn write_node(node: &Node, out: &mut Vec<u8>) -> (r: Result<(), EncodeError>)
    ensures
        (r is Ok) == encodable(node@),
        r is Ok ==> final(out)@ == old(out)@ + serialize(node@),
    decreases node@.height(),
{
    match &*node.0 {
        SExp::Atom(bytes) => write_atom(bytes.as_slice(), out),
        SExp::Pair(first, rest) => {
            out.push(CONS_BOX_MARKER);
            write_node(first, out)?;
            write_node(rest, out)?;
            assert(final(out)@ =~= old(out)@ + (seq![CONS_BOX_MARKER] + serialize(first@)
                + serialize(rest@)));
            Ok(())
        },
    }
}

/// The canonical encoding of `node`. A tree has one unless one of its atoms
/// is too long.
pub fn node_to_bytes(node: &Node) -> (r: Result<Vec<u8>, EncodeError>)
    ensures
        match r {
            Ok(bytes) => encodable(node@) && bytes@ == serialize(node@),
            Err(_) => !encodable(node@),
        },
{
    let mut out: Vec<u8> = Vec::new();
    write_node(node, &mut out)?;
    assert(out@ =~= serialize(node@));
    Ok(out)
}

/// The number of prefix bytes that the leading byte `b` announces.
fn prefix_class(b: u8) -> (k: u8)
    ensures
        k == class_of_byte(b),
        k <= 5,
{
    if b < 0xc0 {
        1
    } else if b < 0xe0 {
        2
    } else if b < 0xf0 {
        3
    } else if b < 0xf8 {
        4
    } else if b < 0xfc {
        5
    } else {
        0
    }
}

/// The smallest length that needs a prefix of `k` bytes.
fn size_floor(k: u8) -> (floor: u64)
    ensures
        floor == class_floor(k as nat),
{
    if k <= 1 {
        0
    } else if k == 2 {
        0x40
    } else if k == 3 {
        0x2000
    } else if k == 4 {
        0x10_0000
    } else {
        0x800_0000
    }
}

/// The number that the `k` bytes from `at` stand for, most significant first.
fn read_be(bytes: &[u8], at: usize, k: u8) -> (v: u64)
    requires
        k <= 5,
        at + k <= bytes.len(),
    ensures
        v == unsigned(bytes@.skip(at as int).take(k as int)),
{
    let ghost s = bytes@.skip(at as int);
    let mut v: u64 = 0;
    let mut i: u8 = 0;
    proof {
        reveal_with_fuel(pow256, 6);
    }
    while i < k
        invariant
            i <= k <= 5,
            at + k <= bytes.len(),
            s == bytes@.skip(at as int),
            v == unsigned(s.take(i as int)),
            v < pow256(i as nat),
        decreases k - i,
    {
        proof {
            reveal_with_fuel(pow256, 6);
            lemma_unsigned_take(s, i as int);
            lemma_unsigned_bound(s.take(i + 1));
        }
        v = v * 256 + bytes[at + i as usize] as u64;
        i += 1;
    }
    v
}

/// Reads the tree that begins at `at`: the tree, and where it ends.
fn read_node(bytes: &[u8], at: usize) -> (r: Result<(Node, usize), DecodeError>)
    requires
        at <= bytes.len(),
    ensures
        match parse(bytes@.skip(at as int)) {
            Ok((t, n)) => r matches Ok(read) && read.0@ == t && read.1 == at + n,
            Err(e) => r == Err::<(Node, usize), DecodeError>(e),
        },
    decreases bytes.len() - at,
{
    let ghost s = bytes@.skip(at as int);
    if at == bytes.len() {
        return Err(DecodeError::Truncated);
    }
    let b = bytes[at];
    if b == CONS_BOX_MARKER {
        proof {
            assert(s.skip(1) =~= bytes@.skip(at + 1));
            lemma_parse_bounds(s.skip(1));
        }
        let (first, mid) = read_node(bytes, at + 1)?;
        proof {
            assert(s.skip(1 + (mid - at - 1)) =~= bytes@.skip(mid as int));
            lemma_parse_bounds(bytes@.skip(mid as int));
        }
        let (rest, end) = read_node(bytes, mid)?;
        return Ok((Node::pair(&first, &rest), end));
    }
    if b <= MAX_SINGLE_BYTE {
        let atom = Node::blob_u8(vstd::slice::slice_subrange(bytes, at, at + 1));
        assert(atom@.bytes() =~= seq![b]);
        return Ok((atom, at + 1));
    }
    let k = prefix_class(b);
    if k == 0 {
        return Err(DecodeError::UnknownPrefix);
    }
    if bytes.len() - at < k as usize {
        return Err(DecodeError::Truncated);
    }
    let raw = read_be(bytes, at, k);
    let base = class_base(k);
    proof {
        reveal_with_fuel(pow256, 6);
        lemma_unsigned_bound(s.take(k as int));
        lemma_first_byte(s.take(k as int));
        let weight = pow256((k - 1) as nat);
        assert(b * weight >= class_mark(k as nat) * weight) by (nonlinear_arith)
            requires
                b >= class_mark(k as nat),
                weight >= 0,
        ;
    }
    let len = raw - base;
    if len < size_floor(k) {
        return Err(DecodeError::NonCanonical);
    }
    let left = bytes.len() - at - k as usize;
    if (left as u64) < len {
        return Err(DecodeError::Truncated);
    }
    if len == 1 && bytes[at + 1] <= MAX_SINGLE_BYTE {
        return Err(DecodeError::NonCanonical);
    }
    let start = at + k as usize;
    let end = start + len as usize;
    let atom = Node::blob_u8(vstd::slice::slice_subrange(bytes, start, end));
    assert(atom@.bytes() =~= s.subrange(k as int, k + len));
    Ok((atom, end))
}

/// The tree whose canonical encoding begins `bytes`: see [`parse`]. Bytes
/// after the encoding are not looked at.
pub fn node_from_bytes(bytes: &[u8]) -> (r: Result<Node, DecodeError>)
    ensures
        match parse(bytes@) {
            Ok((t, _)) => r matches Ok(node) && node@ == t,
            Err(e) => r == Err::<Node, DecodeError>(e),
        },
{
    assert(bytes@.skip(0) =~= bytes@);
    let (node, _) = read_node(bytes, 0)?;
    Ok(node)
}

/// Writing a number in `k` bytes and reading the bytes gives the number back,
/// if it fits.
pub proof fn lemma_unsigned_be_bytes(v: nat, k: nat)
    requires
        v < pow256(k),
    ensures
        be_bytes(v, k).len() == k,
        unsigned(be_bytes(v, k)) == v,
    decreases k,
{
    if k > 0 {
        lemma_unsigned_be_bytes(v / 256, (k - 1) as nat);
        assert(be_bytes(v, k).drop_last() =~= be_bytes(v / 256, (k - 1) as nat));
    }
}

/// Reading bytes as a number and writing it in as many bytes gives the bytes
/// back.
pub proof fn lemma_be_bytes_unsigned(bytes: Seq<u8>)
    ensures
        be_bytes(unsigned(bytes), bytes.len()) == bytes,
    decreases bytes.len(),
{
    if bytes.len() > 0 {
        lemma_be_bytes_unsigned(bytes.drop_last());
        assert(bytes.drop_last().push(bytes.last()) =~= bytes);
    } else {
        assert(bytes =~= Seq::<u8>::empty());
    }
}

/// The smallest length that is too long for a prefix of `k` bytes.
pub open spec fn class_limit(k: nat) -> nat {
    if k <= 1 {
        0x40
    } else if k == 2 {
        0x2000
    } else if k == 3 {
        0x10_0000
    } else if k == 4 {
        0x800_0000
    } else {
        0x4_0000_0000
    }
}

/// For `k` bytes that stand for `v` and begin with the byte `head`: `head`
/// announces the class `k` exactly if `v` is a length of that class under the
/// leading bits of the class.
pub proof fn lemma_head_of_class(head: nat, v: nat, k: nat)
    requires
        1 <= k <= 5,
        head < 256,
        head * pow256((k - 1) as nat) <= v < (head + 1) * pow256((k - 1) as nat),
    ensures
        (head >= 0x80 && class_of_byte(head as u8) == k) <==> (class_mark(k) * pow256(
            (k - 1) as nat,
        ) <= v < class_mark(k) * pow256((k - 1) as nat) + class_limit(k)),
{
    reveal_with_fuel(pow256, 6);
    let p = pow256((k - 1) as nat) as int;
    let c: int = if k == 1 {
        1
    } else if k == 2 {
        0x100
    } else if k == 3 {
        0x1_0000
    } else if k == 4 {
        0x100_0000
    } else {
        0x1_0000_0000
    };
    let mark = class_mark(k) as int;
    assert(p == c);
    assert(head * p == head * c && (head + 1) * p == (head + 1) * c && mark * p == mark * c)
        by (nonlinear_arith)
        requires
            p == c,
    ;
}


/// The size prefix of a length that can be written: it has as many bytes as
/// the class of the length takes, its first byte announces that class, and it
/// stands for the length under the leading bits of the class.
pub proof fn lemma_size_prefix(len: nat)
    requires
        len < MAX_ATOM_LEN,
    ensures
        1 <= class_of_len(len) <= 5,
        size_prefix(len).len() == class_of_len(len),
        size_prefix(len)[0] >= 0x80,
        class_of_byte(size_prefix(len)[0]) == class_of_len(len),
        unsigned(size_prefix(len)) == class_mark(class_of_len(len)) * pow256(
            (class_of_len(len) - 1) as nat,
        ) + len,
        len >= class_floor(class_of_len(len)),
{
    reveal_with_fuel(pow256, 6);
    let k = class_of_len(len);
    let v = class_mark(k) * pow256((k - 1) as nat) + len;
    lemma_unsigned_be_bytes(v, k);
    lemma_first_byte(size_prefix(len));
    lemma_head_of_class(size_prefix(len)[0] as nat, v, k);
}

/// Decoding undoes encoding: a tree that can be written is read back from its
/// encoding, whatever bytes follow it, and the reading takes exactly the
/// bytes of the encoding.
pub proof fn lemma_parse_serialize(t: Tree, rest: Seq<u8>)
    requires
        encodable(t),
    ensures
        parse(serialize(t) + rest) == Ok::<(Tree, nat), DecodeError>((t, serialize(t).len())),
    decreases t,
{
    let s = serialize(t) + rest;
    match t {
        Tree::Atom(bytes) => {
            if bytes.len() == 1 && bytes[0] <= MAX_SINGLE_BYTE {
                assert(seq![s[0]] =~= bytes);
            } else {
                let len = bytes.len();
                let k = class_of_len(len);
                lemma_size_prefix(len);
                let prefix = size_prefix(len);
                assert(s.take(k as int) =~= prefix);
                assert(s[0] == prefix[0]);
                assert(s.subrange(k as int, (k + len) as int) =~= bytes);
                if len == 1 {
                    assert(s[1] == bytes[0]);
                }
            }
        },
        Tree::Pair(first, second) => {
            let a = serialize(*first);
            let b = serialize(*second);
            assert(s.skip(1) =~= a + (b + rest));
            lemma_parse_serialize(*first, b + rest);
            assert(s.skip(1 + a.len() as int) =~= b + rest);
            lemma_parse_serialize(*second, rest);
            assert(*first == *first);
            assert(t == Tree::cons(*first, *second));
        },
    }
}

/// Trees with the same encoding are the same tree.
pub proof fn lemma_serialize_injective(a: Tree, b: Tree)
    requires
        encodable(a),
        encodable(b),
        serialize(a) == serialize(b),
    ensures
        a == b,
{
    lemma_parse_serialize(a, Seq::empty());
    lemma_parse_serialize(b, Seq::empty());
}

/// Decoding accepts canonical encodings only: whatever `parse` reads, the
/// bytes that it took are the encoding of the tree that it gives.
pub proof fn lemma_serialize_parse(s: Seq<u8>)
    ensures
        parse(s) matches Ok((t, n)) ==> encodable(t) && n <= s.len() && s.take(n as int)
            == serialize(t),
    decreases s.len(),
{
    lemma_parse_bounds(s);
    if s.len() == 0 {
    } else if s[0] == CONS_BOX_MARKER {
        lemma_serialize_parse(s.skip(1));
        lemma_parse_bounds(s.skip(1));
        if let Ok((first, n1)) = parse(s.skip(1)) {
            if n1 < s.len() {
                lemma_serialize_parse(s.skip(1 + n1 as int));
                lemma_parse_bounds(s.skip(1 + n1 as int));
                if let Ok((second, n2)) = parse(s.skip(1 + n1 as int)) {
                    let n = 1 + n1 + n2;
                    assert(s.take(n as int) =~= seq![CONS_BOX_MARKER] + s.skip(1).take(n1 as int)
                        + s.skip(1 + n1 as int).take(n2 as int));
                }
            }
        }
    } else if s[0] <= MAX_SINGLE_BYTE {
        assert(s.take(1) =~= seq![s[0]]);
    } else {
        if let Ok((bytes, n)) = parse_atom(s) {
            reveal_with_fuel(pow256, 6);
            let k = class_of_byte(s[0]);
            let prefix = s.take(k as int);
            let len = bytes.len();
            lemma_first_byte(prefix);
            lemma_unsigned_bound(prefix);
            lemma_be_bytes_unsigned(prefix);
            lemma_head_of_class(s[0] as nat, unsigned(prefix), k);
            assert(class_of_len(len) == k);
            assert(size_prefix(len) == prefix);
            assert(s.take(n as int) =~= prefix + bytes);
        }
    }
}

} // verus!
