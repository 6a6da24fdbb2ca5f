//! Numbers: whole numbers of any size, and the byte strings that stand for
//! them. An atom is read as a big-endian two's-complement number of its own
//! length; a number is written as the shortest such atom.

use crate::sexp::{Node, Tree};
use vstd::prelude::*;

verus! {

/// 256 to the power `n`.
pub open spec fn pow256(n: nat) -> nat
    decreases n,
{
    if n == 0 {
        1
    } else {
        256 * pow256((n - 1) as nat)
    }
}

/// The bytes read as a big-endian number without sign.
pub open spec fn unsigned(bytes: Seq<u8>) -> nat
    decreases bytes.len(),
{
    if bytes.len() == 0 {
        0
    } else {
        unsigned(bytes.drop_last()) * 256 + bytes.last() as nat
    }
}

/// The bytes read as a big-endian two's-complement number. The empty string
/// is zero.
pub open spec fn decode(bytes: Seq<u8>) -> int {
    if bytes.len() > 0 && bytes[0] >= 128 {
        unsigned(bytes) - pow256(bytes.len())
    } else {
        unsigned(bytes) as int
    }
}

/// The shortest two's-complement string of at least one byte that stands for
/// `n`.
pub open spec fn signed_bytes(n: int) -> Seq<u8>
    decreases
            if n >= 0 {
                n
            } else {
                -n
            },
{
    if -128 <= n < 128 {
        seq![(n % 256) as u8]
    } else {
        signed_bytes(n / 256).push((n % 256) as u8)
    }
}

/// The canonical string for `n`: the shortest two's-complement string that
/// stands for it. Zero is the empty string.
pub open spec fn encode(n: int) -> Seq<u8> {
    if n == 0 {
        Seq::empty()
    } else {
        signed_bytes(n)
    }
}

/// A string of one byte stands for that byte.
pub proof fn lemma_unsigned_one(bytes: Seq<u8>)
    requires
        bytes.len() == 1,
    ensures
        unsigned(bytes) == bytes[0],
        pow256(1) == 256,
{
    reveal_with_fuel(unsigned, 2);
    reveal_with_fuel(pow256, 2);
    assert(bytes.drop_last() =~= Seq::<u8>::empty());
}

/// A string of zero bytes stands for zero.
pub proof fn lemma_unsigned_zeros(bytes: Seq<u8>)
    requires
        forall|i: int| 0 <= i < bytes.len() ==> bytes[i] == 0,
    ensures
        unsigned(bytes) == 0,
    decreases bytes.len(),
{
    if bytes.len() > 0 {
        lemma_unsigned_zeros(bytes.drop_last());
    }
}

/// A string with a byte that is not zero stands for a number above zero.
pub proof fn lemma_unsigned_positive(bytes: Seq<u8>, i: int)
    requires
        0 <= i < bytes.len(),
        bytes[i] != 0,
    ensures
        unsigned(bytes) >= 1,
    decreases bytes.len(),
{
    if i < bytes.len() - 1 {
        lemma_unsigned_positive(bytes.drop_last(), i);
    }
}

/// The value of the first `n + 1` bytes, from that of the first `n`.
pub proof fn lemma_unsigned_take(bytes: Seq<u8>, n: int)
    requires
        0 <= n < bytes.len(),
    ensures
        unsigned(bytes.take(n + 1)) == unsigned(bytes.take(n)) * 256 + bytes[n] as nat,
{
    assert(bytes.take(n + 1).drop_last() =~= bytes.take(n));
}

/// The bytes stand for a number below 256 to the power of their count.
pub proof fn lemma_unsigned_bound(bytes: Seq<u8>)
    ensures
        unsigned(bytes) < pow256(bytes.len()),
    decreases bytes.len(),
{
    if bytes.len() > 0 {
        lemma_unsigned_bound(bytes.drop_last());
    }
}

/// The bytes stand for at least their first byte times 256 to the power of
/// the count of the others, and for less than that of the next byte.
pub proof fn lemma_first_byte(bytes: Seq<u8>)
    requires
        bytes.len() > 0,
    ensures
        bytes[0] * pow256((bytes.len() - 1) as nat) <= unsigned(bytes) < (bytes[0] + 1) * pow256(
            (bytes.len() - 1) as nat,
        ),
    decreases bytes.len(),
{
    let head = bytes[0] as int;
    if bytes.len() > 1 {
        let front = bytes.drop_last();
        lemma_first_byte(front);
        let w = pow256((front.len() - 1) as nat) as int;
        let low = head * w;
        let high = (head + 1) * w;
        assert(front[0] == bytes[0]);
        assert(pow256((bytes.len() - 1) as nat) == 256 * w);
        assert(head * (256 * w) == low * 256) by (nonlinear_arith)
            requires
                low == head * w,
        ;
        assert((head + 1) * (256 * w) == high * 256) by (nonlinear_arith)
            requires
                high == (head + 1) * w,
        ;
        assert(low <= unsigned(front) < high);
        assert(unsigned(bytes) == unsigned(front) * 256 + bytes.last() as nat);
    } else {
        assert(bytes.drop_last() =~= Seq::<u8>::empty());
        assert(unsigned(bytes.drop_last()) == 0);
        assert(pow256(0) == 1);
        assert(head * 1 == head && (head + 1) * 1 == head + 1);
    }
}

/// Every power of 256 is at least one.
pub proof fn lemma_pow256_positive(n: nat)
    ensures
        pow256(n) >= 1,
    decreases n,
{
    if n > 0 {
        lemma_pow256_positive((n - 1) as nat);
    }
}

/// The power of a sum is the product of the powers.
pub proof fn lemma_pow256_sum(a: nat, b: nat)
    ensures
        pow256(a + b) == pow256(a) * pow256(b),
    decreases a,
{
    if a > 0 {
        lemma_pow256_sum((a - 1) as nat, b);
        let x = pow256((a - 1) as nat);
        let y = pow256(b);
        assert(256 * (x * y) == (256 * x) * y) by (nonlinear_arith);
    } else {
        assert(1 * pow256(b) == pow256(b));
    }
}

/// A larger exponent gives no smaller power.
pub proof fn lemma_pow256_monotonic(a: nat, b: nat)
    requires
        a <= b,
    ensures
        pow256(a) <= pow256(b),
    decreases b,
{
    if a < b {
        lemma_pow256_monotonic(a, (b - 1) as nat);
    }
}

/// The value of a string with one more byte in front.
pub proof fn lemma_unsigned_prepend(b: u8, bytes: Seq<u8>)
    ensures
        unsigned(seq![b] + bytes) == b * pow256(bytes.len()) + unsigned(bytes),
    decreases bytes.len(),
{
    let whole = seq![b] + bytes;
    if bytes.len() == 0 {
        lemma_unsigned_one(whole);
        assert(pow256(0) == 1);
        assert(b * 1 == b as int);
        assert(unsigned(bytes) == 0);
    } else {
        let shorter = bytes.drop_last();
        assert(whole.drop_last() =~= seq![b] + shorter);
        assert(whole.last() == bytes.last());
        lemma_unsigned_prepend(b, shorter);
        let w = pow256(shorter.len()) as int;
        let head = b as int;
        assert(pow256(bytes.len()) == 256 * w);
        assert(head * (256 * w) == (head * w) * 256) by (nonlinear_arith);
        assert(unsigned(whole) == unsigned(seq![b] + shorter) * 256 + bytes.last());
        assert(unsigned(bytes) == unsigned(shorter) * 256 + bytes.last());
    }
}

/// The number that the last `count` bytes stand for.
pub open spec fn low(bytes: Seq<u8>, count: nat) -> nat {
    unsigned(bytes.skip(bytes.len() - count))
}

/// The value of the last `count + 1` bytes, from that of the last `count`.
pub proof fn lemma_low_step(bytes: Seq<u8>, count: nat)
    requires
        count < bytes.len(),
    ensures
        low(bytes, count + 1) == bytes[bytes.len() - 1 - count] * pow256(count) + low(
            bytes,
            count,
        ),
{
    let at = bytes.len() - 1 - count;
    assert(bytes.skip(at) =~= seq![bytes[at]] + bytes.skip(at + 1));
    lemma_unsigned_prepend(bytes[at], bytes.skip(at + 1));
}

/// The value of a string, from those of its first bytes and of its last
/// `count` bytes.
pub proof fn lemma_unsigned_split(bytes: Seq<u8>, count: nat)
    requires
        count <= bytes.len(),
    ensures
        unsigned(bytes) == unsigned(bytes.take(bytes.len() - count)) * pow256(count) + low(
            bytes,
            count,
        ),
    decreases count,
{
    if count == 0 {
        assert(bytes.take(bytes.len() as int) =~= bytes);
        assert(bytes.skip(bytes.len() as int) =~= Seq::<u8>::empty());
        assert(unsigned(bytes) * 1 == unsigned(bytes));
    } else {
        let fewer = (count - 1) as nat;
        lemma_unsigned_split(bytes, fewer);
        lemma_low_step(bytes, fewer);
        lemma_unsigned_take(bytes, bytes.len() - count);
        let front = unsigned(bytes.take(bytes.len() - count)) as int;
        let digit = bytes[bytes.len() - count] as int;
        let w = pow256(fewer) as int;
        assert((front * 256 + digit) * w == front * (256 * w) + digit * w) by (nonlinear_arith);
        assert(pow256(count) == 256 * w);
        assert(unsigned(bytes.take(bytes.len() - fewer)) == front * 256 + digit);
    }
}

/// The byte that extends a string on the left without changing its number:
/// `0xff` for a negative number, zero for any other.
pub open spec fn fill_of(bytes: Seq<u8>) -> u8 {
    if bytes.len() > 0 && bytes[0] >= 128 {
        0xff
    } else {
        0
    }
}

/// `bytes` extended on the left to `len` bytes.
pub open spec fn extended(bytes: Seq<u8>, len: nat) -> Seq<u8> {
    Seq::new(
        len,
        |j: int|
            if j < len - bytes.len() {
                fill_of(bytes)
            } else {
                bytes[j - (len - bytes.len())]
            },
    )
}

/// One more byte of the sign in front changes nothing.
pub proof fn lemma_decode_redundant(bytes: Seq<u8>)
    ensures
        decode(seq![fill_of(bytes)] + bytes) == decode(bytes),
{
    lemma_unsigned_prepend(fill_of(bytes), bytes);
    if bytes.len() == 0 {
        assert((seq![fill_of(bytes)] + bytes).drop_last() =~= Seq::<u8>::empty());
    } else {
        let w = pow256(bytes.len());
        assert(0 * w == 0);
        assert(255 * w == 256 * w - w);
    }
}

/// Extending a string on the left does not change its number.
pub proof fn lemma_decode_extended(bytes: Seq<u8>, len: nat)
    requires
        len >= bytes.len(),
    ensures
        decode(extended(bytes, len)) == decode(bytes),
    decreases len - bytes.len(),
{
    if len == bytes.len() {
        assert(extended(bytes, len) =~= bytes);
    } else {
        let shorter = extended(bytes, (len - 1) as nat);
        lemma_decode_extended(bytes, (len - 1) as nat);
        assert(fill_of(shorter) == fill_of(bytes));
        assert(extended(bytes, len) =~= seq![fill_of(shorter)] + shorter);
        lemma_decode_redundant(shorter);
    }
}

/// A string of `n` bytes stands for a number of at most half of 256 to the
/// power `n` in size.
pub proof fn lemma_decode_range(bytes: Seq<u8>)
    ensures
        -pow256(bytes.len()) <= 2 * decode(bytes) < pow256(bytes.len()),
{
    if bytes.len() > 0 {
        lemma_first_byte(bytes);
        let w = pow256((bytes.len() - 1) as nat) as int;
        let head = bytes[0] as int;
        assert(head >= 128 ==> head * w >= 128 * w) by (nonlinear_arith)
            requires
                w >= 0,
        ;
        assert(head < 128 ==> (head + 1) * w <= 128 * w) by (nonlinear_arith)
            requires
                w >= 0,
        ;
        assert((head + 1) * w <= 256 * w) by (nonlinear_arith)
            requires
                w >= 0,
                head < 256,
        ;
    }
}

/// The number of a string with one more byte behind.
pub proof fn lemma_decode_push(bytes: Seq<u8>, b: u8)
    requires
        bytes.len() > 0,
    ensures
        decode(bytes.push(b)) == decode(bytes) * 256 + b,
{
    assert(bytes.push(b).drop_last() =~= bytes);
}

/// True if the string has at least one byte and no byte in front that could
/// be left out.
pub open spec fn minimal(bytes: Seq<u8>) -> bool {
    bytes.len() >= 1 && (bytes.len() >= 2 ==> !(bytes[0] == 0 && bytes[1] < 128) && !(bytes[0]
        == 255 && bytes[1] >= 128))
}

/// A minimal string is the shortest for its number, and stands for a number
/// outside of what one byte holds unless it is one byte.
pub proof fn lemma_minimal(bytes: Seq<u8>)
    requires
        minimal(bytes),
    ensures
        signed_bytes(decode(bytes)) == bytes,
        bytes.len() >= 2 ==> !(-128 <= decode(bytes) < 128),
    decreases bytes.len(),
{
    if bytes.len() == 1 {
        lemma_unsigned_one(bytes);
        assert(seq![bytes[0]] =~= bytes);
    } else {
        let front = bytes.drop_last();
        let last = bytes.last();
        assert(front.push(last) =~= bytes);
        lemma_decode_push(front, last);
        if front.len() == 1 {
            lemma_unsigned_one(front);
            assert(signed_bytes(decode(front)) =~= front);
        } else {
            lemma_minimal(front);
        }
        let n = decode(bytes);
        assert(n == decode(front) * 256 + last);
        assert(!(-128 <= n < 128));
        assert(n / 256 == decode(front) && n % 256 == last as int);
    }
}

/// The shortest string for a number stands for that number.
pub proof fn lemma_decode_signed_bytes(n: int)
    ensures
        signed_bytes(n).len() >= 1,
        decode(signed_bytes(n)) == n,
        minimal(signed_bytes(n)),
    decreases
            if n >= 0 {
                n
            } else {
                -n
            },
{
    reveal_with_fuel(pow256, 2);
    if -128 <= n < 128 {
        lemma_unsigned_one(signed_bytes(n));
    } else {
        let front = signed_bytes(n / 256);
        lemma_decode_signed_bytes(n / 256);
        lemma_decode_push(front, (n % 256) as u8);
        let s = signed_bytes(n);
        assert(s[0] == front[0]);
        if front.len() >= 2 {
            assert(s[1] == front[1]);
        } else {
            lemma_unsigned_one(front);
            assert(s[1] == (n % 256) as u8);
        }
    }
}

/// Reading undoes writing: the canonical string for a number stands for that
/// number.
pub proof fn lemma_decode_encode(n: int)
    ensures
        decode(encode(n)) == n,
{
    if n != 0 {
        lemma_decode_signed_bytes(n);
    }
}

/// Writing canonicalizes: the canonical string for the number of a string is
/// that string with the bytes in front left out that do not change its
/// number, and a string is canonical exactly if nothing can be left out.
pub proof fn lemma_encode_decode(bytes: Seq<u8>)
    ensures
        encode(decode(bytes)) == bytes <==> (bytes.len() == 0 || (minimal(bytes) && !(bytes.len()
            == 1 && bytes[0] == 0))),
{
    reveal_with_fuel(pow256, 2);
    if bytes.len() == 0 {
        assert(bytes =~= Seq::<u8>::empty());
    } else if minimal(bytes) {
        lemma_minimal(bytes);
        if bytes.len() == 1 {
            lemma_unsigned_one(bytes);
        }
    } else {
        if decode(bytes) != 0 {
            lemma_decode_signed_bytes(decode(bytes));
        }
    }
}

/// Two numbers in the same range of size `m` around zero that differ by a
/// multiple of `m` are the same number.
pub proof fn lemma_same_residue(x: int, y: int, q: int, m: int)
    requires
        x - y == q * m,
        -m <= 2 * x < m,
        -m <= 2 * y < m,
    ensures
        x == y,
{
    assert(q == 0) by (nonlinear_arith)
        requires
            x - y == q * m,
            -m < x - y < m,
    ;
}

/// What an extended string stands for without sign: the number of the string,
/// and 256 to the power of the length more if that number is negative.
pub proof fn lemma_unsigned_extended(bytes: Seq<u8>, len: nat)
    requires
        len >= bytes.len(),
        len >= 1,
    ensures
        unsigned(extended(bytes, len)) == decode(bytes) + if fill_of(bytes) == 0 {
            0
        } else {
            pow256(len) as int
        },
{
    lemma_decode_extended(bytes, len);
    let wide = extended(bytes, len);
    if bytes.len() > 0 {
        assert(wide[0] == if len > bytes.len() {
            fill_of(bytes)
        } else {
            bytes[0]
        });
    }
}

/// The byte of `bytes`, extended on the left, that is `i` places from its
/// end.
fn digit(bytes: &[u8], i: usize, fill: u8, Ghost(len): Ghost<nat>) -> (d: u8)
    requires
        fill == fill_of(bytes@),
        i < len,
        len >= bytes@.len(),
    ensures
        d == extended(bytes@, len)[len - 1 - i],
{
    if i < bytes.len() {
        bytes[bytes.len() - 1 - i]
    } else {
        fill
    }
}

/// The byte that extends `bytes` on the left.
fn fill(bytes: &[u8]) -> (f: u8)
    ensures
        f == fill_of(bytes@),
{
    if bytes.len() > 0 && bytes[0] >= 128 {
        0xff
    } else {
        0
    }
}

/// A string of `count` zero bytes, and one more if `one_more`.
fn zeros(count: usize, one_more: bool) -> (out: Vec<u8>)
    ensures
        out@.len() == count + if one_more {
            1int
        } else {
            0int
        },
        forall|i: int| 0 <= i < out@.len() ==> out@[i] == 0,
{
    let mut out: Vec<u8> = Vec::new();
    let mut i: usize = 0;
    while i < count
        invariant
            i <= count,
            out@.len() == i,
            forall|k: int| 0 <= k < out@.len() ==> out@[k] == 0,
        decreases count - i,
    {
        out.push(0);
        i += 1;
    }
    if one_more {
        out.push(0);
    }
    out
}

/// The sum of two numbers, or their difference if `subtract`, as a string
/// that need not be the shortest.
fn add_sub(a: &[u8], b: &[u8], subtract: bool) -> (out: Vec<u8>)
    ensures
        decode(out@) == if subtract {
            decode(a@) - decode(b@)
        } else {
            decode(a@) + decode(b@)
        },
{
    let longer = if a.len() >= b.len() {
        a.len()
    } else {
        b.len()
    };
    let mut out = zeros(longer, true);
    let len = out.len();
    let fill_a = fill(a);
    let fill_b = fill(b);
    let ghost wide_a = extended(a@, len as nat);
    let ghost wide_b = extended(b@, len as nat);
    let mut carry: u16 = if subtract {
        1
    } else {
        0
    };
    let mut i: usize = 0;
    proof {
        assert(out@.skip(len as int) =~= Seq::<u8>::empty());
        assert(wide_a.skip(len as int) =~= Seq::<u8>::empty());
        assert(wide_b.skip(len as int) =~= Seq::<u8>::empty());
    }
    while i < len
        invariant
            i <= len,
            len == out@.len(),
            len == longer + 1,
            longer >= a@.len(),
            longer >= b@.len(),
            fill_a == fill_of(a@),
            fill_b == fill_of(b@),
            wide_a == extended(a@, len as nat),
            wide_b == extended(b@, len as nat),
            carry <= 1,
            low(out@, i as nat) + carry * pow256(i as nat) == low(wide_a, i as nat) + if subtract {
                pow256(i as nat) - low(wide_b, i as nat)
            } else {
                low(wide_b, i as nat) as int
            },
        decreases len - i,
    {
        let da = digit(a, i, fill_a, Ghost(len as nat));
        let db = digit(b, i, fill_b, Ghost(len as nat));
        let used: u8 = if subtract {
            255 - db
        } else {
            db
        };
        let total: u16 = da as u16 + used as u16 + carry;
        let ghost before = out@;
        let ghost old_carry = carry as int;
        out.set(len - 1 - i, (total % 256) as u8);
        carry = total / 256;
        proof {
            let w = pow256(i as nat) as int;
            let x = (total % 256) as int;
            assert(out@.skip(len - i) =~= before.skip(len - i));
            lemma_low_step(out@, i as nat);
            lemma_low_step(wide_a, i as nat);
            lemma_low_step(wide_b, i as nat);
            assert(pow256((i + 1) as nat) == 256 * w);
            assert((x + 256 * carry) * w == (da + used + old_carry) * w);
            assert((x + 256 * carry) * w == x * w + carry * (256 * w)) by (nonlinear_arith);
            assert((da + used + old_carry) * w == da * w + used * w + old_carry * w)
                by (nonlinear_arith);
            assert((255 - db) * w == 256 * w - w - db * w) by (nonlinear_arith);
        }
        i += 1;
    }
    proof {
        let m = pow256(len as nat) as int;
        assert(out@.skip(0) =~= out@);
        assert(wide_a.skip(0) =~= wide_a);
        assert(wide_b.skip(0) =~= wide_b);
        lemma_unsigned_extended(a@, len as nat);
        lemma_unsigned_extended(b@, len as nat);
        lemma_decode_range(a@);
        lemma_decode_range(b@);
        lemma_decode_range(out@);
        lemma_pow256_monotonic(a@.len(), longer as nat);
        lemma_pow256_monotonic(b@.len(), longer as nat);
        assert(m == 256 * pow256(longer as nat));
        let sa: int = if fill_of(a@) == 0 {
            0
        } else {
            1
        };
        let sb: int = if fill_of(b@) == 0 {
            0
        } else {
            1
        };
        let so: int = if out@[0] >= 128 {
            1
        } else {
            0
        };
        let goal = if subtract {
            decode(a@) - decode(b@)
        } else {
            decode(a@) + decode(b@)
        };
        let q = if subtract {
            sa - sb + 1 - carry - so
        } else {
            sa + sb - carry - so
        };
        assert(decode(out@) - goal == q * m) by (nonlinear_arith)
            requires
                decode(out@) == unsigned(out@) - so * m,
                unsigned(wide_a) == decode(a@) + sa * m,
                unsigned(wide_b) == decode(b@) + sb * m,
                unsigned(out@) + carry * m == unsigned(wide_a) + if subtract {
                    m - unsigned(wide_b)
                } else {
                    unsigned(wide_b) as int
                },
                goal == if subtract {
                    decode(a@) - decode(b@)
                } else {
                    decode(a@) + decode(b@)
                },
                q == if subtract {
                    sa - sb + 1 - carry - so
                } else {
                    sa + sb - carry - so
                },
        ;
        lemma_same_residue(decode(out@), goal, q, m);
    }
    out
}

/// True if the byte at `start` can be left out of the string that begins
/// there.
fn redundant_at(bytes: &[u8], start: usize) -> (r: bool)
    requires
        start < bytes@.len(),
    ensures
        r == (start + 1 < bytes@.len() && bytes@[start as int] == fill_of(
            bytes@.skip(start + 1),
        )),
{
    if bytes.len() - start > 1 {
        let head = bytes[start];
        let next = bytes[start + 1];
        (head == 0 && next < 128) || (head == 255 && next >= 128)
    } else {
        false
    }
}

/// The canonical string for the number that `bytes` stands for.
fn trim(bytes: &[u8]) -> (out: Vec<u8>)
    ensures
        out@ == encode(decode(bytes@)),
{
    let len = bytes.len();
    if len == 0 {
        assert(bytes@ =~= Seq::<u8>::empty());
        return Vec::new();
    }
    let mut start: usize = 0;
    assert(bytes@.skip(0) =~= bytes@);
    while redundant_at(bytes, start)
        invariant
            start < len,
            len == bytes@.len(),
            decode(bytes@.skip(start as int)) == decode(bytes@),
        decreases len - start,
    {
        proof {
            let tail = bytes@.skip(start + 1);
            assert(bytes@.skip(start as int) =~= seq![fill_of(tail)] + tail);
            lemma_decode_redundant(tail);
        }
        start += 1;
    }
    let ghost kept = bytes@.skip(start as int);
    proof {
        if kept.len() >= 2 {
            assert(kept[0] == bytes@[start as int]);
            assert(kept[1] == bytes@.skip(start + 1)[0]);
        }
        assert(minimal(kept));
        lemma_encode_decode(kept);
    }
    if len - start == 1 && bytes[start] == 0 {
        proof {
            lemma_unsigned_one(kept);
        }
        return Vec::new();
    }
    let out = vstd::slice::slice_to_vec(vstd::slice::slice_subrange(bytes, start, len));
    assert(out@ =~= kept);
    out
}

/// The product of two numbers is no larger in size than the product of their
/// bounds.
pub proof fn lemma_product_range(x: int, y: int, px: int, py: int)
    requires
        -px <= x <= px,
        -py <= y <= py,
    ensures
        -(px * py) <= x * y <= px * py,
{
    assert((px - x) * (py - y) >= 0) by (nonlinear_arith)
        requires
            px - x >= 0,
            py - y >= 0,
    ;
    assert((px + x) * (py + y) >= 0) by (nonlinear_arith)
        requires
            px + x >= 0,
            py + y >= 0,
    ;
    assert((px - x) * (py + y) >= 0) by (nonlinear_arith)
        requires
            px - x >= 0,
            py + y >= 0,
    ;
    assert((px + x) * (py - y) >= 0) by (nonlinear_arith)
        requires
            px + x >= 0,
            py - y >= 0,
    ;
    assert((px - x) * (py - y) == px * py - px * y - x * py + x * y) by (nonlinear_arith);
    assert((px + x) * (py + y) == px * py + px * y + x * py + x * y) by (nonlinear_arith);
    assert((px - x) * (py + y) == px * py + px * y - x * py - x * y) by (nonlinear_arith);
    assert((px + x) * (py - y) == px * py - px * y + x * py - x * y) by (nonlinear_arith);
}

/// The product of two numbers, as a string that need not be the shortest.
fn multiply(a: &[u8], b: &[u8]) -> (out: Vec<u8>)
    ensures
        decode(out@) == decode(a@) * decode(b@),
{
    if a.len() == 0 || b.len() == 0 {
        assert(decode(a@) * decode(b@) == 0) by (nonlinear_arith)
            requires
                decode(a@) == 0 || decode(b@) == 0,
        ;
        return Vec::new();
    }
    let mut out = zeros(a.len(), false);
    let mut more = zeros(b.len(), false);
    out.append(&mut more);
    let len = out.len();
    let fill_a = fill(a);
    let fill_b = fill(b);
    let ghost wide_a = extended(a@, len as nat);
    let ghost wide_b = extended(b@, len as nat);
    let ghost m = pow256(len as nat) as int;
    let ghost mut q: int = 0;
    let mut j: usize = 0;
    proof {
        lemma_unsigned_zeros(out@);
        assert(wide_b.skip(len as int) =~= Seq::<u8>::empty());
        assert(unsigned(wide_a) * 0 == 0) by (nonlinear_arith);
        assert(0 * m == 0) by (nonlinear_arith);
    }
    while j < len
        invariant
            j <= len,
            len == out@.len(),
            len == a@.len() + b@.len(),
            fill_a == fill_of(a@),
            fill_b == fill_of(b@),
            wide_a == extended(a@, len as nat),
            wide_b == extended(b@, len as nat),
            m == pow256(len as nat),
            unsigned(out@) + q * m == unsigned(wide_a) * low(wide_b, j as nat),
        decreases len - j,
    {
        let db = digit(b, j, fill_b, Ghost(len as nat));
        let ghost prev = out@;
        let ghost pj = pow256(j as nat) as int;
        let mut carry: u32 = 0;
        let mut i: usize = 0;
        proof {
            assert(wide_a.skip(len as int) =~= Seq::<u8>::empty());
            assert(0 * db * pj == 0) by (nonlinear_arith);
        }
        while i < len - j
            invariant
                j < len,
                i <= len - j,
                len == out@.len(),
                len == prev.len(),
                len >= a@.len(),
                fill_a == fill_of(a@),
                wide_a == extended(a@, len as nat),
                pj == pow256(j as nat),
                carry <= 255,
                forall|k: int| 0 <= k < len - (i + j) ==> out@[k] == prev[k],
                low(out@, (i + j) as nat) + carry * pow256((i + j) as nat) == low(
                    prev,
                    (i + j) as nat,
                ) + low(wide_a, i as nat) * db * pj,
            decreases len - j - i,
        {
            let da = digit(a, i, fill_a, Ghost(len as nat));
            let at = len - 1 - (i + j);
            let held = out[at];
            assert(da as u32 * db as u32 <= 65025) by (nonlinear_arith)
                requires
                    da <= 255,
                    db <= 255,
            ;
            let total: u32 = held as u32 + da as u32 * db as u32 + carry;
            let ghost before = out@;
            let ghost c0 = carry as int;
            out.set(at, (total % 256) as u8);
            carry = total / 256;
            proof {
                let k = (i + j) as nat;
                let w = pow256(k) as int;
                let pi = pow256(i as nat) as int;
                let x = (total % 256) as int;
                let c1 = carry as int;
                let lo_a = low(wide_a, i as nat) as int;
                let done = lo_a * db * pj;
                assert(out@.skip(len - k) =~= before.skip(len - k));
                lemma_low_step(out@, k);
                lemma_low_step(prev, k);
                lemma_low_step(wide_a, i as nat);
                lemma_pow256_sum(i as nat, j as nat);
                assert(pow256(k + 1) == 256 * w);
                assert(x + 256 * c1 == held + da * db + c0);
                assert((x + 256 * c1) * w == x * w + c1 * (256 * w)) by (nonlinear_arith);
                assert((held + da * db + c0) * w == held * w + (da * db) * w + c0 * w)
                    by (nonlinear_arith);
                assert((da * db) * w == (da * pi) * db * pj) by (nonlinear_arith)
                    requires
                        w == pi * pj,
                ;
                assert((da * pi + lo_a) * db * pj == (da * pi) * db * pj + lo_a * db * pj)
                    by (nonlinear_arith);
            }
            i += 1;
        }
        proof {
            let rest = (len - j) as nat;
            let hi = unsigned(wide_a.take(j as int)) as int;
            let lo_a = low(wide_a, rest) as int;
            let lo_b = low(wide_b, j as nat) as int;
            let c = carry as int;
            let ua = unsigned(wide_a) as int;
            let pr = pow256(rest) as int;
            assert(out@.skip(0) =~= out@);
            assert(prev.skip(0) =~= prev);
            lemma_unsigned_split(wide_a, rest);
            lemma_pow256_sum(rest, j as nat);
            lemma_low_step(wide_b, j as nat);
            assert(ua == hi * pr + lo_a);
            assert(m == pr * pj);
            assert(ua * db * pj == hi * db * m + lo_a * db * pj) by (nonlinear_arith)
                requires
                    ua == hi * pr + lo_a,
                    m == pr * pj,
            ;
            assert(ua * (db * pj + lo_b) == ua * db * pj + ua * lo_b) by (nonlinear_arith);
            assert((q + c + hi * db) * m == q * m + c * m + hi * db * m) by (nonlinear_arith);
            q = q + c + hi * db;
        }
        j += 1;
    }
    proof {
        let x = decode(a@);
        let y = decode(b@);
        let pa = pow256(a@.len()) as int;
        let pb = pow256(b@.len()) as int;
        assert(wide_b.skip(0) =~= wide_b);
        lemma_unsigned_extended(a@, len as nat);
        lemma_unsigned_extended(b@, len as nat);
        lemma_decode_range(a@);
        lemma_decode_range(b@);
        lemma_decode_range(out@);
        lemma_pow256_sum(a@.len(), b@.len());
        lemma_pow256_positive(len as nat);
        lemma_product_range(2 * x, 2 * y, pa, pb);
        assert((2 * x) * (2 * y) == 4 * (x * y)) by (nonlinear_arith);
        let sa: int = if fill_of(a@) == 0 {
            0
        } else {
            1
        };
        let sb: int = if fill_of(b@) == 0 {
            0
        } else {
            1
        };
        let so: int = if out@[0] >= 128 {
            1
        } else {
            0
        };
        let ua = unsigned(wide_a) as int;
        let ub = unsigned(wide_b) as int;
        let t: int = if sa == 0 {
            if sb == 0 {
                0
            } else {
                x
            }
        } else {
            if sb == 0 {
                y
            } else {
                x + y + m
            }
        };
        assert(ua * ub == x * y + t * m) by {
            assert(0 * m == 0) by (nonlinear_arith);
            assert(x * (y + m) == x * y + x * m) by (nonlinear_arith);
            assert((x + m) * y == x * y + y * m) by (nonlinear_arith);
            assert((x + m) * (y + m) == x * y + (x + y + m) * m) by (nonlinear_arith);
        }
        let r = t - q - so;
        assert(r * m == t * m - q * m - so * m) by (nonlinear_arith)
            requires
                r == t - q - so,
        ;
        lemma_same_residue(decode(out@), x * y, r, m);
    }
    out
}

/// A whole number of any size.
#[derive(Debug, PartialEq, Eq)]
pub struct Number {
    digits: Vec<u8>,
}

impl View for Number {
    type V = int;

    closed spec fn view(&self) -> int {
        decode(self.digits@)
    }
}

impl Clone for Number {
    fn clone(&self) -> (n: Number)
        ensures
            n@ == self@,
    {
        proof {
            use_type_invariant(self);
        }
        let digits = self.digits.clone();
        assert(digits@ =~= self.digits@);
        Number { digits }
    }
}

impl Number {
    /// The digits are the canonical string for the number.
    #[verifier::type_invariant]
    spec fn canonical(&self) -> bool {
        self.digits@ == encode(decode(self.digits@))
    }

    /// The number zero.
    pub fn zero() -> (n: Number)
        ensures
            n@ == 0,
    {
        let digits: Vec<u8> = Vec::new();
        assert(digits@ =~= Seq::<u8>::empty());
        Number { digits }
    }

    /// The number one.
    pub fn one() -> (n: Number)
        ensures
            n@ == 1,
    {
        let mut digits: Vec<u8> = Vec::new();
        digits.push(1);
        proof {
            lemma_unsigned_one(digits@);
            lemma_encode_decode(digits@);
        }
        Number { digits }
    }

    /// The number that the atom `bytes` stands for: see [`decode`].
    pub fn from_atom(bytes: &[u8]) -> (n: Number)
        ensures
            n@ == decode(bytes@),
    {
        let digits = trim(bytes);
        proof {
            lemma_decode_encode(decode(bytes@));
        }
        Number { digits }
    }

    /// The canonical atom for the number: see [`encode`].
    pub fn to_atom(&self) -> (bytes: Vec<u8>)
        ensures
            bytes@ == encode(self@),
    {
        proof {
            use_type_invariant(self);
        }
        let bytes = self.digits.clone();
        assert(bytes@ =~= self.digits@);
        bytes
    }

    /// The sum of the two numbers.
    pub fn plus(&self, other: &Number) -> (n: Number)
        ensures
            n@ == self@ + other@,
    {
        let wide = add_sub(self.digits.as_slice(), other.digits.as_slice(), false);
        let digits = trim(wide.as_slice());
        proof {
            lemma_decode_encode(decode(wide@));
        }
        Number { digits }
    }

    /// This number less the other.
    pub fn minus(&self, other: &Number) -> (n: Number)
        ensures
            n@ == self@ - other@,
    {
        let wide = add_sub(self.digits.as_slice(), other.digits.as_slice(), true);
        let digits = trim(wide.as_slice());
        proof {
            lemma_decode_encode(decode(wide@));
        }
        Number { digits }
    }

    /// The product of the two numbers.
    pub fn times(&self, other: &Number) -> (n: Number)
        ensures
            n@ == self@ * other@,
    {
        let wide = multiply(self.digits.as_slice(), other.digits.as_slice());
        let digits = trim(wide.as_slice());
        proof {
            lemma_decode_encode(decode(wide@));
        }
        Number { digits }
    }

    /// True if the number is above zero.
    pub fn is_positive(&self) -> (r: bool)
        ensures
            r == (self@ > 0),
    {
        proof {
            use_type_invariant(self);
            lemma_unsigned_bound(self.digits@);
            if self.digits@.len() > 0 && self@ == 0 {
                assert(self.digits@ =~= Seq::<u8>::empty());
            }
        }
        self.digits.len() > 0 && self.digits[0] < 128
    }

    /// True if this number is greater than the other.
    pub fn greater_than(&self, other: &Number) -> (r: bool)
        ensures
            r == (self@ > other@),
    {
        self.minus(other).is_positive()
    }
}

impl Node {
    /// The number that an atom stands for; `None` for a pair.
    pub fn as_number(&self) -> (r: Option<Number>)
        ensures
            match self@ {
                Tree::Atom(bytes) => r matches Some(n) && n@ == decode(bytes),
                Tree::Pair(_, _) => r is None,
            },
    {
        match self.as_blob() {
            Some(bytes) => Some(Number::from_atom(bytes)),
            None => None,
        }
    }

    /// The canonical atom for the number `n`.
    pub fn from_number(n: &Number) -> (r: Node)
        ensures
            r@ == Tree::Atom(encode(n@)),
    {
        Node::from_bytes(n.to_atom())
    }
}

} // verus!
