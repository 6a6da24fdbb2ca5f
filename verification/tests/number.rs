use clvm_rs::number::Number;
use clvm_rs::sexp::Node;

fn canonical(n: i128) -> Vec<u8> {
    if n == 0 {
        return vec![];
    }
    let mut bytes = n.to_be_bytes().to_vec();
    while bytes.len() > 1
        && ((bytes[0] == 0 && bytes[1] < 0x80) || (bytes[0] == 0xff && bytes[1] >= 0x80))
    {
        bytes.remove(0);
    }
    bytes
}

fn number(n: i128) -> Number {
    Number::from_atom(&n.to_be_bytes())
}

fn samples() -> Vec<i128> {
    let mut out: Vec<i128> = (-300..=300).collect();
    for shift in [7u32, 8, 15, 16, 23, 24, 31, 32, 39, 40, 47, 48, 55, 56, 62] {
        let p: i128 = 1 << shift;
        for d in [-2i128, -1, 0, 1, 2] {
            out.push(p + d);
            out.push(-p + d);
        }
    }
    out
}

#[test]
fn zero_is_the_empty_atom() {
    assert_eq!(Number::zero().to_atom(), Vec::<u8>::new());
    assert_eq!(Number::from_atom(&[]).to_atom(), Vec::<u8>::new());
    assert_eq!(Number::from_atom(&[0]).to_atom(), Vec::<u8>::new());
    assert_eq!(Number::from_atom(&[0, 0, 0]).to_atom(), Vec::<u8>::new());
    assert_eq!(Number::from_atom(&[0]), Number::zero());
}

#[test]
fn one_is_one_byte() {
    assert_eq!(Number::one().to_atom(), vec![1]);
}

#[test]
fn encoding_is_minimal_twos_complement() {
    assert_eq!(number(127).to_atom(), vec![0x7f]);
    assert_eq!(number(128).to_atom(), vec![0x00, 0x80]);
    assert_eq!(number(255).to_atom(), vec![0x00, 0xff]);
    assert_eq!(number(256).to_atom(), vec![0x01, 0x00]);
    assert_eq!(number(-1).to_atom(), vec![0xff]);
    assert_eq!(number(-128).to_atom(), vec![0x80]);
    assert_eq!(number(-129).to_atom(), vec![0xff, 0x7f]);
    assert_eq!(number(-256).to_atom(), vec![0xff, 0x00]);
    assert_eq!(number(32767).to_atom(), vec![0x7f, 0xff]);
    assert_eq!(number(32768).to_atom(), vec![0x00, 0x80, 0x00]);
    assert_eq!(number(-32768).to_atom(), vec![0x80, 0x00]);
    assert_eq!(number(-32769).to_atom(), vec![0xff, 0x7f, 0xff]);
}

#[test]
fn every_atom_is_a_number_of_its_own_length() {
    assert_eq!(Number::from_atom(&[0x80]), number(-128));
    assert_eq!(Number::from_atom(&[0x00, 0x80]), number(128));
    assert_eq!(Number::from_atom(&[0xff, 0xff, 0x80]), number(-128));
    assert_eq!(Number::from_atom(&[0x00, 0x00, 0x7f]), number(127));
    assert_eq!(Number::from_atom(&[0xff, 0x00]), number(-256));
    assert_eq!(Number::from_atom(&[0x12, 0x34, 0x56]), number(0x123456));
}

#[test]
fn decode_undoes_encode_on_samples() {
    for n in samples() {
        let atom = number(n).to_atom();
        assert_eq!(atom, canonical(n), "encoding of {}", n);
        assert_eq!(Number::from_atom(&atom), number(n), "decoding of {}", n);
    }
}

#[test]
fn encode_after_decode_canonicalizes() {
    assert_eq!(Number::from_atom(&[0x00, 0x00, 0x05]).to_atom(), vec![0x05]);
    assert_eq!(Number::from_atom(&[0xff, 0xff, 0xfb]).to_atom(), vec![0xfb]);
    assert_eq!(Number::from_atom(&[0x00, 0x80]).to_atom(), vec![0x00, 0x80]);
    assert_eq!(Number::from_atom(&[0xff, 0x7f]).to_atom(), vec![0xff, 0x7f]);
    assert_eq!(Number::from_atom(&[0x00, 0xff, 0x7f]).to_atom(), vec![0x00, 0xff, 0x7f]);
}

#[test]
fn plus_minus_times_agree_with_machine_arithmetic() {
    let all = samples();
    for (i, &a) in all.iter().enumerate() {
        for &b in all.iter().skip(i % 7).step_by(7) {
            assert_eq!(number(a).plus(&number(b)).to_atom(), canonical(a + b), "{} + {}", a, b);
            assert_eq!(number(a).minus(&number(b)).to_atom(), canonical(a - b), "{} - {}", a, b);
            assert_eq!(number(a).times(&number(b)).to_atom(), canonical(a * b), "{} * {}", a, b);
            assert_eq!(number(a).greater_than(&number(b)), a > b, "{} > {}", a, b);
        }
    }
}

#[test]
fn small_numbers_exhaustively() {
    for a in -40i128..=40 {
        for b in -40i128..=40 {
            assert_eq!(number(a).plus(&number(b)).to_atom(), canonical(a + b));
            assert_eq!(number(a).minus(&number(b)).to_atom(), canonical(a - b));
            assert_eq!(number(a).times(&number(b)).to_atom(), canonical(a * b));
            assert_eq!(number(a).greater_than(&number(b)), a > b);
        }
    }
}

#[test]
fn sums_carry_into_a_new_byte() {
    assert_eq!(number(255).plus(&number(1)).to_atom(), vec![0x01, 0x00]);
    assert_eq!(number(127).plus(&number(1)).to_atom(), vec![0x00, 0x80]);
    assert_eq!(number(-128).plus(&number(-1)).to_atom(), vec![0xff, 0x7f]);
    assert_eq!(number(-128).minus(&number(1)).to_atom(), vec![0xff, 0x7f]);
    assert_eq!(number(-1).plus(&number(1)).to_atom(), Vec::<u8>::new());
    assert_eq!(number(5).minus(&number(5)).to_atom(), Vec::<u8>::new());
}

#[test]
fn numbers_beyond_machine_words() {
    let two_64 = Number::from_atom(&[1, 0, 0, 0, 0, 0, 0, 0, 0]);
    let two_128 = two_64.times(&two_64);
    let mut expected = vec![1u8];
    expected.extend_from_slice(&[0u8; 16]);
    assert_eq!(two_128.to_atom(), expected);
    let back = two_128.minus(&Number::one());
    let mut ones = vec![0u8];
    ones.extend_from_slice(&[0xffu8; 16]);
    assert_eq!(back.to_atom(), ones);
    assert_eq!(back.plus(&Number::one()), two_128);
    let negative = Number::zero().minus(&two_128);
    let mut neg = vec![0xffu8];
    neg.extend_from_slice(&[0u8; 16]);
    assert_eq!(negative.to_atom(), neg);
    assert_eq!(negative.times(&negative), two_128.times(&two_128));
    assert!(two_128.greater_than(&back));
    assert!(!negative.greater_than(&back));
    assert!(back.greater_than(&negative));
}

#[test]
fn is_positive_tells_the_sign() {
    assert!(Number::one().is_positive());
    assert!(!Number::zero().is_positive());
    assert!(!number(-1).is_positive());
    assert!(number(128).is_positive());
    assert!(!number(-128).is_positive());
}

#[test]
fn greater_than_is_strict() {
    assert!(!number(5).greater_than(&number(5)));
    assert!(number(6).greater_than(&number(5)));
    assert!(!number(5).greater_than(&number(6)));
    assert!(number(-1).greater_than(&number(-2)));
    assert!(number(0).greater_than(&number(-1)));
}

#[test]
fn clone_keeps_the_number() {
    let n = number(-123456789);
    assert_eq!(n.clone(), n);
}

#[test]
fn nodes_convert_to_numbers_and_back() {
    let n = Node::blob_u8(&[0x00, 0x00, 0x80]);
    assert_eq!(n.as_number(), Some(number(128)));
    assert_eq!(Node::pair(&n, &n).as_number(), None);
    assert_eq!(Node::from_number(&number(128)), Node::blob_u8(&[0x00, 0x80]));
    assert_eq!(Node::from_number(&Number::zero()), Node::null());
}
