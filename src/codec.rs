//! The character alphabet: digit `d` is written as the ASCII character `'+' + d`.
use vstd::prelude::*;
use vstd::string::*;
use crate::digits::{BASE, valid_digits, lex_lt};

verus! {

/// The code of the character that stands for the digit 0.
pub const MINIMUM: u8 = 43;

/// The character for each digit.
pub open spec fn encode_chars(d: Seq<u8>) -> Seq<char> {
    Seq::new(d.len(), |i: int| (d[i] + MINIMUM) as char)
}

/// The digit for each character.
pub open spec fn decode_chars(s: Seq<char>) -> Seq<u8> {
    Seq::new(s.len(), |i: int| (s[i] as int - MINIMUM) as u8)
}

/// Every character stands for a digit: it lies between `'+'` and `'y'`.
pub open spec fn in_alphabet(s: Seq<char>) -> bool {
    forall|i: int| 0 <= i < s.len() ==> MINIMUM <= #[trigger] (s[i] as int) < MINIMUM + BASE
}

/// String order on keys: character by character, and a proper prefix first.
pub open spec fn text_lt(x: Seq<char>, y: Seq<char>) -> bool {
    ||| (x.len() < y.len() && x == y.subrange(0, x.len() as int))
    ||| exists|k: int|
        0 <= k < x.len() && k < y.len() && x.subrange(0, k) == y.subrange(0, k)
            && #[trigger] x[k] < y[k]
}

/// Decoding an encoded digit sequence gives it back.
pub proof fn lemma_round_trip(d: Seq<u8>)
    requires
        valid_digits(d),
    ensures
        decode_chars(encode_chars(d)) == d,
        in_alphabet(encode_chars(d)),
{
    assert(decode_chars(encode_chars(d)) =~= d);
}

/// Encoding a text's digits gives the text back, and those digits are valid.
pub proof fn lemma_decode_encode(s: Seq<char>)
    requires
        in_alphabet(s),
    ensures
        encode_chars(decode_chars(s)) == s,
        valid_digits(decode_chars(s)),
{
    assert forall|i: int| 0 <= i < s.len() implies #[trigger] encode_chars(decode_chars(s))[i]
        == s[i] by {
        assert(MINIMUM <= s[i] as int);
    }
    assert(encode_chars(decode_chars(s)) =~= s);
}

proof fn lemma_encode_prefix(d: Seq<u8>, n: int)
    requires
        valid_digits(d),
        0 <= n <= d.len(),
    ensures
        encode_chars(d).subrange(0, n) == encode_chars(d.subrange(0, n)),
{
    assert(encode_chars(d).subrange(0, n) =~= encode_chars(d.subrange(0, n)));
}

proof fn lemma_encode_injective(a: Seq<u8>, b: Seq<u8>)
    requires
        valid_digits(a),
        valid_digits(b),
    ensures
        encode_chars(a) == encode_chars(b) <==> a == b,
{
    lemma_round_trip(a);
    lemma_round_trip(b);
}

/// The character mapping is strictly monotonic, so string order on encoded
/// digit sequences is their lexicographic order.
pub proof fn lemma_text_order(x: Seq<u8>, y: Seq<u8>)
    requires
        valid_digits(x),
        valid_digits(y),
    ensures
        text_lt(encode_chars(x), encode_chars(y)) <==> lex_lt(x, y),
{
    let ex = encode_chars(x);
    let ey = encode_chars(y);
    if x.len() < y.len() {
        lemma_encode_prefix(y, x.len() as int);
        assert(valid_digits(y.subrange(0, x.len() as int)));
        lemma_encode_injective(x, y.subrange(0, x.len() as int));
    }
    if text_lt(ex, ey) && !(ex.len() < ey.len() && ex == ey.subrange(0, ex.len() as int)) {
        let k = choose|k: int|
            0 <= k < ex.len() && k < ey.len() && ex.subrange(0, k) == ey.subrange(0, k)
                && #[trigger] ex[k] < ey[k];
        lemma_encode_prefix(x, k);
        lemma_encode_prefix(y, k);
        assert(valid_digits(x.subrange(0, k)));
        assert(valid_digits(y.subrange(0, k)));
        lemma_encode_injective(x.subrange(0, k), y.subrange(0, k));
        assert(x[k] < y[k]);
    }
    if lex_lt(x, y) && !(x.len() < y.len() && x == y.subrange(0, x.len() as int)) {
        let k = choose|k: int|
            0 <= k < x.len() && k < y.len() && x.subrange(0, k) == y.subrange(0, k) && #[trigger] x[k]
                < y[k];
        lemma_encode_prefix(x, k);
        lemma_encode_prefix(y, k);
        assert(ex[k] < ey[k]);
    }
}

/// Relies on `String::from_utf8`: bytes that are all ASCII form valid UTF-8,
/// and each byte becomes the character with that code.
#[verifier::external_body]
fn ascii_string(bytes: Vec<u8>) -> (r: String)
    requires
        forall|i: int| 0 <= i < bytes@.len() ==> #[trigger] bytes@[i] < 128,
    ensures
        r@ == Seq::new(bytes@.len(), |i: int| bytes@[i] as char),
{
    String::from_utf8(bytes).unwrap()
}

/// The text of a digit sequence.
pub fn encode(d: &Vec<u8>) -> (r: String)
    requires
        valid_digits(d@),
    ensures
        r@ == encode_chars(d@),
{
    let mut bytes: Vec<u8> = Vec::new();
    let mut i: usize = 0;
    while i < d.len()
        invariant
            valid_digits(d@),
            i <= d@.len(),
            bytes@.len() == i,
            forall|t: int| 0 <= t < i ==> #[trigger] bytes@[t] == d@[t] + MINIMUM,
        decreases d@.len() - i,
    {
        bytes.push(d[i] + MINIMUM);
        i = i + 1;
    }
    let r = ascii_string(bytes);
    assert(r@ =~= encode_chars(d@));
    r
}

/// The digit sequence of a text whose characters all stand for digits.
pub fn decode(s: &str) -> (r: Vec<u8>)
    requires
        in_alphabet(s@),
    ensures
        r@ == decode_chars(s@),
{
    broadcast use vstd::string::is_ascii_spec_bytes;

    assert(is_ascii(s));
    let bytes = s.as_bytes();
    let mut r: Vec<u8> = Vec::new();
    let mut i: usize = 0;
    while i < bytes.len()
        invariant
            in_alphabet(s@),
            bytes@ == Seq::new(s@.len(), |t: int| s@[t] as u8),
            i <= bytes@.len(),
            r@.len() == i,
            forall|t: int| 0 <= t < i ==> #[trigger] r@[t] == decode_chars(s@)[t],
        decreases bytes@.len() - i,
    {
        assert(MINIMUM <= s@[i as int] as int);
        r.push(bytes[i] - MINIMUM);
        i = i + 1;
    }
    assert(r@ =~= decode_chars(s@));
    r
}

} // verus!
