//! The key type: a fractional position written as text.
use vstd::prelude::*;
use crate::digits::{
    canonical, valid_digits, value_lt, lex_lt, lemma_order_equivalence, lemma_canonical_positive,
    lemma_scaled_bounds,
};
use crate::engine::{Bound, BoundView, between, engine_result, read, gap, below_one};
use crate::codec::{
    MINIMUM, encode, decode, encode_chars, decode_chars, in_alphabet, text_lt, lemma_round_trip,
    lemma_decode_encode, lemma_text_order,
};

verus! {

/// A base-79 fraction strictly between 0 and 1, kept as its text.
#[derive(Debug, Clone, PartialEq, Eq, PartialOrd, Ord)]
pub struct Base79(String);

/// Why a text is not a key.
#[derive(Debug, PartialEq, Eq)]
pub enum ParseError {
    /// A character is not printable ASCII.
    InvalidChar,
    /// The text is empty.
    EmptyNotAllowed,
}

/// A character that a key's text may hold: printable ASCII, not a control.
pub open spec fn printable(c: char) -> bool {
    0x20 <= (c as int) < 0x7f
}

impl View for Base79 {
    type V = Seq<char>;

    closed spec fn view(&self) -> Seq<char> {
        self.0@
    }
}

impl Base79 {
    /// The digits that the text stands for.
    pub open spec fn digits(&self) -> Seq<u8> {
        decode_chars(self@)
    }

    /// A key in canonical form: every character stands for a digit, and the
    /// last digit is not zero.
    pub open spec fn is_key(&self) -> bool {
        in_alphabet(self@) && canonical(self.digits())
    }

    /// Whether this text is a key in canonical form, on which the `avg`
    /// operations are defined.
    pub fn is_canonical(&self) -> (b: bool)
        ensures
            b == self.is_key(),
    {
        let s = self.0.as_str();
        let n = s.unicode_len();
        if n == 0 {
            return false;
        }
        let mut i: usize = 0;
        while i < n
            invariant
                n == self@.len(),
                s@ == self@,
                i <= n,
                forall|t: int| 0 <= t < i ==> MINIMUM <= #[trigger] (self@[t] as int) < MINIMUM + 79,
            decreases n - i,
        {
            let c = s.get_char(i);
            if (c as u32) < MINIMUM as u32 || (c as u32) >= MINIMUM as u32 + 79 {
                return false;
            }
            i = i + 1;
        }
        proof {
            lemma_decode_encode(self@);
        }
        s.get_char(n - 1) != '+'
    }

    /// The middle of the alphabet, the one key made from nothing.
    pub fn mid() -> (r: Self)
        ensures
            r@ == encode_chars(seq![39u8]),
            r.digits() == seq![39u8],
            r.is_key(),
    {
        let d = between(&Bound::Below, &Bound::Above);
        proof {
            if d@.len() > 1 {
                assert(d@[0] == read(BoundView::Below, 0) && gap(BoundView::Below, BoundView::Above, 0) < 2);
            }
            assert(d@ =~= seq![39u8]);
        }
        Self::from_digits(d)
    }

    fn from_digits(d: Vec<u8>) -> (r: Self)
        requires
            valid_digits(d@),
        ensures
            r@ == encode_chars(d@),
            r.digits() == d@,
            canonical(d@) ==> r.is_key(),
    {
        proof {
            lemma_round_trip(d@);
        }
        Base79(encode(&d))
    }

    /// The key that the engine finds strictly between `lhs` and `rhs`.
    pub fn avg(lhs: &Self, rhs: &Self) -> (r: Self)
        requires
            lhs.is_key(),
            rhs.is_key(),
            text_lt(lhs@, rhs@),
        ensures
            r.is_key(),
            engine_result(BoundView::Finite(lhs.digits()), BoundView::Finite(rhs.digits()), r.digits()),
            value_lt(lhs.digits(), r.digits()),
            value_lt(r.digits(), rhs.digits()),
            text_lt(lhs@, r@),
            text_lt(r@, rhs@),
    {
        proof {
            lhs.lemma_text_value();
            rhs.lemma_text_value();
            lemma_text_order(lhs.digits(), rhs.digits());
            lemma_order_equivalence(lhs.digits(), rhs.digits());
        }
        let lo = Bound::Finite(lhs.raw_digits());
        let hi = Bound::Finite(rhs.raw_digits());
        let d = between(&lo, &hi);
        let r = Self::from_digits(d);
        proof {
            r.lemma_text_value();
            lemma_order_equivalence(lhs.digits(), r.digits());
            lemma_order_equivalence(r.digits(), rhs.digits());
            lemma_text_order(lhs.digits(), r.digits());
            lemma_text_order(r.digits(), rhs.digits());
        }
        r
    }

    /// A key strictly between 0 and `n`. Where the first digit of `n` is at
    /// least 3 the engine runs from 0 itself; below that, reading 0 as the
    /// digit `-1` would give the value 0 or the digit `-1`, so the engine runs
    /// from the empty digit sequence, which reads as zeros.
    pub fn avg_with_zero(n: &Self) -> (r: Self)
        requires
            n.is_key(),
        ensures
            r.is_key(),
            n.digits()[0] >= 3 ==> engine_result(
                BoundView::Below,
                BoundView::Finite(n.digits()),
                r.digits(),
            ),
            n.digits()[0] < 3 ==> engine_result(
                BoundView::Finite(Seq::empty()),
                BoundView::Finite(n.digits()),
                r.digits(),
            ),
            value_lt(Seq::empty(), r.digits()),
            value_lt(r.digits(), n.digits()),
            r.digits().len() <= n.digits().len() + 1,
            text_lt(r@, n@),
    {
        proof {
            n.lemma_text_value();
            lemma_canonical_positive(n.digits());
        }
        let digits = n.raw_digits();
        let lo = if digits[0] >= 3 {
            Bound::Below
        } else {
            Bound::Finite(Vec::new())
        };
        let hi = Bound::Finite(digits);
        let d = between(&lo, &hi);
        let r = Self::from_digits(d);
        proof {
            r.lemma_text_value();
            lemma_order_equivalence(r.digits(), n.digits());
            lemma_text_order(r.digits(), n.digits());
        }
        r
    }

    /// The key that the engine finds strictly between `n` and 1.
    pub fn avg_with_one(n: &Self) -> (r: Self)
        requires
            n.is_key(),
        ensures
            r.is_key(),
            engine_result(BoundView::Finite(n.digits()), BoundView::Above, r.digits()),
            below_one(r.digits()),
            value_lt(n.digits(), r.digits()),
            text_lt(n@, r@),
    {
        proof {
            n.lemma_text_value();
            lemma_scaled_bounds(n.digits(), n.digits().len());
        }
        let lo = Bound::Finite(n.raw_digits());
        let d = between(&lo, &Bound::Above);
        let r = Self::from_digits(d);
        proof {
            r.lemma_text_value();
            lemma_order_equivalence(n.digits(), r.digits());
            lemma_text_order(n.digits(), r.digits());
        }
        r
    }

    /// The digits that the text stands for.
    pub fn raw_digits(&self) -> (r: Vec<u8>)
        requires
            in_alphabet(self@),
        ensures
            r@ == self.digits(),
    {
        decode(self.0.as_str())
    }

    /// The key's text.
    pub fn to_string(&self) -> (r: String)
        ensures
            r@ == self@,
    {
        self.0.clone()
    }

    /// Reads a key from text: any non-empty text of printable ASCII characters.
    pub fn from_str(s: &str) -> (r: Result<Base79, ParseError>)
        ensures
            s@.len() == 0 ==> r == Err::<Base79, ParseError>(ParseError::EmptyNotAllowed),
            s@.len() > 0 && (exists|i: int| 0 <= i < s@.len() && !printable(#[trigger] s@[i]))
                ==> r == Err::<Base79, ParseError>(ParseError::InvalidChar),
            s@.len() > 0 && (forall|i: int| 0 <= i < s@.len() ==> printable(#[trigger] s@[i]))
                ==> r is Ok && r->Ok_0@ == s@,
    {
        if s.is_empty() {
            return Err(ParseError::EmptyNotAllowed);
        }
        let n = s.unicode_len();
        let mut i: usize = 0;
        while i < n
            invariant
                n == s@.len(),
                i <= n,
                forall|t: int| 0 <= t < i ==> printable(#[trigger] s@[t]),
            decreases n - i,
        {
            let c = s.get_char(i);
            if (c as u32) < 0x20 || (c as u32) >= 0x7f {
                return Err(ParseError::InvalidChar);
            }
            i = i + 1;
        }
        Ok(Base79(s.to_owned()))
    }

    /// Order equivalence on keys: string order, lexicographic order of the
    /// digits and order of the values all agree.
    pub proof fn lemma_key_order(a: Base79, b: Base79)
        requires
            a.is_key(),
            b.is_key(),
        ensures
            text_lt(a@, b@) <==> lex_lt(a.digits(), b.digits()),
            lex_lt(a.digits(), b.digits()) <==> value_lt(a.digits(), b.digits()),
    {
        a.lemma_text_value();
        b.lemma_text_value();
        lemma_text_order(a.digits(), b.digits());
        lemma_order_equivalence(a.digits(), b.digits());
    }

    /// For a key, string order agrees with the order of its digits, and its
    /// text is the encoding of its digits.
    proof fn lemma_text_value(&self)
        requires
            self.is_key(),
        ensures
            self@ == encode_chars(self.digits()),
            valid_digits(self.digits()),
    {
        lemma_decode_encode(self@);
    }
}

impl From<Base79> for String {
    fn from(k: Base79) -> (r: String) {
        k.0
    }
}

impl vstd::std_specs::convert::FromSpecImpl<Base79> for String {
    open spec fn obeys_from_spec() -> bool {
        true
    }

    closed spec fn from_spec(k: Base79) -> String {
        k.0
    }
}

impl std::str::FromStr for Base79 {
    type Err = ParseError;

    fn from_str(s: &str) -> Result<Self, Self::Err> {
        Base79::from_str(s)
    }
}

} // verus!
