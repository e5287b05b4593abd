//! The between-value engine: a short digit sequence strictly between two bounds.
use vstd::prelude::*;
use crate::digits::{
    BASE, valid_digits, canonical, digit_or_zero, scaled, unit, value_lt, lemma_scaled_bounds,
    lemma_scaled_agree, lemma_first_difference, lemma_no_short_between,
};

verus! {

/// One side of an interval: the absolute bounds 0 and 1, or a finite key.
pub enum Bound {
    /// Exactly 0; reads as the digit `-1` at every position.
    Below,
    /// Exactly 1; reads as the digit `BASE` at every position.
    Above,
    /// A finite digit sequence, zero-padded on the right.
    Finite(Vec<u8>),
}

/// The mathematical form of a `Bound`.
pub enum BoundView {
    /// The value 0.
    Below,
    /// The value 1.
    Above,
    /// The value of these digits.
    Finite(Seq<u8>),
}

impl View for Bound {
    type V = BoundView;

    open spec fn view(&self) -> BoundView {
        match self {
            Bound::Below => BoundView::Below,
            Bound::Above => BoundView::Above,
            Bound::Finite(v) => BoundView::Finite(v@),
        }
    }
}

/// The digit of `b` at position `i`, on the arithmetic domain `[-1, BASE]`.
pub open spec fn read(b: BoundView, i: int) -> int {
    match b {
        BoundView::Below => -1,
        BoundView::Above => BASE as int,
        BoundView::Finite(v) => digit_or_zero(v, i),
    }
}

/// A finite bound holds only valid digits.
pub open spec fn bound_ok(b: BoundView) -> bool {
    match b {
        BoundView::Finite(v) => valid_digits(v),
        _ => true,
    }
}

/// The number of stored digits of a bound; none for 0 and 1.
pub open spec fn stored_len(b: BoundView) -> nat {
    match b {
        BoundView::Finite(v) => v.len(),
        _ => 0,
    }
}

/// The value of `r` lies below 1.
pub open spec fn below_one(r: Seq<u8>) -> bool {
    scaled(r, r.len()) < unit(r.len())
}

/// The value of `lo` is strictly less than the value of `r`.
pub open spec fn bound_below(lo: BoundView, r: Seq<u8>) -> bool {
    match lo {
        BoundView::Below => value_lt(Seq::empty(), r),
        BoundView::Above => false,
        BoundView::Finite(v) => value_lt(v, r),
    }
}

/// The value of `r` is strictly less than the value of `hi`.
pub open spec fn bound_above(hi: BoundView, r: Seq<u8>) -> bool {
    match hi {
        BoundView::Below => false,
        BoundView::Above => below_one(r),
        BoundView::Finite(v) => value_lt(r, v),
    }
}

/// The value of `lo` is strictly less than the value of `hi`.
pub open spec fn bound_lt(lo: BoundView, hi: BoundView) -> bool {
    match hi {
        BoundView::Finite(v) => bound_below(lo, v),
        BoundView::Above => match lo {
            BoundView::Finite(u) => below_one(u),
            BoundView::Below => true,
            BoundView::Above => false,
        },
        BoundView::Below => false,
    }
}

/// `lo` and `hi` read the same digits before position `i`.
pub open spec fn agree(lo: BoundView, hi: BoundView, i: int) -> bool {
    forall|k: int| 0 <= k < i ==> #[trigger] read(lo, k) == read(hi, k)
}

/// The upper digit that the engine compares with at position `i`: that of `hi`
/// while the two bounds agree, and `BASE` once a digit has told them apart.
pub open spec fn ceiling(lo: BoundView, hi: BoundView, i: int) -> int {
    if agree(lo, hi, i) {
        read(hi, i)
    } else {
        BASE as int
    }
}

/// The room between the lower and the upper digit at position `i`.
pub open spec fn gap(lo: BoundView, hi: BoundView, i: int) -> int {
    ceiling(lo, hi, i) - read(lo, i)
}

/// The first `n` digits of `r` copy `lo`, at positions with no room for a
/// digit strictly between the bounds.
pub open spec fn follows_lo(lo: BoundView, hi: BoundView, r: Seq<u8>, n: int) -> bool {
    forall|t: int| 0 <= t < n ==> #[trigger] r[t] == read(lo, t) && gap(lo, hi, t) < 2
}

proof fn lemma_push_copied(lo: BoundView, hi: BoundView, s: Seq<u8>, m: u8)
    requires
        follows_lo(lo, hi, s, s.len() as int),
        m == read(lo, s.len() as int),
        gap(lo, hi, s.len() as int) < 2,
    ensures
        follows_lo(lo, hi, s.push(m), s.len() + 1 as int),
{
    let r = s.push(m);
    let n = s.len() as int;
    assert forall|t: int| 0 <= t < n + 1 implies #[trigger] r[t] == read(lo, t) && gap(lo, hi, t)
        < 2 by {
        if t < n {
            assert(r[t] == s[t]);
        } else {
            assert(r[t] == m);
        }
    }
}

proof fn lemma_push_last(lo: BoundView, hi: BoundView, s: Seq<u8>, m: u8)
    requires
        follows_lo(lo, hi, s, s.len() as int),
        gap(lo, hi, s.len() as int) >= 2,
        m == (read(lo, s.len() as int) + ceiling(lo, hi, s.len() as int)) / 2,
    ensures
        engine_result(lo, hi, s.push(m)),
{
    assert forall|t: int| 0 <= t < s.len() implies #[trigger] s.push(m)[t] == read(lo, t) && gap(
        lo,
        hi,
        t,
    ) < 2 by {
        assert(s.push(m)[t] == s[t]);
    }
}

/// The engine's answer for `lo` and `hi`: the digits of `lo` up to the first
/// position with room for a digit strictly between, then the floor of the
/// mean of the two digits there.
pub open spec fn engine_result(lo: BoundView, hi: BoundView, r: Seq<u8>) -> bool {
    let j = r.len() - 1;
    &&& r.len() >= 1
    &&& follows_lo(lo, hi, r, j)
    &&& gap(lo, hi, j) >= 2
    &&& r[j] == (read(lo, j) + ceiling(lo, hi, j)) / 2
}

/// The inputs on which the engine is defined: valid bounds in strict order, and
/// not a lower bound of 0 under an upper bound whose first digit is below 3,
/// where the rule would yield a value of 0 or a digit of `-1`.
pub open spec fn between_ok(lo: BoundView, hi: BoundView) -> bool {
    &&& bound_ok(lo)
    &&& bound_ok(hi)
    &&& bound_lt(lo, hi)
    &&& (lo is Below ==> read(hi, 0) >= 3)
}

impl Bound {
    /// The number of stored digits.
    pub fn stored_digits(&self) -> (n: usize)
        ensures
            n == stored_len(self@),
    {
        match self {
            Bound::Finite(v) => v.len(),
            _ => 0,
        }
    }

    /// The digit at position `i`, as `read` gives it.
    pub fn digit(&self, i: usize) -> (d: i16)
        requires
            bound_ok(self@),
        ensures
            d == read(self@, i as int),
    {
        match self {
            Bound::Below => -1,
            Bound::Above => BASE as i16,
            Bound::Finite(v) => {
                if i < v.len() {
                    v[i] as i16
                } else {
                    0
                }
            },
        }
    }
}

/// Under `between_ok`, the bounds first differ at some position `k` where the
/// lower digit is the smaller, and `k` is within the stored digits unless a
/// bound is 0 or 1.
proof fn lemma_first_divergence(lo: BoundView, hi: BoundView) -> (k: nat)
    requires
        between_ok(lo, hi),
    ensures
        agree(lo, hi, k as int),
        read(lo, k as int) < read(hi, k as int),
        lo is Finite && hi is Finite ==> k < stored_len(lo) || k < stored_len(hi),
        !(lo is Finite && hi is Finite) ==> k == 0,
{
    match (lo, hi) {
        (BoundView::Finite(u), BoundView::Finite(v)) => search_divergence(u, v, 0),
        _ => 0,
    }
}

proof fn search_divergence(x: Seq<u8>, y: Seq<u8>, k: nat) -> (r: nat)
    requires
        valid_digits(x),
        valid_digits(y),
        value_lt(x, y),
        forall|i: int| 0 <= i < k ==> #[trigger] digit_or_zero(x, i) == digit_or_zero(y, i),
        k <= x.len() || k <= y.len(),
    ensures
        forall|i: int| 0 <= i < r ==> #[trigger] digit_or_zero(x, i) == digit_or_zero(y, i),
        digit_or_zero(x, r as int) < digit_or_zero(y, r as int),
        r < x.len() || r < y.len(),
    decreases x.len() + y.len() - k,
{
    let w: nat = if x.len() >= y.len() { x.len() } else { y.len() };
    if k >= w {
        lemma_scaled_agree(x, y, w);
        assert(false);
        0
    } else if digit_or_zero(x, k as int) == digit_or_zero(y, k as int) {
        search_divergence(x, y, k + 1)
    } else if digit_or_zero(y, k as int) < digit_or_zero(x, k as int) {
        lemma_first_difference(y, x, k);
        assert(false);
        0
    } else {
        k
    }
}

/// Whatever satisfies `engine_result` on valid ordered bounds is a canonical
/// key whose value lies strictly between them.
pub proof fn lemma_result_between(lo: BoundView, hi: BoundView, r: Seq<u8>)
    requires
        between_ok(lo, hi),
        engine_result(lo, hi, r),
    ensures
        canonical(r),
        bound_below(lo, r),
        bound_above(hi, r),
{
    let j = r.len() - 1;
    let k = lemma_first_divergence(lo, hi);
    if lo is Below {
        assert(gap(lo, hi, 0) >= 2);
        if j > 0 {
            assert(0 < j);
            assert(r[0] == read(lo, 0));
            assert(gap(lo, hi, 0) < 2);
        }
    }
    assert(valid_digits(r)) by {
        assert forall|t: int| 0 <= t < r.len() implies #[trigger] r[t] < BASE by {
            if t < j {
                assert(r[t] == read(lo, t));
            }
        }
    }
    assert(r.last() != 0);
    match lo {
        BoundView::Below => {
            lemma_first_difference(Seq::empty(), r, 0);
        },
        BoundView::Finite(u) => {
            assert forall|i: int| 0 <= i < j implies #[trigger] digit_or_zero(u, i)
                == digit_or_zero(r, i) by {
                assert(r[i] == read(lo, i));
            }
            lemma_first_difference(u, r, j as nat);
        },
        BoundView::Above => {},
    }
    match hi {
        BoundView::Above => {
            lemma_scaled_bounds(r, r.len());
        },
        BoundView::Finite(v) => {
            if agree(lo, hi, j) {
                assert forall|i: int| 0 <= i < j implies #[trigger] digit_or_zero(r, i)
                    == digit_or_zero(v, i) by {
                    assert(r[i] == read(lo, i));
                    assert(read(lo, i) == read(hi, i));
                }
                lemma_first_difference(r, v, j as nat);
            } else {
                assert(k < j);
                assert forall|i: int| 0 <= i < k implies #[trigger] digit_or_zero(r, i)
                    == digit_or_zero(v, i) by {
                    assert(r[i] == read(lo, i));
                    assert(read(lo, i) == read(hi, i));
                }
                assert(r[k as int] == read(lo, k as int));
                lemma_first_difference(r, v, k);
            }
        },
        BoundView::Below => {},
    }
}

/// Determinism: the engine's answer for given bounds is unique, so two calls
/// on the same bounds return the same digits.
pub proof fn lemma_result_unique(lo: BoundView, hi: BoundView, r1: Seq<u8>, r2: Seq<u8>)
    requires
        engine_result(lo, hi, r1),
        engine_result(lo, hi, r2),
    ensures
        r1 == r2,
{
    let j1 = r1.len() - 1;
    let j2 = r2.len() - 1;
    if j1 < j2 {
        assert(r2[j1] == read(lo, j1));
        assert(gap(lo, hi, j1) < 2);
    }
    if j2 < j1 {
        assert(r1[j2] == read(lo, j2));
        assert(gap(lo, hi, j2) < 2);
    }
    assert forall|t: int| 0 <= t < r1.len() implies r1[t] == r2[t] by {
        if t < j1 {
            assert(r1[t] == read(lo, t));
            assert(r2[t] == read(lo, t));
        }
    }
    assert(r1 =~= r2);
}

/// When the first digits of the bounds are at least 2 apart, the answer is the
/// one digit halfway between them.
pub proof fn lemma_wide_gap_one_digit(lo: BoundView, hi: BoundView, r: Seq<u8>)
    requires
        engine_result(lo, hi, r),
        read(hi, 0) - read(lo, 0) >= 2,
    ensures
        r.len() == 1,
        r[0] == (read(lo, 0) + read(hi, 0)) / 2,
{
    assert(gap(lo, hi, 0) >= 2);
    if r.len() > 1 {
        assert(r[0] == read(lo, 0));
        assert(gap(lo, hi, 0) < 2);
    }
}

/// Minimality: where two keys first differ at position `i` by at least 2, the
/// answer is their shared first `i` digits and then the mean of the digits at
/// `i`, so `i + 1` digits, and no digit sequence of fewer digits lies strictly
/// between the keys.
pub proof fn lemma_minimal_at_first_difference(
    x: Seq<u8>,
    y: Seq<u8>,
    i: nat,
    r: Seq<u8>,
    q: Seq<u8>,
)
    requires
        valid_digits(x),
        valid_digits(y),
        valid_digits(q),
        engine_result(BoundView::Finite(x), BoundView::Finite(y), r),
        forall|t: int| 0 <= t < i ==> #[trigger] digit_or_zero(x, t) == digit_or_zero(y, t),
        digit_or_zero(y, i as int) - digit_or_zero(x, i as int) >= 2,
        q.len() <= i,
    ensures
        r.len() == i + 1,
        forall|t: int| 0 <= t < i ==> #[trigger] r[t] == digit_or_zero(x, t),
        r[i as int] == (digit_or_zero(x, i as int) + digit_or_zero(y, i as int)) / 2,
        !(value_lt(x, q) && value_lt(q, y)),
{
    let lo = BoundView::Finite(x);
    let hi = BoundView::Finite(y);
    let j = r.len() - 1;
    assert(agree(lo, hi, i as int)) by {
        assert forall|k: int| 0 <= k < i implies #[trigger] read(lo, k) == read(hi, k) by {
            assert(digit_or_zero(x, k) == digit_or_zero(y, k));
        }
    }
    assert(gap(lo, hi, i as int) >= 2);
    if j < i {
        assert(agree(lo, hi, j)) by {
            assert forall|k: int| 0 <= k < j implies #[trigger] read(lo, k) == read(hi, k) by {
                assert(digit_or_zero(x, k) == digit_or_zero(y, k));
            }
        }
        assert(digit_or_zero(x, j) == digit_or_zero(y, j));
        assert(gap(lo, hi, j) == 0);
    }
    if j > i {
        assert(r[i as int] == read(lo, i as int));
        assert(gap(lo, hi, i as int) < 2);
    }
    assert forall|t: int| 0 <= t < i implies #[trigger] r[t] == digit_or_zero(x, t) by {
        assert(r[t] == read(lo, t));
    }
    lemma_no_short_between(x, y, q, i);
}

/// A canonical digit sequence strictly between `lo` and `hi`: the digits of
/// `lo` up to the first position with room for a digit strictly between the
/// bounds, then the floor of the mean of the two digits there.
#[verifier::spinoff_prover]
#[verifier::rlimit(40)]
pub fn between(lo: &Bound, hi: &Bound) -> (r: Vec<u8>)
    requires
        between_ok(lo@, hi@),
    ensures
        engine_result(lo@, hi@, r@),
        canonical(r@),
        bound_below(lo@, r@),
        bound_above(hi@, r@),
        r@.len() <= stored_len(lo@) + 1 || r@.len() <= stored_len(hi@) + 1,
{
    let ghost k = lemma_first_divergence(lo@, hi@);
    let lo_len = lo.stored_digits();
    let hi_len = hi.stored_digits();
    let ghost p: nat = if lo_len >= hi_len {
        lo_len as nat
    } else {
        hi_len as nat
    };
    let mut out: Vec<u8> = Vec::new();
    let mut capped: bool = false;
    let mut i: usize = 0;
    loop
        invariant
            between_ok(lo@, hi@),
            agree(lo@, hi@, k as int),
            read(lo@, k as int) < read(hi@, k as int),
            lo@ is Finite && hi@ is Finite ==> k < stored_len(lo@) || k < stored_len(hi@),
            !(lo@ is Finite && hi@ is Finite) ==> k == 0,
            out@.len() == i,
            i <= p,
            follows_lo(lo@, hi@, out@, i as int),
            capped == !agree(lo@, hi@, i as int),
            !capped ==> i <= k,
            p >= stored_len(lo@),
            p >= stored_len(hi@),
            p == lo_len || p == hi_len,
            lo_len == stored_len(lo@),
            hi_len == stored_len(hi@),
        decreases p - i,
    {
        let a: i16 = lo.digit(i);
        let b: i16 = if capped {
            BASE as i16
        } else {
            hi.digit(i)
        };
        proof {
            if !capped && i < k {
                assert(read(lo@, i as int) == read(hi@, i as int));
            }
        }
        assert(b == ceiling(lo@, hi@, i as int));
        let ghost before = out@;
        if b - a >= 2 {
            let m: i16 = (a + b) / 2;
            assert(0 <= m < BASE);
            out.push(m as u8);
            proof {
                lemma_push_last(lo@, hi@, before, m as u8);
                assert(out@.len() == i + 1);
                assert(i <= lo_len || i <= hi_len);
                lemma_result_between(lo@, hi@, out@);
            }
            return out;
        }
        proof {
            if lo@ is Below {
                assert(false);
            }
        }
        let ghost was_capped = capped;
        assert(0 <= a < BASE);
        out.push(a as u8);
        proof {
            lemma_push_copied(lo@, hi@, before, a as u8);
        }
        if b - a == 1 {
            capped = true;
        }
        proof {
            if !capped {
                assert forall|t: int| 0 <= t < i + 1 implies #[trigger] read(lo@, t) == read(
                    hi@,
                    t,
                ) by {
                    if t < i {
                        assert(agree(lo@, hi@, i as int));
                    }
                }
            }
            if was_capped || (capped && hi@ is Above) {
                assert(read(lo@, i as int) == BASE - 1);
            }
            assert(i + 1 <= p);
        }
        i = i + 1;
    }
}

} // verus!
