//! The digit domain and the numeric value of a digit sequence.
use vstd::prelude::*;

verus! {

/// Number of symbols in the digit alphabet.
pub const BASE: u8 = 79;

/// Every digit lies in `[0, BASE - 1]`.
pub open spec fn valid_digits(s: Seq<u8>) -> bool {
    forall|i: int| 0 <= i < s.len() ==> #[trigger] s[i] < BASE
}

/// A key's digits: valid, non-empty, and with no trailing zero digit, so that
/// no digit can be dropped without changing the value.
pub open spec fn canonical(s: Seq<u8>) -> bool {
    &&& valid_digits(s)
    &&& s.len() > 0
    &&& s.last() != 0
}

/// The `i`-th digit of `s`, where an exhausted sequence reads as zeros.
pub open spec fn digit_or_zero(s: Seq<u8>, i: int) -> int {
    if 0 <= i < s.len() {
        s[i] as int
    } else {
        0
    }
}

/// `BASE` raised to the `n`-th power: the value 1 at `n` digits of precision.
pub open spec fn unit(n: nat) -> int
    decreases n,
{
    if n == 0 {
        1
    } else {
        BASE * unit((n - 1) as nat)
    }
}

/// The value of `s` times `BASE^n`, truncated to an integer: the first `n`
/// digits of `s`, padded with zeros, read as a base-79 integer.
pub open spec fn scaled(s: Seq<u8>, n: nat) -> int
    decreases n,
{
    if n == 0 {
        0
    } else {
        BASE * scaled(s, (n - 1) as nat) + digit_or_zero(s, n - 1)
    }
}

/// Numeric order on values: `value(x) < value(y)`, compared exactly at a
/// precision that holds every digit of both.
pub open spec fn value_lt(x: Seq<u8>, y: Seq<u8>) -> bool {
    let n = if x.len() >= y.len() { x.len() } else { y.len() };
    scaled(x, n) < scaled(y, n)
}

/// Lexicographic order: digit by digit, and a proper prefix before the longer.
pub open spec fn lex_lt(x: Seq<u8>, y: Seq<u8>) -> bool {
    ||| (x.len() < y.len() && x == y.subrange(0, x.len() as int))
    ||| exists|k: int|
        0 <= k < x.len() && k < y.len() && x.subrange(0, k) == y.subrange(0, k)
            && #[trigger] x[k] < y[k]
}

/// A scaled value lies in `[0, unit(n))`.
pub proof fn lemma_scaled_bounds(s: Seq<u8>, n: nat)
    requires
        valid_digits(s),
    ensures
        0 <= scaled(s, n) < unit(n),
    decreases n,
{
    if n > 0 {
        lemma_scaled_bounds(s, (n - 1) as nat);
    }
}

/// Sequences that agree on their first `n` digits have equal scaled values there.
pub proof fn lemma_scaled_agree(x: Seq<u8>, y: Seq<u8>, n: nat)
    requires
        forall|i: int| 0 <= i < n ==> digit_or_zero(x, i) == digit_or_zero(y, i),
    ensures
        scaled(x, n) == scaled(y, n),
    decreases n,
{
    if n > 0 {
        lemma_scaled_agree(x, y, (n - 1) as nat);
    }
}

/// A strict order at some precision survives any further digits.
pub proof fn lemma_lt_extends(x: Seq<u8>, y: Seq<u8>, m: nat, n: nat)
    requires
        valid_digits(x),
        valid_digits(y),
        m <= n,
        scaled(x, m) < scaled(y, m),
    ensures
        scaled(x, n) < scaled(y, n),
    decreases n - m,
{
    if m < n {
        lemma_lt_extends(x, y, m, (n - 1) as nat);
        assert(BASE * scaled(x, (n - 1) as nat) + BASE <= BASE * scaled(y, (n - 1) as nat))
            by (nonlinear_arith)
            requires
                scaled(x, (n - 1) as nat) + 1 <= scaled(y, (n - 1) as nat),
        ;
        assert(digit_or_zero(x, n - 1) < BASE);
    }
}

/// Past the last digit, one more digit of precision multiplies by `BASE`.
pub proof fn lemma_scaled_pad(s: Seq<u8>, n: nat)
    requires
        n >= s.len(),
    ensures
        scaled(s, n + 1) == BASE * scaled(s, n),
{
}

/// A non-strict order between zero-padded values survives any further digits.
pub proof fn lemma_le_extends(x: Seq<u8>, y: Seq<u8>, m: nat, n: nat)
    requires
        m >= x.len(),
        m >= y.len(),
        m <= n,
        scaled(x, m) <= scaled(y, m),
    ensures
        scaled(x, n) <= scaled(y, n),
    decreases n - m,
{
    if m < n {
        lemma_le_extends(x, y, m, (n - 1) as nat);
        lemma_scaled_pad(x, (n - 1) as nat);
        lemma_scaled_pad(y, (n - 1) as nat);
    }
}

/// `value_lt` may be decided at any precision that holds every digit of both.
pub proof fn lemma_value_lt_at(x: Seq<u8>, y: Seq<u8>, n: nat)
    requires
        valid_digits(x),
        valid_digits(y),
        n >= x.len(),
        n >= y.len(),
    ensures
        value_lt(x, y) <==> scaled(x, n) < scaled(y, n),
{
    let w: nat = if x.len() >= y.len() { x.len() } else { y.len() };
    if scaled(x, w) < scaled(y, w) {
        lemma_lt_extends(x, y, w, n);
    } else {
        lemma_le_extends(y, x, w, n);
    }
}

/// If `x` and `y` agree before position `k` and `x` has the smaller digit at
/// `k`, then `x` has the smaller value.
pub proof fn lemma_first_difference(x: Seq<u8>, y: Seq<u8>, k: nat)
    requires
        valid_digits(x),
        valid_digits(y),
        forall|i: int| 0 <= i < k ==> digit_or_zero(x, i) == digit_or_zero(y, i),
        digit_or_zero(x, k as int) < digit_or_zero(y, k as int),
    ensures
        value_lt(x, y),
{
    lemma_scaled_agree(x, y, k);
    let w: nat = if x.len() >= y.len() { x.len() } else { y.len() };
    assert(k < w);
    lemma_lt_extends(x, y, k + 1, w);
}

/// The empty sequence scales to 0 at every precision.
proof fn lemma_scaled_empty(n: nat)
    ensures
        scaled(Seq::empty(), n) == 0,
    decreases n,
{
    if n > 0 {
        lemma_scaled_empty((n - 1) as nat);
    }
}

/// A canonical sequence has a value above 0.
pub proof fn lemma_canonical_positive(s: Seq<u8>)
    requires
        canonical(s),
    ensures
        value_lt(Seq::empty(), s),
{
    lemma_scaled_empty(s.len());
    lemma_scaled_bounds(s, (s.len() - 1) as nat);
}

/// Digit-wise at most gives at most in value.
pub proof fn lemma_scaled_le(x: Seq<u8>, y: Seq<u8>, n: nat)
    requires
        forall|i: int| 0 <= i < n ==> #[trigger] digit_or_zero(x, i) <= digit_or_zero(y, i),
    ensures
        scaled(x, n) <= scaled(y, n),
    decreases n,
{
    if n > 0 {
        lemma_scaled_le(x, y, (n - 1) as nat);
        assert(digit_or_zero(x, n - 1) <= digit_or_zero(y, n - 1));
    }
}

/// On canonical sequences the lexicographic order implies the value order.
proof fn lemma_lex_to_value(x: Seq<u8>, y: Seq<u8>)
    requires
        canonical(x),
        canonical(y),
        lex_lt(x, y),
    ensures
        value_lt(x, y),
{
    if x.len() < y.len() && x == y.subrange(0, x.len() as int) {
        let n = y.len();
        assert forall|i: int| 0 <= i < n - 1 implies #[trigger] digit_or_zero(x, i)
            <= digit_or_zero(y, i) by {
            if i < x.len() {
                assert(x[i] == y.subrange(0, x.len() as int)[i]);
            }
        }
        lemma_scaled_le(x, y, (n - 1) as nat);
        assert(digit_or_zero(x, n - 1) == 0);
        assert(digit_or_zero(y, n - 1) >= 1);
    } else {
        let k = choose|k: int|
            0 <= k < x.len() && k < y.len() && x.subrange(0, k) == y.subrange(0, k) && #[trigger] x[k]
                < y[k];
        assert forall|i: int| 0 <= i < k implies digit_or_zero(x, i) == digit_or_zero(y, i) by {
            assert(x[i] == x.subrange(0, k)[i]);
            assert(y[i] == y.subrange(0, k)[i]);
        }
        lemma_first_difference(x, y, k as nat);
    }
}

proof fn lemma_lex_total_from(x: Seq<u8>, y: Seq<u8>, k: int)
    requires
        0 <= k <= x.len(),
        k <= y.len(),
        x.subrange(0, k) == y.subrange(0, k),
    ensures
        x == y || lex_lt(x, y) || lex_lt(y, x),
    decreases x.len() - k,
{
    if k == x.len() || k == y.len() {
        if x.len() == y.len() {
            assert(x == x.subrange(0, k));
            assert(y == y.subrange(0, k));
        } else if x.len() < y.len() {
            assert(x == x.subrange(0, k));
        } else {
            assert(y == y.subrange(0, k));
        }
    } else if x[k] == y[k] {
        assert(x.subrange(0, k + 1) =~= x.subrange(0, k).push(x[k]));
        assert(y.subrange(0, k + 1) =~= y.subrange(0, k).push(y[k]));
        lemma_lex_total_from(x, y, k + 1);
    } else if x[k] < y[k] {
        assert(lex_lt(x, y));
    } else {
        assert(lex_lt(y, x));
    }
}

/// Where `x` and `y` agree on their first `i` digits, no sequence of at most
/// `i` digits lies strictly between them; `q` agrees with them before `j`.
proof fn lemma_no_short_between_from(x: Seq<u8>, y: Seq<u8>, q: Seq<u8>, i: nat, j: nat)
    requires
        valid_digits(x),
        valid_digits(y),
        valid_digits(q),
        forall|t: int| 0 <= t < i ==> #[trigger] digit_or_zero(x, t) == digit_or_zero(y, t),
        q.len() <= i,
        j <= i,
        forall|t: int| 0 <= t < j ==> #[trigger] digit_or_zero(q, t) == digit_or_zero(x, t),
    ensures
        !(value_lt(x, q) && value_lt(q, y)),
    decreases i - j,
{
    if j == i {
        let n: nat = if x.len() >= q.len() { x.len() } else { q.len() };
        assert forall|t: int| 0 <= t < n implies #[trigger] digit_or_zero(q, t) <= digit_or_zero(
            x,
            t,
        ) by {
            if t < j {
                assert(digit_or_zero(q, t) == digit_or_zero(x, t));
            }
        }
        lemma_scaled_le(q, x, n);
    } else if digit_or_zero(q, j as int) == digit_or_zero(x, j as int) {
        lemma_no_short_between_from(x, y, q, i, j + 1);
    } else if digit_or_zero(q, j as int) < digit_or_zero(x, j as int) {
        lemma_first_difference(q, x, j);
    } else {
        assert forall|t: int| 0 <= t < j implies #[trigger] digit_or_zero(y, t) == digit_or_zero(
            q,
            t,
        ) by {
            assert(digit_or_zero(x, t) == digit_or_zero(y, t));
        }
        assert(digit_or_zero(x, j as int) == digit_or_zero(y, j as int));
        lemma_first_difference(y, q, j);
    }
}

/// Where `x` and `y` agree on their first `i` digits, no sequence of at most
/// `i` digits has a value strictly between theirs.
pub proof fn lemma_no_short_between(x: Seq<u8>, y: Seq<u8>, q: Seq<u8>, i: nat)
    requires
        valid_digits(x),
        valid_digits(y),
        valid_digits(q),
        forall|t: int| 0 <= t < i ==> #[trigger] digit_or_zero(x, t) == digit_or_zero(y, t),
        q.len() <= i,
    ensures
        !(value_lt(x, q) && value_lt(q, y)),
{
    lemma_no_short_between_from(x, y, q, i, 0);
}

/// Order equivalence: on canonical digit sequences, lexicographic order and
/// numeric order coincide.
pub proof fn lemma_order_equivalence(x: Seq<u8>, y: Seq<u8>)
    requires
        canonical(x),
        canonical(y),
    ensures
        lex_lt(x, y) <==> value_lt(x, y),
{
    if lex_lt(x, y) {
        lemma_lex_to_value(x, y);
    } else {
        assert(x.subrange(0, 0) =~= y.subrange(0, 0));
        lemma_lex_total_from(x, y, 0);
        if lex_lt(y, x) {
            lemma_lex_to_value(y, x);
        }
    }
}

} // verus!
