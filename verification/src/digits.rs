//! Arithmetic on sequences of decimal digits.
//!
//! A magnitude is a sequence of digits, least significant first. Leading
//! zeros (at the high end) are allowed here; the decimal type on top of this
//! module decides which of them it keeps.

use vstd::prelude::*;
use vstd::arithmetic::power::{pow, lemma_pow0, lemma_pow_adds, lemma_pow_positive};

verus! {

/// Ten to the power `n`.
pub open spec fn pow10(n: nat) -> int {
    pow(10, n)
}

/// Every element is a decimal digit.
pub open spec fn all_digits(s: Seq<u8>) -> bool {
    forall|i: int| 0 <= i < s.len() ==> #[trigger] s[i] <= 9
}

/// The digit at place `i`; places past the end of the sequence hold zero.
pub open spec fn digit_at(s: Seq<u8>, i: int) -> int {
    if 0 <= i < s.len() {
        s[i] as int
    } else {
        0
    }
}

/// The number written by the `n` lowest places of `s`.
pub open spec fn low_value(s: Seq<u8>, n: nat) -> int
    decreases n,
{
    if n == 0 {
        0
    } else {
        low_value(s, (n - 1) as nat) + digit_at(s, n - 1) * pow10((n - 1) as nat)
    }
}

/// The number written by `s`, least significant digit first.
pub open spec fn value(s: Seq<u8>) -> int {
    low_value(s, s.len())
}

/// Powers of ten are positive, and each is ten times the one before.
pub proof fn lemma_pow10(n: nat)
    ensures
        pow10(0) == 1,
        pow10(n) > 0,
        pow10(n + 1) == 10 * pow10(n),
{
    reveal(pow);
    lemma_pow_positive(10, n);
    lemma_pow0(10);
}

/// Exponents add where powers of ten multiply.
pub proof fn lemma_pow10_adds(m: nat, n: nat)
    ensures
        pow10(m + n) == pow10(m) * pow10(n),
{
    lemma_pow_adds(10, m, n);
}

/// The `n` lowest places write a number below ten to the power `n`.
pub proof fn lemma_low_value_bound(s: Seq<u8>, n: nat)
    requires
        all_digits(s),
    ensures
        0 <= low_value(s, n) < pow10(n),
    decreases n,
{
    lemma_pow10(n);
    if n > 0 {
        let k = (n - 1) as nat;
        lemma_low_value_bound(s, k);
        lemma_pow10(k);
        let d = digit_at(s, n - 1);
        let p = pow10(k);
        assert(0 <= d <= 9);
        assert(0 <= d * p <= 9 * p) by (nonlinear_arith)
            requires
                0 <= d <= 9,
                p > 0,
        ;
    }
}

/// Sequences with the same digits in their `n` lowest places write the same
/// number there.
pub proof fn lemma_low_value_agree(s: Seq<u8>, t: Seq<u8>, n: nat)
    requires
        forall|i: int| 0 <= i < n ==> digit_at(s, i) == digit_at(t, i),
    ensures
        low_value(s, n) == low_value(t, n),
    decreases n,
{
    if n > 0 {
        lemma_low_value_agree(s, t, (n - 1) as nat);
    }
}

/// Places past the end of a sequence add nothing.
pub proof fn lemma_low_value_beyond(s: Seq<u8>, n: nat)
    requires
        n >= s.len(),
    ensures
        low_value(s, n) == value(s),
    decreases n,
{
    if n > s.len() {
        lemma_low_value_beyond(s, (n - 1) as nat);
        let p = pow10((n - 1) as nat);
        assert(0 * p == 0) by (nonlinear_arith);
    }
}

/// A further digit on top counts by the power of ten of its place.
pub proof fn lemma_value_push(s: Seq<u8>, d: u8)
    ensures
        value(s.push(d)) == value(s) + d * pow10(s.len()),
{
    let t = s.push(d);
    assert(digit_at(t, s.len() as int) == d);
    lemma_low_value_agree(s, t, s.len());
}

/// A zero on top changes nothing.
pub proof fn lemma_value_push_zero(s: Seq<u8>)
    ensures
        value(s.push(0u8)) == value(s),
{
    lemma_value_push(s, 0u8);
    let p = pow10(s.len());
    assert(0 * p == 0) by (nonlinear_arith);
}

/// A sequence of digits writes a number below ten to the power of its length.
pub proof fn lemma_value_bound(s: Seq<u8>)
    requires
        all_digits(s),
    ensures
        0 <= value(s) < pow10(s.len()),
{
    lemma_low_value_bound(s, s.len());
}

/// A single digit writes itself.
pub proof fn lemma_value_single(d: u8)
    ensures
        value(seq![d]) == d,
{
    lemma_pow10(0);
    assert(seq![d] =~= Seq::<u8>::empty().push(d));
    lemma_value_push(Seq::<u8>::empty(), d);
    assert(d * 1 == d) by (nonlinear_arith);
}

/// The value of a concatenation: the high part counts from the place where
/// the low part ends.
pub proof fn lemma_value_concat(x: Seq<u8>, y: Seq<u8>)
    ensures
        value(x + y) == value(x) + pow10(x.len()) * value(y),
    decreases y.len(),
{
    if y.len() == 0 {
        assert(x + y =~= x);
        let p = pow10(x.len());
        assert(p * 0 == 0) by (nonlinear_arith);
    } else {
        let front = y.drop_last();
        let top = y.last();
        assert(y =~= front.push(top));
        assert(x + y =~= (x + front).push(top));
        lemma_value_concat(x, front);
        lemma_value_push(x + front, top);
        lemma_value_push(front, top);
        lemma_pow10_adds(x.len(), front.len());
        let px = pow10(x.len());
        let pf = pow10(front.len());
        let vf = value(front);
        assert(px * (vf + top * pf) == px * vf + top * (px * pf)) by (nonlinear_arith);
    }
}

/// The lowest digit is the value modulo ten, and the rest is the quotient.
pub proof fn lemma_value_split_low(s: Seq<u8>)
    requires
        s.len() > 0,
        all_digits(s),
    ensures
        value(s) == s[0] + 10 * value(s.drop_first()),
        value(s) % 10 == s[0],
        value(s) / 10 == value(s.drop_first()),
        value(s.drop_first()) >= 0,
{
    let low = seq![s[0]];
    let rest = s.drop_first();
    assert(s =~= low + rest);
    lemma_value_concat(low, rest);
    lemma_value_single(s[0]);
    lemma_pow10(0);
    assert(pow10(1) == 10);
    assert(all_digits(rest));
    lemma_value_bound(rest);
    let r = value(rest);
    let d = s[0] as int;
    assert((d + 10 * r) % 10 == d && (d + 10 * r) / 10 == r) by (nonlinear_arith)
        requires
            0 <= d <= 9,
    ;
}

/// A run of zeros writes zero.
pub proof fn lemma_value_zeros(s: Seq<u8>)
    requires
        forall|i: int| 0 <= i < s.len() ==> s[i] == 0,
    ensures
        value(s) == 0,
    decreases s.len(),
{
    if s.len() > 0 {
        let front = s.drop_last();
        assert(s =~= front.push(s.last()));
        lemma_value_zeros(front);
        lemma_value_push_zero(front);
    }
}

/// A sequence whose highest digit is not zero writes a number with exactly
/// as many digits as the sequence is long.
pub proof fn lemma_value_top_nonzero(s: Seq<u8>)
    requires
        s.len() > 0,
        all_digits(s),
        s.last() != 0,
    ensures
        pow10((s.len() - 1) as nat) <= value(s),
{
    let front = s.drop_last();
    assert(s =~= front.push(s.last()));
    lemma_value_push(front, s.last());
    assert(all_digits(front));
    lemma_value_bound(front);
    let p = pow10(front.len());
    let d = s.last() as int;
    lemma_pow10(front.len());
    assert(d * p >= p) by (nonlinear_arith)
        requires
            d >= 1,
            p > 0,
    ;
}

/// The sum of two magnitudes. The result is one digit longer than the longer
/// operand, so that a carry out of the top place always has room.
pub(crate) fn add_digits(a: &Vec<u8>, b: &Vec<u8>) -> (r: Vec<u8>)
    requires
        all_digits(a@),
        all_digits(b@),
    ensures
        all_digits(r@),
        value(r@) == value(a@) + value(b@),
        r@.len() == (if a@.len() >= b@.len() { a@.len() } else { b@.len() }) + 1,
{
    let n: usize = if a.len() >= b.len() { a.len() } else { b.len() };
    let mut r: Vec<u8> = Vec::new();
    let mut carry: u8 = 0;
    let mut i: usize = 0;
    while i < n
        invariant
            i <= n,
            n == (if a@.len() >= b@.len() { a@.len() } else { b@.len() }),
            all_digits(a@),
            all_digits(b@),
            all_digits(r@),
            r@.len() == i,
            carry <= 1,
            value(r@) + carry * pow10(i as nat) == low_value(a@, i as nat) + low_value(b@, i as nat),
        decreases n - i,
    {
        let da: u8 = if i < a.len() { a[i] } else { 0 };
        let db: u8 = if i < b.len() { b[i] } else { 0 };
        let t: u8 = da + db + carry;
        let digit: u8 = if t >= 10 { t - 10 } else { t };
        let next: u8 = if t >= 10 { 1 } else { 0 };
        proof {
            let p = pow10(i as nat);
            lemma_pow10(i as nat);
            lemma_value_push(r@, digit);
            assert(da == digit_at(a@, i as int));
            assert(db == digit_at(b@, i as int));
            assert(digit * p + next * (10 * p) == carry * p + da * p + db * p) by (nonlinear_arith)
                requires
                    digit + 10 * next == carry + da + db,
            ;
        }
        r.push(digit);
        carry = next;
        i = i + 1;
    }
    proof {
        lemma_value_push(r@, carry);
        lemma_low_value_beyond(a@, n as nat);
        lemma_low_value_beyond(b@, n as nat);
    }
    r.push(carry);
    r
}

/// The difference of two magnitudes, with a borrow out of the top place.
///
/// The result has as many digits as the longer operand. Where `a` is at
/// least `b`, it writes `a - b` and no borrow is left; otherwise a borrow is
/// left and the result writes `a - b` plus ten to the power of its length.
pub(crate) fn sub_digits(a: &Vec<u8>, b: &Vec<u8>) -> (out: (Vec<u8>, bool))
    requires
        all_digits(a@),
        all_digits(b@),
    ensures
        all_digits(out.0@),
        out.0@.len() == (if a@.len() >= b@.len() { a@.len() } else { b@.len() }),
        out.1 <==> value(a@) < value(b@),
        value(out.0@) == value(a@) - value(b@) + (if out.1 { pow10(out.0@.len()) } else { 0 }),
{
    let n: usize = if a.len() >= b.len() { a.len() } else { b.len() };
    let mut r: Vec<u8> = Vec::new();
    let mut borrow: u8 = 0;
    let mut i: usize = 0;
    while i < n
        invariant
            i <= n,
            n == (if a@.len() >= b@.len() { a@.len() } else { b@.len() }),
            all_digits(a@),
            all_digits(b@),
            all_digits(r@),
            r@.len() == i,
            borrow <= 1,
            value(r@) - borrow * pow10(i as nat) == low_value(a@, i as nat) - low_value(b@, i as nat),
        decreases n - i,
    {
        let da: u8 = if i < a.len() { a[i] } else { 0 };
        let db: u8 = if i < b.len() { b[i] } else { 0 };
        let take: u8 = db + borrow;
        let digit: u8 = if da >= take { da - take } else { da + 10 - take };
        let next: u8 = if da >= take { 0 } else { 1 };
        proof {
            let p = pow10(i as nat);
            lemma_pow10(i as nat);
            lemma_value_push(r@, digit);
            assert(da == digit_at(a@, i as int));
            assert(db == digit_at(b@, i as int));
            assert(digit * p - next * (10 * p) == da * p - db * p - borrow * p) by (nonlinear_arith)
                requires
                    digit - 10 * next == da - db - borrow,
            ;
        }
        r.push(digit);
        borrow = next;
        i = i + 1;
    }
    proof {
        lemma_low_value_beyond(a@, n as nat);
        lemma_low_value_beyond(b@, n as nat);
        lemma_value_bound(r@);
        lemma_pow10(n as nat);
        assert(borrow * pow10(n as nat) == (if borrow == 1 { pow10(n as nat) } else { 0 }));
    }
    (r, borrow == 1)
}

/// The product of a magnitude and a single digit, one digit longer than the
/// magnitude.
pub(crate) fn mul_digit(a: &Vec<u8>, d: u8) -> (r: Vec<u8>)
    requires
        all_digits(a@),
        d <= 9,
    ensures
        all_digits(r@),
        value(r@) == value(a@) * d,
        r@.len() == a@.len() + 1,
{
    let n: usize = a.len();
    let mut r: Vec<u8> = Vec::new();
    let mut carry: u8 = 0;
    let mut i: usize = 0;
    while i < n
        invariant
            i <= n,
            n == a@.len(),
            d <= 9,
            all_digits(a@),
            all_digits(r@),
            r@.len() == i,
            carry <= 8,
            value(r@) + carry * pow10(i as nat) == low_value(a@, i as nat) * d,
        decreases n - i,
    {
        let x: u8 = a[i];
        assert(x * d <= 81) by (nonlinear_arith)
            requires
                x <= 9,
                d <= 9,
        ;
        let t: u8 = x * d + carry;
        let digit: u8 = t % 10;
        let next: u8 = t / 10;
        proof {
            let p = pow10(i as nat);
            let low = low_value(a@, i as nat);
            lemma_pow10(i as nat);
            lemma_value_push(r@, digit);
            assert(x == digit_at(a@, i as int));
            assert(digit * p + next * (10 * p) == carry * p + (x * p) * d) by (nonlinear_arith)
                requires
                    digit + 10 * next == x * d + carry,
            ;
            assert((low + x * p) * d == low * d + (x * p) * d) by (nonlinear_arith);
        }
        r.push(digit);
        carry = next;
        i = i + 1;
    }
    proof {
        lemma_value_push(r@, carry);
    }
    r.push(carry);
    r
}

/// The product of two magnitudes, by one pass over the digits of `a` from
/// the highest down: the sum so far moves up one place, then takes in `b`
/// times the next digit.
pub(crate) fn mul_digits(a: &Vec<u8>, b: &Vec<u8>) -> (r: Vec<u8>)
    requires
        all_digits(a@),
        all_digits(b@),
    ensures
        all_digits(r@),
        value(r@) == value(a@) * value(b@),
        a@.len() > 0 ==> r@.len() >= a@.len() + b@.len(),
{
    let mut acc: Vec<u8> = Vec::new();
    let mut i: usize = a.len();
    proof {
        assert(a@.skip(a@.len() as int) =~= Seq::<u8>::empty());
        assert(value(acc@) == 0);
        let vb = value(b@);
        assert(0 * vb == 0) by (nonlinear_arith);
    }
    while i > 0
        invariant
            i <= a@.len(),
            all_digits(a@),
            all_digits(b@),
            all_digits(acc@),
            value(acc@) == value(a@.skip(i as int)) * value(b@),
            i < a@.len() ==> acc@.len() >= (a@.len() - i) + b@.len(),
        decreases i,
    {
        i = i - 1;
        let d: u8 = a[i];
        let term = mul_digit(b, d);
        let ghost before = acc@;
        acc.insert(0, 0);
        proof {
            assert(acc@ =~= seq![0u8] + before);
            lemma_value_concat(seq![0u8], before);
            lemma_value_single(0u8);
            lemma_pow10(0);
            assert(all_digits(acc@)) by {
                assert forall|j: int| 0 <= j < acc@.len() implies #[trigger] acc@[j] <= 9 by {
                    if j > 0 {
                        assert(acc@[j] == before[j - 1]);
                    }
                }
            }
            let tail = a@.skip(i + 1);
            assert(a@.skip(i as int) =~= seq![d] + tail);
            lemma_value_concat(seq![d], tail);
            lemma_value_single(d);
            let vb = value(b@);
            let vt = value(tail);
            assert(10 * (vt * vb) + vb * d == (d + 10 * vt) * vb) by (nonlinear_arith);
        }
        acc = add_digits(&acc, &term);
    }
    proof {
        assert(a@.skip(0) =~= a@);
    }
    acc
}

} // verus!
