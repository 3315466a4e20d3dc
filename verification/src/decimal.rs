//! Exact decimal numbers of any size.
//!
//! A decimal is an integer mantissa together with a count of fractional
//! digits: it stands for `mantissa / 10^scale`. Sums, differences and
//! products of decimals are decimals again, so arithmetic here never rounds
//! and never overflows.

use vstd::prelude::*;
use crate::digits::{
    add_digits, all_digits, lemma_pow10, lemma_pow10_adds, lemma_value_bound, lemma_value_concat,
    lemma_value_push_zero, lemma_value_split_low, lemma_value_top_nonzero, lemma_value_zeros,
    mul_digits, pow10, sub_digits, value,
};

verus! {

/// The mathematical content of a [`Decimal`]: the number
/// `mantissa / 10^scale`.
pub ghost struct DecimalView {
    pub mantissa: int,
    pub scale: nat,
}

impl DecimalView {
    /// The real number that this decimal stands for.
    pub open spec fn value(self) -> real {
        self.mantissa as real / pow10(self.scale) as real
    }

    /// A decimal is canonical when it carries no fractional digit that could
    /// be dropped. Every number that has a decimal has exactly one canonical
    /// decimal, see [`lemma_canonical_unique`].
    pub open spec fn canonical(self) -> bool {
        self.scale > 0 ==> self.mantissa % 10 != 0
    }
}

/// The canonical decimal for `mantissa / 10^scale`: trailing fractional
/// zeros are dropped one by one.
pub open spec fn canonical_of(mantissa: int, scale: nat) -> DecimalView
    decreases scale,
{
    if scale > 0 && mantissa % 10 == 0 {
        canonical_of(mantissa / 10, (scale - 1) as nat)
    } else {
        DecimalView { mantissa, scale }
    }
}

/// The distance of `m` from zero.
pub open spec fn magnitude_of(m: int) -> nat {
    if m < 0 {
        (-m) as nat
    } else {
        m as nat
    }
}

/// A magnitude with its sign.
pub open spec fn signed(negative: bool, magnitude: int) -> int {
    if negative {
        -magnitude
    } else {
        magnitude
    }
}

/// Appending `k` zeros to the mantissa and adding `k` to the scale leaves
/// the number unchanged.
pub proof fn lemma_value_rescale(m: int, s: nat, k: nat)
    ensures
        (DecimalView { mantissa: m * pow10(k), scale: s + k }).value() == (DecimalView {
            mantissa: m,
            scale: s,
        }).value(),
{
    lemma_pow10_adds(s, k);
    lemma_pow10(s);
    lemma_pow10(k);
    let ps = pow10(s);
    let pk = pow10(k);
    assert((m * pk) as real / (ps * pk) as real == m as real / ps as real) by (nonlinear_arith)
        requires
            ps > 0,
            pk > 0,
    ;
}

/// A decimal without fractional digits stands for its mantissa.
pub proof fn lemma_value_whole(m: int)
    ensures
        (DecimalView { mantissa: m, scale: 0 }).value() == m as real,
{
    lemma_pow10(0);
    let p = pow10(0);
    assert(m as real / p as real == m as real) by (nonlinear_arith)
        requires
            p == 1,
    ;
}

/// Decimals of one scale add by their mantissas.
pub proof fn lemma_value_sum(a: int, b: int, s: nat)
    ensures
        (DecimalView { mantissa: a + b, scale: s }).value() == (DecimalView {
            mantissa: a,
            scale: s,
        }).value() + (DecimalView { mantissa: b, scale: s }).value(),
{
    lemma_pow10(s);
    let p = pow10(s);
    assert((a + b) as real / p as real == a as real / p as real + b as real / p as real)
        by (nonlinear_arith)
        requires
            p > 0,
    ;
}

/// Decimals multiply by their mantissas, and their scales add.
pub proof fn lemma_value_product(a: int, sa: nat, b: int, sb: nat)
    ensures
        (DecimalView { mantissa: a * b, scale: sa + sb }).value() == (DecimalView {
            mantissa: a,
            scale: sa,
        }).value() * (DecimalView { mantissa: b, scale: sb }).value(),
{
    lemma_pow10_adds(sa, sb);
    lemma_pow10(sa);
    lemma_pow10(sb);
    let p = pow10(sa);
    let q = pow10(sb);
    assert((a * b) as real / (p * q) as real == (a as real / p as real) * (b as real / q as real))
        by (nonlinear_arith)
        requires
            p > 0,
            q > 0,
    ;
}

/// `canonical_of` gives a canonical decimal for the same number.
pub proof fn lemma_canonical_of(m: int, s: nat)
    ensures
        canonical_of(m, s).canonical(),
        canonical_of(m, s).value() == (DecimalView { mantissa: m, scale: s }).value(),
    decreases s,
{
    if s > 0 && m % 10 == 0 {
        let k = (s - 1) as nat;
        lemma_canonical_of(m / 10, k);
        lemma_pow10(0);
        assert(pow10(1) == 10);
        assert(m == (m / 10) * pow10(1));
        lemma_value_rescale(m / 10, k, 1);
    }
}

/// Where `m` ends in a nonzero digit or has no fractional digits, the
/// canonical form of `m` followed by `k` fractional zeros is `m` itself.
pub proof fn lemma_canonical_of_scaled(m: int, s: nat, k: nat)
    requires
        s == 0 || m % 10 != 0,
    ensures
        canonical_of(m * pow10(k), s + k) == (DecimalView { mantissa: m, scale: s }),
    decreases k,
{
    lemma_pow10(0);
    if k > 0 {
        let j = (k - 1) as nat;
        lemma_pow10(j);
        let q = m * pow10(j);
        assert(m * pow10(k) == 10 * q) by (nonlinear_arith)
            requires
                pow10(k) == 10 * pow10(j),
                q == m * pow10(j),
        ;
        lemma_canonical_of_scaled(m, s, j);
    } else {
        assert(m * pow10(0) == m);
    }
}

/// Two canonical decimals that stand for the same number are the same
/// decimal.
pub proof fn lemma_canonical_unique(a: DecimalView, b: DecimalView)
    requires
        a.canonical(),
        b.canonical(),
        a.value() == b.value(),
    ensures
        a == b,
{
    let pa = pow10(a.scale);
    let pb = pow10(b.scale);
    lemma_pow10(a.scale);
    lemma_pow10(b.scale);
    let am = a.mantissa;
    let bm = b.mantissa;
    assert(am * pb == bm * pa) by (nonlinear_arith)
        requires
            pa > 0,
            pb > 0,
            am as real / pa as real == bm as real / pb as real,
    ;
    if a.scale < b.scale {
        lemma_cross_lower(am, a.scale, bm, b.scale);
    } else if b.scale < a.scale {
        lemma_cross_lower(bm, b.scale, am, a.scale);
    } else {
        assert(am == bm) by (nonlinear_arith)
            requires
                am * pa == bm * pa,
                pa > 0,
        ;
    }
}

/// If `x / 10^s == y / 10^t` with `s < t`, then `y` ends in zero.
proof fn lemma_cross_lower(x: int, s: nat, y: int, t: nat)
    requires
        s < t,
        x * pow10(t) == y * pow10(s),
    ensures
        y % 10 == 0,
{
    let d = (t - s - 1) as nat;
    lemma_pow10_adds(s, d + 1);
    lemma_pow10(d);
    lemma_pow10(s);
    let ps = pow10(s);
    let pd = pow10(d);
    assert(pow10(t) == ps * (10 * pd));
    assert(y == 10 * (x * pd)) by (nonlinear_arith)
        requires
            x * (ps * (10 * pd)) == y * ps,
            ps > 0,
    ;
}

/// An exact decimal number.
///
/// The digits are kept least significant first, with at least one digit
/// before the decimal point, no further zeros above it, and no zeros at the
/// end of the fraction; zero has no sign. So equal numbers are equal values.
#[derive(Debug, PartialEq, Eq)]
pub struct Decimal {
    negative: bool,
    digits: Vec<u8>,
    scale: usize,
}

impl View for Decimal {
    type V = DecimalView;

    closed spec fn view(&self) -> DecimalView {
        DecimalView { mantissa: signed(self.negative, value(self.digits@)), scale: self.scale as nat }
    }
}

/// The digits of `v` moved up by `k` places.
fn shifted(v: &Vec<u8>, k: usize) -> (r: Vec<u8>)
    requires
        all_digits(v@),
    ensures
        all_digits(r@),
        value(r@) == value(v@) * pow10(k as nat),
        r@.len() == v@.len() + k,
{
    let mut r: Vec<u8> = Vec::new();
    let mut i: usize = 0;
    while i < k
        invariant
            i <= k,
            r@.len() == i,
            forall|j: int| 0 <= j < r@.len() ==> r@[j] == 0,
        decreases k - i,
    {
        r.push(0);
        i = i + 1;
    }
    let ghost zeros = r@;
    let mut j: usize = 0;
    while j < v.len()
        invariant
            j <= v@.len(),
            r@ == zeros + v@.take(j as int),
        decreases v@.len() - j,
    {
        proof {
            assert(v@.take(j + 1) =~= v@.take(j as int).push(v@[j as int]));
            assert((zeros + v@.take(j as int)).push(v@[j as int]) =~= zeros + v@.take(j + 1));
        }
        r.push(v[j]);
        j = j + 1;
    }
    proof {
        assert(v@.take(v@.len() as int) =~= v@);
        lemma_value_concat(zeros, v@);
        lemma_value_zeros(zeros);
        assert(value(v@) * pow10(k as nat) == pow10(k as nat) * value(v@)) by (nonlinear_arith);
    }
    r
}

impl Clone for Decimal {
    fn clone(&self) -> (r: Self)
        ensures
            r@ == self@,
            r@.canonical(),
    {
        proof {
            use_type_invariant(self);
            if self.scale > 0 {
                lemma_value_split_low(self.digits@);
            }
        }
        Decimal { negative: self.negative, digits: self.digits.clone(), scale: self.scale }
    }
}

impl Decimal {
    #[verifier::type_invariant]
    closed spec fn well_formed(self) -> bool {
        &&& all_digits(self.digits@)
        &&& self.digits@.len() >= self.scale + 1
        &&& self.digits@.len() > self.scale + 1 ==> self.digits@.last() != 0
        &&& self.scale > 0 ==> self.digits@[0] != 0
        &&& self.negative ==> value(self.digits@) != 0
    }

    /// The canonical decimal for the magnitude `digits` with `scale`
    /// fractional digits and the given sign.
    fn normal(negative: bool, digits: Vec<u8>, scale: usize) -> (r: Decimal)
        requires
            all_digits(digits@),
            digits@.len() >= scale + 1,
        ensures
            r@ == canonical_of(signed(negative, value(digits@)), scale as nat),
    {
        let mut k: usize = 0;
        while k < scale && digits[k] == 0
            invariant
                k <= scale,
                scale < digits@.len(),
                forall|j: int| 0 <= j < k ==> digits@[j] == 0,
            decreases scale - k,
        {
            k = k + 1;
        }
        let mut kept: Vec<u8> = Vec::new();
        let mut i: usize = k;
        while i < digits.len()
            invariant
                k <= i <= digits@.len(),
                kept@ == digits@.subrange(k as int, i as int),
            decreases digits@.len() - i,
        {
            proof {
                assert(digits@.subrange(k as int, i as int).push(digits@[i as int])
                    =~= digits@.subrange(k as int, i + 1));
            }
            kept.push(digits[i]);
            i = i + 1;
        }
        let rest: usize = scale - k;
        let ghost low = digits@.take(k as int);
        let ghost high = digits@.skip(k as int);
        proof {
            assert(kept@ =~= high);
            assert(digits@ =~= low + high);
            lemma_value_concat(low, high);
            lemma_value_zeros(low);
            assert(all_digits(high));
        }
        while kept.len() > rest + 1 && kept[kept.len() - 1] == 0
            invariant
                all_digits(kept@),
                kept@.len() >= rest + 1,
                value(kept@) == value(high),
                high.len() > 0,
                kept@[0] == high[0],
            decreases kept@.len(),
        {
            proof {
                let front = kept@.drop_last();
                assert(kept@ =~= front.push(0u8));
                lemma_value_push_zero(front);
            }
            kept.pop();
        }
        let zero: bool = kept.len() == 1 && kept[0] == 0;
        proof {
            let v = value(kept@);
            let m = signed(negative, v);
            lemma_value_split_low(kept@);
            lemma_value_bound(kept@);
            if kept@.len() > rest + 1 {
                lemma_value_top_nonzero(kept@);
                lemma_pow10((kept@.len() - 1) as nat);
            }
            if kept@.len() == 1 {
                assert(kept@.drop_first() =~= Seq::<u8>::empty());
                assert(v == kept@[0]);
            }
            assert(zero <==> v == 0);
            assert(rest > 0 ==> m % 10 != 0);
            lemma_canonical_of_scaled(m, rest as nat, k as nat);
            assert(signed(negative, value(digits@)) == m * pow10(k as nat)) by (nonlinear_arith)
                requires
                    value(digits@) == pow10(k as nat) * v,
                    m == signed(negative, v),
            ;
            assert(signed(negative && !zero, v) == m);
        }
        Decimal { negative: negative && !zero, digits: kept, scale: rest }
    }

    /// The decimal written by `digits`, least significant first, of which the
    /// lowest `scale` are fractional digits.
    pub fn from_digits(negative: bool, digits: Vec<u8>, scale: usize) -> (r: Decimal)
        requires
            all_digits(digits@),
            digits@.len() >= scale + 1,
        ensures
            r@ == canonical_of(signed(negative, value(digits@)), scale as nat),
            r@.canonical(),
            r@.value() == (DecimalView {
                mantissa: signed(negative, value(digits@)),
                scale: scale as nat,
            }).value(),
    {
        proof {
            lemma_canonical_of(signed(negative, value(digits@)), scale as nat);
        }
        Decimal::normal(negative, digits, scale)
    }

    /// The digits of the magnitude, least significant first. There is at
    /// least one digit before the decimal point, and the highest digit is
    /// zero only where it is the single digit before the point.
    pub fn magnitude(&self) -> (d: &Vec<u8>)
        ensures
            all_digits(d@),
            value(d@) == magnitude_of(self@.mantissa),
            d@.len() >= self@.scale + 1,
            d@.len() > self@.scale + 1 ==> d@.last() != 0,
            self@.canonical(),
    {
        proof {
            use_type_invariant(self);
            lemma_value_bound(self.digits@);
            if self.scale > 0 {
                lemma_value_split_low(self.digits@);
            }
        }
        &self.digits
    }

    /// The number of fractional digits.
    pub fn scale(&self) -> (s: usize)
        ensures
            s == self@.scale,
    {
        self.scale
    }

    /// The number zero.
    pub fn zero() -> (r: Decimal)
        ensures
            r@ == (DecimalView { mantissa: 0, scale: 0 }),
    {
        let mut digits: Vec<u8> = Vec::new();
        digits.push(0);
        proof {
            crate::digits::lemma_value_single(0u8);
            assert(digits@ =~= seq![0u8]);
        }
        Decimal { negative: false, digits, scale: 0 }
    }

    /// Whether this number is below zero.
    pub fn is_negative(&self) -> (b: bool)
        ensures
            b == (self@.mantissa < 0),
    {
        proof {
            use_type_invariant(self);
            lemma_value_bound(self.digits@);
        }
        self.negative
    }

    /// The number with the opposite sign.
    pub fn negate(&self) -> (r: Decimal)
        ensures
            r@.canonical(),
            r@ == (DecimalView { mantissa: -self@.mantissa, scale: self@.scale }),
            r@.value() == -self@.value(),
    {
        proof {
            use_type_invariant(self);
            lemma_value_bound(self.digits@);
            if self.scale > 0 {
                lemma_value_split_low(self.digits@);
            }
            lemma_pow10(self.scale as nat);
            let m = self@.mantissa;
            let p = pow10(self.scale as nat);
            assert((-m) as real / p as real == -(m as real / p as real)) by (nonlinear_arith)
                requires
                    p > 0,
            ;
        }
        let zero: bool = self.digits.len() == 1 && self.digits[0] == 0;
        proof {
            if zero {
                assert(self.digits@ =~= seq![0u8]);
                crate::digits::lemma_value_single(0u8);
            } else if self.digits@.len() > self.scale + 1 {
                lemma_value_top_nonzero(self.digits@);
                lemma_pow10((self.digits@.len() - 1) as nat);
            } else {
                lemma_value_split_low(self.digits@);
            }
        }
        Decimal { negative: !self.negative && !zero, digits: self.digits.clone(), scale: self.scale }
    }

    /// The sum of two numbers.
    pub fn plus(&self, other: &Decimal) -> (r: Decimal)
        ensures
            r@.canonical(),
            r@.value() == self@.value() + other@.value(),
    {
        proof {
            use_type_invariant(self);
            use_type_invariant(other);
        }
        let scale: usize = if self.scale >= other.scale { self.scale } else { other.scale };
        let a = shifted(&self.digits, scale - self.scale);
        let b = shifted(&other.digits, scale - other.scale);
        let ghost ka = (scale - self.scale) as nat;
        let ghost kb = (scale - other.scale) as nat;
        let ghost ma = self@.mantissa * pow10(ka);
        let ghost mb = other@.mantissa * pow10(kb);
        proof {
            lemma_value_rescale(self@.mantissa, self@.scale, ka);
            lemma_value_rescale(other@.mantissa, other@.scale, kb);
            lemma_value_sum(ma, mb, scale as nat);
            lemma_canonical_of(ma + mb, scale as nat);
            assert(signed(self.negative, value(a@)) == ma) by (nonlinear_arith)
                requires
                    value(a@) == value(self.digits@) * pow10(ka),
                    ma == signed(self.negative, value(self.digits@)) * pow10(ka),
            ;
            assert(signed(other.negative, value(b@)) == mb) by (nonlinear_arith)
                requires
                    value(b@) == value(other.digits@) * pow10(kb),
                    mb == signed(other.negative, value(other.digits@)) * pow10(kb),
            ;
        }
        if self.negative == other.negative {
            let sum = add_digits(&a, &b);
            Decimal::normal(self.negative, sum, scale)
        } else {
            let (diff, borrow) = sub_digits(&a, &b);
            if borrow {
                let (back, _) = sub_digits(&b, &a);
                Decimal::normal(other.negative, back, scale)
            } else {
                Decimal::normal(self.negative, diff, scale)
            }
        }
    }

    /// The difference of two numbers.
    pub fn minus(&self, other: &Decimal) -> (r: Decimal)
        ensures
            r@.canonical(),
            r@.value() == self@.value() - other@.value(),
    {
        let opposite = other.negate();
        self.plus(&opposite)
    }

    /// The product of two numbers.
    pub fn times(&self, other: &Decimal) -> (r: Decimal)
        ensures
            r@.canonical(),
            r@.value() == self@.value() * other@.value(),
    {
        proof {
            use_type_invariant(self);
            use_type_invariant(other);
        }
        let product = mul_digits(&self.digits, &other.digits);
        proof {
            // Each fractional digit of either factor has a place in the
            // product, so the two counts add up within `usize`.
            assert(self.scale + other.scale < product.len());
        }
        let scale: usize = self.scale + other.scale;
        let negative: bool = self.negative != other.negative;
        proof {
            let va = value(self.digits@);
            let vb = value(other.digits@);
            lemma_value_product(self@.mantissa, self@.scale, other@.mantissa, other@.scale);
            lemma_canonical_of(self@.mantissa * other@.mantissa, scale as nat);
            assert(signed(negative, va * vb) == signed(self.negative, va) * signed(
                other.negative,
                vb,
            )) by (nonlinear_arith)
                requires
                    negative == (self.negative != other.negative),
            ;
        }
        Decimal::normal(negative, product, scale)
    }
}

} // verus!
