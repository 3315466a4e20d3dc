//! Decimal numerals: how a [`Decimal`] is read from text and written to it.
//!
//! A numeral is an optional `-`, then digits with at most one decimal point
//! among them, and at least one digit in all: `7`, `-12.50`, `.5`, `3.`.
//! There is no exponent, no `+` sign and no digit grouping.

use vstd::prelude::*;
use crate::decimal::{
    canonical_of, lemma_canonical_of, magnitude_of, signed, Decimal, DecimalView,
};
use crate::digits::{
    all_digits, lemma_pow10, lemma_value_bound, lemma_value_concat, lemma_value_push_zero,
    lemma_value_split_low, lemma_value_top_nonzero, pow10, value,
};
use crate::text::to_chars;

verus! {

/// `c` is one of the ten decimal digits.
pub open spec fn is_digit(c: char) -> bool {
    '0' <= c && c <= '9'
}

/// The number that the digit `c` stands for.
pub open spec fn digit_of(c: char) -> int {
    c as int - 48
}

/// The character for the digit `d`.
pub open spec fn digit_char(d: int) -> char {
    ((48 + d) as u8) as char
}

/// Every character of `s` is a decimal digit.
pub open spec fn all_digit_chars(s: Seq<char>) -> bool {
    forall|i: int| 0 <= i < s.len() ==> is_digit(#[trigger] s[i])
}

/// The number written by the digits `s`, most significant first.
pub open spec fn digits_value(s: Seq<char>) -> int
    decreases s.len(),
{
    if s.len() == 0 {
        0
    } else {
        digits_value(s.drop_last()) * 10 + digit_of(s.last())
    }
}

/// The place of the first decimal point in `s`, or the length of `s` where
/// it has none.
pub open spec fn point_index(s: Seq<char>) -> int
    decreases s.len(),
{
    if s.len() == 0 || s[0] == '.' {
        0
    } else {
        1 + point_index(s.drop_first())
    }
}

/// `s` starts with a minus sign.
pub open spec fn has_sign(s: Seq<char>) -> bool {
    s.len() > 0 && s[0] == '-'
}

/// `s` without its sign.
pub open spec fn unsigned_part(s: Seq<char>) -> Seq<char> {
    if has_sign(s) {
        s.drop_first()
    } else {
        s
    }
}

/// What stands before the decimal point.
pub open spec fn integer_part(s: Seq<char>) -> Seq<char> {
    let body = unsigned_part(s);
    body.take(point_index(body))
}

/// What stands after the decimal point.
pub open spec fn fraction_part(s: Seq<char>) -> Seq<char> {
    let body = unsigned_part(s);
    if point_index(body) < body.len() {
        body.skip(point_index(body) + 1)
    } else {
        Seq::empty()
    }
}

/// `s` is a decimal numeral.
pub open spec fn is_numeral(s: Seq<char>) -> bool {
    &&& all_digit_chars(integer_part(s))
    &&& all_digit_chars(fraction_part(s))
    &&& integer_part(s).len() + fraction_part(s).len() > 0
}

/// The number that the numeral `s` stands for.
pub open spec fn numeral_value(s: Seq<char>) -> real {
    (DecimalView {
        mantissa: signed(has_sign(s), digits_value(integer_part(s) + fraction_part(s))),
        scale: fraction_part(s).len(),
    }).value()
}

/// The canonical decimal for the numeral `s`.
pub open spec fn numeral_decimal(s: Seq<char>) -> DecimalView {
    canonical_of(
        signed(has_sign(s), digits_value(integer_part(s) + fraction_part(s))),
        fraction_part(s).len(),
    )
}

/// The shortest numeral for the natural number `n`.
pub open spec fn nat_digits(n: nat) -> Seq<char>
    decreases n,
{
    if n < 10 {
        seq![digit_char(n as int)]
    } else {
        nat_digits(n / 10).push(digit_char((n % 10) as int))
    }
}

/// The lowest `width` digits of `n`, most significant first.
pub open spec fn fixed_digits(n: nat, width: nat) -> Seq<char>
    decreases width,
{
    if width == 0 {
        Seq::empty()
    } else {
        fixed_digits(n / 10, (width - 1) as nat).push(digit_char((n % 10) as int))
    }
}

/// The numeral for a decimal: a minus sign where it is below zero, the
/// integer part, and where there are fractional digits a point and all of
/// them.
pub open spec fn numeral_of(d: DecimalView) -> Seq<char> {
    let size = magnitude_of(d.mantissa);
    let unit = pow10(d.scale) as nat;
    let sign = if d.mantissa < 0 { seq!['-'] } else { Seq::empty() };
    let fraction = if d.scale > 0 {
        seq!['.'] + fixed_digits(size % unit, d.scale)
    } else {
        Seq::empty()
    };
    sign + nat_digits(size / unit) + fraction
}

/// The digit values of a run of digit characters.
pub open spec fn digit_values(s: Seq<char>) -> Seq<u8> {
    Seq::new(s.len(), |i: int| digit_of(s[i]) as u8)
}

/// The characters for the digits `t`, which are least significant first, in
/// writing order.
pub open spec fn written(t: Seq<u8>) -> Seq<char> {
    Seq::new(t.len(), |i: int| digit_char(t[t.len() - 1 - i] as int))
}

/// No point stands before the first point, and a point stands there unless
/// the text has none.
proof fn lemma_point_index_bounds(s: Seq<char>)
    ensures
        0 <= point_index(s) <= s.len(),
        forall|i: int| 0 <= i < point_index(s) ==> s[i] != '.',
        point_index(s) < s.len() ==> s[point_index(s)] == '.',
    decreases s.len(),
{
    if !(s.len() == 0 || s[0] == '.') {
        let rest = s.drop_first();
        lemma_point_index_bounds(rest);
        assert forall|i: int| 0 <= i < point_index(s) implies s[i] != '.' by {
            if i > 0 {
                assert(s[i] == rest[i - 1]);
            }
        }
        if point_index(s) < s.len() {
            assert(s[point_index(s)] == rest[point_index(rest)]);
        }
    }
}

/// The first decimal point is where no point stands before it.
proof fn lemma_point_index_is(s: Seq<char>, p: int)
    requires
        0 <= p <= s.len(),
        forall|i: int| 0 <= i < p ==> s[i] != '.',
        p < s.len() ==> s[p] == '.',
    ensures
        point_index(s) == p,
{
    lemma_point_index_bounds(s);
    let q = point_index(s);
    if q < p {
        assert(s[q] != '.');
    } else if p < q {
        assert(s[p] == '.');
    }
}

/// Reading digit characters in writing order gives the value of the same
/// digits taken least significant first.
proof fn lemma_digits_value_reversed(t: Seq<char>, d: Seq<u8>)
    requires
        all_digit_chars(t),
        d.len() == t.len(),
        forall|j: int| 0 <= j < d.len() ==> d[j] == digit_of(#[trigger] t[t.len() - 1 - j]),
    ensures
        all_digits(d),
        value(d) == digits_value(t),
    decreases t.len(),
{
    assert forall|j: int| 0 <= j < d.len() implies #[trigger] d[j] <= 9 by {
        assert(is_digit(t[t.len() - 1 - j]));
    }
    if t.len() > 0 {
        let front = t.drop_last();
        let rest = d.drop_first();
        assert forall|j: int| 0 <= j < rest.len() implies rest[j] == digit_of(
            #[trigger] front[front.len() - 1 - j],
        ) by {
            assert(rest[j] == d[j + 1]);
            assert(front[front.len() - 1 - j] == t[t.len() - 1 - (j + 1)]);
        }
        lemma_digits_value_reversed(front, rest);
        lemma_value_split_low(d);
        assert(d[0] == digit_of(t[t.len() - 1 - 0]));
    }
}

/// The digits of a number without leading zeros are its shortest numeral.
proof fn lemma_nat_digits(t: Seq<u8>)
    requires
        all_digits(t),
        t.len() >= 1,
        t.len() > 1 ==> t.last() != 0,
    ensures
        value(t) >= 0,
        nat_digits(value(t) as nat) == written(t),
    decreases t.len(),
{
    lemma_value_split_low(t);
    lemma_value_bound(t);
    let rest = t.drop_first();
    if t.len() == 1 {
        assert(rest =~= Seq::<u8>::empty());
        assert(value(rest) == 0);
        assert(written(t) =~= seq![digit_char(t[0] as int)]);
    } else {
        assert(rest.last() == t.last());
        lemma_value_top_nonzero(rest);
        lemma_pow10((rest.len() - 1) as nat);
        lemma_nat_digits(rest);
        assert(value(t) >= 10);
        assert(written(t) =~= written(rest).push(digit_char(t[0] as int)));
    }
}

/// The digits of a number, leading zeros included, are its numeral of that
/// width.
proof fn lemma_fixed_digits(t: Seq<u8>)
    requires
        all_digits(t),
    ensures
        value(t) >= 0,
        fixed_digits(value(t) as nat, t.len()) == written(t),
    decreases t.len(),
{
    lemma_value_bound(t);
    if t.len() == 0 {
        assert(written(t) =~= Seq::<char>::empty());
    } else {
        lemma_value_split_low(t);
        let rest = t.drop_first();
        lemma_fixed_digits(rest);
        assert(written(t) =~= written(rest).push(digit_char(t[0] as int)));
    }
}

/// The digits below place `s` are the remainder by `10^s`, those from place
/// `s` up the quotient.
proof fn lemma_value_parts(t: Seq<u8>, s: int)
    requires
        all_digits(t),
        0 <= s <= t.len(),
    ensures
        value(t) >= 0,
        value(t) / pow10(s as nat) == value(t.skip(s)),
        value(t) % pow10(s as nat) == value(t.take(s)),
{
    let low = t.take(s);
    let high = t.skip(s);
    assert(t =~= low + high);
    lemma_value_concat(low, high);
    lemma_value_bound(low);
    lemma_value_bound(high);
    lemma_value_bound(t);
    lemma_pow10(s as nat);
    assert(pow10(s as nat) * value(high) == value(high) * pow10(s as nat)) by (nonlinear_arith);
    vstd::arithmetic::div_mod::lemma_fundamental_div_mod_converse(
        value(t),
        pow10(s as nat),
        value(high),
        value(low),
    );
}

/// The shortest numeral for `n` is made of digits and reads as `n`.
pub proof fn lemma_nat_digits_read(n: nat)
    ensures
        nat_digits(n).len() > 0,
        all_digit_chars(nat_digits(n)),
        digits_value(nat_digits(n)) == n,
    decreases n,
{
    if n < 10 {
        let s = seq![digit_char(n as int)];
        assert(s.drop_last() =~= Seq::<char>::empty());
        assert(digits_value(s.drop_last()) == 0);
    } else {
        lemma_nat_digits_read(n / 10);
        let front = nat_digits(n / 10);
        let s = front.push(digit_char((n % 10) as int));
        assert(s.drop_last() =~= front);
        assert forall|i: int| 0 <= i < s.len() implies is_digit(#[trigger] s[i]) by {
            if i < front.len() {
                assert(is_digit(front[i]));
            }
        }
    }
}

/// The numeral of width `width` for `n` is made of digits, and behind other
/// digits it shifts them up by its width and adds what `n` has below it.
pub proof fn lemma_fixed_digits_read(x: Seq<char>, n: nat, width: nat)
    ensures
        fixed_digits(n, width).len() == width,
        all_digit_chars(fixed_digits(n, width)),
        digits_value(x + fixed_digits(n, width)) == digits_value(x) * pow10(width) + n % (pow10(
            width,
        ) as nat),
    decreases width,
{
    lemma_pow10(0);
    if width == 0 {
        assert(x + fixed_digits(n, width) =~= x);
        assert(digits_value(x) * 1 == digits_value(x)) by (nonlinear_arith);
    } else {
        let less = (width - 1) as nat;
        lemma_pow10(less);
        lemma_fixed_digits_read(x, n / 10, less);
        let front = fixed_digits(n / 10, less);
        let last = digit_char((n % 10) as int);
        let s = front.push(last);
        assert(x + s =~= (x + front).push(last));
        assert((x + s).drop_last() =~= x + front);
        assert forall|i: int| 0 <= i < s.len() implies is_digit(#[trigger] s[i]) by {
            if i < front.len() {
                assert(is_digit(front[i]));
            }
        }
        let p = pow10(less);
        let v = digits_value(x);
        vstd::arithmetic::div_mod::lemma_mod_breakdown(n as int, 10, p);
        assert((v * p + (n / 10) % (p as nat)) * 10 + n % 10 == v * (10 * p) + (10 * ((n as int
            / 10) % p) + n as int % 10)) by (nonlinear_arith)
            requires
                p > 0,
        ;
    }
}

/// The canonical decimal for a numeral stands for the number of the
/// numeral.
pub proof fn lemma_numeral_decimal_value(s: Seq<char>)
    ensures
        numeral_decimal(s).canonical(),
        numeral_decimal(s).value() == numeral_value(s),
{
    lemma_canonical_of(
        signed(has_sign(s), digits_value(integer_part(s) + fraction_part(s))),
        fraction_part(s).len(),
    );
}

/// Every character of a numeral is a digit, a minus sign or a point.
pub proof fn lemma_numeral_chars(s: Seq<char>)
    requires
        is_numeral(s),
    ensures
        s.len() > 0,
        forall|i: int| 0 <= i < s.len() ==> is_digit(#[trigger] s[i]) || s[i] == '-' || s[i] == '.',
{
    let body = unsigned_part(s);
    let start: int = if has_sign(s) { 1 } else { 0 };
    let p = point_index(body);
    lemma_point_index_bounds(body);
    assert forall|i: int| 0 <= i < s.len() implies is_digit(#[trigger] s[i]) || s[i] == '-' || s[i]
        == '.' by {
        if i >= start {
            let j = i - start;
            assert(body[j] == s[i]);
            if j < p {
                assert(integer_part(s)[j] == body[j]);
            } else if j > p {
                assert(fraction_part(s)[j - p - 1] == body[j]);
            }
        }
    }
}

/// Writing a canonical decimal and reading the numeral gives the decimal
/// back.
pub proof fn lemma_numeral_round_trip(d: DecimalView)
    requires
        d.canonical(),
    ensures
        is_numeral(numeral_of(d)),
        numeral_decimal(numeral_of(d)) == d,
        numeral_value(numeral_of(d)) == d.value(),
{
    let size = magnitude_of(d.mantissa);
    let unit = pow10(d.scale) as nat;
    lemma_pow10(d.scale);
    let whole = nat_digits(size / unit);
    let part = fixed_digits(size % unit, d.scale);
    let sign = if d.mantissa < 0 { seq!['-'] } else { Seq::<char>::empty() };
    let tail = if d.scale > 0 { seq!['.'] + part } else { Seq::<char>::empty() };
    let text = numeral_of(d);
    let body = whole + tail;
    lemma_nat_digits_read(size / unit);
    lemma_fixed_digits_read(whole, size % unit, d.scale);
    assert(text =~= sign + whole + tail);
    assert(is_digit(whole[0]));
    if d.mantissa < 0 {
        assert(text[0] == '-');
        assert(text.drop_first() =~= body);
    } else {
        assert(text[0] == whole[0]);
        assert(text =~= body);
    }
    assert(unsigned_part(text) == body);
    assert forall|i: int| 0 <= i < whole.len() implies body[i] != '.' by {
        assert(is_digit(whole[i]));
    }
    lemma_point_index_is(body, whole.len() as int);
    assert(integer_part(text) =~= whole);
    if d.scale > 0 {
        assert(body[whole.len() as int] == '.');
        assert(fraction_part(text) =~= part);
    } else {
        assert(fraction_part(text) =~= part);
    }
    vstd::arithmetic::div_mod::lemma_fundamental_div_mod(size as int, unit as int);
    vstd::arithmetic::div_mod::lemma_mod_twice(size as int, unit as int);
    assert(digits_value(whole + part) == size) by {
        let q = (size / unit) as int;
        let u = unit as int;
        assert(q * u == u * q) by (nonlinear_arith);
    }
    assert(signed(has_sign(text), size as int) == d.mantissa);
}

fn is_digit_char(c: char) -> (b: bool)
    ensures
        b == is_digit(c),
{
    '0' <= c && c <= '9'
}

fn digit_to_char(d: u8) -> (c: char)
    requires
        d <= 9,
    ensures
        c == digit_char(d as int),
{
    (48u8 + d) as char
}

fn char_to_digit(c: char) -> (d: u8)
    requires
        is_digit(c),
    ensures
        d == digit_of(c),
        d <= 9,
{
    (c as u32 - 48) as u8
}

/// Takes the digits that start at `from` into `out` and returns the place
/// after the last of them.
fn take_digits(s: &[char], from: usize, out: &mut Vec<u8>) -> (end: usize)
    requires
        from <= s@.len(),
    ensures
        from <= end <= s@.len(),
        all_digit_chars(s@.subrange(from as int, end as int)),
        end < s@.len() ==> !is_digit(s@[end as int]),
        final(out)@ == old(out)@ + digit_values(s@.subrange(from as int, end as int)),
{
    let mut i: usize = from;
    proof {
        assert(digit_values(s@.subrange(from as int, from as int)) =~= Seq::<u8>::empty());
        assert(out@ + Seq::<u8>::empty() =~= out@);
    }
    while i < s.len() && is_digit_char(s[i])
        invariant
            from <= i <= s@.len(),
            all_digit_chars(s@.subrange(from as int, i as int)),
            out@ == old(out)@ + digit_values(s@.subrange(from as int, i as int)),
        decreases s@.len() - i,
    {
        let d = char_to_digit(s[i]);
        proof {
            let before = s@.subrange(from as int, i as int);
            let after = s@.subrange(from as int, i + 1);
            assert(after =~= before.push(s@[i as int]));
            assert(digit_values(after) =~= digit_values(before).push(d));
            assert((old(out)@ + digit_values(before)).push(d) =~= old(out)@ + digit_values(after));
        }
        out.push(d);
        i = i + 1;
    }
    i
}

/// Appends the shortest numeral for `n` to `out`.
pub fn append_nat(out: &mut String, n: usize)
    ensures
        final(out)@ == old(out)@ + nat_digits(n as nat),
{
    let mut low: Vec<u8> = Vec::new();
    let mut m: usize = n;
    proof {
        assert(written(low@) =~= Seq::<char>::empty());
        assert(nat_digits(m as nat) + written(low@) =~= nat_digits(n as nat));
    }
    while m >= 10
        invariant
            all_digits(low@),
            nat_digits(n as nat) == nat_digits(m as nat) + written(low@),
        decreases m,
    {
        let d: u8 = (m % 10) as u8;
        proof {
            let c = digit_char(d as int);
            assert(written(low@.push(d)) =~= seq![c] + written(low@));
            assert(nat_digits((m / 10) as nat).push(c) + written(low@) =~= nat_digits(
                (m / 10) as nat,
            ) + (seq![c] + written(low@)));
        }
        low.push(d);
        m = m / 10;
    }
    proof {
        let c = digit_char(m as int);
        assert(written(low@.push(m as u8)) =~= seq![c] + written(low@));
    }
    low.push(m as u8);
    let ghost shown = written(low@);
    let ghost before = out@;
    let count: usize = low.len();
    let mut i: usize = count;
    proof {
        assert(before + shown.take(0) =~= before);
    }
    while i > 0
        invariant
            i <= count,
            count == low@.len(),
            all_digits(low@),
            shown == written(low@),
            out@ == before + shown.take(count - i),
        decreases i,
    {
        i = i - 1;
        let c = digit_to_char(low[i]);
        proof {
            assert(shown[count - i - 1] == c);
            assert(shown.take(count - i) =~= shown.take(count - i - 1).push(c));
            assert((before + shown.take(count - i - 1)).push(c) =~= before + shown.take(count - i));
        }
        out.push(c);
    }
    proof {
        assert(shown.take(count as int) =~= shown);
    }
}

impl Decimal {
    /// Reads a numeral. Text that is no numeral gives `None`.
    pub fn from_chars(text: &[char]) -> (r: Option<Decimal>)
        ensures
            r is Some <==> is_numeral(text@),
            r matches Some(d) ==> {
                &&& d@ == numeral_decimal(text@)
                &&& d@.canonical()
                &&& d@.value() == numeral_value(text@)
            },
    {
        let n: usize = text.len();
        let negative: bool = n > 0 && text[0] == '-';
        let start: usize = if negative { 1 } else { 0 };
        let body: &[char] = &text[start..n];
        let len: usize = body.len();
        proof {
            assert(body@ =~= unsigned_part(text@));
        }
        let mut written_digits: Vec<u8> = Vec::new();
        let point: usize = take_digits(body, 0, &mut written_digits);
        let ghost whole = body@.subrange(0, point as int);
        proof {
            assert(written_digits@ =~= digit_values(whole));
            assert forall|i: int| 0 <= i < point implies body@[i] != '.' by {
                assert(is_digit(whole[i]));
            }
        }
        let mut scale: usize = 0;
        if point < len {
            if body[point] != '.' {
                proof {
                    lemma_point_index_bounds(body@);
                    let p = point_index(body@);
                    if p <= point {
                        assert(body@[p] == '.');
                    }
                    assert(integer_part(text@)[point as int] == body@[point as int]);
                }
                return None;
            }
            proof {
                lemma_point_index_is(body@, point as int);
                assert(integer_part(text@) =~= whole);
            }
            let end: usize = take_digits(body, point + 1, &mut written_digits);
            if end < len {
                proof {
                    assert(fraction_part(text@)[end - point - 1] == body@[end as int]);
                }
                return None;
            }
            scale = len - point - 1;
            proof {
                assert(fraction_part(text@) =~= body@.subrange(point + 1, end as int));
            }
        } else {
            proof {
                lemma_point_index_is(body@, point as int);
                assert(integer_part(text@) =~= whole);
                assert(fraction_part(text@) =~= Seq::<char>::empty());
                assert(digit_values(whole) + Seq::<u8>::empty() =~= digit_values(whole));
            }
        }
        let ghost all = integer_part(text@) + fraction_part(text@);
        proof {
            assert(written_digits@ =~= digit_values(all));
            assert(fraction_part(text@).len() == scale);
        }
        let count: usize = written_digits.len();
        if count == 0 {
            return None;
        }
        let mut digits: Vec<u8> = Vec::new();
        let mut k: usize = count;
        while k > 0
            invariant
                k <= count,
                count == written_digits@.len(),
                digits@.len() == count - k,
                forall|j: int| 0 <= j < digits@.len() ==> digits@[j] == written_digits@[count - 1 - j],
            decreases k,
        {
            k = k - 1;
            digits.push(written_digits[k]);
        }
        proof {
            assert(all_digit_chars(all));
            assert forall|j: int| 0 <= j < digits@.len() implies digits@[j] == digit_of(
                #[trigger] all[all.len() - 1 - j],
            ) by {
                assert(is_digit(all[all.len() - 1 - j]));
            }
            lemma_digits_value_reversed(all, digits@);
        }
        if point == 0 {
            proof {
                lemma_value_push_zero(digits@);
            }
            digits.push(0);
        }
        Some(Decimal::from_digits(negative, digits, scale))
    }

    /// Reads a numeral from a string. Text that is no numeral gives `None`.
    pub fn parse(text: &str) -> (r: Option<Decimal>)
        ensures
            r is Some <==> is_numeral(text@),
            r matches Some(d) ==> {
                &&& d@ == numeral_decimal(text@)
                &&& d@.canonical()
                &&& d@.value() == numeral_value(text@)
            },
    {
        let chars = to_chars(text);
        Decimal::from_chars(chars.as_slice())
    }

    /// Writes the number as a numeral.
    pub fn to_string(&self) -> (out: String)
        ensures
            out@ == numeral_of(self@),
    {
        let digits = self.magnitude();
        let scale: usize = self.scale();
        let n: usize = digits.len();
        let ghost whole = digits@.skip(scale as int);
        let ghost fraction = digits@.take(scale as int);
        let ghost sign = if self@.mantissa < 0 { seq!['-'] } else { Seq::<char>::empty() };
        let mut out = String::new();
        if self.is_negative() {
            out.push('-');
        }
        proof {
            assert(out@ =~= sign + written(whole).take(0));
        }
        let mut i: usize = n;
        while i > scale
            invariant
                scale <= i <= n,
                n == digits@.len(),
                all_digits(digits@),
                whole == digits@.skip(scale as int),
                out@ == sign + written(whole).take(n - i),
            decreases i,
        {
            i = i - 1;
            let c = digit_to_char(digits[i]);
            proof {
                let shown = written(whole);
                assert(shown[n - i - 1] == c);
                assert(shown.take(n - i) =~= shown.take(n - i - 1).push(c));
                assert((sign + shown.take(n - i - 1)).push(c) =~= sign + shown.take(n - i));
            }
            out.push(c);
        }
        proof {
            assert(written(whole).take(n - scale) =~= written(whole));
        }
        if scale > 0 {
            out.push('.');
            let ghost head = sign + written(whole) + seq!['.'];
            proof {
                assert(out@ =~= head + written(fraction).take(0));
            }
            let mut j: usize = scale;
            while j > 0
                invariant
                    j <= scale < n,
                    n == digits@.len(),
                    all_digits(digits@),
                    fraction == digits@.take(scale as int),
                    out@ == head + written(fraction).take(scale - j),
                decreases j,
            {
                j = j - 1;
                let c = digit_to_char(digits[j]);
                proof {
                    let shown = written(fraction);
                    assert(shown[scale - j - 1] == c);
                    assert(shown.take(scale - j) =~= shown.take(scale - j - 1).push(c));
                    assert((head + shown.take(scale - j - 1)).push(c) =~= head + shown.take(
                        scale - j,
                    ));
                }
                out.push(c);
            }
            proof {
                assert(written(fraction).take(scale as int) =~= written(fraction));
                assert(head + written(fraction) =~= sign + written(whole) + (seq!['.'] + written(
                    fraction,
                )));
            }
        } else {
            proof {
                assert(out@ =~= sign + written(whole) + Seq::<char>::empty());
            }
        }
        proof {
            lemma_value_parts(digits@, scale as int);
            assert(all_digits(whole));
            assert(all_digits(fraction));
            if whole.len() > 1 {
                assert(whole.last() == digits@.last());
            }
            lemma_nat_digits(whole);
            lemma_fixed_digits(fraction);
            lemma_pow10(scale as nat);
        }
        out
    }
}

} // verus!
