//! Lengths as decimal text.
//!
//! A length is a whole number of lattice units, and `SCALE` units make one
//! unit of the canvas. Its text is the decimal numeral of that many canvas
//! units, with up to six digits after the point.

use vstd::prelude::*;
use crate::circle::LIMIT;

verus! {

/// Lattice units in one unit of the canvas.
pub const SCALE: i64 = 1_000_000;

/// Digits after the decimal point that a length can hold.
pub const FRACTION_DIGITS: usize = 6;

pub open spec fn is_digit(c: char) -> bool {
    '0' <= c <= '9'
}

/// The number that a digit stands for.
pub open spec fn digit_of(c: char) -> int {
    c as int - 48
}

/// The digit that stands for a number below ten.
pub open spec fn digit_char(d: int) -> char {
    (d + 48) as char
}

pub open spec fn all_digits(s: Seq<char>) -> bool {
    forall|i: int| 0 <= i < s.len() ==> is_digit(#[trigger] s[i])
}

pub open spec fn pow10(k: nat) -> nat
    decreases k,
{
    if k == 0 {
        1
    } else {
        10 * pow10((k - 1) as nat)
    }
}

/// The number that a run of digits denotes in base ten; nothing denotes zero.
pub open spec fn digits_value(s: Seq<char>) -> nat
    decreases s.len(),
{
    if s.len() == 0 {
        0
    } else {
        (digits_value(s.drop_last()) * 10 + digit_of(s.last())) as nat
    }
}

/// Where `c` first stands in `s`, or the length of `s` where it does not.
pub open spec fn first_index(s: Seq<char>, c: char) -> int
    decreases s.len(),
{
    if s.len() == 0 || s[0] == c {
        0
    } else {
        1 + first_index(s.drop_first(), c)
    }
}

/// The numeral of a natural number, without leading zeros.
pub open spec fn nat_text(n: nat) -> Seq<char>
    decreases n,
{
    if n < 10 {
        seq![digit_char(n as int)]
    } else {
        nat_text(n / 10).push(digit_char((n % 10) as int))
    }
}

/// The last `digits` digits of `n`, with leading zeros.
pub open spec fn fixed_text(n: nat, digits: nat) -> Seq<char>
    decreases digits,
{
    if digits == 0 {
        Seq::empty()
    } else {
        fixed_text(n / 10, (digits - 1) as nat).push(digit_char((n % 10) as int))
    }
}

/// The digits after the point for the fraction `n / 10^digits`, without
/// trailing zeros.
pub open spec fn trimmed_text(n: nat, digits: nat) -> Seq<char>
    decreases digits,
{
    if digits == 0 {
        Seq::empty()
    } else if n % 10 == 0 {
        trimmed_text(n / 10, (digits - 1) as nat)
    } else {
        fixed_text(n, digits)
    }
}

/// The text of a length that is not negative: the whole canvas units, and,
/// where lattice units are left over, a point and their digits.
pub open spec fn magnitude_text(m: nat) -> Seq<char> {
    let whole = nat_text(m / (SCALE as nat));
    let left = m % (SCALE as nat);
    if left == 0 {
        whole
    } else {
        whole + seq!['.'] + trimmed_text(left, FRACTION_DIGITS as nat)
    }
}

/// The text of a length.
pub open spec fn decimal_text(v: int) -> Seq<char> {
    if v < 0 {
        seq!['-'] + magnitude_text((-v) as nat)
    } else {
        magnitude_text(v as nat)
    }
}

/// How many characters of sign a numeral begins with.
pub open spec fn sign_len(s: Seq<char>) -> int {
    if s.len() > 0 && (s[0] == '-' || s[0] == '+') {
        1
    } else {
        0
    }
}

/// The digits after the point that count: the first six.
pub open spec fn kept_fraction(fraction: Seq<char>) -> Seq<char> {
    if fraction.len() <= FRACTION_DIGITS {
        fraction
    } else {
        fraction.take(FRACTION_DIGITS as int)
    }
}

/// The numeral without its sign.
pub open spec fn numeral_body(s: Seq<char>) -> Seq<char> {
    s.skip(sign_len(s))
}

/// The digits of a numeral before the point.
pub open spec fn whole_digits(s: Seq<char>) -> Seq<char> {
    let body = numeral_body(s);
    body.take(first_index(body, '.'))
}

/// The digits of a numeral after the point; none where it has no point.
pub open spec fn fraction_digits(s: Seq<char>) -> Seq<char> {
    let body = numeral_body(s);
    let dot = first_index(body, '.');
    if dot < body.len() {
        body.skip(dot + 1)
    } else {
        Seq::empty()
    }
}

/// The lattice units that the digits after the point denote.
pub open spec fn fraction_value(fraction: Seq<char>) -> nat {
    let kept = kept_fraction(fraction);
    digits_value(kept) * pow10((FRACTION_DIGITS - kept.len()) as nat)
}

/// The length that a numeral denotes.
///
/// A numeral is an optional sign, digits, and optionally a point and more
/// digits, with at least one digit in all. Digits after the sixth behind the
/// point are dropped. A numeral beyond `LIMIT` lattice units denotes nothing.
pub open spec fn decimal_value(s: Seq<char>) -> Option<int> {
    let whole = whole_digits(s);
    let fraction = fraction_digits(s);
    let magnitude = digits_value(whole) * SCALE + fraction_value(fraction);
    if all_digits(whole) && all_digits(fraction) && whole.len() + fraction.len() > 0 && magnitude
        <= LIMIT {
        Some(
            if s.len() > 0 && s[0] == '-' {
                -magnitude
            } else {
                magnitude
            },
        )
    } else {
        None
    }
}

pub proof fn lemma_pow10_values()
    ensures
        pow10(0) == 1,
        pow10(1) == 10,
        pow10(2) == 100,
        pow10(3) == 1_000,
        pow10(4) == 10_000,
        pow10(5) == 100_000,
        pow10(6) == 1_000_000,
{
    reveal_with_fuel(pow10, 8);
}

/// Powers of ten grow with the exponent.
pub proof fn lemma_pow10_grows(low: nat, high: nat)
    requires
        low <= high,
    ensures
        1 <= pow10(low) <= pow10(high),
    decreases high,
{
    if low < high {
        lemma_pow10_grows(low, (high - 1) as nat);
    } else if low > 0 {
        lemma_pow10_grows((low - 1) as nat, (high - 1) as nat);
    }
}

/// Powers of ten multiply as their exponents add.
pub proof fn lemma_pow10_product(a: nat, b: nat)
    ensures
        pow10(a) * pow10(b) == pow10(a + b),
        0 < pow10(b),
    decreases a,
{
    lemma_pow10_grows(0, b);
    if a == 0 {
        assert(1 * pow10(b) == pow10(b));
    } else {
        lemma_pow10_product((a - 1) as nat, b);
        assert(pow10(a) == 10 * pow10((a - 1) as nat));
        assert(pow10(a + b) == 10 * pow10((a - 1 + b) as nat));
        assert((10 * pow10((a - 1) as nat)) * pow10(b) == 10 * (pow10((a - 1) as nat) * pow10(b)))
            by (nonlinear_arith);
    }
}

/// The place where `c` first stands is the one before which it does not
/// stand.
pub proof fn lemma_first_index(s: Seq<char>, c: char, at: int)
    requires
        0 <= at <= s.len(),
        forall|j: int| 0 <= j < at ==> s[j] != c,
        at == s.len() || s[at] == c,
    ensures
        first_index(s, c) == at,
    decreases s.len(),
{
    if at > 0 {
        let rest = s.drop_first();
        assert(s[0] != c);
        assert forall|j: int| 0 <= j < at - 1 implies rest[j] != c by {
            assert(rest[j] == s[j + 1]);
        }
        lemma_first_index(rest, c, at - 1);
    }
}

/// A numeral of digits denotes at least what any beginning of it denotes.
pub proof fn lemma_digits_value_grows(s: Seq<char>, n: int)
    requires
        all_digits(s),
        0 <= n <= s.len(),
    ensures
        digits_value(s.take(n)) <= digits_value(s),
    decreases s.len() - n,
{
    if n == s.len() {
        assert(s.take(n) =~= s);
    } else {
        lemma_digits_value_grows(s, n + 1);
        let longer = s.take(n + 1);
        assert(longer.drop_last() =~= s.take(n));
        assert(longer.last() == s[n]);
        assert(is_digit(s[n]));
    }
}

/// A numeral of digits is below the power of ten of its length.
pub proof fn lemma_digits_value_below(s: Seq<char>)
    requires
        all_digits(s),
    ensures
        digits_value(s) < pow10(s.len()),
    decreases s.len(),
{
    if s.len() > 0 {
        let front = s.drop_last();
        assert forall|i: int| 0 <= i < front.len() implies is_digit(#[trigger] front[i]) by {
            assert(front[i] == s[i]);
        }
        lemma_digits_value_below(front);
        assert(is_digit(s.last()));
        assert(pow10(s.len()) == 10 * pow10(front.len()));
    }
}

pub proof fn lemma_nat_text(n: nat)
    ensures
        nat_text(n).len() >= 1,
        all_digits(nat_text(n)),
        digits_value(nat_text(n)) == n,
    decreases n,
{
    let text = nat_text(n);
    if n < 10 {
        assert(text.drop_last() =~= Seq::empty());
        assert(digits_value(text.drop_last()) == 0);
        assert(text.last() == digit_char(n as int));
    } else {
        lemma_nat_text(n / 10);
        assert(text.drop_last() =~= nat_text(n / 10));
        assert(text.last() == digit_char((n % 10) as int));
        assert forall|i: int| 0 <= i < text.len() implies is_digit(#[trigger] text[i]) by {
            if i < text.len() - 1 {
                assert(text[i] == nat_text(n / 10)[i]);
            }
        }
    }
}

pub proof fn lemma_fixed_text(n: nat, digits: nat)
    requires
        n < pow10(digits),
    ensures
        fixed_text(n, digits).len() == digits,
        all_digits(fixed_text(n, digits)),
        digits_value(fixed_text(n, digits)) == n,
    decreases digits,
{
    let text = fixed_text(n, digits);
    if digits > 0 {
        lemma_fixed_text(n / 10, (digits - 1) as nat);
        let front = fixed_text(n / 10, (digits - 1) as nat);
        assert(text.drop_last() =~= front);
        assert(text.last() == digit_char((n % 10) as int));
        assert forall|i: int| 0 <= i < text.len() implies is_digit(#[trigger] text[i]) by {
            if i < text.len() - 1 {
                assert(text[i] == front[i]);
            }
        }
    }
}

/// The trimmed digits of a fraction that is not zero: at least one and at
/// most `digits` of them, denoting the fraction once the dropped zeros are
/// counted in.
pub proof fn lemma_trimmed_text(n: nat, digits: nat)
    requires
        0 < n < pow10(digits),
    ensures
        1 <= trimmed_text(n, digits).len() <= digits,
        all_digits(trimmed_text(n, digits)),
        digits_value(trimmed_text(n, digits)) * pow10(
            (digits - trimmed_text(n, digits).len()) as nat,
        ) == n,
    decreases digits,
{
    assert(digits > 0) by {
        if digits == 0 {
            assert(pow10(0) == 1);
        }
    }
    if n % 10 == 0 {
        let fewer = (digits - 1) as nat;
        assert(pow10(digits) == 10 * pow10(fewer));
        assert(0 < n / 10 < pow10(fewer));
        lemma_trimmed_text(n / 10, fewer);
        let text = trimmed_text(n / 10, fewer);
        assert(trimmed_text(n, digits) == text);
        let gap = (fewer - text.len()) as nat;
        let wide = (digits - text.len()) as nat;
        assert(wide == gap + 1);
        assert(pow10(wide) == 10 * pow10(gap));
        let value = digits_value(text);
        let unit = pow10(gap);
        assert(value * (10 * unit) == 10 * (value * unit)) by (nonlinear_arith);
        assert(value * unit == n / 10);
        assert(10 * (n / 10) == n);
    } else {
        lemma_fixed_text(n, digits);
        let text = fixed_text(n, digits);
        assert(trimmed_text(n, digits) == text);
        assert((digits - text.len()) as nat == 0);
        assert(pow10(0) == 1);
        assert(digits_value(text) * 1 == n);
    }
}

/// Text and back: the numeral written for a length within `LIMIT` denotes
/// that length.
pub proof fn law_decimal_round_trip(v: int)
    requires
        -LIMIT <= v <= LIMIT,
    ensures
        decimal_value(decimal_text(v)) == Some(v),
{
    let m: nat = if v < 0 {
        (-v) as nat
    } else {
        v as nat
    };
    let text = decimal_text(v);
    let shown = magnitude_text(m);
    let whole = nat_text(m / (SCALE as nat));
    let left = m % (SCALE as nat);
    lemma_nat_text(m / (SCALE as nat));
    lemma_pow10_values();
    assert(is_digit(whole[0]));
    assert(shown[0] == whole[0]);
    let body = text.skip(sign_len(text));
    assert(body =~= shown) by {
        if v < 0 {
            assert(text[0] == '-');
        } else {
            assert(text[0] == whole[0]);
        }
    }
    assert forall|j: int| 0 <= j < whole.len() implies body[j] != '.' by {
        assert(body[j] == whole[j]);
        assert(is_digit(whole[j]));
    }
    if left == 0 {
        lemma_first_index(body, '.', whole.len() as int);
        assert(body.take(whole.len() as int) =~= whole);
        assert(kept_fraction(Seq::empty()) =~= Seq::<char>::empty());
        assert(digits_value(Seq::<char>::empty()) == 0);
        assert(digits_value(Seq::<char>::empty()) * pow10(6) == 0);
        assert(SCALE == 1_000_000);
        assert((m / 1_000_000) * 1_000_000 + m % 1_000_000 == m);
        assert((m / (SCALE as nat)) * SCALE == m);
    } else {
        let digits = trimmed_text(left, FRACTION_DIGITS as nat);
        lemma_trimmed_text(left, FRACTION_DIGITS as nat);
        assert(body[whole.len() as int] == '.');
        lemma_first_index(body, '.', whole.len() as int);
        assert(body.take(whole.len() as int) =~= whole);
        assert(body.skip(whole.len() as int + 1) =~= digits);
        assert(kept_fraction(digits) == digits);
        assert(SCALE == 1_000_000);
        assert((m / 1_000_000) * 1_000_000 + m % 1_000_000 == m);
        assert((m / (SCALE as nat)) * SCALE + left == m);
    }
}

} // verus!
