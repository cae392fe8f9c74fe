//! Writing lengths as text, and reading them back.

use vstd::prelude::*;
use vstd::string::*;
use crate::decimal::{
    FRACTION_DIGITS, all_digits, decimal_text, decimal_value, digit_char, digit_of,
    digits_value, first_index, fixed_text, fraction_digits, fraction_value, is_digit,
    kept_fraction, lemma_digits_value_below, lemma_digits_value_grows, lemma_first_index,
    lemma_pow10_grows, lemma_pow10_product, lemma_pow10_values, magnitude_text, nat_text,
    numeral_body, pow10, sign_len, trimmed_text, whole_digits,
};

verus! {

/// Appends one digit.
fn push_digit(text: &mut String, digit: u8)
    requires
        digit < 10,
    ensures
        final(text)@ == old(text)@.push(digit_char(digit as int)),
{
    proof {
        reveal_strlit("0");
        reveal_strlit("1");
        reveal_strlit("2");
        reveal_strlit("3");
        reveal_strlit("4");
        reveal_strlit("5");
        reveal_strlit("6");
        reveal_strlit("7");
        reveal_strlit("8");
        reveal_strlit("9");
    }
    let shown: &str = if digit == 0 {
        "0"
    } else if digit == 1 {
        "1"
    } else if digit == 2 {
        "2"
    } else if digit == 3 {
        "3"
    } else if digit == 4 {
        "4"
    } else if digit == 5 {
        "5"
    } else if digit == 6 {
        "6"
    } else if digit == 7 {
        "7"
    } else if digit == 8 {
        "8"
    } else {
        "9"
    };
    assert(shown@ =~= seq![digit_char(digit as int)]);
    text.append(shown);
    assert(text@ =~= old(text)@.push(digit_char(digit as int)));
}

/// Appends the numeral of `n`.
pub fn push_nat(text: &mut String, n: u64)
    ensures
        final(text)@ == old(text)@ + nat_text(n as nat),
    decreases n,
{
    if n >= 10 {
        push_nat(text, n / 10);
    }
    push_digit(text, (n % 10) as u8);
    assert(text@ =~= old(text)@ + nat_text(n as nat));
}

/// Appends the last `digits` digits of `n`, with leading zeros.
fn push_fixed(text: &mut String, n: u64, digits: usize)
    ensures
        final(text)@ == old(text)@ + fixed_text(n as nat, digits as nat),
    decreases digits,
{
    if digits > 0 {
        push_fixed(text, n / 10, digits - 1);
        push_digit(text, (n % 10) as u8);
    }
    assert(text@ =~= old(text)@ + fixed_text(n as nat, digits as nat));
}

/// Appends the text of a length.
pub fn push_decimal(text: &mut String, v: i64)
    ensures
        final(text)@ == old(text)@ + decimal_text(v as int),
{
    let magnitude: u64 = if v < 0 {
        text.append("-");
        proof {
            reveal_strlit("-");
        }
        (-(v as i128)) as u64
    } else {
        v as u64
    };
    let ghost signed = text@;
    assert(signed =~= if v < 0 {
        old(text)@ + seq!['-']
    } else {
        old(text)@
    });
    push_nat(text, magnitude / 1_000_000);
    let left: u64 = magnitude % 1_000_000;
    if left != 0 {
        text.append(".");
        proof {
            reveal_strlit(".");
        }
        let mut rest: u64 = left;
        let mut digits: usize = FRACTION_DIGITS;
        while digits > 0 && rest % 10 == 0
            invariant
                trimmed_text(left as nat, FRACTION_DIGITS as nat) == trimmed_text(
                    rest as nat,
                    digits as nat,
                ),
            decreases digits,
        {
            rest = rest / 10;
            digits = digits - 1;
        }
        push_fixed(text, rest, digits);
        assert(trimmed_text(rest as nat, digits as nat) == fixed_text(rest as nat, digits as nat));
    }
    assert(text@ =~= signed + magnitude_text(magnitude as nat));
    assert(text@ =~= old(text)@ + decimal_text(v as int));
}

/// The text of a length.
pub fn decimal_string(v: i64) -> (text: String)
    ensures
        text@ == decimal_text(v as int),
{
    let mut text: String = String::new();
    push_decimal(&mut text, v);
    assert(text@ =~= decimal_text(v as int));
    text
}

/// The characters of a string, one by one.
pub fn chars_of(s: &str) -> (chars: Vec<char>)
    ensures
        chars@ == s@,
{
    let mut chars: Vec<char> = Vec::new();
    for c in it: s.chars()
        invariant
            it.seq() == s@,
            chars@ == s@.take(it.index() as int),
    {
        chars.push(c);
        assert(s@.take(it.index() + 1) =~= s@.take(it.index() as int).push(s@[it.index() as int]));
    }
    assert(s@.take(s@.len() as int) =~= s@);
    chars
}

/// The number that a digit stands for, where the character is one.
pub fn digit_in(c: char) -> (digit: Option<u8>)
    ensures
        match digit {
            Some(d) => is_digit(c) && d == digit_of(c),
            None => !is_digit(c),
        },
{
    if c == '0' {
        Some(0)
    } else if c == '1' {
        Some(1)
    } else if c == '2' {
        Some(2)
    } else if c == '3' {
        Some(3)
    } else if c == '4' {
        Some(4)
    } else if c == '5' {
        Some(5)
    } else if c == '6' {
        Some(6)
    } else if c == '7' {
        Some(7)
    } else if c == '8' {
        Some(8)
    } else if c == '9' {
        Some(9)
    } else {
        None
    }
}

/// What `parse_decimal` owes for the numeral `s`.
pub open spec fn parsed_as(s: Seq<char>, got: Option<i64>) -> bool {
    match got {
        Some(v) => decimal_value(s) == Some(v as int),
        None => decimal_value(s) is None,
    }
}

/// Where `c` first stands in `text` between `from` and `to`, or `to`.
pub fn find_char(text: &Vec<char>, from: usize, to: usize, c: char) -> (at: usize)
    requires
        from <= to <= text.len(),
    ensures
        from <= at <= to,
        at - from == first_index(text@.subrange(from as int, to as int), c),
{
    let ghost part = text@.subrange(from as int, to as int);
    let mut at: usize = from;
    while at < to && text[at] != c
        invariant
            from <= at <= to <= text.len(),
            part == text@.subrange(from as int, to as int),
            forall|j: int| 0 <= j < at - from ==> part[j] != c,
        decreases to - at,
    {
        assert(part[at - from] == text@[at as int]);
        at = at + 1;
    }
    proof {
        if at < to {
            assert(part[at - from] == text@[at as int]);
        }
        lemma_first_index(part, c, at - from);
    }
    at
}

/// Reads the number that the characters from `from` up to `to` denote, where
/// all of them are digits and the number is at most `cap`.
pub fn read_digits(text: &Vec<char>, from: usize, to: usize, cap: u64) -> (got: Option<u64>)
    requires
        from <= to <= text.len(),
        cap <= 1_000_000_000_000_000_000,
    ensures
        got == (if all_digits(text@.subrange(from as int, to as int)) && digits_value(
            text@.subrange(from as int, to as int),
        ) <= cap {
            Some(digits_value(text@.subrange(from as int, to as int)) as u64)
        } else {
            None
        }),
{
    let ghost part = text@.subrange(from as int, to as int);
    let mut sum: u64 = 0;
    let mut i: usize = from;
    assert(part.take(0) =~= Seq::empty());
    while i < to
        invariant
            from <= i <= to <= text.len(),
            cap <= 1_000_000_000_000_000_000,
            part == text@.subrange(from as int, to as int),
            all_digits(part.take(i - from)),
            sum == digits_value(part.take(i - from)),
            sum <= cap,
        decreases to - i,
    {
        assert(part[i - from] == text@[i as int]);
        let digit: u64 = match digit_in(text[i]) {
            Some(d) => d as u64,
            None => {
                assert(!is_digit(part[i - from]));
                return None;
            },
        };
        let ghost shorter = part.take(i - from);
        let ghost longer = part.take(i - from + 1);
        assert(longer.drop_last() =~= shorter);
        assert(longer.last() == part[i - from]);
        assert forall|k: int| 0 <= k < longer.len() implies is_digit(#[trigger] longer[k]) by {
            if k < shorter.len() {
                assert(longer[k] == shorter[k]);
            }
        }
        sum = sum * 10 + digit;
        if sum > cap {
            proof {
                if all_digits(part) {
                    lemma_digits_value_grows(part, i - from + 1);
                }
            }
            return None;
        }
        i = i + 1;
    }
    assert(part.take(to - from) =~= part);
    Some(sum)
}

/// Whether the characters from `from` up to `to` are all digits.
pub fn digits_only(text: &Vec<char>, from: usize, to: usize) -> (yes: bool)
    requires
        from <= to <= text.len(),
    ensures
        yes == all_digits(text@.subrange(from as int, to as int)),
{
    let ghost part = text@.subrange(from as int, to as int);
    let mut i: usize = from;
    while i < to
        invariant
            from <= i <= to <= text.len(),
            part == text@.subrange(from as int, to as int),
            forall|j: int| 0 <= j < i - from ==> is_digit(#[trigger] part[j]),
        decreases to - i,
    {
        assert(part[i - from] == text@[i as int]);
        if digit_in(text[i]).is_none() {
            return false;
        }
        i = i + 1;
    }
    true
}

/// `n` followed by `zeros` zeros.
fn scale_up(n: u64, zeros: usize) -> (scaled: u64)
    requires
        zeros <= 6,
        n < 1_000_000,
    ensures
        scaled == n * pow10(zeros as nat),
{
    proof {
        lemma_pow10_values();
    }
    if zeros == 0 {
        n
    } else if zeros == 1 {
        n * 10
    } else if zeros == 2 {
        n * 100
    } else if zeros == 3 {
        n * 1_000
    } else if zeros == 4 {
        n * 10_000
    } else if zeros == 5 {
        n * 100_000
    } else {
        n * 1_000_000
    }
}

/// Reads the lattice units that the digits from `from` up to `to` denote as
/// digits after the point.
pub fn read_fraction(text: &Vec<char>, from: usize, to: usize) -> (got: Option<u64>)
    requires
        from <= to <= text.len(),
    ensures
        got == (if all_digits(text@.subrange(from as int, to as int)) {
            Some(fraction_value(text@.subrange(from as int, to as int)) as u64)
        } else {
            None
        }),
        fraction_value(text@.subrange(from as int, to as int)) < 1_000_000 || !all_digits(
            text@.subrange(from as int, to as int),
        ),
{
    let ghost fraction = text@.subrange(from as int, to as int);
    let ghost kept = kept_fraction(fraction);
    let kept_to: usize = if to - from > 6 {
        from + 6
    } else {
        to
    };
    let ghost tail = text@.subrange(kept_to as int, to as int);
    assert(kept =~= text@.subrange(from as int, kept_to as int));
    proof {
        lemma_pow10_values();
        if all_digits(fraction) {
            assert forall|k: int| 0 <= k < kept.len() implies is_digit(#[trigger] kept[k]) by {
                assert(kept[k] == fraction[k]);
            }
            assert forall|k: int| 0 <= k < tail.len() implies is_digit(#[trigger] tail[k]) by {
                assert(tail[k] == fraction[k + kept.len()]);
            }
        }
        if all_digits(kept) {
            lemma_digits_value_below(kept);
            lemma_pow10_grows(kept.len(), 6);
            let value = digits_value(kept);
            let low = pow10(kept.len());
            let high = pow10((6 - kept.len()) as nat);
            lemma_pow10_product(kept.len(), (6 - kept.len()) as nat);
            assert(value * high < low * high) by (nonlinear_arith)
                requires
                    value < low,
                    0 < high,
            ;
            if all_digits(tail) {
                assert forall|k: int| 0 <= k < fraction.len() implies is_digit(
                    #[trigger] fraction[k],
                ) by {
                    if k < kept.len() {
                        assert(fraction[k] == kept[k]);
                    } else {
                        assert(fraction[k] == tail[k - kept.len()]);
                    }
                }
            }
        }
    }
    let part: u64 = match read_digits(text, from, kept_to, 999_999) {
        Some(n) => n,
        None => {
            return None;
        },
    };
    if !digits_only(text, kept_to, to) {
        return None;
    }
    Some(scale_up(part, 6 - (kept_to - from)))
}

/// How a numeral splits: after a sign of `start - from` characters, the
/// digits before the point reach up to `dot`, and those after it begin one
/// character later.
pub proof fn lemma_numeral_split(text: Seq<char>, from: int, to: int, start: int, dot: int)
    requires
        0 <= from <= start <= dot <= to <= text.len(),
        start - from == sign_len(text.subrange(from, to)),
        dot - start == first_index(text.subrange(start, to), '.'),
    ensures
        whole_digits(text.subrange(from, to)) == text.subrange(start, dot),
        fraction_digits(text.subrange(from, to)) == text.subrange(
            if dot < to {
                dot + 1
            } else {
                to
            },
            to,
        ),
{
    let token = text.subrange(from, to);
    let body = numeral_body(token);
    assert(body =~= text.subrange(start, to));
    assert(body.take(dot - start) =~= text.subrange(start, dot));
    if dot < to {
        assert(body.skip(dot - start + 1) =~= text.subrange(dot + 1, to));
    } else {
        assert(text.subrange(to, to) =~= Seq::<char>::empty());
    }
}

/// Reads the numeral that stands in `text` from `from` up to `to`.
pub fn parse_decimal_within(text: &Vec<char>, from: usize, to: usize) -> (got: Option<i64>)
    requires
        from <= to <= text.len(),
    ensures
        parsed_as(text@.subrange(from as int, to as int), got),
{
    let ghost token = text@.subrange(from as int, to as int);
    let mut start: usize = from;
    let mut negative: bool = false;
    if from < to {
        let first: char = text[from];
        assert(token[0] == text@[from as int]);
        if first == '-' || first == '+' {
            negative = first == '-';
            start = from + 1;
        }
    }
    let dot: usize = find_char(text, start, to, '.');
    let fraction_from: usize = if dot < to {
        dot + 1
    } else {
        to
    };
    let ghost whole = text@.subrange(start as int, dot as int);
    let ghost fraction = text@.subrange(fraction_from as int, to as int);
    proof {
        lemma_numeral_split(text@, from as int, to as int, start as int, dot as int);
    }
    let units: u64 = match read_digits(text, start, dot, 1_000_000_000_000) {
        Some(n) => n,
        None => {
            return None;
        },
    };
    let fine: u64 = match read_fraction(text, fraction_from, to) {
        Some(n) => n,
        None => {
            return None;
        },
    };
    if (dot - start) + (to - fraction_from) == 0 {
        return None;
    }
    let total: u64 = units * 1_000_000 + fine;
    if total > 1_000_000_000_000_000_000 {
        return None;
    }
    let value: i64 = total as i64;
    if negative {
        Some(-value)
    } else {
        Some(value)
    }
}

/// Reads a length from its numeral.
pub fn parse_decimal(s: &str) -> (got: Option<i64>)
    ensures
        parsed_as(s@, got),
{
    let text: Vec<char> = chars_of(s);
    assert(text@.subrange(0, text@.len() as int) =~= s@);
    parse_decimal_within(&text, 0, text.len())
}

} // verus!
