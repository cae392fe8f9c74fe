//! The schedule of passes: its text form, and the schedule that is used
//! where none is given.

use vstd::prelude::*;
use crate::decimal::{all_digits, decimal_value, digits_value};
use crate::text::{chars_of, parse_decimal_within, read_digits};
use crate::packing::Pass;

verus! {

/// The canvas width that is used where none is given: a thousand canvas
/// units.
pub const DEFAULT_WIDTH: i64 = 1_000_000_000;

/// The fields of a text that commas separate: one more than it has commas.
pub open spec fn fields(s: Seq<char>) -> Seq<Seq<char>>
    decreases s.len(),
{
    if s.len() == 0 {
        seq![Seq::empty()]
    } else {
        let before = fields(s.drop_last());
        if s.last() == ',' {
            before.push(Seq::empty())
        } else {
            before.drop_last().push(before.last().push(s.last()))
        }
    }
}

/// The number of attempts that a numeral denotes: digits, after an optional
/// plus sign, that denote a number within `u32`.
pub open spec fn count_value(s: Seq<char>) -> Option<int> {
    let digits = if s.len() > 0 && s[0] == '+' {
        s.skip(1)
    } else {
        s
    };
    if digits.len() > 0 && all_digits(digits) && digits_value(digits) <= u32::MAX {
        Some(digits_value(digits) as int)
    } else {
        None
    }
}

/// The pass that two fields denote: a radius, then a number of attempts.
pub open spec fn pass_of(radius: Seq<char>, attempts: Seq<char>) -> Option<Pass> {
    match (decimal_value(radius), count_value(attempts)) {
        (Some(r), Some(n)) => Some(Pass { radius: r as i64, attempts: n as u32 }),
        _ => None,
    }
}

/// The pass that the `k`-th pair of fields denotes.
pub open spec fn nth_pass(tokens: Seq<Seq<char>>, k: int) -> Option<Pass> {
    pass_of(tokens[2 * k], tokens[2 * k + 1])
}

/// The schedule that a text denotes: its fields, two for each pass. A text
/// with an odd number of fields, or with a field that is no numeral of its
/// kind, denotes nothing.
pub open spec fn passes_of(s: Seq<char>) -> Option<Seq<Pass>> {
    let tokens = fields(s);
    if tokens.len() % 2 == 0 && forall|k: int|
        0 <= k < tokens.len() / 2 ==> (#[trigger] nth_pass(tokens, k)) is Some {
        Some(Seq::new((tokens.len() / 2) as nat, |k: int| nth_pass(tokens, k).unwrap()))
    } else {
        None
    }
}

/// `part` out of `of` parts of a width, rounded towards zero.
pub open spec fn share(width: int, part: int, of: int) -> int {
    if width >= 0 {
        width * part / of
    } else {
        -((-width) * part / of)
    }
}

/// The schedule that is used where none is given: eight passes whose radii
/// are fixed shares of the width.
pub open spec fn default_schedule(width: int) -> Seq<Pass> {
    seq![
        Pass { radius: share(width, 35, 1000) as i64, attempts: 20 },
        Pass { radius: share(width, 32, 1000) as i64, attempts: 850 },
        Pass { radius: share(width, 30, 1000) as i64, attempts: 700 },
        Pass { radius: share(width, 25, 1000) as i64, attempts: 1500 },
        Pass { radius: share(width, 21, 1000) as i64, attempts: 5000 },
        Pass { radius: share(width, 16, 1000) as i64, attempts: 10000 },
        Pass { radius: share(width, 13, 1000) as i64, attempts: 1000000 },
        Pass { radius: share(width, 80, 1000) as i64, attempts: 1000000 },
    ]
}

/// The spacing that is used where none is given: four ten-thousandths of the
/// width.
pub open spec fn default_gap(width: int) -> int {
    share(width, 4, 10000)
}

/// `part` thousandths of a width, rounded towards zero.
fn thousandths(width: i64, part: i64) -> (radius: i64)
    requires
        0 <= part <= 1000,
    ensures
        radius == share(width as int, part as int, 1000),
{
    let parts: i128 = part as i128;
    if width >= 0 {
        let wide: i128 = width as i128;
        assert(0 <= wide * parts <= wide * 1000) by (nonlinear_arith)
            requires
                0 <= wide,
                0 <= parts <= 1000,
        ;
        ((wide * parts) / 1000) as i64
    } else {
        let wide: i128 = -(width as i128);
        assert(0 <= wide * parts <= wide * 1000) by (nonlinear_arith)
            requires
                0 <= wide,
                0 <= parts <= 1000,
        ;
        (-((wide * parts) / 1000)) as i64
    }
}

/// The schedule that is used where none is given.
pub fn default_passes(width: i64) -> (passes: Vec<Pass>)
    ensures
        passes@ == default_schedule(width as int),
{
    let mut passes: Vec<Pass> = Vec::new();
    passes.push(Pass { radius: thousandths(width, 35), attempts: 20 });
    passes.push(Pass { radius: thousandths(width, 32), attempts: 850 });
    passes.push(Pass { radius: thousandths(width, 30), attempts: 700 });
    passes.push(Pass { radius: thousandths(width, 25), attempts: 1500 });
    passes.push(Pass { radius: thousandths(width, 21), attempts: 5000 });
    passes.push(Pass { radius: thousandths(width, 16), attempts: 10000 });
    passes.push(Pass { radius: thousandths(width, 13), attempts: 1000000 });
    passes.push(Pass { radius: thousandths(width, 80), attempts: 1000000 });
    assert(passes@ =~= default_schedule(width as int));
    passes
}

/// The spacing that is used where none is given.
pub fn default_spacing(width: i64) -> (spacing: i64)
    ensures
        spacing == default_gap(width as int),
{
    if width >= 0 {
        ((width as i128 * 4) / 10000) as i64
    } else {
        (-((-(width as i128) * 4) / 10000)) as i64
    }
}

/// Reads a number of attempts from the numeral that stands in `text` from
/// `from` up to `to`.
pub fn parse_count_within(text: &Vec<char>, from: usize, to: usize) -> (got: Option<u32>)
    requires
        from <= to <= text.len(),
    ensures
        match got {
            Some(n) => count_value(text@.subrange(from as int, to as int)) == Some(n as int),
            None => count_value(text@.subrange(from as int, to as int)) is None,
        },
{
    let ghost token = text@.subrange(from as int, to as int);
    let mut start: usize = from;
    if from < to {
        assert(token[0] == text@[from as int]);
        if text[from] == '+' {
            start = from + 1;
            assert(token.skip(1) =~= text@.subrange(start as int, to as int));
        }
    }
    if start == to {
        return None;
    }
    match read_digits(text, start, to, 4_294_967_295) {
        Some(n) => Some(n as u32),
        None => None,
    }
}

/// The text of the field between two places.
pub open spec fn field_at(text: Seq<char>, bound: (usize, usize)) -> Seq<char> {
    text.subrange(bound.0 as int, bound.1 as int)
}

/// Where the fields of a text begin and end.
pub fn split_fields(text: &Vec<char>) -> (bounds: Vec<(usize, usize)>)
    ensures
        bounds.len() == fields(text@).len(),
        forall|k: int|
            0 <= k < bounds.len() ==> (#[trigger] bounds[k]).0 <= bounds[k].1 <= text.len()
                && field_at(text@, bounds[k]) == fields(text@)[k],
{
    let mut bounds: Vec<(usize, usize)> = Vec::new();
    let mut from: usize = 0;
    let mut i: usize = 0;
    assert(text@.take(0) =~= Seq::empty());
    assert(text@.subrange(0, 0) =~= Seq::empty());
    while i < text.len()
        invariant
            from <= i <= text.len(),
            fields(text@.take(i as int)).len() == bounds.len() + 1,
            fields(text@.take(i as int)).last() == text@.subrange(from as int, i as int),
            forall|k: int|
                0 <= k < bounds.len() ==> (#[trigger] bounds[k]).0 <= bounds[k].1 <= text.len()
                    && field_at(text@, bounds[k]) == fields(text@.take(i as int))[k],
        decreases text.len() - i,
    {
        let ghost shorter = text@.take(i as int);
        let ghost longer = text@.take(i + 1);
        let ghost before = fields(shorter);
        assert(longer.drop_last() =~= shorter);
        assert(longer.last() == text@[i as int]);
        if text[i] == ',' {
            bounds.push((from, i));
            from = i + 1;
            assert(text@.subrange(from as int, from as int) =~= Seq::empty());
            assert(fields(longer) == before.push(Seq::empty()));
        } else {
            assert(text@.subrange(from as int, i + 1) =~= text@.subrange(
                from as int,
                i as int,
            ).push(text@[i as int]));
            assert(fields(longer) == before.drop_last().push(before.last().push(text@[i as int])));
        }
        i = i + 1;
    }
    assert(text@.take(text.len() as int) =~= text@);
    bounds.push((from, i));
    bounds
}

/// Reads a schedule from its text: radius and attempts of each pass in turn,
/// separated by commas.
pub fn parse_passes(s: &str) -> (got: Option<Vec<Pass>>)
    ensures
        match got {
            Some(passes) => passes_of(s@) == Some(passes@),
            None => passes_of(s@) is None,
        },
{
    let text: Vec<char> = chars_of(s);
    let bounds: Vec<(usize, usize)> = split_fields(&text);
    let ghost tokens = fields(s@);
    if bounds.len() % 2 != 0 {
        return None;
    }
    let pairs: usize = bounds.len() / 2;
    let mut passes: Vec<Pass> = Vec::new();
    let mut k: usize = 0;
    while k < pairs
        invariant
            k <= pairs,
            pairs * 2 == bounds.len(),
            text@ == s@,
            tokens == fields(s@),
            bounds.len() == tokens.len(),
            forall|j: int|
                0 <= j < bounds.len() ==> (#[trigger] bounds[j]).0 <= bounds[j].1 <= text.len()
                    && field_at(text@, bounds[j]) == tokens[j],
            passes.len() == k,
            forall|j: int| 0 <= j < k ==> #[trigger] nth_pass(tokens, j) == Some(passes[j]),
        decreases pairs - k,
    {
        let first: (usize, usize) = bounds[2 * k];
        let second: (usize, usize) = bounds[2 * k + 1];
        assert(field_at(text@, first) == tokens[2 * k]);
        assert(field_at(text@, second) == tokens[2 * k + 1]);
        let radius: Option<i64> = parse_decimal_within(&text, first.0, first.1);
        let attempts: Option<u32> = parse_count_within(&text, second.0, second.1);
        match (radius, attempts) {
            (Some(r), Some(n)) => {
                passes.push(Pass { radius: r, attempts: n });
            },
            _ => {
                assert(nth_pass(tokens, k as int) is None);
                return None;
            },
        }
        k = k + 1;
    }
    assert(passes@ =~= Seq::new((tokens.len() / 2) as nat, |j: int| nth_pass(tokens, j).unwrap()));
    Some(passes)
}

} // verus!
