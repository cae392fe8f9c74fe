//! Reading a document back. Nothing here runs: it says what a document
//! means, so that writing can be held to it.

use vstd::prelude::*;
use crate::circle::{Disc, LIMIT, bounded};
use crate::decimal::{
    FRACTION_DIGITS, SCALE, decimal_text, decimal_value, first_index, is_digit,
    law_decimal_round_trip, lemma_first_index, lemma_nat_text, lemma_pow10_values,
    lemma_trimmed_text, magnitude_text, nat_text, trimmed_text,
};
use crate::markup::{circle_markup, document_markup, lines_markup};

verus! {

/// `s` begins with `word`.
pub open spec fn begins_with(s: Seq<char>, word: Seq<char>) -> bool {
    word.len() <= s.len() && s.take(word.len() as int) == word
}

/// Reads `opening` and then a value that a double quote ends: gives the
/// value, and what follows the quote.
pub open spec fn read_attribute(s: Seq<char>, opening: Seq<char>) -> Option<
    (Seq<char>, Seq<char>),
> {
    let inner = s.skip(opening.len() as int);
    let end = first_index(inner, '"');
    if begins_with(s, opening) && end < inner.len() {
        Some((inner.take(end), inner.skip(end + 1)))
    } else {
        None
    }
}

/// The circle with these attribute values, where the three lengths are
/// numerals.
pub open spec fn disc_of(radius: Seq<char>, x: Seq<char>, y: Seq<char>, colour: Seq<char>) -> Option<
    Disc,
> {
    match (decimal_value(radius), decimal_value(x), decimal_value(y)) {
        (Some(r), Some(x), Some(y)) => Some(Disc { x, y, radius: r, colour }),
        _ => None,
    }
}

/// Reads one line of a document: gives its circle, and what follows the
/// line.
pub open spec fn read_circle(s: Seq<char>) -> Option<(Disc, Seq<char>)> {
    match read_attribute(s, "  <circle r=\""@) {
        Some((radius, after_radius)) => match read_attribute(after_radius, " cx=\""@) {
            Some((x, after_x)) => match read_attribute(after_x, " cy=\""@) {
                Some((y, after_y)) => match read_attribute(after_y, " fill=\""@) {
                    Some((colour, after_colour)) => match disc_of(radius, x, y, colour) {
                        Some(disc) => if begins_with(after_colour, " />\n"@) {
                            Some((disc, after_colour.skip(" />\n"@.len() as int)))
                        } else {
                            None
                        },
                        None => None,
                    },
                    None => None,
                },
                None => None,
            },
            None => None,
        },
        None => None,
    }
}

/// Reads the lines of a document up to the end of its root element.
pub open spec fn read_circles(s: Seq<char>) -> Option<Seq<Disc>>
    decreases s.len(),
{
    if s == "</svg>"@ {
        Some(Seq::empty())
    } else {
        match read_circle(s) {
            Some((disc, rest)) => if rest.len() < s.len() {
                match read_circles(rest) {
                    Some(more) => Some(seq![disc] + more),
                    None => None,
                }
            } else {
                None
            },
            None => None,
        }
    }
}

/// Reads a document: gives the width of its canvas and its circles in order.
pub open spec fn read_document(s: Seq<char>) -> Option<(int, Seq<Disc>)> {
    let opening = "<svg xmlns=\"http://www.w3.org/2000/svg\" viewBox=\"0 0 "@;
    let inner = s.skip(opening.len() as int);
    let gap = first_index(inner, ' ');
    let across = inner.take(gap);
    if begins_with(s, opening) && gap < inner.len() {
        match read_attribute(inner.skip(gap), " "@) {
            Some((down, rest)) => match (
                decimal_value(across),
                decimal_value(down),
                read_circles(rest.skip(">\n"@.len() as int)),
            ) {
                (Some(width), Some(height), Some(discs)) => if width == height && begins_with(
                    rest,
                    ">\n"@,
                ) {
                    Some((width, discs))
                } else {
                    None
                },
                _ => None,
            },
            None => None,
        }
    } else {
        None
    }
}

/// A character that a numeral is written with.
pub open spec fn is_numeral_char(c: char) -> bool {
    is_digit(c) || c == '-' || c == '.'
}

/// A circle that a document can hold: lengths within `LIMIT`, and a colour
/// without a double quote.
pub open spec fn drawable(disc: Disc) -> bool {
    &&& bounded(disc.x)
    &&& bounded(disc.y)
    &&& bounded(disc.radius)
    &&& forall|i: int| 0 <= i < disc.colour.len() ==> disc.colour[i] != '"'
}

/// The text of a length holds digits, and at most a sign and a point.
pub proof fn lemma_decimal_text_plain(v: int)
    ensures
        forall|i: int|
            0 <= i < decimal_text(v).len() ==> is_numeral_char(#[trigger] decimal_text(v)[i]),
{
    let m: nat = if v < 0 {
        (-v) as nat
    } else {
        v as nat
    };
    let shown = magnitude_text(m);
    let whole = nat_text(m / (SCALE as nat));
    let left = m % (SCALE as nat);
    lemma_nat_text(m / (SCALE as nat));
    lemma_pow10_values();
    assert forall|i: int| 0 <= i < shown.len() implies is_numeral_char(#[trigger] shown[i]) by {
        if i < whole.len() {
            assert(shown[i] == whole[i]);
            assert(is_digit(whole[i]));
        } else {
            let digits = trimmed_text(left, FRACTION_DIGITS as nat);
            lemma_trimmed_text(left, FRACTION_DIGITS as nat);
            if i > whole.len() {
                assert(shown[i] == digits[i - whole.len() - 1]);
                assert(is_digit(digits[i - whole.len() - 1]));
            }
        }
    }
    let text = decimal_text(v);
    assert forall|i: int| 0 <= i < text.len() implies is_numeral_char(#[trigger] text[i]) by {
        if v < 0 {
            if i > 0 {
                assert(text[i] == shown[i - 1]);
            }
        }
    }
}

/// An opening, a value without a double quote, and a double quote are read
/// as that value, up to what follows the quote.
pub proof fn lemma_read_attribute(
    s: Seq<char>,
    opening: Seq<char>,
    value: Seq<char>,
    rest: Seq<char>,
)
    requires
        s == opening + value + seq!['"'] + rest,
        forall|i: int| 0 <= i < value.len() ==> value[i] != '"',
    ensures
        read_attribute(s, opening) == Some((value, rest)),
{
    let inner = s.skip(opening.len() as int);
    assert(s.take(opening.len() as int) =~= opening);
    assert(inner =~= value + seq!['"'] + rest);
    assert(inner[value.len() as int] == '"');
    assert forall|j: int| 0 <= j < value.len() implies inner[j] != '"' by {
        assert(inner[j] == value[j]);
    }
    lemma_first_index(inner, '"', value.len() as int);
    assert(inner.take(value.len() as int) =~= value);
    assert(inner.skip(value.len() as int + 1) =~= rest);
}

/// The text of a length has no double quote and no blank.
pub proof fn lemma_decimal_text_unquoted(v: int)
    ensures
        forall|i: int| 0 <= i < decimal_text(v).len() ==> decimal_text(v)[i] != '"',
        forall|i: int| 0 <= i < decimal_text(v).len() ==> decimal_text(v)[i] != ' ',
{
    lemma_decimal_text_plain(v);
    assert forall|i: int| 0 <= i < decimal_text(v).len() implies decimal_text(v)[i] != '"'
        && decimal_text(v)[i] != ' ' by {
        assert(is_numeral_char(decimal_text(v)[i]));
    }
}

/// The line written for a circle is read as that circle.
pub proof fn lemma_read_circle(disc: Disc, tail: Seq<char>)
    requires
        drawable(disc),
    ensures
        read_circle("  "@ + circle_markup(disc) + "\n"@ + tail) == Some((disc, tail)),
{
    reveal_strlit("  ");
    reveal_strlit("\n");
    reveal_strlit("<circle r=\"");
    reveal_strlit("\" cx=\"");
    reveal_strlit("\" cy=\"");
    reveal_strlit("\" fill=\"");
    reveal_strlit("\" />");
    reveal_strlit("  <circle r=\"");
    reveal_strlit(" cx=\"");
    reveal_strlit(" cy=\"");
    reveal_strlit(" fill=\"");
    reveal_strlit(" />\n");
    let s = "  "@ + circle_markup(disc) + "\n"@ + tail;
    let quote = seq!['"'];
    let radius = decimal_text(disc.radius);
    let x = decimal_text(disc.x);
    let y = decimal_text(disc.y);
    lemma_decimal_text_unquoted(disc.radius);
    lemma_decimal_text_unquoted(disc.x);
    lemma_decimal_text_unquoted(disc.y);
    law_decimal_round_trip(disc.radius);
    law_decimal_round_trip(disc.x);
    law_decimal_round_trip(disc.y);
    let after_colour = " />\n"@ + tail;
    let after_y = " fill=\""@ + disc.colour + quote + after_colour;
    let after_x = " cy=\""@ + y + quote + after_y;
    let after_radius = " cx=\""@ + x + quote + after_x;
    assert(s =~= "  <circle r=\""@ + radius + quote + after_radius);
    lemma_read_attribute(s, "  <circle r=\""@, radius, after_radius);
    lemma_read_attribute(after_radius, " cx=\""@, x, after_x);
    lemma_read_attribute(after_x, " cy=\""@, y, after_y);
    lemma_read_attribute(after_y, " fill=\""@, disc.colour, after_colour);
    assert(after_colour.take(" />\n"@.len() as int) =~= " />\n"@);
    assert(after_colour.skip(" />\n"@.len() as int) =~= tail);
    assert(disc_of(radius, x, y, disc.colour) == Some(disc));
}

/// The lines of a sequence of circles begin with the line of the first.
pub proof fn lemma_lines_front(disc: Disc, rest: Seq<Disc>)
    ensures
        lines_markup(seq![disc] + rest) == "  "@ + circle_markup(disc) + "\n"@ + lines_markup(rest),
    decreases rest.len(),
{
    let all = seq![disc] + rest;
    if rest.len() == 0 {
        assert(all.drop_last() =~= Seq::<Disc>::empty());
        assert(all.last() == disc);
        assert(lines_markup(all.drop_last()) =~= Seq::<char>::empty());
        assert(lines_markup(all) =~= "  "@ + circle_markup(disc) + "\n"@ + lines_markup(rest));
    } else {
        lemma_lines_front(disc, rest.drop_last());
        assert(all.drop_last() =~= seq![disc] + rest.drop_last());
        assert(all.last() == rest.last());
        assert(lines_markup(all) =~= "  "@ + circle_markup(disc) + "\n"@ + lines_markup(rest));
    }
}

/// The lines written for a sequence of circles, up to the end of the root
/// element, are read as those circles.
pub proof fn lemma_read_circles(discs: Seq<Disc>)
    requires
        forall|i: int| 0 <= i < discs.len() ==> drawable(#[trigger] discs[i]),
    ensures
        read_circles(lines_markup(discs) + "</svg>"@) == Some(discs),
    decreases discs.len(),
{
    reveal_strlit("</svg>");
    reveal_strlit("  ");
    let s = lines_markup(discs) + "</svg>"@;
    if discs.len() == 0 {
        assert(s =~= "</svg>"@);
    } else {
        let disc = discs[0];
        let rest = discs.drop_first();
        assert(discs =~= seq![disc] + rest);
        lemma_lines_front(disc, rest);
        let tail = lines_markup(rest) + "</svg>"@;
        assert(s =~= "  "@ + circle_markup(disc) + "\n"@ + tail);
        assert(s[0] == ' ');
        assert("</svg>"@[0] == '<');
        lemma_read_circle(disc, tail);
        assert forall|i: int| 0 <= i < rest.len() implies drawable(#[trigger] rest[i]) by {
            assert(rest[i] == discs[i + 1]);
        }
        lemma_read_circles(rest);
        assert(tail.len() < s.len());
    }
}

/// Writing and reading back: the document written for a canvas and its
/// circles is read as that width and those circles, each with its radius,
/// its centre and its colour, in the same order.
pub proof fn law_document_round_trip(width: int, discs: Seq<Disc>)
    requires
        -LIMIT <= width <= LIMIT,
        forall|i: int| 0 <= i < discs.len() ==> drawable(#[trigger] discs[i]),
    ensures
        read_document(document_markup(width, discs)) == Some((width, discs)),
{
    reveal_strlit("<svg xmlns=\"http://www.w3.org/2000/svg\" viewBox=\"0 0 ");
    reveal_strlit(" ");
    reveal_strlit("\">\n");
    reveal_strlit(">\n");
    let opening = "<svg xmlns=\"http://www.w3.org/2000/svg\" viewBox=\"0 0 "@;
    let s = document_markup(width, discs);
    let shown = decimal_text(width);
    let quote = seq!['"'];
    lemma_decimal_text_unquoted(width);
    law_decimal_round_trip(width);
    lemma_read_circles(discs);
    let body = lines_markup(discs) + "</svg>"@;
    let rest = ">\n"@ + body;
    let from_gap = " "@ + shown + quote + rest;
    assert(s =~= opening + shown + from_gap);
    assert(s.take(opening.len() as int) =~= opening);
    let inner = s.skip(opening.len() as int);
    assert(inner =~= shown + from_gap);
    assert(inner[shown.len() as int] == ' ');
    assert forall|j: int| 0 <= j < shown.len() implies inner[j] != ' ' by {
        assert(inner[j] == shown[j]);
    }
    lemma_first_index(inner, ' ', shown.len() as int);
    assert(inner.take(shown.len() as int) =~= shown);
    assert(inner.skip(shown.len() as int) =~= from_gap);
    lemma_read_attribute(from_gap, " "@, shown, rest);
    assert(rest.take(">\n"@.len() as int) =~= ">\n"@);
    assert(rest.skip(">\n"@.len() as int) =~= body);
}

} // verus!
