//! The picture as vector markup.

use vstd::prelude::*;
use vstd::string::*;
use crate::circle::{Circle, Disc};
use crate::decimal::decimal_text;
use crate::text::push_decimal;

verus! {

/// The element that draws one circle.
pub open spec fn circle_markup(disc: Disc) -> Seq<char> {
    "<circle r=\""@ + decimal_text(disc.radius) + "\" cx=\""@ + decimal_text(disc.x)
        + "\" cy=\""@ + decimal_text(disc.y) + "\" fill=\""@ + disc.colour + "\" />"@
}

/// One indented line for each circle, in order.
pub open spec fn lines_markup(discs: Seq<Disc>) -> Seq<char>
    decreases discs.len(),
{
    if discs.len() == 0 {
        Seq::empty()
    } else {
        lines_markup(discs.drop_last()) + "  "@ + circle_markup(discs.last()) + "\n"@
    }
}

/// The document: a root element whose view box is the canvas, around the
/// circles' lines.
pub open spec fn document_markup(width: int, discs: Seq<Disc>) -> Seq<char> {
    "<svg xmlns=\"http://www.w3.org/2000/svg\" viewBox=\"0 0 "@ + decimal_text(width) + " "@
        + decimal_text(width) + "\">\n"@ + lines_markup(discs) + "</svg>"@
}

/// Appends the element that draws `circle`.
fn push_circle(text: &mut String, circle: &Circle)
    ensures
        final(text)@ == old(text)@ + circle_markup(circle@),
{
    text.append("<circle r=\"");
    push_decimal(text, circle.radius);
    text.append("\" cx=\"");
    push_decimal(text, circle.centre_x);
    text.append("\" cy=\"");
    push_decimal(text, circle.centre_y);
    text.append("\" fill=\"");
    text.append(circle.colour.as_str());
    text.append("\" />");
    assert(text@ =~= old(text)@ + circle_markup(circle@));
}

impl Circle {
    /// The element that draws this circle.
    pub fn svg(&self) -> (text: String)
        ensures
            text@ == circle_markup(self@),
    {
        let mut text: String = String::new();
        push_circle(&mut text, self);
        assert(text@ =~= circle_markup(self@));
        text
    }
}

/// The document that draws the circles on a canvas of this width, later
/// circles over earlier ones.
pub fn render(width: i64, circles: &Vec<Circle>) -> (text: String)
    ensures
        text@ == document_markup(width as int, circles.deep_view()),
{
    let mut text: String = String::from_str(
        "<svg xmlns=\"http://www.w3.org/2000/svg\" viewBox=\"0 0 ",
    );
    push_decimal(&mut text, width);
    text.append(" ");
    push_decimal(&mut text, width);
    text.append("\">\n");
    let ghost head = text@;
    let ghost discs = circles.deep_view();
    let mut i: usize = 0;
    assert(discs.take(0) =~= Seq::empty());
    while i < circles.len()
        invariant
            i <= circles.len(),
            discs == circles.deep_view(),
            text@ == head + lines_markup(discs.take(i as int)),
        decreases circles.len() - i,
    {
        let ghost before = text@;
        text.append("  ");
        push_circle(&mut text, &circles[i]);
        text.append("\n");
        proof {
            let longer = discs.take(i + 1);
            assert(longer.drop_last() =~= discs.take(i as int));
            assert(longer.last() == circles[i as int]@);
            assert(text@ =~= head + lines_markup(longer));
        }
        i = i + 1;
    }
    assert(discs.take(i as int) =~= discs);
    text.append("</svg>");
    assert(text@ =~= document_markup(width as int, discs));
    text
}

} // verus!
