//! Circles, and the two geometric tests that placement rests on.

use vstd::prelude::*;
use vstd::string::*;
use crate::random::draw_between;

verus! {

/// Largest magnitude of a length or coordinate, in lattice units. Below it
/// every squared distance fits the machine arithmetic used here.
pub const LIMIT: i64 = 1_000_000_000_000_000_000;

/// How many candidate centres `Circle::new` draws before it stops searching.
pub const DRAW_LIMIT: u64 = 0xffff_ffff_ffff_ffff;

/// A circle as a mathematical value.
pub struct Disc {
    pub x: int,
    pub y: int,
    pub radius: int,
    pub colour: Seq<char>,
}

/// A placed circle: centre and radius in lattice units, and a fill colour.
#[derive(Clone, Debug)]
pub struct Circle {
    pub centre_x: i64,
    pub centre_y: i64,
    pub radius: i64,
    pub colour: String,
}

impl View for Circle {
    type V = Disc;

    open spec fn view(&self) -> Disc {
        Disc {
            x: self.centre_x as int,
            y: self.centre_y as int,
            radius: self.radius as int,
            colour: self.colour@,
        }
    }
}

impl DeepView for Circle {
    type V = Disc;

    open spec fn deep_view(&self) -> Disc {
        self@
    }
}

pub open spec fn square(a: int) -> int {
    a * a
}

/// `v` is within the magnitude that the arithmetic supports.
pub open spec fn bounded(v: int) -> bool {
    -LIMIT <= v <= LIMIT
}

/// The colour that a circle has until one is sampled for it.
pub open spec fn default_colour() -> Seq<char> {
    "black"@
}

/// A circle of this radius centred at `(x, y)` lies within the disc inscribed
/// in the canvas: its centre is at most `width / 2 - radius` away from the
/// canvas centre `(width / 2, width / 2)`. Stated on doubled coordinates, so
/// that an odd width needs no half units.
pub open spec fn inside_canvas(x: int, y: int, radius: int, width: int) -> bool {
    &&& 2 * radius <= width
    &&& square(2 * x - width) + square(2 * y - width) <= square(width - 2 * radius)
}

/// The centres of `a` and `b` are closer than the sum of their radii and the
/// spacing, compared on squared distances.
pub open spec fn too_close(a: Disc, b: Disc, spacing: int) -> bool {
    square(a.x - b.x) + square(a.y - b.y) < square(a.radius + b.radius + spacing)
}

/// Some lattice point can hold a circle of this radius on a canvas of this
/// width. The radius is positive and at most half the width; a gap of exactly
/// one unit between diameter and width leaves room for no lattice point.
pub open spec fn placeable(radius: int, width: int) -> bool {
    &&& 0 < radius
    &&& 2 * radius <= width
    &&& width - 2 * radius != 1
}

pub proof fn lemma_square_bound(a: int, b: int)
    requires
        -b <= a <= b,
    ensures
        0 <= square(a) <= square(b),
{
    assert(0 <= a * a <= b * b) by (nonlinear_arith)
        requires
            -b <= a <= b,
    ;
}

pub proof fn lemma_square_sign(a: int)
    ensures
        0 <= square(a),
        square(a) == square(-a),
{
    assert(0 <= a * a && a * a == (-a) * (-a)) by (nonlinear_arith);
}

/// A square that is at most another square of a non-negative number bounds
/// the magnitude of its root.
pub proof fn lemma_square_root_bound(a: int, b: int)
    requires
        0 <= b,
        square(a) <= square(b),
    ensures
        -b <= a <= b,
{
    assert(-b <= a <= b) by (nonlinear_arith)
        requires
            0 <= b,
            a * a <= b * b,
    ;
}

/// A circle inside the canvas has its centre inside the square of candidate
/// centres, `radius` away from each edge.
pub proof fn lemma_inside_canvas_square(x: int, y: int, radius: int, width: int)
    requires
        inside_canvas(x, y, radius, width),
    ensures
        radius <= x <= width - radius,
        radius <= y <= width - radius,
{
    let d = width - 2 * radius;
    lemma_square_sign(2 * x - width);
    lemma_square_sign(2 * y - width);
    lemma_square_root_bound(2 * x - width, d);
    lemma_square_root_bound(2 * y - width, d);
}

/// The lattice point nearest the canvas centre holds every placeable circle.
pub proof fn lemma_centre_inside(radius: int, width: int)
    requires
        placeable(radius, width),
    ensures
        inside_canvas(width / 2, width / 2, radius, width),
{
    let d = width - 2 * radius;
    let c = 2 * (width / 2) - width;
    assert(c == 0 || c == -1);
    assert(square(c) == -c) by (nonlinear_arith)
        requires
            c == 0 || c == -1,
    ;
    if c == -1 {
        assert(d >= 3);
        lemma_square_bound(3, d);
        assert(square(3) == 9) by (nonlinear_arith);
    } else {
        lemma_square_sign(d);
    }
}

impl Circle {
    /// Every field is within `LIMIT`.
    pub open spec fn in_range(&self) -> bool {
        &&& bounded(self.centre_x as int)
        &&& bounded(self.centre_y as int)
        &&& bounded(self.radius as int)
    }

    /// The circle of this radius centred at `(x, y)`, in the default colour.
    pub fn at(x: i64, y: i64, radius: i64) -> (circle: Circle)
        ensures
            circle@ == (Disc { x: x as int, y: y as int, radius: radius as int, colour: default_colour() }),
    {
        Circle { centre_x: x, centre_y: y, radius, colour: String::from_str("black") }
    }

    /// Whether a circle of this radius centred at `(x, y)` lies inside the
    /// canvas.
    pub fn fits_canvas(x: i64, y: i64, radius: i64, width: i64) -> (fits: bool)
        requires
            bounded(radius as int),
            bounded(width as int),
        ensures
            fits == inside_canvas(x as int, y as int, radius as int, width as int),
    {
        let room: i128 = width as i128 - 2 * (radius as i128);
        if room < 0 {
            return false;
        }
        let low: i128 = radius as i128;
        let high: i128 = width as i128 - radius as i128;
        if (x as i128) < low || (x as i128) > high || (y as i128) < low || (y as i128) > high {
            proof {
                if inside_canvas(x as int, y as int, radius as int, width as int) {
                    lemma_inside_canvas_square(x as int, y as int, radius as int, width as int);
                }
            }
            return false;
        }
        let across: i128 = 2 * (x as i128) - width as i128;
        let down: i128 = 2 * (y as i128) - width as i128;
        proof {
            lemma_square_bound(across as int, 5 * LIMIT);
            lemma_square_bound(down as int, 5 * LIMIT);
            lemma_square_bound(room as int, 3 * LIMIT);
        }
        across * across + down * down <= room * room
    }

    /// Whether this circle and `other` are closer than `spacing` allows.
    pub fn overlaps(&self, other: &Circle, spacing: i64) -> (hit: bool)
        requires
            self.in_range(),
            other.in_range(),
            bounded(spacing as int),
        ensures
            hit == too_close(self@, other@, spacing as int),
    {
        let across: i128 = self.centre_x as i128 - other.centre_x as i128;
        let down: i128 = self.centre_y as i128 - other.centre_y as i128;
        let reach: i128 = self.radius as i128 + other.radius as i128 + spacing as i128;
        proof {
            lemma_square_bound(across as int, 2 * LIMIT);
            lemma_square_bound(down as int, 2 * LIMIT);
            lemma_square_bound(reach as int, 3 * LIMIT);
        }
        across * across + down * down < reach * reach
    }

    /// Draws candidate centres from the square `radius` away from the canvas
    /// edges until one lies inside the canvas, and returns the circle there.
    ///
    /// Each candidate takes two draws. A generator that misses `DRAW_LIMIT`
    /// times in a row ends the search at the lattice point nearest the canvas
    /// centre, which holds every placeable circle.
    pub fn new(radius: i64, width: i64, rng: &mut fastrand::Rng) -> (circle: Circle)
        requires
            placeable(radius as int, width as int),
            width <= LIMIT,
        ensures
            circle@.radius == radius,
            circle@.colour == default_colour(),
            inside_canvas(circle@.x, circle@.y, radius as int, width as int),
    {
        let low: i64 = radius;
        let high: i64 = width - radius;
        let mut misses: u64 = 0;
        while misses < DRAW_LIMIT
            invariant
                low == radius,
                high == width - radius,
                low <= high,
                bounded(radius as int),
                bounded(width as int),
            decreases DRAW_LIMIT - misses,
        {
            let x: i64 = draw_between(rng, low, high);
            let y: i64 = draw_between(rng, low, high);
            if Circle::fits_canvas(x, y, radius, width) {
                return Circle::at(x, y, radius);
            }
            misses = misses + 1;
        }
        proof {
            lemma_centre_inside(radius as int, width as int);
        }
        Circle::at(width / 2, width / 2, radius)
    }
}

} // verus!
