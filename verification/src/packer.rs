//! The packer: it tests candidates against the circles placed so far, pass
//! by pass, on draws that are handed to it or that it takes from a generator.

use vstd::prelude::*;
use crate::circle::{
    Circle, LIMIT, bounded, inside_canvas, lemma_inside_canvas_square, placeable, too_close,
};
use crate::packing::{
    Pass, all_default, all_inside, clear_of_all, disc_at, feeds, law_containment,
    law_no_overlap, lemma_feed_one, lemma_feeds_concat, lemma_run_passes_fed, offer, packing,
    pairwise_clear, run_pass, run_passes,
};

verus! {

/// Every circle of the sequence has its fields within `LIMIT`.
pub open spec fn all_in_range(circles: Seq<Circle>) -> bool {
    forall|i: int| 0 <= i < circles.len() ==> (#[trigger] circles[i]).in_range()
}

/// Whether a circle of this radius fits anywhere on a canvas of this width.
pub fn can_place(radius: i64, width: i64) -> (yes: bool)
    ensures
        yes == placeable(radius as int, width as int),
{
    let room: i128 = width as i128 - 2 * (radius as i128);
    radius > 0 && room >= 0 && room != 1
}

/// Tests one candidate against the circles placed so far, and appends it
/// when it keeps its distance from all of them.
pub fn place(circles: &mut Vec<Circle>, candidate: Circle, spacing: i64) -> (kept: bool)
    requires
        all_in_range(old(circles)@),
        candidate.in_range(),
        bounded(spacing as int),
    ensures
        kept == clear_of_all(candidate@, old(circles).deep_view(), spacing as int),
        final(circles)@ == (if kept {
            old(circles)@.push(candidate)
        } else {
            old(circles)@
        }),
        final(circles).deep_view() == offer(old(circles).deep_view(), candidate@, spacing as int),
        all_in_range(final(circles)@),
{
    let count: usize = circles.len();
    let mut i: usize = 0;
    while i < count
        invariant
            *circles == *old(circles),
            count == circles.len(),
            i <= count,
            all_in_range(circles@),
            candidate.in_range(),
            bounded(spacing as int),
            forall|k: int|
                0 <= k < i ==> !too_close(
                    candidate@,
                    #[trigger] circles.deep_view()[k],
                    spacing as int,
                ),
        decreases count - i,
    {
        if candidate.overlaps(&circles[i], spacing) {
            assert(circles.deep_view()[i as int] == circles[i as int]@);
            return false;
        }
        assert(circles.deep_view()[i as int] == circles[i as int]@);
        i = i + 1;
    }
    let ghost before = circles.deep_view();
    assert(clear_of_all(candidate@, before, spacing as int));
    let ghost shown = candidate@;
    circles.push(candidate);
    assert(circles.deep_view() =~= before.push(shown));
    true
}

/// Packs the canvas on the draws in `draws`, taken in order.
///
/// Passes run in schedule order, and a pass whose circle fits nowhere is
/// skipped. Within a pass, a draw outside the canvas is passed over; a draw
/// inside it uses one attempt, and its circle is kept when it keeps its
/// distance from every circle placed so far. The packing ends early when the
/// draws run out.
pub fn pack_draws(width: i64, passes: &Vec<Pass>, spacing: i64, draws: &Vec<(i64, i64)>) -> (circles:
    Vec<Circle>)
    requires
        width <= LIMIT,
        bounded(spacing as int),
    ensures
        circles.deep_view() == packing(width as int, passes@, spacing as int, draws@),
        pairwise_clear(circles.deep_view(), spacing as int),
        all_inside(circles.deep_view(), width as int),
        all_default(circles.deep_view()),
        all_in_range(circles@),
{
    let mut circles: Vec<Circle> = Vec::new();
    let mut next: usize = 0;
    let mut p: usize = 0;
    assert(passes@.skip(0) =~= passes@);
    assert(draws@.skip(0) =~= draws@);
    assert(circles.deep_view() =~= Seq::empty());
    while p < passes.len()
        invariant
            p <= passes.len(),
            next <= draws.len(),
            width <= LIMIT,
            bounded(spacing as int),
            all_in_range(circles@),
            run_passes(width as int, passes@, spacing as int, Seq::empty(), draws@) == run_passes(
                width as int,
                passes@.skip(p as int),
                spacing as int,
                circles.deep_view(),
                draws@.skip(next as int),
            ),
        decreases passes.len() - p,
    {
        let radius: i64 = passes[p].radius;
        let attempts: u32 = passes[p].attempts;
        let ghost later = passes@.skip(p as int);
        assert(later[0] == passes@[p as int]);
        assert(later.drop_first() =~= passes@.skip(p + 1));
        if can_place(radius, width) {
            let ghost start = run_pass(
                width as int,
                radius as int,
                attempts as nat,
                spacing as int,
                circles.deep_view(),
                draws@.skip(next as int),
            );
            let mut left: u32 = attempts;
            while left > 0 && next < draws.len()
                invariant
                    next <= draws.len(),
                    width <= LIMIT,
                    bounded(spacing as int),
                    placeable(radius as int, width as int),
                    all_in_range(circles@),
                    start == run_pass(
                        width as int,
                        radius as int,
                        left as nat,
                        spacing as int,
                        circles.deep_view(),
                        draws@.skip(next as int),
                    ),
                decreases draws.len() - next,
            {
                let ghost tape = draws@.skip(next as int);
                assert(tape[0] == draws@[next as int]);
                assert(tape.drop_first() =~= draws@.skip(next + 1));
                let x: i64 = draws[next].0;
                let y: i64 = draws[next].1;
                next = next + 1;
                if Circle::fits_canvas(x, y, radius, width) {
                    proof {
                        lemma_inside_canvas_square(
                            x as int,
                            y as int,
                            radius as int,
                            width as int,
                        );
                    }
                    let candidate: Circle = Circle::at(x, y, radius);
                    assert(candidate@ == disc_at(tape[0], radius as int));
                    place(&mut circles, candidate, spacing);
                    left = left - 1;
                }
            }
        }
        p = p + 1;
    }
    proof {
        law_no_overlap(width as int, passes@, spacing as int, draws@);
        law_containment(width as int, passes@, spacing as int, draws@);
    }
    circles
}

/// Packs the canvas on candidates drawn from `rng`: each pass that is not
/// skipped makes all its attempts, each on one circle from `Circle::new`.
///
/// Whatever the generator yields, the result is the packing on some tape that
/// feeds the schedule exactly.
pub fn pack(width: i64, passes: &Vec<Pass>, spacing: i64, rng: &mut fastrand::Rng) -> (circles:
    Vec<Circle>)
    requires
        width <= LIMIT,
        bounded(spacing as int),
    ensures
        exists|tape: Seq<(i64, i64)>|
            feeds(width as int, passes@, tape) && circles.deep_view() == #[trigger] packing(
                width as int,
                passes@,
                spacing as int,
                tape,
            ),
        pairwise_clear(circles.deep_view(), spacing as int),
        all_inside(circles.deep_view(), width as int),
        all_default(circles.deep_view()),
        all_in_range(circles@),
{
    let mut circles: Vec<Circle> = Vec::new();
    let ghost mut tape: Seq<(i64, i64)> = Seq::empty();
    let mut p: usize = 0;
    assert(circles.deep_view() =~= Seq::empty());
    assert(passes@.take(0) =~= Seq::empty());
    while p < passes.len()
        invariant
            p <= passes.len(),
            width <= LIMIT,
            bounded(spacing as int),
            all_in_range(circles@),
            feeds(width as int, passes@.take(p as int), tape),
            run_passes(width as int, passes@.take(p as int), spacing as int, Seq::empty(), tape).0
                == circles.deep_view(),
        decreases passes.len() - p,
    {
        let radius: i64 = passes[p].radius;
        let attempts: u32 = passes[p].attempts;
        let ghost before = circles.deep_view();
        let ghost mut fed: Seq<(i64, i64)> = Seq::empty();
        let ghost one = seq![passes@[p as int]];
        assert(one.drop_first() =~= Seq::empty());
        if can_place(radius, width) {
            let mut made: u32 = 0;
            while made < attempts
                invariant
                    made <= attempts,
                    width <= LIMIT,
                    bounded(spacing as int),
                    placeable(radius as int, width as int),
                    all_in_range(circles@),
                    fed.len() == made,
                    forall|k: int|
                        0 <= k < made ==> inside_canvas(
                            (#[trigger] fed[k]).0 as int,
                            fed[k].1 as int,
                            radius as int,
                            width as int,
                        ),
                    run_pass(
                        width as int,
                        radius as int,
                        made as nat,
                        spacing as int,
                        before,
                        fed,
                    ).placed == circles.deep_view(),
                    run_pass(
                        width as int,
                        radius as int,
                        made as nat,
                        spacing as int,
                        before,
                        fed,
                    ).rest.len() == 0,
                decreases attempts - made,
            {
                let candidate: Circle = Circle::new(radius, width, rng);
                let ghost draw = (candidate.centre_x, candidate.centre_y);
                proof {
                    lemma_inside_canvas_square(
                        draw.0 as int,
                        draw.1 as int,
                        radius as int,
                        width as int,
                    );
                    lemma_feed_one(
                        width as int,
                        radius as int,
                        made as nat,
                        spacing as int,
                        before,
                        fed,
                        draw,
                    );
                    assert(candidate@ == disc_at(draw, radius as int));
                }
                place(&mut circles, candidate, spacing);
                proof {
                    fed = fed.push(draw);
                }
                made = made + 1;
            }
            assert(fed.skip(attempts as int) =~= Seq::empty());
            assert(feeds(width as int, one.drop_first(), fed.skip(attempts as int)));
            assert(feeds(width as int, one, fed));
            let ghost end = run_pass(
                width as int,
                radius as int,
                attempts as nat,
                spacing as int,
                before,
                fed,
            );
            assert(run_passes(width as int, one.drop_first(), spacing as int, end.placed, end.rest).0
                == end.placed);
            assert(run_passes(width as int, one, spacing as int, before, fed).0
                == circles.deep_view());
        } else {
            assert(feeds(width as int, one.drop_first(), fed));
            assert(feeds(width as int, one, fed));
            assert(run_passes(width as int, one.drop_first(), spacing as int, before, fed).0
                == before);
            assert(run_passes(width as int, one, spacing as int, before, fed).0
                == circles.deep_view());
        }
        proof {
            let ghost done = passes@.take(p as int);
            assert(passes@.take(p + 1) =~= done + one);
            lemma_run_passes_fed(
                width as int,
                done,
                one,
                spacing as int,
                Seq::empty(),
                tape,
                fed,
            );
            lemma_feeds_concat(width as int, done, one, tape, fed);
            tape = tape + fed;
        }
        p = p + 1;
    }
    proof {
        assert(passes@.take(p as int) =~= passes@);
        law_no_overlap(width as int, passes@, spacing as int, tape);
        law_containment(width as int, passes@, spacing as int, tape);
    }
    circles
}

} // verus!
