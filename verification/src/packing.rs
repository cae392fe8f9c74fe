//! What packing is: the circles that a schedule of passes leaves on the
//! canvas, as a function of the candidate centres that were drawn.

use vstd::prelude::*;
use crate::circle::{Disc, default_colour, inside_canvas, too_close, placeable, square, lemma_square_sign};

verus! {

/// One stage of the schedule: circles of one radius, and how many candidates
/// are tested against the circles already placed.
#[derive(Clone, Copy, Debug, PartialEq, Eq)]
pub struct Pass {
    pub radius: i64,
    pub attempts: u32,
}

/// The candidate of this radius centred at a drawn point.
pub open spec fn disc_at(draw: (i64, i64), radius: int) -> Disc {
    Disc { x: draw.0 as int, y: draw.1 as int, radius, colour: default_colour() }
}

/// The candidate keeps its distance from every circle in `placed`.
pub open spec fn clear_of_all(candidate: Disc, placed: Seq<Disc>, spacing: int) -> bool {
    forall|i: int| 0 <= i < placed.len() ==> !too_close(candidate, #[trigger] placed[i], spacing)
}

/// Testing one candidate: it joins the end of `placed` when it keeps its
/// distance from all of them, and is dropped otherwise.
pub open spec fn offer(placed: Seq<Disc>, candidate: Disc, spacing: int) -> Seq<Disc> {
    if clear_of_all(candidate, placed, spacing) {
        placed.push(candidate)
    } else {
        placed
    }
}

/// The centres of `a` and `b` are at least as far apart as the sum of their
/// radii and the spacing.
pub open spec fn apart(a: Disc, b: Disc, spacing: int) -> bool {
    let reach = a.radius + b.radius + spacing;
    reach <= 0 || square(a.x - b.x) + square(a.y - b.y) >= square(reach)
}

/// No two circles are closer than the spacing allows.
pub open spec fn pairwise_clear(placed: Seq<Disc>, spacing: int) -> bool {
    forall|i: int, j: int|
        #![trigger placed[i], placed[j]]
        0 <= i < placed.len() && 0 <= j < placed.len() && i != j ==> !too_close(
            placed[i],
            placed[j],
            spacing,
        )
}

/// Every circle has a positive radius and lies inside the canvas.
pub open spec fn all_inside(placed: Seq<Disc>, width: int) -> bool {
    forall|i: int|
        0 <= i < placed.len() ==> 0 < (#[trigger] placed[i]).radius && inside_canvas(
            placed[i].x,
            placed[i].y,
            placed[i].radius,
            width,
        )
}

/// Every circle still has the default colour.
pub open spec fn all_default(placed: Seq<Disc>) -> bool {
    forall|i: int| 0 <= i < placed.len() ==> (#[trigger] placed[i]).colour == default_colour()
}

/// Where one pass ends: the circles placed, the attempts it could not make
/// because the draws ran out, and the draws it left.
pub struct PassEnd {
    pub placed: Seq<Disc>,
    pub unused: nat,
    pub rest: Seq<(i64, i64)>,
}

/// One pass over the draws in `tape`. A draw outside the canvas is passed
/// over and costs nothing; a draw inside it costs one attempt, whether the
/// candidate is kept or not. The pass ends when its attempts or the draws are
/// used up.
pub open spec fn run_pass(
    width: int,
    radius: int,
    attempts: nat,
    spacing: int,
    placed: Seq<Disc>,
    tape: Seq<(i64, i64)>,
) -> PassEnd
    decreases tape.len(),
{
    if attempts == 0 || tape.len() == 0 {
        PassEnd { placed, unused: attempts, rest: tape }
    } else if inside_canvas(tape[0].0 as int, tape[0].1 as int, radius, width) {
        run_pass(
            width,
            radius,
            (attempts - 1) as nat,
            spacing,
            offer(placed, disc_at(tape[0], radius), spacing),
            tape.drop_first(),
        )
    } else {
        run_pass(width, radius, attempts, spacing, placed, tape.drop_first())
    }
}

/// The passes in schedule order, each starting from what the one before it
/// left. A pass whose circle fits nowhere on the canvas is skipped: all its
/// attempts would be wasted. Gives the circles placed and the draws left.
pub open spec fn run_passes(
    width: int,
    passes: Seq<Pass>,
    spacing: int,
    placed: Seq<Disc>,
    tape: Seq<(i64, i64)>,
) -> (Seq<Disc>, Seq<(i64, i64)>)
    decreases passes.len(),
{
    if passes.len() == 0 {
        (placed, tape)
    } else if !placeable(passes[0].radius as int, width) {
        run_passes(width, passes.drop_first(), spacing, placed, tape)
    } else {
        let end = run_pass(
            width,
            passes[0].radius as int,
            passes[0].attempts as nat,
            spacing,
            placed,
            tape,
        );
        run_passes(width, passes.drop_first(), spacing, end.placed, end.rest)
    }
}

/// The circles that the schedule places on an empty canvas, in the order in
/// which they were accepted.
pub open spec fn packing(width: int, passes: Seq<Pass>, spacing: int, tape: Seq<(i64, i64)>) -> Seq<
    Disc,
> {
    run_passes(width, passes, spacing, Seq::empty(), tape).0
}

/// The tape holds exactly one draw for each attempt of each pass that is not
/// skipped, in schedule order, and every one of them lies inside the canvas.
pub open spec fn feeds(width: int, passes: Seq<Pass>, tape: Seq<(i64, i64)>) -> bool
    decreases passes.len(),
{
    if passes.len() == 0 {
        tape.len() == 0
    } else if !placeable(passes[0].radius as int, width) {
        feeds(width, passes.drop_first(), tape)
    } else {
        &&& passes[0].attempts <= tape.len()
        &&& forall|k: int|
            0 <= k < passes[0].attempts ==> inside_canvas(
                (#[trigger] tape[k]).0 as int,
                tape[k].1 as int,
                passes[0].radius as int,
                width,
            )
        &&& feeds(width, passes.drop_first(), tape.skip(passes[0].attempts as int))
    }
}

/// Being too close does not depend on the order of the two circles.
pub proof fn lemma_too_close_symmetric(a: Disc, b: Disc, spacing: int)
    ensures
        too_close(a, b, spacing) == too_close(b, a, spacing),
{
    lemma_square_sign(a.x - b.x);
    lemma_square_sign(a.y - b.y);
    assert(-(a.x - b.x) == b.x - a.x);
    assert(-(a.y - b.y) == b.y - a.y);
    assert(a.radius + b.radius + spacing == b.radius + a.radius + spacing);
}

/// Testing a candidate that lies inside the canvas keeps the canvas well
/// packed, and keeps every circle that was there, in place.
pub proof fn lemma_offer_sound(placed: Seq<Disc>, candidate: Disc, spacing: int, width: int)
    requires
        pairwise_clear(placed, spacing),
        all_inside(placed, width),
        all_default(placed),
        0 < candidate.radius,
        inside_canvas(candidate.x, candidate.y, candidate.radius, width),
        candidate.colour == default_colour(),
    ensures
        pairwise_clear(offer(placed, candidate, spacing), spacing),
        all_inside(offer(placed, candidate, spacing), width),
        all_default(offer(placed, candidate, spacing)),
        placed.is_prefix_of(offer(placed, candidate, spacing)),
{
    let next = offer(placed, candidate, spacing);
    if clear_of_all(candidate, placed, spacing) {
        assert forall|i: int, j: int|
            0 <= i < next.len() && 0 <= j < next.len() && i != j implies !too_close(
            #[trigger] next[i],
            #[trigger] next[j],
            spacing,
        ) by {
            if i < placed.len() && j < placed.len() {
                assert(!too_close(placed[i], placed[j], spacing));
            } else if i < placed.len() {
                assert(!too_close(candidate, placed[i], spacing));
                lemma_too_close_symmetric(candidate, placed[i], spacing);
            } else {
                assert(!too_close(candidate, placed[j], spacing));
            }
        }
        assert forall|i: int| 0 <= i < next.len() implies 0 < (#[trigger] next[i]).radius
            && inside_canvas(next[i].x, next[i].y, next[i].radius, width) && next[i].colour
            == default_colour() by {
            if i < placed.len() {
                assert(next[i] == placed[i]);
            }
        }
        assert(next.subrange(0, placed.len() as int) =~= placed);
    } else {
        assert(next.subrange(0, placed.len() as int) =~= placed);
    }
}

/// One pass keeps the canvas well packed and only adds circles at the end.
pub proof fn lemma_run_pass_sound(
    width: int,
    radius: int,
    attempts: nat,
    spacing: int,
    placed: Seq<Disc>,
    tape: Seq<(i64, i64)>,
)
    requires
        0 < radius,
        pairwise_clear(placed, spacing),
        all_inside(placed, width),
        all_default(placed),
    ensures
        pairwise_clear(run_pass(width, radius, attempts, spacing, placed, tape).placed, spacing),
        all_inside(run_pass(width, radius, attempts, spacing, placed, tape).placed, width),
        all_default(run_pass(width, radius, attempts, spacing, placed, tape).placed),
        placed.is_prefix_of(run_pass(width, radius, attempts, spacing, placed, tape).placed),
    decreases tape.len(),
{
    if attempts == 0 || tape.len() == 0 {
        assert(placed.subrange(0, placed.len() as int) =~= placed);
    } else if inside_canvas(tape[0].0 as int, tape[0].1 as int, radius, width) {
        let candidate = disc_at(tape[0], radius);
        let next = offer(placed, candidate, spacing);
        lemma_offer_sound(placed, candidate, spacing, width);
        lemma_run_pass_sound(width, radius, (attempts - 1) as nat, spacing, next, tape.drop_first());
        let last = run_pass(width, radius, (attempts - 1) as nat, spacing, next, tape.drop_first()).placed;
        lemma_prefix_chain(placed, next, last);
    } else {
        lemma_run_pass_sound(width, radius, attempts, spacing, placed, tape.drop_first());
    }
}

/// A prefix of a prefix is a prefix.
pub proof fn lemma_prefix_chain(a: Seq<Disc>, b: Seq<Disc>, c: Seq<Disc>)
    requires
        a.is_prefix_of(b),
        b.is_prefix_of(c),
    ensures
        a.is_prefix_of(c),
{
    assert(a =~= c.subrange(0, a.len() as int)) by {
        assert forall|i: int| 0 <= i < a.len() implies a[i] == c[i] by {
            assert(a[i] == b.subrange(0, a.len() as int)[i]);
            assert(b[i] == c.subrange(0, b.len() as int)[i]);
        }
    }
}

/// A run of passes keeps the canvas well packed and only adds circles at the
/// end.
pub proof fn lemma_run_passes_sound(
    width: int,
    passes: Seq<Pass>,
    spacing: int,
    placed: Seq<Disc>,
    tape: Seq<(i64, i64)>,
)
    requires
        pairwise_clear(placed, spacing),
        all_inside(placed, width),
        all_default(placed),
    ensures
        pairwise_clear(run_passes(width, passes, spacing, placed, tape).0, spacing),
        all_inside(run_passes(width, passes, spacing, placed, tape).0, width),
        all_default(run_passes(width, passes, spacing, placed, tape).0),
        placed.is_prefix_of(run_passes(width, passes, spacing, placed, tape).0),
    decreases passes.len(),
{
    if passes.len() == 0 {
        assert(placed.subrange(0, placed.len() as int) =~= placed);
    } else if !placeable(passes[0].radius as int, width) {
        lemma_run_passes_sound(width, passes.drop_first(), spacing, placed, tape);
    } else {
        let end = run_pass(
            width,
            passes[0].radius as int,
            passes[0].attempts as nat,
            spacing,
            placed,
            tape,
        );
        lemma_run_pass_sound(
            width,
            passes[0].radius as int,
            passes[0].attempts as nat,
            spacing,
            placed,
            tape,
        );
        lemma_run_passes_sound(width, passes.drop_first(), spacing, end.placed, end.rest);
        lemma_prefix_chain(
            placed,
            end.placed,
            run_passes(width, passes.drop_first(), spacing, end.placed, end.rest).0,
        );
    }
}

/// Running one schedule and then another is running the two as one schedule.
pub proof fn lemma_run_passes_concat(
    width: int,
    first: Seq<Pass>,
    second: Seq<Pass>,
    spacing: int,
    placed: Seq<Disc>,
    tape: Seq<(i64, i64)>,
)
    ensures
        run_passes(width, first + second, spacing, placed, tape) == run_passes(
            width,
            second,
            spacing,
            run_passes(width, first, spacing, placed, tape).0,
            run_passes(width, first, spacing, placed, tape).1,
        ),
    decreases first.len(),
{
    if first.len() == 0 {
        assert(first + second =~= second);
    } else {
        let all = first + second;
        assert(all[0] == first[0]);
        assert(all.drop_first() =~= first.drop_first() + second);
        if !placeable(first[0].radius as int, width) {
            lemma_run_passes_concat(width, first.drop_first(), second, spacing, placed, tape);
        } else {
            let end = run_pass(
                width,
                first[0].radius as int,
                first[0].attempts as nat,
                spacing,
                placed,
                tape,
            );
            lemma_run_passes_concat(
                width,
                first.drop_first(),
                second,
                spacing,
                end.placed,
                end.rest,
            );
        }
    }
}

/// On a tape that begins with one draw inside the canvas for each attempt,
/// a pass makes all its attempts on exactly those draws: what follows them
/// is left over, and does not change what is placed.
pub proof fn lemma_run_pass_fed(
    width: int,
    radius: int,
    attempts: nat,
    spacing: int,
    placed: Seq<Disc>,
    fed: Seq<(i64, i64)>,
    after: Seq<(i64, i64)>,
)
    requires
        attempts <= fed.len(),
        forall|k: int|
            0 <= k < attempts ==> inside_canvas(
                (#[trigger] fed[k]).0 as int,
                fed[k].1 as int,
                radius,
                width,
            ),
    ensures
        run_pass(width, radius, attempts, spacing, placed, fed + after).placed == run_pass(
            width,
            radius,
            attempts,
            spacing,
            placed,
            fed,
        ).placed,
        run_pass(width, radius, attempts, spacing, placed, fed + after).unused == 0,
        run_pass(width, radius, attempts, spacing, placed, fed + after).rest == fed.skip(
            attempts as int,
        ) + after,
        run_pass(width, radius, attempts, spacing, placed, fed).unused == 0,
        run_pass(width, radius, attempts, spacing, placed, fed).rest == fed.skip(attempts as int),
    decreases attempts,
{
    let both = fed + after;
    if attempts == 0 {
        assert(fed.skip(0) + after =~= both);
        assert(fed.skip(0) =~= fed);
    } else {
        assert(both[0] == fed[0]);
        assert(both.drop_first() =~= fed.drop_first() + after);
        let next = offer(placed, disc_at(fed[0], radius), spacing);
        assert forall|k: int| 0 <= k < attempts - 1 implies inside_canvas(
            (#[trigger] fed.drop_first()[k]).0 as int,
            fed.drop_first()[k].1 as int,
            radius,
            width,
        ) by {
            assert(fed.drop_first()[k] == fed[k + 1]);
        }
        lemma_run_pass_fed(
            width,
            radius,
            (attempts - 1) as nat,
            spacing,
            next,
            fed.drop_first(),
            after,
        );
        assert(fed.drop_first().skip(attempts - 1) =~= fed.skip(attempts as int));
    }
}

/// One more draw inside the canvas, after a tape that fed `made` attempts,
/// feeds one more attempt: the candidate there is tested against what the
/// attempts before it placed.
pub proof fn lemma_feed_one(
    width: int,
    radius: int,
    made: nat,
    spacing: int,
    placed: Seq<Disc>,
    fed: Seq<(i64, i64)>,
    draw: (i64, i64),
)
    requires
        fed.len() == made,
        forall|k: int|
            0 <= k < made ==> inside_canvas(
                (#[trigger] fed[k]).0 as int,
                fed[k].1 as int,
                radius,
                width,
            ),
        inside_canvas(draw.0 as int, draw.1 as int, radius, width),
    ensures
        run_pass(width, radius, made + 1, spacing, placed, fed.push(draw)).placed == offer(
            run_pass(width, radius, made, spacing, placed, fed).placed,
            disc_at(draw, radius),
            spacing,
        ),
        run_pass(width, radius, made + 1, spacing, placed, fed.push(draw)).unused == 0,
        run_pass(width, radius, made + 1, spacing, placed, fed.push(draw)).rest.len() == 0,
    decreases fed.len(),
{
    let longer = fed.push(draw);
    if fed.len() == 0 {
        assert(longer[0] == draw);
        assert(longer.drop_first().len() == 0);
        let next = offer(placed, disc_at(draw, radius), spacing);
        assert(run_pass(width, radius, 0, spacing, next, longer.drop_first()).placed == next);
    } else {
        assert(longer[0] == fed[0]);
        assert(longer.drop_first() =~= fed.drop_first().push(draw));
        let next = offer(placed, disc_at(fed[0], radius), spacing);
        assert forall|k: int| 0 <= k < made - 1 implies inside_canvas(
            (#[trigger] fed.drop_first()[k]).0 as int,
            fed.drop_first()[k].1 as int,
            radius,
            width,
        ) by {
            assert(fed.drop_first()[k] == fed[k + 1]);
        }
        lemma_feed_one(width, radius, (made - 1) as nat, spacing, next, fed.drop_first(), draw);
    }
}

/// A schedule run on a tape that feeds it exactly leaves no draw, so a second
/// schedule run after it starts on what follows that tape.
pub proof fn lemma_run_passes_fed(
    width: int,
    first: Seq<Pass>,
    second: Seq<Pass>,
    spacing: int,
    placed: Seq<Disc>,
    fed: Seq<(i64, i64)>,
    after: Seq<(i64, i64)>,
)
    requires
        feeds(width, first, fed),
    ensures
        run_passes(width, first + second, spacing, placed, fed + after) == run_passes(
            width,
            second,
            spacing,
            run_passes(width, first, spacing, placed, fed).0,
            after,
        ),
    decreases first.len(),
{
    let all = first + second;
    if first.len() == 0 {
        assert(all =~= second);
        assert(fed + after =~= after);
    } else {
        assert(all[0] == first[0]);
        assert(all.drop_first() =~= first.drop_first() + second);
        if !placeable(first[0].radius as int, width) {
            lemma_run_passes_fed(width, first.drop_first(), second, spacing, placed, fed, after);
        } else {
            let radius = first[0].radius as int;
            let attempts = first[0].attempts as nat;
            lemma_run_pass_fed(width, radius, attempts, spacing, placed, fed, after);
            let end = run_pass(width, radius, attempts, spacing, placed, fed);
            lemma_run_passes_fed(
                width,
                first.drop_first(),
                second,
                spacing,
                end.placed,
                fed.skip(attempts as int),
                after,
            );
        }
    }
}

/// Tapes that feed two schedules feed, one after the other, the two
/// schedules as one.
pub proof fn lemma_feeds_concat(
    width: int,
    first: Seq<Pass>,
    second: Seq<Pass>,
    fed: Seq<(i64, i64)>,
    after: Seq<(i64, i64)>,
)
    requires
        feeds(width, first, fed),
        feeds(width, second, after),
    ensures
        feeds(width, first + second, fed + after),
    decreases first.len(),
{
    let all = first + second;
    let both = fed + after;
    if first.len() == 0 {
        assert(all =~= second);
        assert(both =~= after);
    } else {
        assert(all[0] == first[0]);
        assert(all.drop_first() =~= first.drop_first() + second);
        if !placeable(first[0].radius as int, width) {
            lemma_feeds_concat(width, first.drop_first(), second, fed, after);
        } else {
            let attempts = first[0].attempts as int;
            lemma_feeds_concat(width, first.drop_first(), second, fed.skip(attempts), after);
            assert(both.skip(attempts) =~= fed.skip(attempts) + after);
            assert forall|k: int| 0 <= k < attempts implies inside_canvas(
                (#[trigger] both[k]).0 as int,
                both[k].1 as int,
                first[0].radius as int,
                width,
            ) by {
                assert(both[k] == fed[k]);
            }
        }
    }
}

/// No two circles of a packing are closer than the spacing allows: for every
/// pair, the squared distance of the centres is at least the square of the
/// two radii and the spacing together, so the centres are at least that sum
/// apart.
pub proof fn law_no_overlap(width: int, passes: Seq<Pass>, spacing: int, tape: Seq<(i64, i64)>)
    ensures
        pairwise_clear(packing(width, passes, spacing, tape), spacing),
        forall|i: int, j: int|
            #![trigger packing(width, passes, spacing, tape)[i], packing(width, passes, spacing, tape)[j]]
            0 <= i < packing(width, passes, spacing, tape).len() && 0 <= j < packing(
                width,
                passes,
                spacing,
                tape,
            ).len() && i != j ==> apart(
                packing(width, passes, spacing, tape)[i],
                packing(width, passes, spacing, tape)[j],
                spacing,
            ),
{
    lemma_run_passes_sound(width, passes, spacing, Seq::empty(), tape);
}

/// Every circle of a packing lies inside the disc inscribed in the canvas,
/// and has the default colour.
pub proof fn law_containment(width: int, passes: Seq<Pass>, spacing: int, tape: Seq<(i64, i64)>)
    ensures
        all_inside(packing(width, passes, spacing, tape), width),
        all_default(packing(width, passes, spacing, tape)),
{
    lemma_run_passes_sound(width, passes, spacing, Seq::empty(), tape);
}

/// Passes appended to a schedule remove nothing: on the same draws, the
/// packing of the shorter schedule is the beginning of the packing of the
/// longer one, which is therefore at least as long.
pub proof fn law_more_passes_keep_circles(
    width: int,
    passes: Seq<Pass>,
    more: Seq<Pass>,
    spacing: int,
    tape: Seq<(i64, i64)>,
)
    ensures
        packing(width, passes, spacing, tape).is_prefix_of(
            packing(width, passes + more, spacing, tape),
        ),
        packing(width, passes, spacing, tape).len() <= packing(
            width,
            passes + more,
            spacing,
            tape,
        ).len(),
{
    let start = run_passes(width, passes, spacing, Seq::empty(), tape);
    lemma_run_passes_concat(width, passes, more, spacing, Seq::empty(), tape);
    lemma_run_passes_sound(width, passes, spacing, Seq::empty(), tape);
    lemma_run_passes_sound(width, more, spacing, start.0, start.1);
}

/// The packing is decided by the canvas, the schedule, the spacing and the
/// draws: two runs that agree on all four place the same circles in the same
/// order.
pub proof fn law_same_draws_same_packing(
    width: int,
    passes_a: Seq<Pass>,
    passes_b: Seq<Pass>,
    spacing: int,
    tape_a: Seq<(i64, i64)>,
    tape_b: Seq<(i64, i64)>,
)
    requires
        passes_a.len() == passes_b.len(),
        forall|i: int| 0 <= i < passes_a.len() ==> passes_a[i] == passes_b[i],
        tape_a.len() == tape_b.len(),
        forall|i: int| 0 <= i < tape_a.len() ==> tape_a[i] == tape_b[i],
    ensures
        packing(width, passes_a, spacing, tape_a) == packing(width, passes_b, spacing, tape_b),
{
    assert(passes_a =~= passes_b);
    assert(tape_a =~= tape_b);
}

} // verus!
