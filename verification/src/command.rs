//! A whole run: from the settings to the finished document.

use vstd::prelude::*;
use crate::circle::{Disc, LIMIT, bounded, lemma_inside_canvas_square};
use crate::colour::{colourize, tinted};
use crate::markup::{document_markup, render};
use crate::packer::pack;
use crate::packing::{Pass, feeds, packing};
use crate::raster::image_size;
use crate::schedule::{
    DEFAULT_WIDTH, default_gap, default_passes, default_schedule, default_spacing, parse_passes,
    passes_of,
};

verus! {

/// The settings of a run. Whatever is left out takes its default.
#[derive(Clone, Debug)]
pub struct Command {
    /// Width of the canvas, in lattice units.
    pub width: Option<i64>,
    /// The schedule as text: radius and attempts of each pass, separated by
    /// commas.
    pub passes: Option<String>,
    /// Least gap between two circles, in lattice units.
    pub spacing: Option<i64>,
    /// Where the source image is kept. The caller decodes it.
    pub img: Option<String>,
}

/// Why a run did not start.
#[derive(Clone, Copy, Debug, PartialEq, Eq)]
pub enum RunError {
    /// The schedule text denotes no schedule.
    BadPasses,
    /// The width or the spacing is beyond `LIMIT`.
    OutOfRange,
}

/// The circles as they are drawn: with the colours of the image where there
/// is one that has pixels, and as they were placed otherwise.
pub open spec fn coloured(discs: Seq<Disc>, width: int, image: Option<&image::DynamicImage>) -> Seq<
    Disc,
> {
    match image {
        Some(source) => if 0 < image_size(*source).0 && 0 < image_size(*source).1 {
            tinted(discs, width, *source)
        } else {
            discs
        },
        None => discs,
    }
}

impl Command {
    /// The width of the canvas.
    pub open spec fn canvas_width(&self) -> int {
        match self.width {
            Some(width) => width as int,
            None => DEFAULT_WIDTH as int,
        }
    }

    /// The spacing between circles.
    pub open spec fn gap(&self) -> int {
        match self.spacing {
            Some(spacing) => spacing as int,
            None => default_gap(self.canvas_width()),
        }
    }

    /// The schedule, where the settings denote one.
    pub open spec fn schedule(&self) -> Option<Seq<Pass>> {
        match self.passes {
            Some(text) => passes_of(text@),
            None => Some(default_schedule(self.canvas_width())),
        }
    }

    /// Why a run with these settings does not start, if it does not.
    pub open spec fn failure(&self) -> Option<RunError> {
        if self.schedule() is None {
            Some(RunError::BadPasses)
        } else if self.canvas_width() > LIMIT || !bounded(self.gap()) {
            Some(RunError::OutOfRange)
        } else {
            None
        }
    }

    /// The document of a run on the draws in `tape`.
    pub open spec fn picture(&self, tape: Seq<(i64, i64)>, image: Option<&image::DynamicImage>) -> Seq<
        char,
    > {
        let width = self.canvas_width();
        document_markup(
            width,
            coloured(packing(width, self.schedule().unwrap(), self.gap(), tape), width, image),
        )
    }

    /// Packs the canvas on candidates drawn from `rng`, colours the circles
    /// from `image` where there is one, and gives the document.
    ///
    /// Nothing is packed where the settings are refused.
    pub fn run(&self, rng: &mut fastrand::Rng, image: Option<&image::DynamicImage>) -> (out: Result<
        String,
        RunError,
    >)
        ensures
            match out {
                Ok(text) => self.failure() is None && exists|tape: Seq<(i64, i64)>|
                    feeds(self.canvas_width(), self.schedule().unwrap(), tape) && text@
                        == #[trigger] self.picture(tape, image),
                Err(error) => self.failure() == Some(error),
            },
    {
        let width: i64 = match self.width {
            Some(width) => width,
            None => DEFAULT_WIDTH,
        };
        let passes: Vec<Pass> = match &self.passes {
            Some(text) => match parse_passes(text.as_str()) {
                Some(passes) => passes,
                None => {
                    return Err(RunError::BadPasses);
                },
            },
            None => default_passes(width),
        };
        let spacing: i64 = match self.spacing {
            Some(spacing) => spacing,
            None => default_spacing(width),
        };
        if width > LIMIT || spacing > LIMIT || spacing < -LIMIT {
            return Err(RunError::OutOfRange);
        }
        let mut circles = pack(width, &passes, spacing, rng);
        let ghost placed = circles.deep_view();
        let ghost tape = choose|tape: Seq<(i64, i64)>|
            feeds(width as int, passes@, tape) && placed == #[trigger] packing(
                width as int,
                passes@,
                spacing as int,
                tape,
            );
        proof {
            assert forall|i: int| 0 <= i < circles.len() implies 0 <= (
            #[trigger] circles[i]).centre_x < width && 0 <= circles[i].centre_y < width by {
                let disc = placed[i];
                assert(disc == circles[i]@);
                assert(0 < disc.radius);
                lemma_inside_canvas_square(disc.x, disc.y, disc.radius, width as int);
            }
        }
        colourize(&mut circles, width, image);
        assert(circles.deep_view() =~= coloured(placed, width as int, image));
        let text: String = render(width, &circles);
        assert(self.schedule() == Some(passes@));
        assert(text@ == self.picture(tape, image));
        Ok(text)
    }
}

} // verus!
