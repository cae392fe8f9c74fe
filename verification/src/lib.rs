//! Circle packing on an integer lattice.
//!
//! A canvas is a square of side `width`; circles are placed inside the disc
//! inscribed in it, one candidate at a time, and a candidate is kept when it
//! keeps its distance from every circle placed before it. All lengths are
//! whole numbers of lattice units, a million to one unit of the canvas, so
//! every geometric test is exact.
//!
//! - `circle`: circles and the two geometric tests.
//! - `packing`: what a packing is, as a function of the draws, and what holds
//!   of every packing.
//! - `packer`: the packer itself, on given draws or on a random generator.
//! - `colour`, `raster`: colours sampled from a source image.
//! - `decimal`, `text`: lengths as decimal text, written and read.
//! - `schedule`: the schedule of passes, its text form and its default.
//! - `markup`, `reading`: the document, and what it means when read back.
//! - `command`: a whole run.

pub mod circle;
pub mod random;
pub mod packing;
pub mod packer;
pub mod decimal;
pub mod text;
pub mod schedule;
pub mod raster;
pub mod colour;
pub mod markup;
pub mod command;
pub mod reading;

pub use crate::circle::Circle;
pub use crate::colour::{colourize, get_colour};
pub use crate::command::{Command, RunError};
pub use crate::markup::render;
pub use crate::packer::{pack, pack_draws};
pub use crate::packing::Pass;
