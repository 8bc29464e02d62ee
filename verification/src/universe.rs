//! The world: a grid of whole units mapped onto the pixels of a window, and
//! the list of discs that one frame shows.

use crate::fixed::fixed_multiply;
use crate::fixed::fixed_product;
use crate::fixed::floor_div;
use crate::fixed::lemma_product_bounds;
use crate::fixed::lemma_quotient_within;
use crate::fixed::LIMIT;
use crate::fixed::SCALE;
use vstd::prelude::*;

verus! {

/// Radius of the disc that marks an agent: 6 pixels.
pub const POINT_RADIUS: i64 = 6 * SCALE;

/// A filled disc on the window. Centre and radius are in pixels, as
/// fixed-point numbers.
#[derive(Debug, Clone, Copy, PartialEq, Eq)]
pub struct Disc {
    pub x: i64,
    pub y: i64,
    pub radius: i64,
}

/// What one frame shows on the cleared background: discs, in the order in
/// which they were added.
#[derive(Debug)]
pub struct Frame {
    pub discs: Vec<Disc>,
}

impl Frame {
    /// A frame that shows nothing.
    pub fn new() -> (frame: Frame)
        ensures
            frame.discs@ == Seq::<Disc>::empty(),
    {
        Frame { discs: Vec::new() }
    }
}

/// A grid of `nx` by `ny` units with the number of pixels that one grid unit
/// takes along each axis, as fixed-point numbers.
#[derive(Debug, Clone, Copy, PartialEq, Eq)]
pub struct Universe {
    pub nx: i32,
    pub ny: i32,
    pub scale_x: i64,
    pub scale_y: i64,
}

impl Universe {
    /// Whether the pixel scales lie within the representable range.
    pub open spec fn wf(&self) -> bool {
        -LIMIT <= self.scale_x <= LIMIT && -LIMIT <= self.scale_y <= LIMIT
    }

    /// The disc that marks the grid point `(x, y)`.
    pub open spec fn disc_at(&self, x: int, y: int) -> Disc {
        Disc {
            x: fixed_product(x, self.scale_x as int) as i64,
            y: fixed_product(y, self.scale_y as int) as i64,
            radius: POINT_RADIUS,
        }
    }

    /// Tests `wf` at run time.
    pub fn is_valid(&self) -> (ok: bool)
        ensures
            ok == self.wf(),
    {
        -LIMIT <= self.scale_x && self.scale_x <= LIMIT && -LIMIT <= self.scale_y && self.scale_y
            <= LIMIT
    }

    /// The world of `nx` by `ny` grid units shown on a window of `width` by
    /// `height` pixels, the two lengths as fixed-point numbers. The scales are
    /// `width / nx` and `height / ny`, rounded down.
    pub fn new(width: i64, height: i64, nx: i32, ny: i32) -> (universe: Universe)
        requires
            0 < nx,
            0 < ny,
            -LIMIT <= width <= LIMIT,
            -LIMIT <= height <= LIMIT,
        ensures
            universe.nx == nx,
            universe.ny == ny,
            universe.scale_x == (width as int) / (nx as int),
            universe.scale_y == (height as int) / (ny as int),
            universe.wf(),
    {
        proof {
            lemma_scale_within(width as int, nx as int);
            lemma_scale_within(height as int, ny as int);
        }
        let scale_x: i128 = floor_div(width as i128, nx as i128);
        let scale_y: i128 = floor_div(height as i128, ny as i128);
        Universe { nx, ny, scale_x: scale_x as i64, scale_y: scale_y as i64 }
    }

    /// Clears the frame to the background.
    pub fn reset(&self, frame: &mut Frame)
        ensures
            final(frame).discs@ == Seq::<Disc>::empty(),
    {
        frame.discs.clear();
    }

    /// Adds the disc that marks the grid point `(x, y)` to the frame: a disc
    /// of `POINT_RADIUS` centred at pixel `(x * scale_x, y * scale_y)`.
    pub fn add_point(&self, frame: &mut Frame, x: i64, y: i64)
        requires
            self.wf(),
            -LIMIT <= x <= LIMIT,
            -LIMIT <= y <= LIMIT,
        ensures
            final(frame).discs@ == old(frame).discs@.push(self.disc_at(x as int, y as int)),
    {
        proof {
            lemma_product_bounds(x as int, self.scale_x as int, LIMIT as int, LIMIT as int);
            lemma_product_bounds(y as int, self.scale_y as int, LIMIT as int, LIMIT as int);
        }
        let px: i64 = fixed_multiply(x, self.scale_x);
        let py: i64 = fixed_multiply(y, self.scale_y);
        frame.discs.push(Disc { x: px, y: py, radius: POINT_RADIUS });
    }
}

/// A length in range divided by a positive number of units is in range.
proof fn lemma_scale_within(length: int, n: int)
    requires
        0 < n,
        -LIMIT <= length <= LIMIT,
    ensures
        -LIMIT <= length / n <= LIMIT,
{
    assert(n * LIMIT >= LIMIT) by (nonlinear_arith)
        requires
            1 <= n,
    ;
    lemma_quotient_within(length, n, LIMIT as int);
}

} // verus!
