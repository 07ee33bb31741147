//! The pixel grid that a frame is rendered onto.

use vstd::prelude::*;

verus! {

/// Device pixel dimensions of the rendering surface.
///
/// Both dimensions are at least one pixel. A frame scans the columns
/// `0..=width` and the rows `0..=height`, both ends included.
#[derive(Clone, Copy, Debug)]
pub struct Grid {
    width: i32,
    height: i32,
}

impl Grid {
    /// The width in pixels, as contracts speak of it.
    pub closed spec fn spec_width(&self) -> i32 {
        self.width
    }

    /// The height in pixels, as contracts speak of it.
    pub closed spec fn spec_height(&self) -> i32 {
        self.height
    }

    /// Both dimensions are positive. This holds of every grid that
    /// [`Grid::new`] has built.
    #[verifier::type_invariant]
    pub open spec fn wf(self) -> bool {
        self.width() >= 1 && self.height() >= 1
    }

    /// Whether `(x, y)` is one of the pixels that a frame scans.
    pub open spec fn covers(self, x: int, y: int) -> bool {
        0 <= x <= self.width() && 0 <= y <= self.height()
    }

    /// Builds a grid, refusing a dimension that is not positive.
    pub fn new(width: i32, height: i32) -> (grid: Option<Grid>)
        ensures
            grid is Some <==> width >= 1 && height >= 1,
            grid matches Some(g) ==> g.wf() && g.width() == width && g.height() == height,
    {
        if width >= 1 && height >= 1 {
            Some(Grid { width, height })
        } else {
            None
        }
    }

    /// The width in pixels.
    #[verifier::when_used_as_spec(spec_width)]
    pub fn width(&self) -> (w: i32)
        ensures
            w == self.width(),
            w >= 1,
    {
        proof {
            use_type_invariant(self);
        }
        self.width
    }

    /// The height in pixels.
    #[verifier::when_used_as_spec(spec_height)]
    pub fn height(&self) -> (h: i32)
        ensures
            h == self.height(),
            h >= 1,
    {
        proof {
            use_type_invariant(self);
        }
        self.height
    }
}

} // verus!
