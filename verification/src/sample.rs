//! Colours, and the samples a frame is made of.

use crate::escape::EscapeResult;
use vstd::prelude::*;

verus! {

/// A colour with 8-bit channels.
#[derive(Clone, Copy, Debug, PartialEq, Eq, Hash, Structural)]
pub struct Color {
    pub red: u8,
    pub green: u8,
    pub blue: u8,
}

impl Color {
    /// The colour of an escaped point: full red, no blue, and a green channel
    /// that grows by 15 per iteration. The channel is not clamped: past
    /// iteration 17 it wraps around at 256, which gives the picture its
    /// bands.
    pub open spec fn spec_escape(iteration: u32) -> Color {
        Color { red: 255, green: ((iteration * 15) % 256) as u8, blue: 0 }
    }

    /// The colour that stands for bounded points.
    pub open spec fn spec_background() -> Color {
        Color { red: 0, green: 0, blue: 0 }
    }

    /// Computes the colour of a point that escaped at step `iteration`.
    #[verifier::when_used_as_spec(spec_escape)]
    pub fn escape(iteration: u32) -> (color: Color)
        ensures
            color == Color::escape(iteration),
            color.red == 255,
            color.green == (iteration * 15) % 256,
            color.blue == 0,
    {
        let scaled: u64 = (iteration as u64) * 15;
        Color { red: 255, green: (scaled % 256) as u8, blue: 0 }
    }

    /// The fixed colour of the background, on which bounded points are left.
    #[verifier::when_used_as_spec(spec_background)]
    pub fn background() -> (color: Color)
        ensures
            color == Color::background(),
    {
        Color { red: 0, green: 0, blue: 0 }
    }
}

/// One coloured pixel of a frame.
#[derive(Clone, Copy, Debug, PartialEq, Eq, Hash, Structural)]
pub struct SamplePoint {
    pub x: i32,
    pub y: i32,
    pub color: Color,
}

impl SamplePoint {
    /// What the pixel `(x, y)` contributes to a frame, given the kernel's
    /// verdict on it: nothing when the point is bounded, else the pixel in
    /// its escape colour.
    pub open spec fn spec_from_escape(x: i32, y: i32, result: EscapeResult) -> Option<SamplePoint> {
        if result.bounded {
            None
        } else {
            Some(SamplePoint { x, y, color: Color::escape(result.iteration) })
        }
    }

    /// Turns the kernel's verdict on pixel `(x, y)` into the sample to emit,
    /// if any.
    #[verifier::when_used_as_spec(spec_from_escape)]
    pub fn from_escape(x: i32, y: i32, result: EscapeResult) -> (sample: Option<SamplePoint>)
        ensures
            sample == SamplePoint::from_escape(x, y, result),
    {
        if result.bounded {
            None
        } else {
            Some(SamplePoint { x, y, color: Color::escape(result.iteration) })
        }
    }
}

} // verus!
