//! Drawing commands, the output of the paint traversal.

use vstd::prelude::*;
use crate::geometry::Rect;
use crate::style::{Color, Style};

verus! {

/// One drawing command. The commands of a frame form a flat list that a
/// renderer replays in order, back to front.
#[derive(Clone, Copy, PartialEq, Eq, Structural, Debug)]
pub enum PaintCommand {
    /// Fill a rectangle with a colour.
    Fill { rect: Rect, color: Color },
    /// Draw the text run `run` into a rectangle.
    Text { rect: Rect, color: Color, run: u64 },
    /// Draw the image `image` into a rectangle.
    Image { rect: Rect, image: u64 },
    /// Clip what follows to a rectangle.
    PushClip { rect: Rect },
    /// End the innermost clip.
    PopClip,
}

/// What a node's own drawing depends on: its computed style and the
/// rectangle it was laid out in, in window coordinates.
#[derive(Clone, Copy, PartialEq, Eq, Structural, Debug)]
pub struct Appearance {
    pub style: Style,
    pub rect: Rect,
}

} // verus!
