//! The page as the layout logic reads it: every recognized line and word with
//! its text and, where the engine reported one, the extent of its box.

use vstd::prelude::*;

verus! {

/// The extent of a box on the page, every side and centre given as an
/// order key (see `coords`): the leftmost, rightmost, topmost and bottommost
/// coordinate of its corners, and the centre of each axis. Every field is the
/// key of a number, never of a NaN.
#[derive(Clone, Copy, Debug)]
pub struct Extent {
    pub left: u32,
    pub right: u32,
    pub top: u32,
    pub bottom: u32,
    pub x_mid: u32,
    pub y_mid: u32,
}

impl Extent {
    /// The box holds its own centre: each centre lies between the two sides
    /// of its axis. Centres taken as midpoints of finite sides do, unless the
    /// sum of the sides overflows.
    pub open spec fn holds_centre(self) -> bool {
        self.left <= self.x_mid <= self.right && self.top <= self.y_mid <= self.bottom
    }
}

/// One recognized word.
pub struct WordLayout {
    pub text: String,
    pub extent: Option<Extent>,
}

/// One recognized line and its words.
pub struct LineLayout {
    pub text: String,
    pub extent: Option<Extent>,
    pub words: Vec<WordLayout>,
}

/// A whole recognition result: the full text and its lines in reading order.
pub struct PageLayout {
    pub text: String,
    pub lines: Vec<LineLayout>,
}

} // verus!
