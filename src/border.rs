//! The border pieces drawn around source snippets.

use vstd::prelude::*;

verus! {

/// The top-left corner of a source line.
pub struct BorderTopLeft {}

impl BorderTopLeft {
    pub fn new() -> (r: BorderTopLeft) {
        BorderTopLeft {}
    }
}

/// The top border of a source line.
pub struct BorderTop {
    width: usize,
}

impl BorderTop {
    /// The number of border characters drawn.
    pub closed spec fn spec_width(&self) -> usize {
        self.width
    }

    pub fn new(width: usize) -> (r: BorderTop)
        ensures
            r.spec_width() == width,
    {
        BorderTop { width }
    }

    /// The number of border characters drawn.
    pub fn width(&self) -> (r: usize)
        ensures
            r == self.spec_width(),
    {
        self.width
    }
}

/// The left-hand border of a source line.
pub struct BorderLeft {}

impl BorderLeft {
    pub fn new() -> (r: BorderLeft) {
        BorderLeft {}
    }
}

/// The broken left-hand border of a source line.
pub struct BorderLeftBreak {}

impl BorderLeftBreak {
    pub fn new() -> (r: BorderLeftBreak) {
        BorderLeftBreak {}
    }
}

} // verus!
