//! Screen geometry: the rectangle a pane was last rendered into, and the
//! axis a split divides its rectangle along.

use vstd::prelude::*;

verus! {

/// The axis along which a split divides its rectangle: `Horizontal` places
/// the children left to right, `Vertical` top to bottom.
#[derive(Clone, Copy, Debug, PartialEq, Eq, Structural)]
pub enum Direction {
    Horizontal,
    Vertical,
}

/// A cell rectangle of the terminal screen, in column/row coordinates.
///
/// The right and bottom edges are exclusive and saturate at `u16::MAX`,
/// matching the drawing surface's rectangle arithmetic.
#[derive(Clone, Copy, Debug, PartialEq, Eq, Structural)]
pub struct Rect {
    pub x: u16,
    pub y: u16,
    pub width: u16,
    pub height: u16,
}

/// `a + b`, saturating at `u16::MAX`.
pub open spec fn sat_add_u16(a: u16, b: u16) -> u16 {
    if a + b > u16::MAX {
        u16::MAX
    } else {
        (a + b) as u16
    }
}

/// `a - b`, saturating at zero.
pub open spec fn sat_sub_u16(a: u16, b: u16) -> u16 {
    if a >= b {
        (a - b) as u16
    } else {
        0
    }
}

impl Rect {
    /// Does this rectangle contain the cell at `(col, row)`?
    pub open spec fn spec_contains(self, col: u16, row: u16) -> bool {
        &&& self.left() <= col < self.right()
        &&& self.top() <= row < self.bottom()
    }

    /// The all-zero rectangle a fresh pane starts with, before its first
    /// rendering pass assigns it a real one.
    pub open spec fn spec_zero() -> Rect {
        Rect { x: 0, y: 0, width: 0, height: 0 }
    }

    pub fn zero() -> (r: Rect)
        ensures
            r == Rect::spec_zero(),
    {
        Rect { x: 0, y: 0, width: 0, height: 0 }
    }

    /// The leftmost column of the rectangle.
    #[verifier::when_used_as_spec(spec_left)]
    pub fn left(self) -> (r: u16)
        ensures
            r == self.left(),
    {
        self.x
    }

    pub open spec fn spec_left(self) -> u16 {
        self.x
    }

    /// The first column right of the rectangle.
    #[verifier::when_used_as_spec(spec_right)]
    pub fn right(self) -> (r: u16)
        ensures
            r == self.right(),
    {
        if self.x <= u16::MAX - self.width {
            self.x + self.width
        } else {
            u16::MAX
        }
    }

    pub open spec fn spec_right(self) -> u16 {
        sat_add_u16(self.x, self.width)
    }

    /// The topmost row of the rectangle.
    #[verifier::when_used_as_spec(spec_top)]
    pub fn top(self) -> (r: u16)
        ensures
            r == self.top(),
    {
        self.y
    }

    pub open spec fn spec_top(self) -> u16 {
        self.y
    }

    /// The first row below the rectangle.
    #[verifier::when_used_as_spec(spec_bottom)]
    pub fn bottom(self) -> (r: u16)
        ensures
            r == self.bottom(),
    {
        if self.y <= u16::MAX - self.height {
            self.y + self.height
        } else {
            u16::MAX
        }
    }

    pub open spec fn spec_bottom(self) -> u16 {
        sat_add_u16(self.y, self.height)
    }

    /// Does this rectangle contain the cell at `(col, row)`?
    pub fn contains(self, col: u16, row: u16) -> (r: bool)
        ensures
            r == self.spec_contains(col, row),
    {
        self.left() <= col && col < self.right() && self.top() <= row && row < self.bottom()
    }
}

/// `a - b` on rows, saturating at zero; used for the click targets near the
/// bottom edge of a pane.
pub fn sat_sub(a: u16, b: u16) -> (r: u16)
    ensures
        r == sat_sub_u16(a, b),
{
    if a >= b {
        a - b
    } else {
        0
    }
}

} // verus!
