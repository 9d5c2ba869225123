use vstd::prelude::*;

verus! {

/// A point on the screen, in pixels.
#[derive(Clone, Copy, Debug, PartialEq, Eq, Structural)]
pub struct Point {
    pub x: i64,
    pub y: i64,
}

/// An axis-aligned rectangle on the screen: its top-left corner and its size, in pixels.
#[derive(Clone, Copy, Debug, PartialEq, Eq, Structural)]
pub struct Rect {
    pub x: i32,
    pub y: i32,
    pub width: u32,
    pub height: u32,
}

/// An opaque RGB color.
#[derive(Clone, Copy, Debug, PartialEq, Eq, Structural)]
pub struct Color {
    pub r: u8,
    pub g: u8,
    pub b: u8,
}

/// A square to draw: its top-left corner and its side, in pixels.
#[derive(Clone, Copy, Debug, PartialEq, Eq, Structural)]
pub struct Square {
    pub x: i64,
    pub y: i64,
    pub size: u32,
}

/// One drawing operation of a frame.
#[derive(Clone, Copy, Debug, PartialEq, Eq, Structural)]
pub enum Draw {
    /// Fill the square with the color.
    Fill(Square, Color),
    /// Draw the square's border in the color.
    Outline(Square, Color),
}

impl Rect {
    /// The right and bottom edges of the rectangle are representable coordinates.
    pub open spec fn wf(self) -> bool {
        &&& self.x + self.width <= i32::MAX
        &&& self.y + self.height <= i32::MAX
    }

    /// The point lies inside the rectangle; the right and bottom edges are outside.
    pub open spec fn contains_spec(self, p: Point) -> bool {
        &&& self.x <= p.x < self.x + self.width
        &&& self.y <= p.y < self.y + self.height
    }

    /// Whether the point lies inside the rectangle. The left and top edges are
    /// inside, the right and bottom edges are not, so that a 1 by 1 rectangle holds
    /// exactly one point.
    pub fn contains_point(&self, p: Point) -> (r: bool)
        ensures
            r == self.contains_spec(p),
    {
        let left = self.x as i64;
        let top = self.y as i64;
        let right = left + self.width as i64;
        let bottom = top + self.height as i64;
        left <= p.x && p.x < right && top <= p.y && p.y < bottom
    }
}

} // verus!
