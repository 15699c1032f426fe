//! Axis-aligned rectangles in grid coordinates.
//!
//! A [`Rect`] serves as a clipping bound for neighbour generation. Its
//! `contains` check is inclusive on all four edges: the rectangle covers
//! the coordinates from `(x, y)` to `(x + w, y + h)`.

use vstd::prelude::*;

use crate::vec2::Vec2;

verus! {

/// A rectangle given by its top-left corner and its extent.
#[derive(Clone, Copy, Debug, PartialEq, Eq, Structural)]
pub struct Rect {
    /// The leftmost coordinate of the rectangle.
    pub x: u8,
    /// The topmost coordinate of the rectangle.
    pub y: u8,
    /// The width of the rectangle.
    pub w: u8,
    /// The height of the rectangle.
    pub h: u8,
}

impl Rect {
    /// Build a rectangle from a slice; indices are `[x, y, w, h]`.
    pub fn from_slice(slice: [u8; 4]) -> (r: Rect)
        ensures
            r == (Rect { x: slice[0], y: slice[1], w: slice[2], h: slice[3] }),
    {
        Rect { x: slice[0], y: slice[1], w: slice[2], h: slice[3] }
    }

    /// Whether the point lies inside this rectangle, all edges inclusive.
    pub open spec fn spec_contains(self, point: Vec2) -> bool {
        (point.x >= self.x) && (point.x as int <= self.x as int + self.w as int) && (point.y
            >= self.y) && (point.y as int <= self.y as int + self.h as int)
    }

    /// Check whether the point lies inside this rectangle.
    pub fn contains(&self, point: Vec2) -> (r: bool)
        ensures
            r == self.spec_contains(point),
    {
        (point.x >= self.x) && ((point.x as u16) <= self.x as u16 + self.w as u16) && (point.y
            >= self.y) && ((point.y as u16) <= self.y as u16 + self.h as u16)
    }

    /// Whether the two rectangles share at least one point.
    pub open spec fn spec_intersect(a: Rect, b: Rect) -> bool {
        !((a.x > b.x as int + b.w as int) || ((a.x as int + a.w as int) < b.x) || (a.y > b.y as int
            + b.h as int) || ((a.y as int + a.h as int) < b.y))
    }

    /// Test whether two rectangles intersect.
    pub fn intersect(this: &Rect, other: &Rect) -> (r: bool)
        ensures
            r == Rect::spec_intersect(*this, *other),
    {
        !((this.x as u16 > other.x as u16 + other.w as u16) || ((this.x as u16 + this.w as u16)
            < other.x as u16) || (this.y as u16 > other.y as u16 + other.h as u16) || ((
        this.y as u16 + this.h as u16) < other.y as u16))
    }

    /// Move the rectangle by the vector provided, keeping its size.
    pub fn translate(&mut self, by: Vec2)
        requires
            old(self).x + by.x <= 255,
            old(self).y + by.y <= 255,
        ensures
            *final(self) == (Rect {
                x: (old(self).x + by.x) as u8,
                y: (old(self).y + by.y) as u8,
                w: old(self).w,
                h: old(self).h,
            }),
    {
        self.x = self.x + by.x;
        self.y = self.y + by.y;
    }

    /// Set the position of the rectangle without changing its size.
    pub fn set_pos(&mut self, pos: Vec2)
        ensures
            *final(self) == (Rect { x: pos.x, y: pos.y, w: old(self).w, h: old(self).h }),
    {
        self.x = pos.x;
        self.y = pos.y;
    }
}

} // verus!
