//! Grid coordinates and their neighbour geometry.
//!
//! A [`Vec2`] names one cell of a map. Neighbour queries never wrap around
//! the coordinate space: a candidate that would underflow below zero or
//! overflow the coordinate range is simply not produced.

use vstd::prelude::*;

use crate::rect::Rect;

verus! {

/// An ordered pair of unsigned coordinates identifying a grid cell.
///
/// The components are fixed at the 8-bit range: a board measures at most
/// tens of cells per side, and a concrete width keeps the neighbour
/// arithmetic and the grid bounds fully checkable. Widening the board
/// beyond that range would mean widening this type and the grid's
/// dimension bound together.
///
/// Ordering is lexicographic by `x`, then `y`, as the derived
/// implementations define it.
#[derive(Clone, Copy, Debug, PartialEq, Eq, Structural, PartialOrd, Ord, Hash)]
pub struct Vec2 {
    pub x: u8,
    pub y: u8,
}

/// Position type for anything that can be placed on a map.
pub type FieldPos = Vec2;

/// One of the four primary directions on the grid.
#[derive(Clone, Copy, Debug, PartialEq, Eq, Structural)]
pub enum Direction {
    Up,
    Down,
    Left,
    Right,
}

impl Vec2 {
    /// The origin coordinate (0, 0).
    pub fn new() -> (r: Vec2)
        ensures
            r == (Vec2 { x: 0, y: 0 }),
    {
        Vec2 { x: 0, y: 0 }
    }

    /// Build a coordinate from its two components.
    pub fn from_values(x: u8, y: u8) -> (r: Vec2)
        ensures
            r == (Vec2 { x, y }),
    {
        Vec2 { x, y }
    }
}

/// Whether `p` lies inside the optional clipping rectangle; with no
/// rectangle every coordinate passes.
pub open spec fn within_limits(p: Vec2, limits: Option<Rect>) -> bool {
    match limits {
        Option::None => true,
        Option::Some(r) => r.spec_contains(p),
    }
}

/// One neighbour candidate: present only when it exists in the coordinate
/// space (`cond`) and survives clipping.
pub open spec fn candidate(cond: bool, p: Vec2, limits: Option<Rect>) -> Seq<Vec2> {
    if cond && within_limits(p, limits) {
        seq![p]
    } else {
        Seq::<Vec2>::empty()
    }
}

/// What `neighbours` returns: right, left, down, up, each clipped.
pub open spec fn spec_neighbours(v: Vec2, limits: Option<Rect>) -> Seq<Vec2> {
    candidate(v.x < 255, Vec2 { x: (v.x + 1) as u8, y: v.y }, limits) + candidate(
        v.x > 0,
        Vec2 { x: (v.x - 1) as u8, y: v.y },
        limits,
    ) + candidate(v.y < 255, Vec2 { x: v.x, y: (v.y + 1) as u8 }, limits) + candidate(
        v.y > 0,
        Vec2 { x: v.x, y: (v.y - 1) as u8 },
        limits,
    )
}

/// What `diagonal_neighbours` returns: up-right, up-left, down-left,
/// down-right, each clipped.
pub open spec fn spec_diagonal_neighbours(v: Vec2, limits: Option<Rect>) -> Seq<Vec2> {
    candidate(
        v.x < 255 && v.y > 0,
        Vec2 { x: (v.x + 1) as u8, y: (v.y - 1) as u8 },
        limits,
    ) + candidate(
        v.x > 0 && v.y > 0,
        Vec2 { x: (v.x - 1) as u8, y: (v.y - 1) as u8 },
        limits,
    ) + candidate(
        v.x > 0 && v.y < 255,
        Vec2 { x: (v.x - 1) as u8, y: (v.y + 1) as u8 },
        limits,
    ) + candidate(
        v.x < 255 && v.y < 255,
        Vec2 { x: (v.x + 1) as u8, y: (v.y + 1) as u8 },
        limits,
    )
}

impl Vec2 {
    /// The primary (up, down, left, right) neighbours of this coordinate,
    /// optionally clipped to a bounding rectangle.
    pub fn neighbours(&self, limits: Option<Rect>) -> (r: Vec<Vec2>)
        ensures
            r@ == spec_neighbours(*self, limits),
    {
        let mut out: Vec<Vec2> = Vec::new();
        if self.x < 255 {
            let c = Vec2 { x: self.x + 1, y: self.y };
            if within_limits_exec(c, limits) {
                out.push(c);
            }
        }
        if self.x > 0 {
            let c = Vec2 { x: self.x - 1, y: self.y };
            if within_limits_exec(c, limits) {
                out.push(c);
            }
        }
        if self.y < 255 {
            let c = Vec2 { x: self.x, y: self.y + 1 };
            if within_limits_exec(c, limits) {
                out.push(c);
            }
        }
        if self.y > 0 {
            let c = Vec2 { x: self.x, y: self.y - 1 };
            if within_limits_exec(c, limits) {
                out.push(c);
            }
        }
        proof {
            assert(out@ =~= spec_neighbours(*self, limits));
        }
        out
    }

    /// The four diagonal neighbours of this coordinate, optionally clipped
    /// to a bounding rectangle.
    pub fn diagonal_neighbours(&self, limits: Option<Rect>) -> (r: Vec<Vec2>)
        ensures
            r@ == spec_diagonal_neighbours(*self, limits),
    {
        let mut out: Vec<Vec2> = Vec::new();
        if self.x < 255 && self.y > 0 {
            let c = Vec2 { x: self.x + 1, y: self.y - 1 };
            if within_limits_exec(c, limits) {
                out.push(c);
            }
        }
        if self.x > 0 && self.y > 0 {
            let c = Vec2 { x: self.x - 1, y: self.y - 1 };
            if within_limits_exec(c, limits) {
                out.push(c);
            }
        }
        if self.x > 0 && self.y < 255 {
            let c = Vec2 { x: self.x - 1, y: self.y + 1 };
            if within_limits_exec(c, limits) {
                out.push(c);
            }
        }
        if self.x < 255 && self.y < 255 {
            let c = Vec2 { x: self.x + 1, y: self.y + 1 };
            if within_limits_exec(c, limits) {
                out.push(c);
            }
        }
        proof {
            assert(out@ =~= spec_diagonal_neighbours(*self, limits));
        }
        out
    }

    /// All primary and diagonal neighbours, primaries first.
    pub fn surrounding(&self, limits: Option<Rect>) -> (r: Vec<Vec2>)
        ensures
            r@ == spec_neighbours(*self, limits) + spec_diagonal_neighbours(*self, limits),
    {
        let mut out = self.neighbours(limits);
        let mut diag = self.diagonal_neighbours(limits);
        out.append(&mut diag);
        out
    }

    /// The primary direction in which `to` mainly lies from this
    /// coordinate, or `None` when neither axis dominates.
    pub fn primary_direction(&self, to: Vec2) -> (r: Option<Direction>)
        ensures
            r == spec_primary_direction(*self, to),
    {
        let dx = difference_abs(self.x, to.x);
        let dy = difference_abs(self.y, to.y);
        if dx > dy {
            if self.x < to.x {
                Some(Direction::Right)
            } else {
                Some(Direction::Left)
            }
        } else if dy > dx {
            if self.y < to.y {
                Some(Direction::Down)
            } else {
                Some(Direction::Up)
            }
        } else {
            None
        }
    }
}

/// What `primary_direction` returns: the dominant axis decides; on a tie
/// there is no primary direction.
pub open spec fn spec_primary_direction(from: Vec2, to: Vec2) -> Option<Direction> {
    let dx = abs_diff_spec(from.x as int, to.x as int);
    let dy = abs_diff_spec(from.y as int, to.y as int);
    if dx > dy {
        if from.x < to.x {
            Some(Direction::Right)
        } else {
            Some(Direction::Left)
        }
    } else if dy > dx {
        if from.y < to.y {
            Some(Direction::Down)
        } else {
            Some(Direction::Up)
        }
    } else {
        None
    }
}

pub open spec fn abs_diff_spec(a: int, b: int) -> int {
    if a > b {
        a - b
    } else {
        b - a
    }
}

/// The absolute difference of two unsigned values.
pub fn difference_abs(a: u8, b: u8) -> (r: u8)
    ensures
        r as int == abs_diff_spec(a as int, b as int),
{
    if a > b {
        a - b
    } else {
        b - a
    }
}

fn within_limits_exec(p: Vec2, limits: Option<Rect>) -> (b: bool)
    ensures
        b == within_limits(p, limits),
{
    match limits {
        None => true,
        Some(r) => r.contains(p),
    }
}


/// Whether one coordinate strictly precedes another in row-major order.
pub open spec fn rm_lt(a: Vec2, b: Vec2) -> bool {
    a.y < b.y || (a.y == b.y && a.x < b.x)
}

/// Two strictly row-major-ordered coordinate lists with the same members
/// are the same list: an order-and-membership contract pins a result
/// down completely.
pub proof fn lemma_rm_sorted_unique(a: Seq<Vec2>, b: Seq<Vec2>)
    requires
        forall|i: int, j: int| 0 <= i < j < a.len() ==> rm_lt(#[trigger] a[i], #[trigger] a[j]),
        forall|i: int, j: int| 0 <= i < j < b.len() ==> rm_lt(#[trigger] b[i], #[trigger] b[j]),
        forall|q: Vec2| a.contains(q) <==> b.contains(q),
    ensures
        a == b,
    decreases a.len(),
{
    if a.len() == 0 {
        if b.len() > 0 {
            assert(b.contains(b[0]));
            assert(a.contains(b[0]));
            assert(false);
        }
        assert(a =~= b);
    } else {
        assert(a.contains(a[0]));
        assert(b.contains(a[0]));
        let j0 = choose|j: int| 0 <= j < b.len() && b[j] == a[0];
        assert(b.contains(b[0]));
        assert(a.contains(b[0]));
        let i0 = choose|i: int| 0 <= i < a.len() && a[i] == b[0];
        if j0 > 0 {
            assert(rm_lt(b[0], b[j0]));
            if i0 > 0 {
                assert(rm_lt(a[0], a[i0]));
                assert(false);
            } else {
                assert(a[0] == b[0]);
                assert(rm_lt(b[0], a[0]));
                assert(false);
            }
        }
        assert(a[0] == b[0]);
        let at = a.drop_first();
        let bt = b.drop_first();
        assert forall|q: Vec2| at.contains(q) implies bt.contains(q) by {
            let i = choose|i: int| 0 <= i < at.len() && at[i] == q;
            assert(a[i + 1] == q);
            assert(a.contains(q));
            assert(b.contains(q));
            let j = choose|j: int| 0 <= j < b.len() && b[j] == q;
            assert(rm_lt(a[0], a[i + 1]));
            if j == 0 {
                assert(q == b[0]);
                assert(false);
            }
            assert(bt[j - 1] == q);
        }
        assert forall|q: Vec2| bt.contains(q) implies at.contains(q) by {
            let j = choose|j: int| 0 <= j < bt.len() && bt[j] == q;
            assert(b[j + 1] == q);
            assert(b.contains(q));
            assert(a.contains(q));
            let i = choose|i: int| 0 <= i < a.len() && a[i] == q;
            assert(rm_lt(b[0], b[j + 1]));
            if i == 0 {
                assert(q == a[0]);
                assert(false);
            }
            assert(at[i - 1] == q);
        }
        assert forall|i: int, j: int|
            0 <= i < j < at.len() implies rm_lt(#[trigger] at[i], #[trigger] at[j]) by {
            assert(at[i] == a[i + 1] && at[j] == a[j + 1]);
        }
        assert forall|i: int, j: int|
            0 <= i < j < bt.len() implies rm_lt(#[trigger] bt[i], #[trigger] bt[j]) by {
            assert(bt[i] == b[i + 1] && bt[j] == b[j + 1]);
        }
        lemma_rm_sorted_unique(at, bt);
        assert(a.len() == b.len());
        assert forall|i: int| 0 <= i < a.len() implies a[i] == b[i] by {
            if i > 0 {
                assert(at[i - 1] == a[i]);
                assert(bt[i - 1] == b[i]);
            }
        }
        assert(a =~= b);
    }
}

/// A coordinate strictly inside the coordinate space has exactly four
/// distinct primary neighbours, each differing from it on exactly one
/// axis by exactly one.
pub proof fn lemma_neighbour_count_interior(v: Vec2)
    requires
        0 < v.x < 255,
        0 < v.y < 255,
    ensures
        spec_neighbours(v, None).len() == 4,
        forall|i: int|
            0 <= i < 4 ==> abs_diff_spec(#[trigger] spec_neighbours(v, None)[i].x as int, v.x as int)
                + abs_diff_spec(spec_neighbours(v, None)[i].y as int, v.y as int) == 1,
        forall|i: int, j: int|
            0 <= i < j < 4 ==> #[trigger] spec_neighbours(v, None)[i] != #[trigger] spec_neighbours(
                v,
                None,
            )[j],
{
    let s = spec_neighbours(v, None);
    assert(s[0] == (Vec2 { x: (v.x + 1) as u8, y: v.y }));
    assert(s[1] == (Vec2 { x: (v.x - 1) as u8, y: v.y }));
    assert(s[2] == (Vec2 { x: v.x, y: (v.y + 1) as u8 }));
    assert(s[3] == (Vec2 { x: v.x, y: (v.y - 1) as u8 }));
}

/// At the origin no neighbour can lie above or to the left, so exactly
/// two remain.
pub proof fn lemma_neighbour_count_origin()
    ensures
        spec_neighbours(Vec2 { x: 0, y: 0 }, None).len() == 2,
        spec_neighbours(Vec2 { x: 0, y: 0 }, None)[0] == (Vec2 { x: 1, y: 0 }),
        spec_neighbours(Vec2 { x: 0, y: 0 }, None)[1] == (Vec2 { x: 0, y: 1 }),
{
}

} // verus!
