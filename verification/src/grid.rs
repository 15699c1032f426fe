//! The rectangular playing-field container.
//!
//! A [`Grid`] is a row-major two-dimensional container. Every row has the
//! same length, and both dimensions fit the coordinate range of
//! [`Vec2`](crate::vec2::Vec2). Cells are often optional values: an absent
//! cell stands for open sea.

use vstd::prelude::*;

use crate::rect::Rect;
use crate::util::EqCheck;
use crate::util::spec_vec_set_eq;
use crate::util::vec_equals;
use crate::vec2::Vec2;

verus! {

/// Errors raised by map construction and mutation.
#[derive(Clone, Copy, Debug, PartialEq, Eq, Structural)]
pub enum MapError {
    /// A coordinate lay beyond the current width or height.
    OutOfBounds,
    /// Raw rows of differing lengths were offered as a map.
    MalformedGrid,
}

/// A rectangular, row-major two-dimensional container.
#[derive(Clone, Debug)]
pub struct Grid<T> {
    data: Vec<Vec<T>>,
}

impl<T> View for Grid<T> {
    type V = Seq<Seq<T>>;

    closed spec fn view(&self) -> Seq<Seq<T>> {
        self.data@.map_values(|row: Vec<T>| row@)
    }
}

impl<T> Grid<T> {
    /// The number of rows.
    pub open spec fn spec_height(&self) -> nat {
        self@.len()
    }

    /// The common length of the rows; zero for a map without rows.
    pub open spec fn spec_width(&self) -> nat {
        if self@.len() == 0 {
            0
        } else {
            self@[0].len()
        }
    }

    /// Well-formedness: rectangular, with both dimensions inside the
    /// coordinate range.
    pub open spec fn wf(&self) -> bool {
        &&& self.spec_height() <= 255
        &&& self.spec_width() <= 255
        &&& forall|i: int|
            0 <= i < self@.len() ==> (#[trigger] self@[i]).len() == self.spec_width()
    }

    /// Whether the coordinate addresses a cell of this map.
    pub open spec fn in_bounds(&self, pos: Vec2) -> bool {
        (pos.x as nat) < self.spec_width() && (pos.y as nat) < self.spec_height()
    }

    /// The cell value at `pos`.
    pub open spec fn cell(&self, pos: Vec2) -> T
        recommends
            self.in_bounds(pos),
    {
        self@[pos.y as int][pos.x as int]
    }
}

impl<T> Grid<T> {
    /// The view of a grid indexes the same rows as its raw data.
    proof fn view_facts(&self)
        ensures
            self@.len() == self.data@.len(),
            forall|i: int| 0 <= i < self.data@.len() ==> self@[i] == self.data@[i]@,
    {
        assert forall|i: int| 0 <= i < self.data@.len() implies self@[i] == self.data@[i]@ by {
            assert(self@[i] == self.data@.map_values(|row: Vec<T>| row@)[i]);
        }
    }
}

impl<T: Copy> Grid<T> {
    /// Create a new map of the given size with every cell set to
    /// `fill_value`.
    pub fn new(size: Vec2, fill_value: T) -> (r: Grid<T>)
        ensures
            r.wf(),
            r.spec_height() == size.y,
            size.y > 0 ==> r.spec_width() == size.x,
            forall|p: Vec2| r.in_bounds(p) ==> r.cell(p) == fill_value,
    {
        let mut data: Vec<Vec<T>> = Vec::new();
        let mut y: u8 = 0;
        while y < size.y
            invariant
                0 <= y <= size.y,
                data@.len() == y,
                forall|i: int| 0 <= i < y ==> (#[trigger] data@[i])@.len() == size.x,
                forall|i: int, j: int|
                    0 <= i < y && 0 <= j < size.x ==> #[trigger] data@[i]@[j] == fill_value,
            decreases size.y - y,
        {
            let mut row: Vec<T> = Vec::new();
            let mut x: u8 = 0;
            while x < size.x
                invariant
                    0 <= x <= size.x,
                    row@.len() == x,
                    forall|j: int| 0 <= j < x ==> row@[j] == fill_value,
                decreases size.x - x,
            {
                row.push(fill_value);
                x = x + 1;
            }
            data.push(row);
            y = y + 1;
        }
        let r = Grid { data };
        proof {
            assert(forall|i: int| 0 <= i < r@.len() ==> r@[i] == data@[i]@);
        }
        r
    }

    /// Get the item at the provided position of the map, or `None` if the
    /// position lies outside the map.
    pub fn get(&self, pos: Vec2) -> (r: Option<T>)
        requires
            self.wf(),
        ensures
            r == if self.in_bounds(pos) {
                Some(self.cell(pos))
            } else {
                None::<T>
            },
    {
        proof {
            self.view_facts();
        }
        if (pos.y as usize) < self.data.len() {
            let row = &self.data[pos.y as usize];
            proof {
                assert(self@[pos.y as int] == self.data@[pos.y as int]@);
                assert(self@[pos.y as int].len() == self.spec_width());
            }
            if (pos.x as usize) < row.len() {
                Some(row[pos.x as usize])
            } else {
                None
            }
        } else {
            None
        }
    }

    /// Set the item at the provided position of the map, returning the item
    /// that was there before. The position must address a cell; the map is
    /// never resized and never silently clamps a coordinate. A caller that
    /// cannot guarantee the bound uses [`Self::try_set`], which reports the
    /// violation as a value.
    pub fn set(&mut self, pos: Vec2, new: T) -> (r: T)
        requires
            old(self).wf(),
            old(self).in_bounds(pos),
        ensures
            final(self).wf(),
            r == old(self).cell(pos),
            final(self)@ == old(self)@.update(
                pos.y as int,
                old(self)@[pos.y as int].update(pos.x as int, new),
            ),
            final(self).spec_width() == old(self).spec_width(),
            final(self).spec_height() == old(self).spec_height(),
    {
        proof {
            self.view_facts();
            assert(self@[pos.y as int] == self.data@[pos.y as int]@);
            assert(self@[pos.y as int].len() == self.spec_width());
        }
        let row = &mut self.data[pos.y as usize];
        let previous = row[pos.x as usize];
        row[pos.x as usize] = new;
        proof {
            assert(final(self)@ =~= old(self)@.update(
                pos.y as int,
                old(self)@[pos.y as int].update(pos.x as int, new),
            ));
        }
        previous
    }

    /// Set the item at the provided position, or fail fast with
    /// `OutOfBounds` when the position lies outside the map: no cell
    /// changes and the map keeps its size.
    pub fn try_set(&mut self, pos: Vec2, new: T) -> (r: Result<T, MapError>)
        requires
            old(self).wf(),
        ensures
            final(self).wf(),
            old(self).in_bounds(pos) ==> r == Result::<T, MapError>::Ok(old(self).cell(pos))
                && final(self)@ == old(self)@.update(
                pos.y as int,
                old(self)@[pos.y as int].update(pos.x as int, new),
            ),
            !old(self).in_bounds(pos) ==> r == Result::<T, MapError>::Err(MapError::OutOfBounds)
                && *final(self) == *old(self),
    {
        proof {
            self.view_facts();
        }
        if (pos.y as usize) < self.data.len() {
            proof {
                assert(self@[pos.y as int] == self.data@[pos.y as int]@);
                assert(self@[pos.y as int].len() == self.spec_width());
            }
            if (pos.x as usize) < self.data[pos.y as usize].len() {
                return Ok(self.set(pos, new));
            }
        }
        Err(MapError::OutOfBounds)
    }

    /// The cell value at a position known to lie inside the map.
    pub fn at(&self, pos: Vec2) -> (r: T)
        requires
            self.wf(),
            self.in_bounds(pos),
        ensures
            r == self.cell(pos),
    {
        proof {
            self.view_facts();
            assert(self@[pos.y as int] == self.data@[pos.y as int]@);
            assert(self@[pos.y as int].len() == self.spec_width());
        }
        let row = &self.data[pos.y as usize];
        row[pos.x as usize]
    }

    /// All map cells with their coordinates, in row-major order.
    pub fn iter(&self) -> (r: Vec<(Vec2, T)>)
        requires
            self.wf(),
        ensures
            r@.len() == self.spec_width() * self.spec_height(),
            forall|p: Vec2|
                #[trigger] self.in_bounds(p) ==> r@[p.y as int * self.spec_width() + p.x as int]
                    == (p, self.cell(p)),
    {
        let w = self.width();
        let h = self.height();
        let mut out: Vec<(Vec2, T)> = Vec::new();
        let mut y: u8 = 0;
        while y < h
            invariant
                self.wf(),
                w == self.spec_width(),
                h == self.spec_height(),
                0 <= y <= h,
                out@.len() == y as int * w as int,
                forall|p: Vec2|
                    #[trigger] self.in_bounds(p) && p.y < y ==> out@[p.y as int * w as int
                        + p.x as int] == (p, self.cell(p)),
            decreases h - y,
        {
            let mut x: u8 = 0;
            while x < w
                invariant
                    self.wf(),
                    w == self.spec_width(),
                    h == self.spec_height(),
                    0 <= y < h,
                    0 <= x <= w,
                    out@.len() == y as int * w as int + x as int,
                    forall|p: Vec2|
                        #[trigger] self.in_bounds(p) && (p.y < y || (p.y == y && p.x < x))
                            ==> out@[p.y as int * w as int + p.x as int] == (p, self.cell(p)),
                decreases w - x,
            {
                let pos = Vec2 { x, y };
                let row = &self.data[y as usize];
                proof {
                    self.view_facts();
                    assert(self@[y as int] == self.data@[y as int]@);
                    assert(self@[y as int].len() == self.spec_width());
                    assert(row@.len() == w as int);
                }
                out.push((pos, row[x as usize]));
                proof {
                    assert forall|p: Vec2|
                        #[trigger] self.in_bounds(p) && (p.y < y || (p.y == y && p.x < x
                            + 1)) implies out@[p.y as int * w as int + p.x as int] == (
                        p,
                        self.cell(p),
                    ) by {
                        if p.y == y && p.x == x {
                            assert(out@[y as int * w as int + x as int] == (pos, self.cell(pos)));
                        } else {
                            lemma_rm_index(p.y as int, p.x as int, y as int, x as int, w as int);
                        }
                    }
                }
                x = x + 1;
            }
            proof {
                assert((y as int + 1) * w as int == y as int * w as int + w as int)
                    by (nonlinear_arith);
            }
            y = y + 1;
        }
        proof {
            assert(h as int * w as int == w as int * h as int) by (nonlinear_arith);
        }
        out
    }
}

/// A strictly earlier cell in row-major order has a strictly smaller
/// row-major index.
#[verifier::nonlinear]
proof fn lemma_rm_index(py: int, px: int, y: int, x: int, w: int)
    requires
        0 <= px < w,
        0 <= py,
        0 <= x <= w,
        py < y || (py == y && px < x),
    ensures
        0 <= py * w + px,
        py * w + px < y * w + x,
{
}

impl<T> Grid<T> {
    /// Build a map from rows already known to be rectangular.
    pub(crate) fn from_rows_exact(rows: Vec<Vec<T>>) -> (r: Grid<T>)
        requires
            rows@.len() <= 255,
            rows@.len() > 0 ==> rows@[0].len() <= 255,
            forall|i: int| 0 <= i < rows@.len() ==> (#[trigger] rows@[i])@.len() == rows@[0]@.len(),
        ensures
            r@ == rows@.map_values(|row: Vec<T>| row@),
            r.wf(),
    {
        let r = Grid { data: rows };
        proof {
            r.view_facts();
        }
        r
    }

    /// Build a map from raw rows. All rows must have the same length,
    /// otherwise the rows are rejected as a malformed grid.
    pub fn from_rows(rows: Vec<Vec<T>>) -> (r: Result<Grid<T>, MapError>)
        requires
            rows@.len() <= 255,
            rows@.len() > 0 ==> rows@[0].len() <= 255,
        ensures
            (forall|i: int| 0 <= i < rows@.len() ==> (#[trigger] rows@[i])@.len()
                == rows@[0]@.len()) ==> (r matches Result::Ok(m) && m@ == rows@.map_values(
                |row: Vec<T>| row@,
            ) && m.wf()),
            !(forall|i: int| 0 <= i < rows@.len() ==> (#[trigger] rows@[i])@.len()
                == rows@[0]@.len()) ==> (r matches Result::Err(e) && e == MapError::MalformedGrid),
    {
        if rows.len() == 0 {
            return Ok(Grid { data: rows });
        }
        let expected = rows[0].len();
        let mut i: usize = 1;
        while i < rows.len()
            invariant
                1 <= i <= rows@.len(),
                expected == rows@[0]@.len(),
                forall|j: int| 0 <= j < i ==> (#[trigger] rows@[j])@.len() == expected,
            decreases rows@.len() - i,
        {
            if rows[i].len() != expected {
                return Err(MapError::MalformedGrid);
            }
            i = i + 1;
        }
        let r = Grid { data: rows };
        Ok(r)
    }

    /// Amount of cells in the x-direction.
    pub fn width(&self) -> (r: u8)
        requires
            self.wf(),
        ensures
            r == self.spec_width(),
    {
        if self.data.len() == 0 {
            0
        } else {
            self.data[0].len() as u8
        }
    }

    /// Amount of cells in the y-direction.
    pub fn height(&self) -> (r: u8)
        requires
            self.wf(),
        ensures
            r == self.spec_height(),
    {
        self.data.len() as u8
    }

    /// Amount of cells in the x- and y-direction.
    pub fn size(&self) -> (r: Vec2)
        requires
            self.wf(),
        ensures
            r.x == self.spec_width(),
            r.y == self.spec_height(),
    {
        Vec2 { x: self.width(), y: self.height() }
    }
}

/// Cells that know whether an island tile is present in them and whether a
/// unit may stand on them.
pub trait Standable: Sized {
    /// Whether an island tile occupies this cell at all.
    spec fn spec_cell_present(self) -> bool;

    /// Whether a unit may stand on this cell.
    spec fn spec_cell_standable(self) -> bool;

    /// Check whether an island tile occupies this cell.
    fn cell_present(&self) -> (r: bool)
        ensures
            r == self.spec_cell_present(),
    ;

    /// Check whether a unit may stand on this cell.
    fn cell_standable(&self) -> (r: bool)
        ensures
            r == self.spec_cell_standable(),
    ;
}

impl Standable for bool {
    open spec fn spec_cell_present(self) -> bool {
        self
    }

    open spec fn spec_cell_standable(self) -> bool {
        self
    }

    fn cell_present(&self) -> (r: bool)
        ensures
            r == self.spec_cell_present(),
    {
        *self
    }

    fn cell_standable(&self) -> (r: bool)
        ensures
            r == self.spec_cell_standable(),
    {
        *self
    }
}

impl Standable for Option<u32> {
    open spec fn spec_cell_present(self) -> bool {
        self is Some
    }

    open spec fn spec_cell_standable(self) -> bool {
        self is Some
    }

    fn cell_present(&self) -> (r: bool)
        ensures
            r == self.spec_cell_present(),
    {
        self.is_some()
    }

    fn cell_standable(&self) -> (r: bool)
        ensures
            r == self.spec_cell_standable(),
    {
        self.is_some()
    }
}

/// Maps that can say where things may be placed and which rectangle bounds
/// their island.
pub trait MapExt {
    /// Well-formedness required of the map for the queries below.
    spec fn ext_wf(&self) -> bool;

    /// Whether an island tile occupies the cell at `pos`.
    spec fn spec_present(&self, pos: Vec2) -> bool;

    /// Whether a positionable object may be placed on `pos`.
    spec fn spec_standable(&self, pos: Vec2) -> bool;

    /// Checks if a positionable object may be placed on the position
    /// provided; `false` where there is no island tile or it is gone.
    fn is_standable(&self, pos: Vec2) -> (r: bool)
        requires
            self.ext_wf(),
        ensures
            r == self.spec_standable(pos),
    ;

    /// The rectangle this map is bounded by: the tightest rectangle around
    /// all cells holding island tiles, or the degenerate rectangle at the
    /// origin when no tile is present. Beyond it there is only water.
    /// Every present cell lies inside the rectangle and each of its four
    /// edges touches one.
    fn limit_rect(&self) -> (r: Rect)
        requires
            self.ext_wf(),
        ensures
            forall|p: Vec2|
                #[trigger] self.spec_present(p) ==> r.x <= p.x && p.x <= r.x as int + r.w as int
                    && r.y <= p.y && p.y <= r.y as int + r.h as int,
            (exists|p: Vec2| #[trigger] self.spec_present(p)) ==> (exists|p: Vec2|
                #[trigger] self.spec_present(p) && p.x == r.x),
            (exists|p: Vec2| #[trigger] self.spec_present(p)) ==> (exists|p: Vec2|
                #[trigger] self.spec_present(p) && p.x == r.x as int + r.w as int),
            (exists|p: Vec2| #[trigger] self.spec_present(p)) ==> (exists|p: Vec2|
                #[trigger] self.spec_present(p) && p.y == r.y),
            (exists|p: Vec2| #[trigger] self.spec_present(p)) ==> (exists|p: Vec2|
                #[trigger] self.spec_present(p) && p.y == r.y as int + r.h as int),
            !(exists|p: Vec2| #[trigger] self.spec_present(p)) ==> r == (Rect {
                x: 0,
                y: 0,
                w: 0,
                h: 0,
            }),
    ;
}

impl<T: Standable + Copy> MapExt for Grid<T> {
    open spec fn ext_wf(&self) -> bool {
        self.wf()
    }

    open spec fn spec_present(&self, pos: Vec2) -> bool {
        self.in_bounds(pos) && self.cell(pos).spec_cell_present()
    }

    open spec fn spec_standable(&self, pos: Vec2) -> bool {
        self.in_bounds(pos) && self.cell(pos).spec_cell_standable()
    }

    fn is_standable(&self, pos: Vec2) -> (r: bool) {
        match self.get(pos) {
            Some(cell) => cell.cell_standable(),
            None => false,
        }
    }

    fn limit_rect(&self) -> (r: Rect) {
        let w = self.width();
        let h = self.height();
        let mut found = false;
        let mut min_x: u8 = 0;
        let mut min_y: u8 = 0;
        let mut max_x: u8 = 0;
        let mut max_y: u8 = 0;
        let mut y: u8 = 0;
        while y < h
            invariant
                self.wf(),
                w == self.spec_width(),
                h == self.spec_height(),
                0 <= y <= h,
                !found ==> forall|p: Vec2| #[trigger] self.spec_present(p) ==> p.y >= y,
                found ==> min_x <= max_x && min_y <= max_y,
                found ==> exists|p: Vec2| #[trigger] self.spec_present(p),
                found ==> forall|p: Vec2|
                    #[trigger] self.spec_present(p) && p.y < y ==> min_x <= p.x && p.x <= max_x
                        && min_y <= p.y && p.y <= max_y,
                found ==> exists|p: Vec2| #[trigger] self.spec_present(p) && p.x == min_x,
                found ==> exists|p: Vec2| #[trigger] self.spec_present(p) && p.x == max_x,
                found ==> exists|p: Vec2| #[trigger] self.spec_present(p) && p.y == min_y,
                found ==> exists|p: Vec2| #[trigger] self.spec_present(p) && p.y == max_y,
                found ==> max_y < y,
            decreases h - y,
        {
            let mut x: u8 = 0;
            while x < w
                invariant
                    self.wf(),
                    w == self.spec_width(),
                    h == self.spec_height(),
                    0 <= y < h,
                    0 <= x <= w,
                    !found ==> forall|p: Vec2|
                        #[trigger] self.spec_present(p) ==> p.y > y || (p.y == y && p.x >= x),
                    found ==> min_x <= max_x && min_y <= max_y,
                    found ==> exists|p: Vec2| #[trigger] self.spec_present(p),
                    found ==> forall|p: Vec2|
                        #[trigger] self.spec_present(p) && (p.y < y || (p.y == y && p.x < x))
                            ==> min_x <= p.x && p.x <= max_x && min_y <= p.y && p.y <= max_y,
                    found ==> exists|p: Vec2| #[trigger] self.spec_present(p) && p.x == min_x,
                    found ==> exists|p: Vec2| #[trigger] self.spec_present(p) && p.x == max_x,
                    found ==> exists|p: Vec2| #[trigger] self.spec_present(p) && p.y == min_y,
                    found ==> exists|p: Vec2| #[trigger] self.spec_present(p) && p.y == max_y,
                    found ==> max_y <= y,
                decreases w - x,
            {
                let pos = Vec2 { x, y };
                let row = &self.data[y as usize];
                proof {
                    self.view_facts();
                    assert(self@[y as int] == self.data@[y as int]@);
                    assert(self@[y as int].len() == self.spec_width());
                    assert(row@.len() == w as int);
                }
                if row[x as usize].cell_present() {
                    assert(self.spec_present(pos));
                    if !found {
                        found = true;
                        min_x = x;
                        max_x = x;
                        min_y = y;
                        max_y = y;
                    } else {
                        if x < min_x {
                            min_x = x;
                        }
                        if x > max_x {
                            max_x = x;
                        }
                        if y > max_y {
                            max_y = y;
                        }
                    }
                }
                x = x + 1;
            }
            y = y + 1;
        }
        if found {
            proof {
                assert(forall|p: Vec2| #[trigger] self.spec_present(p) ==> p.y < h);
            }
            Rect { x: min_x, y: min_y, w: max_x - min_x, h: max_y - min_y }
        } else {
            proof {
                assert forall|p: Vec2| !(#[trigger] self.spec_present(p)) by {
                    if self.spec_present(p) {
                        assert(p.y < h);
                    }
                }
            }
            Rect { x: 0, y: 0, w: 0, h: 0 }
        }
    }
}

/// Whether some row of `b` holds the same element set as `row`.
pub open spec fn spec_row_matches<T>(row: Seq<T>, b: Seq<Seq<T>>) -> bool {
    exists|j: int| 0 <= j < b.len() && spec_vec_set_eq(row, #[trigger] b[j])
}

/// Each row of `a` matches some row of `b` as an element set, and the
/// other way round: the loose, order-insensitive map equality.
pub open spec fn spec_map_set_eq<T>(a: Seq<Seq<T>>, b: Seq<Seq<T>>) -> bool {
    (forall|i: int| 0 <= i < a.len() ==> spec_row_matches(#[trigger] a[i], b)) && (forall|j: int|
        0 <= j < b.len() ==> spec_row_matches(#[trigger] b[j], a))
}

impl<T: EqCheck> PartialEq for Grid<T> {
    /// Set equality of rows: each row of one map must match some row of
    /// the other, in both directions, rows compared as element sets.
    ///
    /// Note that this deliberately loose comparison calls two maps equal
    /// even when their rows stand in a different vertical order, or when
    /// a row holds the same elements with different multiplicity; exact
    /// positional comparison must go through the views instead.
    fn eq(&self, other: &Self) -> (r: bool) {
        proof {
            self.view_facts();
            other.view_facts();
        }
        let n_self = self.data.len();
        let n_other = other.data.len();
        let mut i: usize = 0;
        while i < n_self
            invariant
                n_self == self@.len(),
                n_other == other@.len(),
                self@.len() == self.data@.len(),
                other@.len() == other.data@.len(),
                forall|k: int| 0 <= k < self.data@.len() ==> self@[k] == self.data@[k]@,
                forall|k: int| 0 <= k < other.data@.len() ==> other@[k] == other.data@[k]@,
                0 <= i <= self@.len(),
                forall|ii: int| 0 <= ii < i ==> spec_row_matches(#[trigger] self@[ii], other@),
            decreases self@.len() - i,
        {
            let mut j: usize = 0;
            let mut matched = false;
            while j < n_other && !matched
                invariant
                    n_other == other@.len(),
                    self@.len() == self.data@.len(),
                    other@.len() == other.data@.len(),
                    forall|k: int| 0 <= k < self.data@.len() ==> self@[k] == self.data@[k]@,
                    forall|k: int| 0 <= k < other.data@.len() ==> other@[k] == other.data@[k]@,
                    0 <= i < self@.len(),
                    0 <= j <= other@.len(),
                    matched ==> spec_row_matches(self@[i as int], other@),
                    !matched ==> forall|jj: int|
                        0 <= jj < j ==> !spec_vec_set_eq(self@[i as int], #[trigger] other@[jj]),
                decreases other@.len() - j + (if matched { 0int } else { 1int }),
            {
                if vec_equals(&self.data[i], &other.data[j]) {
                    matched = true;
                    proof {
                        assert(self@[i as int] == self.data@[i as int]@);
                        assert(other@[j as int] == other.data@[j as int]@);
                        assert(spec_vec_set_eq(self@[i as int], other@[j as int]));
                        assert(spec_row_matches(self@[i as int], other@));
                    }
                } else {
                    proof {
                        assert(self@[i as int] == self.data@[i as int]@);
                        assert(other@[j as int] == other.data@[j as int]@);
                    }
                    j = j + 1;
                }
            }
            if !matched {
                proof {
                    assert(forall|jj: int|
                        0 <= jj < other@.len() ==> !spec_vec_set_eq(
                            self@[i as int],
                            #[trigger] other@[jj],
                        ));
                    assert(!spec_row_matches(self@[i as int], other@)) by {
                        if spec_row_matches(self@[i as int], other@) {
                            let jj0 = choose|jj: int|
                                0 <= jj < other@.len() && spec_vec_set_eq(
                                    self@[i as int],
                                    #[trigger] other@[jj],
                                );
                            assert(!spec_vec_set_eq(self@[i as int], other@[jj0]));
                        }
                    }
                }
                return false;
            }
            i = i + 1;
        }
        proof {
            assert(i == self@.len());
            assert forall|ii: int|
                0 <= ii < self@.len() implies spec_row_matches(#[trigger] self@[ii], other@) by {
                assert(0 <= ii < i);
            }
        }
        let mut j: usize = 0;
        while j < n_other
            invariant
                n_self == self@.len(),
                n_other == other@.len(),
                self@.len() == self.data@.len(),
                other@.len() == other.data@.len(),
                forall|k: int| 0 <= k < self.data@.len() ==> self@[k] == self.data@[k]@,
                forall|k: int| 0 <= k < other.data@.len() ==> other@[k] == other.data@[k]@,
                forall|ii: int| 0 <= ii < self@.len() ==> spec_row_matches(#[trigger] self@[ii], other@),
                0 <= j <= other@.len(),
                forall|jj: int| 0 <= jj < j ==> spec_row_matches(#[trigger] other@[jj], self@),
            decreases other@.len() - j,
        {
            let mut i: usize = 0;
            let mut matched = false;
            while i < n_self && !matched
                invariant
                    n_self == self@.len(),
                    self@.len() == self.data@.len(),
                    other@.len() == other.data@.len(),
                    forall|k: int| 0 <= k < self.data@.len() ==> self@[k] == self.data@[k]@,
                    forall|k: int| 0 <= k < other.data@.len() ==> other@[k] == other.data@[k]@,
                    0 <= j < other@.len(),
                    0 <= i <= self@.len(),
                    matched ==> spec_row_matches(other@[j as int], self@),
                    !matched ==> forall|ii: int|
                        0 <= ii < i ==> !spec_vec_set_eq(other@[j as int], #[trigger] self@[ii]),
                decreases self@.len() - i + (if matched { 0int } else { 1int }),
            {
                if vec_equals(&other.data[j], &self.data[i]) {
                    matched = true;
                    proof {
                        assert(self@[i as int] == self.data@[i as int]@);
                        assert(other@[j as int] == other.data@[j as int]@);
                        assert(spec_vec_set_eq(other@[j as int], self@[i as int]));
                        assert(spec_row_matches(other@[j as int], self@));
                    }
                } else {
                    proof {
                        assert(self@[i as int] == self.data@[i as int]@);
                        assert(other@[j as int] == other.data@[j as int]@);
                    }
                    i = i + 1;
                }
            }
            if !matched {
                proof {
                    assert(forall|ii: int|
                        0 <= ii < self@.len() ==> !spec_vec_set_eq(
                            other@[j as int],
                            #[trigger] self@[ii],
                        ));
                    assert(!spec_row_matches(other@[j as int], self@)) by {
                        if spec_row_matches(other@[j as int], self@) {
                            let ii0 = choose|ii: int|
                                0 <= ii < self@.len() && spec_vec_set_eq(
                                    other@[j as int],
                                    #[trigger] self@[ii],
                                );
                            assert(!spec_vec_set_eq(other@[j as int], self@[ii0]));
                        }
                    }
                }
                return false;
            }
            j = j + 1;
        }
        true
    }
}

impl<T: EqCheck> vstd::std_specs::cmp::PartialEqSpecImpl for Grid<T> {
    open spec fn obeys_eq_spec() -> bool {
        true
    }

    open spec fn eq_spec(&self, other: &Grid<T>) -> bool {
        spec_map_set_eq(self@, other@)
    }
}


/// `r` is the tightest rectangle around the present cells of `m`: every
/// present cell lies inside it, each of its four edges touches one, and
/// without any present cell it is the degenerate rectangle at the origin.
pub open spec fn is_limit_rect<M: MapExt + ?Sized>(m: &M, r: Rect) -> bool {
    &&& forall|p: Vec2|
        #[trigger] m.spec_present(p) ==> r.x <= p.x && p.x <= r.x as int + r.w as int && r.y <= p.y
            && p.y <= r.y as int + r.h as int
    &&& (exists|p: Vec2| #[trigger] m.spec_present(p)) ==> {
        &&& (exists|p: Vec2| #[trigger] m.spec_present(p) && p.x == r.x)
        &&& (exists|p: Vec2| #[trigger] m.spec_present(p) && p.x == r.x as int + r.w as int)
        &&& (exists|p: Vec2| #[trigger] m.spec_present(p) && p.y == r.y)
        &&& (exists|p: Vec2| #[trigger] m.spec_present(p) && p.y == r.y as int + r.h as int)
    }
    &&& !(exists|p: Vec2| #[trigger] m.spec_present(p)) ==> r == (Rect { x: 0, y: 0, w: 0, h: 0 })
}

/// The rectangle bounding the present cells of `m`; it is unique, so the
/// choice is determined.
pub open spec fn the_limit_rect<M: MapExt + ?Sized>(m: &M) -> Rect {
    choose|r: Rect| is_limit_rect(m, r)
}

/// Two rectangles bounding the same map are the same rectangle.
pub proof fn lemma_limit_rect_unique<M: MapExt + ?Sized>(m: &M, r1: Rect, r2: Rect)
    requires
        is_limit_rect(m, r1),
        is_limit_rect(m, r2),
    ensures
        r1 == r2,
{
    if exists|p: Vec2| #[trigger] m.spec_present(p) {
        let px1 = choose|p: Vec2| #[trigger] m.spec_present(p) && p.x == r1.x;
        let px2 = choose|p: Vec2| #[trigger] m.spec_present(p) && p.x == r2.x;
        let pw1 = choose|p: Vec2| #[trigger] m.spec_present(p) && p.x == r1.x as int + r1.w as int;
        let pw2 = choose|p: Vec2| #[trigger] m.spec_present(p) && p.x == r2.x as int + r2.w as int;
        let py1 = choose|p: Vec2| #[trigger] m.spec_present(p) && p.y == r1.y;
        let py2 = choose|p: Vec2| #[trigger] m.spec_present(p) && p.y == r2.y;
        let ph1 = choose|p: Vec2| #[trigger] m.spec_present(p) && p.y == r1.y as int + r1.h as int;
        let ph2 = choose|p: Vec2| #[trigger] m.spec_present(p) && p.y == r2.y as int + r2.h as int;
        assert(r1.x == r2.x && r1.y == r2.y);
        assert(r1.x as int + r1.w as int == r2.x as int + r2.w as int);
        assert(r1.y as int + r1.h as int == r2.y as int + r2.h as int);
        assert(r1 == (Rect { x: r1.x, y: r1.y, w: r1.w, h: r1.h }));
        assert(r2 == (Rect { x: r2.x, y: r2.y, w: r2.w, h: r2.h }));
    }
}

/// A rectangle meeting the bounding conditions is the bounding rectangle.
pub proof fn lemma_is_the_limit_rect<M: MapExt + ?Sized>(m: &M, r: Rect)
    requires
        is_limit_rect(m, r),
    ensures
        r == the_limit_rect(m),
{
    let r2 = the_limit_rect(m);
    assert(is_limit_rect(m, r2)) by {
        assert(exists|rr: Rect| is_limit_rect(m, rr));
    }
    lemma_limit_rect_unique(m, r, r2);
}

} // verus!
