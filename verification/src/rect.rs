//! Axis-aligned rectangles in cell units.

use vstd::prelude::*;

verus! {

/// A rectangle whose corners are the cells `(x, y)` and
/// `(x + width, y + height)`, both included.
#[derive(Clone, Copy, Debug, PartialEq, Eq, Structural)]
pub struct Rect {
    pub x: usize,
    pub y: usize,
    pub width: usize,
    pub height: usize,
}

impl Rect {
    /// The far corner is representable.
    pub open spec fn wf(self) -> bool {
        self.x + self.width <= usize::MAX && self.y + self.height <= usize::MAX
    }

    pub open spec fn right(self) -> int {
        self.x + self.width
    }

    pub open spec fn bottom(self) -> int {
        self.y + self.height
    }

    pub open spec fn center_x(self) -> int {
        self.x + self.width / 2
    }

    pub open spec fn center_y(self) -> int {
        self.y + self.height / 2
    }

    /// The cell `(px, py)` lies in the rectangle, edges included.
    pub open spec fn contains(self, px: int, py: int) -> bool {
        self.x <= px <= self.right() && self.y <= py <= self.bottom()
    }

    /// The cell `(px, py)` lies on one of the four edges.
    pub open spec fn on_edge(self, px: int, py: int) -> bool {
        self.contains(px, py) && (px == self.x || px == self.right() || py == self.y || py
            == self.bottom())
    }

    /// Every cell of `self` is a cell of `outer`.
    pub open spec fn within(self, outer: Rect) -> bool {
        outer.x <= self.x && self.right() <= outer.right() && outer.y <= self.y && self.bottom()
            <= outer.bottom()
    }

    /// `self` and `other` share no cell.
    pub open spec fn disjoint(self, other: Rect) -> bool {
        self.right() < other.x || other.right() < self.x || self.bottom() < other.y
            || other.bottom() < self.y
    }

    /// At least one line of cells lies between `self` and `other`: no cell of
    /// the one is a cell of the other or next to one.
    pub open spec fn apart(self, other: Rect) -> bool {
        self.right() + 1 < other.x || other.right() + 1 < self.x || self.bottom() + 1 < other.y
            || other.bottom() + 1 < self.y
    }

    /// The interiors overlap: the test on open intervals.
    pub open spec fn overlaps(self, other: Rect) -> bool {
        self.x < other.right() && self.right() > other.x && self.y < other.bottom()
            && self.bottom() > other.y
    }

    /// Every cell of the rectangle is a cell of a `size` by `size` grid.
    pub open spec fn fits(self, size: int) -> bool {
        self.right() < size && self.bottom() < size
    }

    /// Half-open extent `(x0, y0, x1, y1)`: the cells `x0 <= x < x1`, `y0 <= y < y1`.
    pub open spec fn extent(self) -> (int, int, int, int) {
        (self.x as int, self.y as int, self.right() + 1, self.bottom() + 1)
    }

    pub fn new(x: usize, y: usize, width: usize, height: usize) -> (r: Rect)
        ensures
            r == (Rect { x, y, width, height }),
    {
        Rect { x, y, width, height }
    }

    pub fn get_left(&self) -> (r: usize)
        ensures
            r == self.x,
    {
        self.x
    }

    pub fn get_top(&self) -> (r: usize)
        ensures
            r == self.y,
    {
        self.y
    }

    pub fn get_right(&self) -> (r: usize)
        requires
            self.wf(),
        ensures
            r == self.right(),
    {
        self.x + self.width
    }

    pub fn get_bottom(&self) -> (r: usize)
        requires
            self.wf(),
        ensures
            r == self.bottom(),
    {
        self.y + self.height
    }

    /// The central cell, rounded towards the top-left corner.
    pub fn get_center(&self) -> (c: (usize, usize))
        requires
            self.wf(),
        ensures
            c.0 == self.center_x(),
            c.1 == self.center_y(),
    {
        (self.x + self.width / 2, self.y + self.height / 2)
    }

    /// The half-open extent of the rectangle, or `None` where the cell after
    /// the far corner is not representable.
    pub fn bounds(&self) -> (b: Option<(usize, usize, usize, usize)>)
        requires
            self.wf(),
        ensures
            b.is_some() <==> self.right() < usize::MAX && self.bottom() < usize::MAX,
            b matches Some(e) ==> (e.0 as int, e.1 as int, e.2 as int, e.3 as int)
                == self.extent(),
    {
        let right: usize = self.x + self.width;
        let bottom: usize = self.y + self.height;
        if right < usize::MAX && bottom < usize::MAX {
            Some((self.x, self.y, right + 1, bottom + 1))
        } else {
            None
        }
    }

    pub fn touches_point(&self, px: usize, py: usize) -> (b: bool)
        requires
            self.wf(),
        ensures
            b == self.contains(px as int, py as int),
    {
        !(px > self.get_right() || px < self.get_left() || py > self.get_bottom() || py
            < self.get_top())
    }

    pub fn touches_rect(&self, rect: &Rect) -> (b: bool)
        requires
            self.wf(),
            rect.wf(),
        ensures
            b == self.overlaps(*rect),
    {
        self.x < rect.get_right() && self.get_right() > rect.x && self.y < rect.get_bottom()
            && self.get_bottom() > rect.y
    }
}

/// Two rectangles with a line of cells between them still have one after
/// each has been replaced by a rectangle inside it, and they share no cell.
pub proof fn lemma_within_keeps_apart(a: Rect, b: Rect, inner_a: Rect, inner_b: Rect)
    requires
        a.apart(b),
        inner_a.within(a),
        inner_b.within(b),
    ensures
        inner_a.apart(inner_b),
        inner_a.disjoint(inner_b),
{
}

} // verus!
