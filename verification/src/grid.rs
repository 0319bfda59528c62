//! The grid of cells that every stage of the generator reads and writes.

use vstd::prelude::*;

verus! {

/// What a cell of the grid holds.
#[derive(Clone, Copy, Debug, PartialEq, Eq, Structural)]
pub enum Objects {
    Air,
    Wall,
}

/// `room` has `size` rows of `size` cells each.
pub open spec fn square(room: Seq<Vec<Objects>>, size: int) -> bool {
    room.len() == size && forall|j: int| 0 <= j < size ==> (#[trigger] room[j]).len() == size
}

/// `after` has the rows of `before`, each of the same length.
pub open spec fn same_shape(before: Seq<Vec<Objects>>, after: Seq<Vec<Objects>>) -> bool {
    after.len() == before.len() && forall|j: int|
        0 <= j < before.len() ==> (#[trigger] after[j]).len() == before[j].len()
}

/// `(x, y)` names a cell of `room`.
pub open spec fn in_grid(room: Seq<Vec<Objects>>, x: int, y: int) -> bool {
    0 <= y < room.len() && 0 <= x < room[y].len()
}

/// `(x, y)` names a cell of `room` that is open.
pub open spec fn is_open(room: Seq<Vec<Objects>>, x: int, y: int) -> bool {
    in_grid(room, x, y) && room[y][x] == Objects::Air
}

/// `(x, y)` names a cell of `room` that is a wall.
pub open spec fn is_wall(room: Seq<Vec<Objects>>, x: int, y: int) -> bool {
    in_grid(room, x, y) && room[y][x] == Objects::Wall
}

/// Every cell of `room` is open.
pub open spec fn all_open(room: Seq<Vec<Objects>>) -> bool {
    forall|x: int, y: int| #![trigger room[y][x]] in_grid(room, x, y) ==> room[y][x] == Objects::Air
}

/// A grid of `size` by `size` open cells.
pub fn new_room(size: usize) -> (room: Vec<Vec<Objects>>)
    ensures
        square(room@, size as int),
        all_open(room@),
{
    let room = vec![vec![Objects::Air; size]; size];
    room
}

/// Whether `point`, given as `(x, y)`, names an open cell of `room`.
pub fn point_valid(point: &(usize, usize), room: &Vec<Vec<Objects>>) -> (b: bool)
    ensures
        b == is_open(room@, point.0 as int, point.1 as int),
{
    if point.1 >= room.len() || point.0 >= room[point.1].len() {
        return false;
    }
    room[point.1][point.0] == Objects::Air
}

/// The four cells next to `point`: below, above, right, left.  At row or
/// column zero the cell itself stands in for the neighbour that is missing.
pub fn cardinals(point: &(usize, usize)) -> (c: [(usize, usize); 4])
    requires
        point.0 < usize::MAX,
        point.1 < usize::MAX,
    ensures
        c[0] == (point.0, (point.1 + 1) as usize),
        c[1] == (point.0, if point.1 == 0 { 0usize } else { (point.1 - 1) as usize }),
        c[2] == ((point.0 + 1) as usize, point.1),
        c[3] == (if point.0 == 0 { 0usize } else { (point.0 - 1) as usize }, point.1),
{
    [
        (point.0, point.1 + 1),
        (point.0, if point.1 == 0 { point.1 } else { point.1 - 1 }),
        (point.0 + 1, point.1),
        (if point.0 == 0 { point.0 } else { point.0 - 1 }, point.1),
    ]
}

/// Turns the cell `(x, y)` into a wall and leaves every other cell as it was.
pub fn set_wall(room: &mut Vec<Vec<Objects>>, x: usize, y: usize)
    requires
        in_grid(old(room)@, x as int, y as int),
    ensures
        same_shape(old(room)@, final(room)@),
        forall|cx: int, cy: int| #![trigger final(room)@[cy][cx]]
            in_grid(old(room)@, cx, cy) ==> final(room)@[cy][cx] == if cx == x && cy == y {
                Objects::Wall
            } else {
                old(room)@[cy][cx]
            },
{
    room[y][x] = Objects::Wall;
}

/// Sets the cell `(x, y)` to `value` and leaves every other cell as it was.
pub fn set_cell(room: &mut Vec<Vec<Objects>>, x: usize, y: usize, value: Objects)
    requires
        in_grid(old(room)@, x as int, y as int),
    ensures
        same_shape(old(room)@, final(room)@),
        forall|cx: int, cy: int| #![trigger final(room)@[cy][cx]]
            in_grid(old(room)@, cx, cy) ==> final(room)@[cy][cx] == if cx == x && cy == y {
                value
            } else {
                old(room)@[cy][cx]
            },
{
    room[y][x] = value;
}

/// `a` and `b` have the same rows of the same cells.
pub open spec fn same_cells(a: Seq<Vec<Objects>>, b: Seq<Vec<Objects>>) -> bool {
    same_shape(a, b) && forall|x: int, y: int| #![trigger b[y][x]]
        in_grid(a, x, y) ==> b[y][x] == a[y][x]
}

/// A copy of `room`.
pub fn copy_room(room: &Vec<Vec<Objects>>) -> (copy: Vec<Vec<Objects>>)
    ensures
        same_cells(room@, copy@),
{
    let mut copy: Vec<Vec<Objects>> = Vec::new();
    let mut y: usize = 0;
    while y < room.len()
        invariant
            y <= room.len(),
            copy.len() == y,
            forall|j: int| 0 <= j < y ==> (#[trigger] copy@[j]).len() == room@[j].len(),
            forall|cx: int, cy: int| #![trigger copy@[cy][cx]]
                0 <= cy < y && 0 <= cx < room@[cy].len() ==> copy@[cy][cx] == room@[cy][cx],
        decreases room.len() - y,
    {
        let mut row: Vec<Objects> = Vec::new();
        let mut x: usize = 0;
        while x < room[y].len()
            invariant
                y < room.len(),
                x <= room@[y as int].len(),
                row.len() == x,
                forall|cx: int| 0 <= cx < x ==> #[trigger] row@[cx] == room@[y as int][cx],
            decreases room@[y as int].len() - x,
        {
            row.push(room[y][x]);
            x += 1;
        }
        copy.push(row);
        y += 1;
    }
    copy
}

} // verus!
