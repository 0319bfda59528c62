//! The way out of the generator: every wall cell of the finished grid
//! becomes a square of the world, to stand there as an obstacle.

use vstd::prelude::*;
use crate::grid::Objects;
use crate::rect::Rect;

verus! {

/// The side of a cell in the world, where the caller has no other in mind.
pub const SQUARE_SIZE: usize = 30;

/// The square of the world that the cell `(x, y)` covers.
pub open spec fn wall_rect(x: int, y: int, cell_size: int) -> Rect {
    Rect {
        x: (x * cell_size) as usize,
        y: (y * cell_size) as usize,
        width: cell_size as usize,
        height: cell_size as usize,
    }
}

/// The squares of the walls among the first `upto` cells of row `y`, from
/// left to right.
pub open spec fn row_walls(row: Seq<Objects>, y: int, cell_size: int, upto: int) -> Seq<Rect>
    decreases upto,
{
    if upto <= 0 {
        Seq::empty()
    } else {
        row_walls(row, y, cell_size, upto - 1) + if row[upto - 1] == Objects::Wall {
            seq![wall_rect(upto - 1, y, cell_size)]
        } else {
            Seq::empty()
        }
    }
}

/// The squares of the walls of the first `rows` rows, row after row.
pub open spec fn grid_walls(room: Seq<Vec<Objects>>, cell_size: int, rows: int) -> Seq<Rect>
    decreases rows,
{
    if rows <= 0 {
        Seq::empty()
    } else {
        grid_walls(room, cell_size, rows - 1) + row_walls(
            room[rows - 1]@,
            rows - 1,
            cell_size,
            room[rows - 1].len() as int,
        )
    }
}

/// The squares of all walls of the grid.
pub open spec fn wall_rects(room: Seq<Vec<Objects>>, cell_size: int) -> Seq<Rect> {
    grid_walls(room, cell_size, room.len() as int)
}

/// The far edge of the last cell of each row and of the last row is
/// representable in the world.
pub open spec fn world_fits(room: Seq<Vec<Objects>>, cell_size: int) -> bool {
    room.len() * cell_size <= usize::MAX && forall|j: int|
        0 <= j < room.len() ==> (#[trigger] room[j]).len() * cell_size <= usize::MAX
}

/// Rendering twice gives the same squares: what is rendered depends on the
/// grid and the cell size alone.
pub proof fn lemma_render_repeatable(
    room: Seq<Vec<Objects>>,
    cell_size: int,
    first: Seq<Rect>,
    second: Seq<Rect>,
)
    requires
        first == wall_rects(room, cell_size),
        second == wall_rects(room, cell_size),
    ensures
        first == second,
        first.to_set() == second.to_set(),
{
}

/// The squares of the world that the walls of `room` cover, each of side
/// `cell_size`, row after row and from left to right.
pub fn load_walls(room: &Vec<Vec<Objects>>, cell_size: usize) -> (walls: Vec<Rect>)
    requires
        world_fits(room@, cell_size as int),
    ensures
        walls@ == wall_rects(room@, cell_size as int),
{
    let mut walls: Vec<Rect> = Vec::new();
    let mut y: usize = 0;
    while y < room.len()
        invariant
            y <= room.len(),
            world_fits(room@, cell_size as int),
            walls@ == grid_walls(room@, cell_size as int, y as int),
        decreases room.len() - y,
    {
        let ghost done = walls@;
        let mut x: usize = 0;
        while x < room[y].len()
            invariant
                y < room.len(),
                x <= room@[y as int].len(),
                world_fits(room@, cell_size as int),
                walls@ == done + row_walls(room@[y as int]@, y as int, cell_size as int, x as int),
            decreases room@[y as int].len() - x,
        {
            let ghost row_done = row_walls(room@[y as int]@, y as int, cell_size as int, x as int);
            if room[y][x] == Objects::Wall {
                proof {
                    let width = room@[y as int].len() as int;
                    let height = room@.len() as int;
                    let c = cell_size as int;
                    assert(0 <= x * c && x * c + c <= width * c) by (nonlinear_arith)
                        requires
                            0 <= x < width,
                            0 <= c,
                    ;
                    assert(0 <= y * c && y * c + c <= height * c) by (nonlinear_arith)
                        requires
                            0 <= y < height,
                            0 <= c,
                    ;
                }
                walls.push(Rect::new(x * cell_size, y * cell_size, cell_size, cell_size));
                proof {
                    assert(walls@ =~= done + (row_done + seq![
                        wall_rect(x as int, y as int, cell_size as int),
                    ]));
                }
            } else {
                proof {
                    assert(walls@ =~= done + (row_done + Seq::<Rect>::empty()));
                }
            }
            x += 1;
        }
        y += 1;
    }
    walls
}

} // verus!
