//! Corridors between neighbouring rooms: a straight tunnel from the wall of
//! a room to the facing wall of its neighbour, bounded by two lines of wall,
//! with door cells recorded at both ends.

use vstd::prelude::*;
use crate::adjacency::{AdjacencyEdge, Cardinal, adjacency, adjacent_rects};
use crate::grid::{Objects, square, same_shape, in_grid, set_wall};
use crate::rect::Rect;
use crate::shrink::rooms_fit;

verus! {

/// A planned corridor: it starts on the wall of the room it leaves, ends on
/// the wall of the room it leads to, and runs in `direction`.
#[derive(Clone, Copy, Debug, PartialEq, Eq)]
pub struct Corridor {
    pub start: (usize, usize),
    pub end: (usize, usize),
    pub direction: Cardinal,
}

/// The number of door cells at each end of a corridor in a grid of side `size`.
pub open spec fn path_size(size: int) -> int {
    if size / 30 < 1 {
        1
    } else {
        size / 30
    }
}

/// The distance of each wall of a corridor from its middle line.
pub open spec fn half_path_size(size: int) -> int {
    path_size(size) / 2 + 1
}

/// The corridor runs along the y axis.
pub open spec fn runs_vertical(dir: Cardinal) -> bool {
    dir == Cardinal::South || dir == Cardinal::North
}

/// The corridor runs towards higher coordinates.
pub open spec fn runs_forward(dir: Cardinal) -> bool {
    dir == Cardinal::South || dir == Cardinal::East
}

/// The first coordinate of `target` across the corridor.
pub open spec fn span_low(target: Rect, dir: Cardinal) -> int {
    if runs_vertical(dir) {
        target.x as int
    } else {
        target.y as int
    }
}

/// The last coordinate of `target` across the corridor.
pub open spec fn span_high(target: Rect, dir: Cardinal) -> int {
    if runs_vertical(dir) {
        target.right()
    } else {
        target.bottom()
    }
}

/// Where the middle line of the corridor lies before it is aligned: through
/// the centre of the room it leaves.
pub open spec fn source_across(rect: Rect, dir: Cardinal) -> int {
    if runs_vertical(dir) {
        rect.center_x()
    } else {
        rect.center_y()
    }
}

/// The wall of `rect` that the corridor leaves from.
pub open spec fn start_along(rect: Rect, dir: Cardinal) -> int {
    match dir {
        Cardinal::South => rect.bottom(),
        Cardinal::North => rect.y as int,
        Cardinal::East => rect.right(),
        Cardinal::West => rect.x as int,
    }
}

/// The wall of `target` that the corridor arrives at.
pub open spec fn end_along(target: Rect, dir: Cardinal) -> int {
    match dir {
        Cardinal::South => target.y as int,
        Cardinal::North => target.bottom(),
        Cardinal::East => target.x as int,
        Cardinal::West => target.right(),
    }
}

/// The wall that the corridor arrives at is not behind the wall it leaves from.
pub open spec fn faces(rect: Rect, target: Rect, dir: Cardinal) -> bool {
    if runs_forward(dir) {
        start_along(rect, dir) <= end_along(target, dir)
    } else {
        end_along(target, dir) <= start_along(rect, dir)
    }
}

/// Both walls of a corridor with its middle line at `across` lie within the
/// span of `target`.
pub open spec fn contained(target: Rect, dir: Cardinal, across: int, half: int) -> bool {
    span_low(target, dir) <= across - half && across + half <= span_high(target, dir)
}

/// The middle line moved, as little as possible, to where both walls lie
/// within the span of `target`.
pub open spec fn align(target: Rect, dir: Cardinal, across: int, half: int) -> int {
    if across < span_low(target, dir) + half {
        span_low(target, dir) + half
    } else if across > span_high(target, dir) - half {
        span_high(target, dir) - half
    } else {
        across
    }
}

/// The cell with the given coordinates along and across a corridor.
pub open spec fn cell_of(dir: Cardinal, along: int, across: int) -> (usize, usize) {
    if runs_vertical(dir) {
        (across as usize, along as usize)
    } else {
        (along as usize, across as usize)
    }
}

/// The coordinate of a cell along a corridor.
pub open spec fn along_of(dir: Cardinal, cell: (usize, usize)) -> int {
    if runs_vertical(dir) {
        cell.1 as int
    } else {
        cell.0 as int
    }
}

/// The coordinate of a cell across a corridor.
pub open spec fn across_of(dir: Cardinal, cell: (usize, usize)) -> int {
    if runs_vertical(dir) {
        cell.0 as int
    } else {
        cell.1 as int
    }
}

/// The corridor from `rect` to `target`, or `None` where `target` is too
/// narrow to hold both walls or does not face `rect`.
pub open spec fn plan(rect: Rect, target: Rect, dir: Cardinal, half: int) -> Option<Corridor> {
    if span_high(target, dir) - span_low(target, dir) >= 2 * half && faces(rect, target, dir) {
        let across = align(target, dir, source_across(rect, dir), half);
        Some(
            Corridor {
                start: cell_of(dir, start_along(rect, dir), across),
                end: cell_of(dir, end_along(target, dir), across),
                direction: dir,
            },
        )
    } else {
        None
    }
}

/// Both walls of every planned corridor lie within the span of the room it
/// leads to, at the end where it leaves and at the end where it arrives.
pub proof fn lemma_corridor_contained(rect: Rect, target: Rect, dir: Cardinal, half: int)
    requires
        rect.wf(),
        target.wf(),
        half >= 0,
    ensures
        plan(rect, target, dir, half) matches Some(c) ==> contained(
            target,
            dir,
            across_of(dir, c.start),
            half,
        ) && contained(target, dir, across_of(dir, c.end), half),
{
}

/// The cell `(x, y)` is on one of the two walls of the corridor: `half`
/// cells to either side of each cell of the middle line from the start up
/// to, but not with, the end.  Nothing is walled where the start lies in
/// row or column zero.
pub open spec fn on_corridor_wall(c: Corridor, half: int, x: int, y: int) -> bool {
    let dir = c.direction;
    let along = if runs_vertical(dir) {
        y
    } else {
        x
    };
    let across = if runs_vertical(dir) {
        x
    } else {
        y
    };
    &&& across == across_of(dir, c.start) - half || across == across_of(dir, c.start) + half
    &&& along_of(dir, c.start) >= 1 && across_of(dir, c.start) >= 1
    &&& if runs_forward(dir) {
        along_of(dir, c.start) <= along < along_of(dir, c.end)
    } else {
        along_of(dir, c.end) < along <= along_of(dir, c.start)
    }
}

/// Every cell that the corridor walls or records as a door is a cell of a
/// grid of side `size`.
pub open spec fn corridor_fits(c: Corridor, half: int, size: int) -> bool {
    &&& c.start.0 < size && c.start.1 < size && c.end.0 < size && c.end.1 < size
    &&& across_of(c.direction, c.start) == across_of(c.direction, c.end)
    &&& half <= across_of(c.direction, c.start)
    &&& across_of(c.direction, c.start) + half < size
}

/// A corridor planned between two rooms of a grid fits the grid.
pub proof fn lemma_plan_fits(rect: Rect, target: Rect, dir: Cardinal, half: int, size: int)
    requires
        rect.wf(),
        target.wf(),
        rect.fits(size),
        target.fits(size),
        half >= 0,
    ensures
        plan(rect, target, dir, half) matches Some(c) ==> corridor_fits(c, half, size)
            && c.direction == dir,
{
}

/// The door cells of a corridor: for each offset of a band of `count` cells
/// centred on the middle line, the cell at the end and then the cell at the start.
pub open spec fn doors_of(c: Corridor, count: int) -> Seq<(usize, usize)> {
    Seq::new(
        (2 * count) as nat,
        |k: int|
            cell_of(
                c.direction,
                along_of(
                    c.direction,
                    if k % 2 == 0 {
                        c.end
                    } else {
                        c.start
                    },
                ),
                across_of(c.direction, c.start) - count / 2 + k / 2,
            ),
    )
}

/// Plans the corridor from `rect` to `target`: from the wall of `rect` on
/// the side `dir` to the facing wall of `target`, through the centre of
/// `rect`, then moved cell by cell until both walls, `half` cells to either
/// side, lie within the span of `target`.
pub fn plan_corridor(rect: &Rect, target: &Rect, dir: Cardinal, half: usize) -> (c: Option<
    Corridor,
>)
    requires
        rect.wf(),
        target.wf(),
        half <= usize::MAX / 2,
    ensures
        c == plan(*rect, *target, dir, half as int),
{
    let center = rect.get_center();
    let (low, high, mut across, from, to): (usize, usize, usize, usize, usize) = match dir {
        Cardinal::South => (
            target.get_left(),
            target.get_right(),
            center.0,
            rect.get_bottom(),
            target.get_top(),
        ),
        Cardinal::North => (
            target.get_left(),
            target.get_right(),
            center.0,
            rect.get_top(),
            target.get_bottom(),
        ),
        Cardinal::East => (
            target.get_top(),
            target.get_bottom(),
            center.1,
            rect.get_right(),
            target.get_left(),
        ),
        Cardinal::West => (
            target.get_top(),
            target.get_bottom(),
            center.1,
            rect.get_left(),
            target.get_right(),
        ),
    };
    let forward = match dir {
        Cardinal::South => true,
        Cardinal::East => true,
        _ => false,
    };
    if high - low < 2 * half {
        return None;
    }
    if (forward && from > to) || (!forward && to > from) {
        return None;
    }
    let ghost first = across;
    while across < low + half
        invariant
            first <= across <= if first < low + half {
                low + half
            } else {
                first as int
            },
            low + 2 * half <= high,
        decreases low + half - across,
    {
        across += 1;
    }
    let ghost nudged = across;
    while across > high - half
        invariant
            low + 2 * half <= high,
            if nudged > high - half {
                high - half <= across <= nudged
            } else {
                across == nudged
            },
        decreases across,
    {
        across -= 1;
    }
    assert(low == span_low(*target, dir) && high == span_high(*target, dir));
    assert(across == align(*target, dir, first as int, half as int));
    let corridor = match dir {
        Cardinal::South => Corridor { start: (across, from), end: (across, to), direction: dir },
        Cardinal::North => Corridor { start: (across, from), end: (across, to), direction: dir },
        Cardinal::East => Corridor { start: (from, across), end: (to, across), direction: dir },
        Cardinal::West => Corridor { start: (from, across), end: (to, across), direction: dir },
    };
    Some(corridor)
}

/// Draws the two walls of the corridor into `room`.
pub fn carve_corridor(room: &mut Vec<Vec<Objects>>, c: &Corridor, half: usize)
    requires
        square(old(room)@, old(room).len() as int),
        corridor_fits(*c, half as int, old(room).len() as int),
    ensures
        same_shape(old(room)@, final(room)@),
        forall|x: int, y: int| #![trigger final(room)@[y][x]]
            in_grid(old(room)@, x, y) ==> final(room)@[y][x] == if on_corridor_wall(
                *c,
                half as int,
                x,
                y,
            ) {
                Objects::Wall
            } else {
                old(room)@[y][x]
            },
{
    let (vertical, forward): (bool, bool) = match c.direction {
        Cardinal::South => (true, true),
        Cardinal::North => (true, false),
        Cardinal::East => (false, true),
        Cardinal::West => (false, false),
    };
    let (from, to, across): (usize, usize, usize) = if vertical {
        (c.start.1, c.end.1, c.start.0)
    } else {
        (c.start.0, c.end.0, c.start.1)
    };
    let length: usize = if from < 1 || across < 1 {
        0
    } else if forward {
        if from <= to {
            to - from
        } else {
            0
        }
    } else {
        if to <= from {
            from - to
        } else {
            0
        }
    };
    let ghost size = old(room).len() as int;
    let mut k: usize = 0;
    while k < length
        invariant
            k <= length,
            vertical == runs_vertical(c.direction),
            forward == runs_forward(c.direction),
            from == along_of(c.direction, c.start),
            to == along_of(c.direction, c.end),
            across == across_of(c.direction, c.start),
            from < size && to < size,
            half <= across && across + half < size,
            size == old(room).len(),
            square(old(room)@, size),
            same_shape(old(room)@, room@),
            length == if from < 1 || across < 1 {
                0int
            } else if forward {
                if from <= to {
                    to - from
                } else {
                    0int
                }
            } else {
                if to <= from {
                    from - to
                } else {
                    0int
                }
            },
            forall|x: int, y: int| #![trigger room@[y][x]]
                in_grid(old(room)@, x, y) ==> room@[y][x] == if on_corridor_wall(
                    *c,
                    half as int,
                    x,
                    y,
                ) && (if forward {
                    (if vertical {
                        y
                    } else {
                        x
                    }) < from + k
                } else {
                    (if vertical {
                        y
                    } else {
                        x
                    }) > from - k
                }) {
                    Objects::Wall
                } else {
                    old(room)@[y][x]
                },
        decreases length - k,
    {
        let along: usize = if forward {
            from + k
        } else {
            from - k
        };
        if vertical {
            set_wall(room, across + half, along);
            set_wall(room, across - half, along);
        } else {
            set_wall(room, along, across + half);
            set_wall(room, along, across - half);
        }
        k += 1;
    }
}

/// The door cells of the corridor, `count` at each end.
pub fn door_cells(c: &Corridor, count: usize) -> (doors: Vec<(usize, usize)>)
    requires
        count / 2 <= across_of(c.direction, c.start),
        across_of(c.direction, c.start) + count / 2 <= usize::MAX,
    ensures
        doors@ == doors_of(*c, count as int),
{
    let vertical = match c.direction {
        Cardinal::South => true,
        Cardinal::North => true,
        _ => false,
    };
    let mut doors: Vec<(usize, usize)> = Vec::new();
    let mut i: usize = 0;
    while i < count
        invariant
            i <= count,
            vertical == runs_vertical(c.direction),
            count / 2 <= across_of(c.direction, c.start),
            across_of(c.direction, c.start) + count / 2 <= usize::MAX,
            doors@ =~= doors_of(*c, count as int).take(2 * i),
        decreases count - i,
    {
        let ghost before = doors@;
        if vertical {
            doors.push((c.start.0 - count / 2 + i, c.end.1));
            doors.push((c.start.0 - count / 2 + i, c.start.1));
        } else {
            doors.push((c.end.0, c.start.1 - count / 2 + i));
            doors.push((c.start.0, c.start.1 - count / 2 + i));
        }
        proof {
            let all = doors_of(*c, count as int);
            assert(all[2 * i] == doors@[2 * i]);
            assert(all[2 * i + 1] == doors@[2 * i + 1]);
            assert(doors@ =~= all.take(2 * (i + 1)));
        }
        i += 1;
    }
    doors
}

/// Every edge joins two rooms of a list of `count` rooms.
pub open spec fn edges_valid(edges: Seq<AdjacencyEdge>, count: int) -> bool {
    forall|k: int|
        0 <= k < edges.len() ==> (#[trigger] edges[k]).room_index < count
            && edges[k].neighbor_index < count
}

/// The corridor planned for an edge, if any.
pub open spec fn planned(rects: Seq<Rect>, edge: AdjacencyEdge, half: int) -> Option<Corridor> {
    plan(rects[edge.room_index as int], rects[edge.neighbor_index as int], edge.direction, half)
}

/// The cell `(x, y)` is on a wall of the corridor of edge `k`.
pub open spec fn on_wall_of(
    rects: Seq<Rect>,
    edges: Seq<AdjacencyEdge>,
    half: int,
    k: int,
    x: int,
    y: int,
) -> bool {
    0 <= k < edges.len() && planned(rects, edges[k], half).is_some() && on_corridor_wall(
        planned(rects, edges[k], half).unwrap(),
        half,
        x,
        y,
    )
}

/// The cell `(x, y)` is on a wall of the corridor of some edge.
pub open spec fn on_some_corridor(
    rects: Seq<Rect>,
    edges: Seq<AdjacencyEdge>,
    half: int,
    x: int,
    y: int,
) -> bool {
    exists|k: int| on_wall_of(rects, edges, half, k, x, y)
}

/// The door cells of the corridors of all edges, edge after edge.
pub open spec fn all_doors(rects: Seq<Rect>, edges: Seq<AdjacencyEdge>, count: int, half: int)
    -> Seq<(usize, usize)>
    decreases edges.len(),
{
    if edges.len() == 0 {
        Seq::empty()
    } else {
        all_doors(rects, edges.drop_last(), count, half) + match planned(
            rects,
            edges.last(),
            half,
        ) {
            Some(c) => doors_of(c, count),
            None => Seq::empty(),
        }
    }
}

/// All cells of the list are cells of a grid of side `size`.
pub open spec fn cells_in_square(cells: Seq<(usize, usize)>, size: int) -> bool {
    forall|k: int| 0 <= k < cells.len() ==> (#[trigger] cells[k]).0 < size && cells[k].1 < size
}

/// The number of door cells at each end of a corridor.
pub fn door_count(size: usize) -> (count: usize)
    ensures
        count == path_size(size as int),
        count >= 1,
{
    if size / 30 < 1 {
        1
    } else {
        size / 30
    }
}

/// Carves the corridor of each edge into `room`, edge after edge, and
/// returns the door cells of all corridors.  An edge whose corridor cannot
/// be planned leaves the grid as it is and gives no door.
pub fn carve_paths(
    rects: &Vec<Rect>,
    edges: &Vec<AdjacencyEdge>,
    size: usize,
    room: &mut Vec<Vec<Objects>>,
) -> (doors: Vec<(usize, usize)>)
    requires
        square(old(room)@, size as int),
        rooms_fit(rects@, size as int),
        edges_valid(edges@, rects.len() as int),
    ensures
        same_shape(old(room)@, final(room)@),
        forall|x: int, y: int| #![trigger final(room)@[y][x]]
            in_grid(old(room)@, x, y) ==> final(room)@[y][x] == if on_some_corridor(
                rects@,
                edges@,
                half_path_size(size as int),
                x,
                y,
            ) {
                Objects::Wall
            } else {
                old(room)@[y][x]
            },
        doors@ == all_doors(rects@, edges@, path_size(size as int), half_path_size(size as int)),
        cells_in_square(doors@, size as int),
{
    let count: usize = door_count(size);
    let half: usize = count / 2 + 1;
    let mut doors: Vec<(usize, usize)> = Vec::new();
    let mut k: usize = 0;
    while k < edges.len()
        invariant
            k <= edges.len(),
            count == path_size(size as int),
            half == half_path_size(size as int),
            square(old(room)@, size as int),
            rooms_fit(rects@, size as int),
            edges_valid(edges@, rects.len() as int),
            same_shape(old(room)@, room@),
            forall|x: int, y: int| #![trigger room@[y][x]]
                in_grid(old(room)@, x, y) ==> room@[y][x] == if on_some_corridor(
                    rects@,
                    edges@.take(k as int),
                    half as int,
                    x,
                    y,
                ) {
                    Objects::Wall
                } else {
                    old(room)@[y][x]
                },
            doors@ == all_doors(rects@, edges@.take(k as int), count as int, half as int),
            cells_in_square(doors@, size as int),
        decreases edges.len() - k,
    {
        let edge = edges[k];
        let rect = rects[edge.room_index];
        let target = rects[edge.neighbor_index];
        let ghost before = room@;
        let ghost doors0 = doors@;
        let ghost done = edges@.take(k as int);
        let ghost more = edges@.take(k + 1);
        proof {
            lemma_plan_fits(rect, target, edge.direction, half as int, size as int);
            assert(more.drop_last() =~= done);
            assert(more.last() == edge);
        }
        match plan_corridor(&rect, &target, edge.direction, half) {
            Some(c) => {
                carve_corridor(room, &c, half);
                let mut fresh = door_cells(&c, count);
                proof {
                    assert forall|i: int| 0 <= i < fresh@.len() implies (#[trigger] fresh@[i]).0
                        < size && fresh@[i].1 < size by {
                        assert(0 <= i / 2 < count);
                    }
                }
                doors.append(&mut fresh);
                proof {
                    assert forall|i: int| 0 <= i < doors@.len() implies (#[trigger] doors@[i]).0
                        < size && doors@[i].1 < size by {
                        if i < doors0.len() {
                            assert(doors@[i] == doors0[i]);
                        } else {
                            assert(doors@[i] == doors_of(c, count as int)[i - doors0.len()]);
                        }
                    }
                }
            },
            None => {
                proof {
                    assert(doors@ =~= doors0 + Seq::<(usize, usize)>::empty());
                }
            },
        }
        proof {
            assert forall|x: int, y: int| #![trigger room@[y][x]]
                in_grid(old(room)@, x, y) implies room@[y][x] == if on_some_corridor(
                rects@,
                more,
                half as int,
                x,
                y,
            ) {
                Objects::Wall
            } else {
                old(room)@[y][x]
            } by {
                assert(in_grid(before, x, y));
                if on_some_corridor(rects@, done, half as int, x, y) {
                    let j = choose|j: int| on_wall_of(rects@, done, half as int, j, x, y);
                    assert(more[j] == done[j]);
                    assert(on_wall_of(rects@, more, half as int, j, x, y));
                }
                if on_wall_of(rects@, more, half as int, k as int, x, y) {
                    assert(on_some_corridor(rects@, more, half as int, x, y));
                }
                if on_some_corridor(rects@, more, half as int, x, y) {
                    let j = choose|j: int| on_wall_of(rects@, more, half as int, j, x, y);
                    if j < k {
                        assert(more[j] == done[j]);
                        assert(on_wall_of(rects@, done, half as int, j, x, y));
                    }
                }
            }
        }
        k += 1;
    }
    proof {
        assert(edges@.take(edges.len() as int) =~= edges@);
    }
    doors
}

/// Links the rooms: finds the neighbours of each room, carves a corridor
/// for each edge into `room` and returns the door cells.
pub fn paths(
    rects: &Vec<Rect>,
    size: usize,
    room: &mut Vec<Vec<Objects>>,
    allow_multi_edges: bool,
) -> (doors: Vec<(usize, usize)>)
    requires
        square(old(room)@, size as int),
        rooms_fit(rects@, size as int),
    ensures
        same_shape(old(room)@, final(room)@),
        exists|edges: Seq<AdjacencyEdge>| #[trigger]
            adjacency(rects@, size as int, allow_multi_edges, edges) && doors@ == all_doors(
                rects@,
                edges,
                path_size(size as int),
                half_path_size(size as int),
            ) && forall|x: int, y: int| #![trigger final(room)@[y][x]]
                in_grid(old(room)@, x, y) ==> final(room)@[y][x] == if on_some_corridor(
                    rects@,
                    edges,
                    half_path_size(size as int),
                    x,
                    y,
                ) {
                    Objects::Wall
                } else {
                    old(room)@[y][x]
                },
        cells_in_square(doors@, size as int),
{
    let edges = adjacent_rects(rects, size, allow_multi_edges);
    proof {
        assert forall|k: int| 0 <= k < edges@.len() implies (#[trigger] edges@[k]).room_index
            < rects.len() && edges@[k].neighbor_index < rects.len() by {
            crate::adjacency::lemma_records_other(
                rects@,
                size as int,
                allow_multi_edges,
                edges@[k].room_index as int,
                edges@[k].direction,
                edges@[k].neighbor_index as int,
            );
        }
    }
    let doors = carve_paths(rects, &edges, size, room);
    proof {
        assert(adjacency(rects@, size as int, allow_multi_edges, edges@));
    }
    doors
}

} // verus!
