//! Path search for the creatures of the dungeon: a best-first search over
//! the cells that are no walls, with steps to the eight cells around a cell.

use vstd::prelude::*;
use priority_queue::PriorityQueue;
use std::collections::hash_map::RandomState;
use crate::grid::{Objects, in_grid};
use crate::queue::{Cell, queue_contents, queue_new, queue_push, queue_pop};
use crate::regions::{marked, mask_fits, blank_mask, mark, unmarked};

verus! {

/// A cell of the grid with signed coordinates.
#[derive(Hash, PartialEq, PartialOrd, Eq, Ord, Debug, Clone, Copy, Structural)]
pub struct HashVec2 {
    pub x: i32,
    pub y: i32,
}

/// The largest number of rows and of cells in a row that the search takes:
/// with it the distances between cells stay within `i32`.
pub const SEARCH_LIMIT: usize = 0x4000_0000;

/// The grid has at most `SEARCH_LIMIT` rows of at most `SEARCH_LIMIT` cells.
pub open spec fn grid_small(rooms: Seq<Vec<Objects>>) -> bool {
    rooms.len() <= SEARCH_LIMIT && forall|j: int|
        0 <= j < rooms.len() ==> (#[trigger] rooms[j]).len() <= SEARCH_LIMIT
}

/// `(x, y)` names a cell of the grid that is no wall.
pub open spec fn free(rooms: Seq<Vec<Objects>>, x: int, y: int) -> bool {
    in_grid(rooms, x, y) && rooms[y][x] != Objects::Wall
}

/// One step leads from `(ax, ay)` to `(bx, by)`: to one of the eight cells around.
pub open spec fn king_step(ax: int, ay: int, bx: int, by: int) -> bool {
    -1 <= bx - ax <= 1 && -1 <= by - ay <= 1 && !(ax == bx && ay == by)
}

/// `path` walks over free cells, each one step from the one before.
pub open spec fn is_walk(rooms: Seq<Vec<Objects>>, path: Seq<(int, int)>) -> bool {
    &&& path.len() > 0
    &&& forall|i: int| 0 <= i < path.len() ==> free(rooms, (#[trigger] path[i]).0, path[i].1)
    &&& forall|i: int|
        0 <= i < path.len() - 1 ==> king_step(
            path[i].0,
            path[i].1,
            (#[trigger] path[i + 1]).0,
            path[i + 1].1,
        )
}

/// Some walk leads from `(sx, sy)` to `(x, y)`.
pub open spec fn walk_reaches(rooms: Seq<Vec<Objects>>, sx: int, sy: int, x: int, y: int) -> bool {
    exists|path: Seq<(int, int)>| #[trigger]
        is_walk(rooms, path) && path[0] == (sx, sy) && path.last() == (x, y)
}

/// A free cell reaches itself.
pub proof fn lemma_walk_self(rooms: Seq<Vec<Objects>>, x: int, y: int)
    requires
        free(rooms, x, y),
    ensures
        walk_reaches(rooms, x, y, x, y),
{
    let path = seq![(x, y)];
    assert(is_walk(rooms, path));
    assert(path[0] == (x, y) && path.last() == (x, y));
}

/// What reaches a cell reaches the free cells one step from it.
pub proof fn lemma_walk_step(
    rooms: Seq<Vec<Objects>>,
    sx: int,
    sy: int,
    x: int,
    y: int,
    nx: int,
    ny: int,
)
    requires
        walk_reaches(rooms, sx, sy, x, y),
        king_step(x, y, nx, ny),
        free(rooms, nx, ny),
    ensures
        walk_reaches(rooms, sx, sy, nx, ny),
{
    let path = choose|path: Seq<(int, int)>| #[trigger]
        is_walk(rooms, path) && path[0] == (sx, sy) && path.last() == (x, y);
    let longer = path.push((nx, ny));
    assert forall|i: int| 0 <= i < longer.len() implies free(
        rooms,
        (#[trigger] longer[i]).0,
        longer[i].1,
    ) by {
        if i < path.len() {
            assert(longer[i] == path[i]);
        }
    }
    assert forall|i: int| 0 <= i < longer.len() - 1 implies king_step(
        longer[i].0,
        longer[i].1,
        (#[trigger] longer[i + 1]).0,
        longer[i + 1].1,
    ) by {
        if i < path.len() - 1 {
            assert(longer[i] == path[i]);
            assert(longer[i + 1] == path[i + 1]);
        } else {
            assert(longer[i] == path.last());
        }
    }
    assert(is_walk(rooms, longer));
    assert(longer[0] == (sx, sy) && longer.last() == (nx, ny));
}

/// A set of cells that holds the start and with each of its cells the free
/// cells one step from it holds all that the start reaches.
proof fn lemma_closed_holds_walk(
    rooms: Seq<Vec<Objects>>,
    cells: Set<(int, int)>,
    path: Seq<(int, int)>,
)
    requires
        is_walk(rooms, path),
        cells.contains(path[0]),
        forall|x: int, y: int, nx: int, ny: int|
            #![trigger cells.contains((x, y)), cells.contains((nx, ny))]
            cells.contains((x, y)) && king_step(x, y, nx, ny) && free(rooms, nx, ny)
                ==> cells.contains((nx, ny)),
    ensures
        cells.contains(path.last()),
    decreases path.len(),
{
    if path.len() > 1 {
        let shorter = path.drop_last();
        assert forall|i: int| 0 <= i < shorter.len() implies free(
            rooms,
            (#[trigger] shorter[i]).0,
            shorter[i].1,
        ) by {
            assert(shorter[i] == path[i]);
        }
        assert forall|i: int| 0 <= i < shorter.len() - 1 implies king_step(
            shorter[i].0,
            shorter[i].1,
            (#[trigger] shorter[i + 1]).0,
            shorter[i + 1].1,
        ) by {
            assert(shorter[i] == path[i]);
            assert(shorter[i + 1] == path[i + 1]);
        }
        assert(shorter[0] == path[0]);
        lemma_closed_holds_walk(rooms, cells, shorter);
        let n = path.len() - 1;
        let a = path[n - 1];
        let b = path[n];
        assert(shorter.last() == a);
        assert(king_step(path[n - 1].0, path[n - 1].1, path[n - 1 + 1].0, path[n - 1 + 1].1));
        assert(free(rooms, b.0, b.1));
        assert(cells.contains((a.0, a.1)));
        assert(cells.contains((b.0, b.1)));
    }
}

impl HashVec2 {
    pub fn new(x: i32, y: i32) -> (v: HashVec2)
        ensures
            v == (HashVec2 { x, y }),
    {
        HashVec2 { x, y }
    }

    /// The free cells one step from this cell, in the order east, west,
    /// south, north, south-east, south-west, north-east, north-west.
    pub fn directions(&self, rooms: &Vec<Vec<Objects>>) -> (around: Vec<HashVec2>)
        requires
            i32::MIN < self.x < i32::MAX,
            i32::MIN < self.y < i32::MAX,
        ensures
            around@ == neighbours(rooms@, self.x as int, self.y as int, 8),
    {
        let steps: [(i32, i32); 8] = [
            (1, 0),
            (-1, 0),
            (0, 1),
            (0, -1),
            (1, 1),
            (-1, 1),
            (1, -1),
            (-1, -1),
        ];
        let mut around: Vec<HashVec2> = Vec::new();
        let mut k: usize = 0;
        while k < 8
            invariant
                k <= 8,
                i32::MIN < self.x < i32::MAX,
                i32::MIN < self.y < i32::MAX,
                forall|i: int| 0 <= i < 8 ==> #[trigger] steps@[i] == offsets()[i],
                around@ == neighbours(rooms@, self.x as int, self.y as int, k as int),
            decreases 8 - k,
        {
            let step = steps[k];
            let pos = HashVec2::new(self.x + step.0, self.y + step.1);
            if pos_valid(&pos, rooms) {
                around.push(pos);
            }
            proof {
                assert(steps@[k as int] == offsets()[k as int]);
                assert(around@ =~= neighbours(rooms@, self.x as int, self.y as int, k + 1));
            }
            k += 1;
        }
        around
    }
}

/// The steps to the eight cells around a cell, in the order in which
/// `directions` tries them.
pub open spec fn offsets() -> Seq<(i32, i32)> {
    seq![
        (1i32, 0i32),
        (-1i32, 0i32),
        (0i32, 1i32),
        (0i32, -1i32),
        (1i32, 1i32),
        (-1i32, 1i32),
        (1i32, -1i32),
        (-1i32, -1i32),
    ]
}

/// The free cells among those that the first `upto` steps lead to from `(x, y)`.
pub open spec fn neighbours(rooms: Seq<Vec<Objects>>, x: int, y: int, upto: int) -> Seq<HashVec2>
    decreases upto,
{
    if upto <= 0 {
        Seq::empty()
    } else {
        let step = offsets()[upto - 1];
        neighbours(rooms, x, y, upto - 1) + if free(rooms, x + step.0, y + step.1) {
            seq![HashVec2 { x: (x + step.0) as i32, y: (y + step.1) as i32 }]
        } else {
            Seq::empty()
        }
    }
}

/// Whether `pos` names a cell of the grid that is no wall.
pub fn pos_valid(pos: &HashVec2, rooms: &Vec<Vec<Objects>>) -> (b: bool)
    ensures
        b == free(rooms@, pos.x as int, pos.y as int),
{
    if pos.x < 0 || pos.y < 0 {
        return false;
    }
    let x: usize = pos.x as usize;
    let y: usize = pos.y as usize;
    if y >= rooms.len() || x >= rooms[y].len() {
        return false;
    }
    rooms[y][x] != Objects::Wall
}

/// The distance between two cells along the axes.
pub open spec fn manhattan(ax: int, ay: int, bx: int, by: int) -> int {
    (if ax >= bx {
        ax - bx
    } else {
        bx - ax
    }) + (if ay >= by {
        ay - by
    } else {
        by - ay
    })
}

/// The priority of a cell in the search: the closer to the goal, the greater.
pub fn manhattan_heuristic(pos: &HashVec2, goal: &HashVec2) -> (h: i32)
    requires
        manhattan(pos.x as int, pos.y as int, goal.x as int, goal.y as int) <= i32::MAX,
    ensures
        h == -manhattan(pos.x as int, pos.y as int, goal.x as int, goal.y as int),
{
    let x_dis: i64 = if pos.x >= goal.x {
        pos.x as i64 - goal.x as i64
    } else {
        goal.x as i64 - pos.x as i64
    };
    let y_dis: i64 = if pos.y >= goal.y {
        pos.y as i64 - goal.y as i64
    } else {
        goal.y as i64 - pos.y as i64
    };
    (-(x_dis + y_dis)) as i32
}

/// The cells that `directions` returns are the free cells one step away.
pub proof fn lemma_neighbours(rooms: Seq<Vec<Objects>>, x: int, y: int)
    requires
        i32::MIN < x < i32::MAX,
        i32::MIN < y < i32::MAX,
    ensures
        forall|k: int|
            0 <= k < neighbours(rooms, x, y, 8).len() ==> {
                let n = #[trigger] neighbours(rooms, x, y, 8)[k];
                free(rooms, n.x as int, n.y as int) && king_step(x, y, n.x as int, n.y as int)
            },
        forall|nx: int, ny: int|
            king_step(x, y, nx, ny) && free(rooms, nx, ny) ==> #[trigger] neighbours(
                rooms,
                x,
                y,
                8,
            ).contains(HashVec2 { x: nx as i32, y: ny as i32 }),
{
    reveal_with_fuel(neighbours, 9);
    assert(offsets()[0] == (1i32, 0i32) && offsets()[1] == (-1i32, 0i32) && offsets()[2] == (
        0i32,
        1i32,
    ) && offsets()[3] == (0i32, -1i32) && offsets()[4] == (1i32, 1i32) && offsets()[5] == (
        -1i32,
        1i32,
    ) && offsets()[6] == (1i32, -1i32) && offsets()[7] == (-1i32, -1i32));
    lemma_neighbours_upto(rooms, x, y, 8);
}

/// The same for the first `upto` steps.
proof fn lemma_neighbours_upto(rooms: Seq<Vec<Objects>>, x: int, y: int, upto: int)
    requires
        i32::MIN < x < i32::MAX,
        i32::MIN < y < i32::MAX,
        0 <= upto <= 8,
    ensures
        forall|k: int|
            0 <= k < neighbours(rooms, x, y, upto).len() ==> {
                let n = #[trigger] neighbours(rooms, x, y, upto)[k];
                free(rooms, n.x as int, n.y as int) && king_step(x, y, n.x as int, n.y as int)
            },
        forall|j: int|
            0 <= j < upto && free(rooms, x + offsets()[j].0, y + offsets()[j].1) ==> neighbours(
                rooms,
                x,
                y,
                upto,
            ).contains(
                HashVec2 { x: (x + (#[trigger] offsets()[j]).0) as i32, y: (y + offsets()[j].1) as i32 },
            ),
        forall|nx: int, ny: int|
            king_step(x, y, nx, ny) ==> exists|j: int|
                0 <= j < 8 && nx == x + (#[trigger] offsets()[j]).0 && ny == y + offsets()[j].1,
    decreases upto,
{
    assert forall|nx: int, ny: int| king_step(x, y, nx, ny) implies exists|j: int|
        0 <= j < 8 && nx == x + (#[trigger] offsets()[j]).0 && ny == y + offsets()[j].1 by {
        let dx = nx - x;
        let dy = ny - y;
        let j: int = if dx == 1 && dy == 0 {
            0
        } else if dx == -1 && dy == 0 {
            1
        } else if dx == 0 && dy == 1 {
            2
        } else if dx == 0 && dy == -1 {
            3
        } else if dx == 1 && dy == 1 {
            4
        } else if dx == -1 && dy == 1 {
            5
        } else if dx == 1 && dy == -1 {
            6
        } else {
            7
        };
        assert(nx == x + offsets()[j].0 && ny == y + offsets()[j].1);
    }
    if upto > 0 {
        lemma_neighbours_upto(rooms, x, y, upto - 1);
        let before = neighbours(rooms, x, y, upto - 1);
        let all = neighbours(rooms, x, y, upto);
        let step = offsets()[upto - 1];
        assert(-1 <= step.0 <= 1 && -1 <= step.1 <= 1 && !(step.0 == 0 && step.1 == 0));
        assert forall|k: int| 0 <= k < all.len() implies {
            let n = #[trigger] all[k];
            free(rooms, n.x as int, n.y as int) && king_step(x, y, n.x as int, n.y as int)
        } by {
            if k < before.len() {
                assert(all[k] == before[k]);
            }
        }
        assert forall|j: int|
            0 <= j < upto && free(rooms, x + offsets()[j].0, y + offsets()[j].1) implies all.contains(
            HashVec2 { x: (x + (#[trigger] offsets()[j]).0) as i32, y: (y + offsets()[j].1) as i32 },
        ) by {
            let cell = HashVec2 { x: (x + offsets()[j].0) as i32, y: (y + offsets()[j].1) as i32 };
            if j < upto - 1 {
                assert(before.contains(cell));
                let k = choose|k: int| 0 <= k < before.len() && before[k] == cell;
                assert(all[k] == cell);
            } else {
                assert(all[all.len() - 1] == cell);
            }
        }
    }
}

/// `parents` has an entry for each cell of `rooms`.
pub open spec fn parents_fit(parents: Seq<Vec<Option<HashVec2>>>, rooms: Seq<Vec<Objects>>) -> bool {
    parents.len() == rooms.len() && forall|j: int|
        0 <= j < rooms.len() ==> (#[trigger] parents[j]).len() == rooms[j].len()
}

/// The cell from which the search came to `(x, y)` first, if it came there.
pub open spec fn parent_of(parents: Seq<Vec<Option<HashVec2>>>, x: int, y: int) -> Option<
    HashVec2,
> {
    if 0 <= y < parents.len() && 0 <= x < parents[y].len() {
        parents[y][x]
    } else {
        None
    }
}

/// The cell `(x, y)` is one of the list.
pub open spec fn listed(cells: Seq<HashVec2>, x: int, y: int) -> bool {
    exists|k: int| 0 <= k < cells.len() && (#[trigger] cells[k]).x == x && cells[k].y == y
}

/// What the search knows of the cells it has left behind: each is free and
/// not the goal, and each but the start was first come to from a cell that
/// was left behind earlier.
spec fn trail_state(
    rooms: Seq<Vec<Objects>>,
    start: (int, int),
    goal: (int, int),
    explored: Seq<Vec<bool>>,
    parents: Seq<Vec<Option<HashVec2>>>,
    rank: Map<(int, int), nat>,
    clock: nat,
) -> bool {
    &&& grid_small(rooms)
    &&& mask_fits(explored, rooms)
    &&& parents_fit(parents, rooms)
    &&& forall|x: int, y: int| #[trigger]
        marked(explored, x, y) ==> free(rooms, x, y) && (x, y) != goal && rank.dom().contains(
            (x, y),
        ) && rank[(x, y)] < clock && ((x, y) == start || parent_of(parents, x, y).is_some())
    &&& forall|x: int, y: int|
        (#[trigger] parent_of(parents, x, y)).is_some() ==> {
            let p = parent_of(parents, x, y).unwrap();
            &&& marked(explored, p.x as int, p.y as int)
            &&& king_step(p.x as int, p.y as int, x, y)
            &&& free(rooms, x, y)
            &&& marked(explored, x, y) && (x, y) != start ==> rank[(p.x as int, p.y as int)]
                < rank[(x, y)]
        }
}

/// What holds of the search between two steps.
spec fn search_state(
    rooms: Seq<Vec<Objects>>,
    start: (int, int),
    goal: (int, int),
    explored: Seq<Vec<bool>>,
    parents: Seq<Vec<Option<HashVec2>>>,
    queue: Map<Cell, i32>,
    rank: Map<(int, int), nat>,
    clock: nat,
) -> bool {
    &&& trail_state(rooms, start, goal, explored, parents, rank, clock)
    &&& queue.dom().finite()
    &&& forall|c: Cell| #[trigger]
        queue.dom().contains(c) ==> free(rooms, c.0 as int, c.1 as int) && walk_reaches(
            rooms,
            start.0,
            start.1,
            c.0 as int,
            c.1 as int,
        ) && ((c.0 as int, c.1 as int) == start || parent_of(
            parents,
            c.0 as int,
            c.1 as int,
        ).is_some())
    &&& forall|x: int, y: int| #[trigger]
        marked(explored, x, y) ==> walk_reaches(rooms, start.0, start.1, x, y)
    &&& forall|x: int, y: int, nx: int, ny: int|
        #![trigger marked(explored, x, y), king_step(x, y, nx, ny)]
        marked(explored, x, y) && king_step(x, y, nx, ny) && free(rooms, nx, ny) ==> marked(
            explored,
            nx,
            ny,
        ) || queue.dom().contains((nx as i32, ny as i32))
    &&& free(rooms, start.0, start.1)
    &&& marked(explored, start.0, start.1) || queue.dom().contains(
        (start.0 as i32, start.1 as i32),
    )
}

/// With nothing left in the queue the search has left behind all that the
/// start reaches, and the goal is not among it.
proof fn lemma_search_exhausted(
    rooms: Seq<Vec<Objects>>,
    start: (int, int),
    goal: (int, int),
    explored: Seq<Vec<bool>>,
    parents: Seq<Vec<Option<HashVec2>>>,
    queue: Map<Cell, i32>,
    rank: Map<(int, int), nat>,
    clock: nat,
)
    requires
        search_state(rooms, start, goal, explored, parents, queue, rank, clock),
        queue == Map::<Cell, i32>::empty(),
    ensures
        !walk_reaches(rooms, start.0, start.1, goal.0, goal.1),
{
    if walk_reaches(rooms, start.0, start.1, goal.0, goal.1) {
        let path = choose|path: Seq<(int, int)>| #[trigger]
            is_walk(rooms, path) && path[0] == start && path.last() == goal;
        let cells = Set::new(|c: (int, int)| marked(explored, c.0, c.1));
        assert forall|x: int, y: int, nx: int, ny: int|
            #![trigger cells.contains((x, y)), cells.contains((nx, ny))]
            cells.contains((x, y)) && king_step(x, y, nx, ny) && free(
                rooms,
                nx,
                ny,
            ) implies cells.contains((nx, ny)) by {
            assert(marked(explored, x, y));
            assert(king_step(x, y, nx, ny));
            assert(!queue.dom().contains((nx as i32, ny as i32)));
        }
        assert(!queue.dom().contains((start.0 as i32, start.1 as i32)));
        assert(cells.contains(path[0]));
        lemma_closed_holds_walk(rooms, cells, path);
        assert(marked(explored, goal.0, goal.1));
    }
}

/// The state after an item was taken from the queue that the search had
/// left behind already.
proof fn lemma_search_skip(
    rooms: Seq<Vec<Objects>>,
    start: (int, int),
    goal: (int, int),
    explored: Seq<Vec<bool>>,
    parents: Seq<Vec<Option<HashVec2>>>,
    queue: Map<Cell, i32>,
    rank: Map<(int, int), nat>,
    clock: nat,
    item: Cell,
)
    requires
        search_state(rooms, start, goal, explored, parents, queue, rank, clock),
        queue.dom().contains(item),
        marked(explored, item.0 as int, item.1 as int),
    ensures
        search_state(rooms, start, goal, explored, parents, queue.remove(item), rank, clock),
        queue.remove(item).dom().len() < queue.dom().len(),
{
    let rest = queue.remove(item);
    assert forall|x: int, y: int, nx: int, ny: int|
        #![trigger marked(explored, x, y), king_step(x, y, nx, ny)]
        marked(explored, x, y) && king_step(x, y, nx, ny) && free(rooms, nx, ny) implies marked(
        explored,
        nx,
        ny,
    ) || rest.dom().contains((nx as i32, ny as i32)) by {
        if !marked(explored, nx, ny) {
            assert(queue.dom().contains((nx as i32, ny as i32)));
            assert((nx as i32, ny as i32) != item);
        }
    }
    assert(rest.dom() =~= queue.dom().remove(item));
}

/// The state after an item was taken from the queue and left behind, and
/// the free cells around it were put into the queue.
proof fn lemma_search_explore(
    rooms: Seq<Vec<Objects>>,
    start: (int, int),
    goal: (int, int),
    explored0: Seq<Vec<bool>>,
    explored1: Seq<Vec<bool>>,
    parents0: Seq<Vec<Option<HashVec2>>>,
    parents1: Seq<Vec<Option<HashVec2>>>,
    queue0: Map<Cell, i32>,
    queue1: Map<Cell, i32>,
    rank: Map<(int, int), nat>,
    clock: nat,
    item: Cell,
    around: Seq<HashVec2>,
)
    requires
        search_state(rooms, start, goal, explored0, parents0, queue0, rank, clock),
        queue0.dom().contains(item),
        !marked(explored0, item.0 as int, item.1 as int),
        (item.0 as int, item.1 as int) != goal,
        mask_fits(explored1, rooms),
        parents_fit(parents1, rooms),
        forall|x: int, y: int| #[trigger]
            marked(explored1, x, y) == (marked(explored0, x, y) || (x == item.0 && y == item.1)),
        around == neighbours(rooms, item.0 as int, item.1 as int, 8),
        queue1.dom().finite(),
        forall|c: Cell| #[trigger]
            queue1.dom().contains(c) <==> (queue0.dom().contains(c) && c != item) || listed(
                around,
                c.0 as int,
                c.1 as int,
            ),
        forall|x: int, y: int| #[trigger]
            parent_of(parents1, x, y) == if parent_of(parents0, x, y).is_none() && listed(
                around,
                x,
                y,
            ) {
                Some(HashVec2 { x: item.0, y: item.1 })
            } else {
                parent_of(parents0, x, y)
            },
    ensures
        search_state(
            rooms,
            start,
            goal,
            explored1,
            parents1,
            queue1,
            rank.insert((item.0 as int, item.1 as int), clock),
            clock + 1,
        ),
{
    let ix = item.0 as int;
    let iy = item.1 as int;
    let rank1 = rank.insert((ix, iy), clock);
    assert(free(rooms, ix, iy));
    lemma_neighbours(rooms, ix, iy);
    assert forall|x: int, y: int| listed(around, x, y) implies free(rooms, x, y) && king_step(
        ix,
        iy,
        x,
        y,
    ) by {
        let k = choose|k: int| 0 <= k < around.len() && (#[trigger] around[k]).x == x && around[k].y
            == y;
    }
    assert forall|x: int, y: int| #[trigger] marked(explored1, x, y) implies free(rooms, x, y) && (
    x,
    y,
    ) != goal && rank1.dom().contains((x, y)) && rank1[(x, y)] < clock + 1 && ((x, y) == start
        || parent_of(parents1, x, y).is_some()) && walk_reaches(rooms, start.0, start.1, x, y) by {
        if x == ix && y == iy {
        } else {
            assert(marked(explored0, x, y));
        }
    }
    assert forall|x: int, y: int| (#[trigger] parent_of(parents1, x, y)).is_some() implies {
        let p = parent_of(parents1, x, y).unwrap();
        &&& marked(explored1, p.x as int, p.y as int)
        &&& king_step(p.x as int, p.y as int, x, y)
        &&& free(rooms, x, y)
        &&& marked(explored1, x, y) && (x, y) != start ==> rank1[(p.x as int, p.y as int)] < rank1[(
            x,
            y,
        )]
    } by {
        let p = parent_of(parents1, x, y).unwrap();
        if parent_of(parents0, x, y).is_none() {
            assert(listed(around, x, y));
            assert(p.x == item.0 && p.y == item.1);
            if marked(explored1, x, y) && (x, y) != start {
                if x == ix && y == iy {
                } else {
                    assert(marked(explored0, x, y));
                }
            }
        } else {
            assert(marked(explored0, p.x as int, p.y as int));
            if marked(explored1, x, y) && (x, y) != start {
                if x == ix && y == iy {
                } else {
                    assert(marked(explored0, x, y));
                }
            }
        }
    }
    assert forall|c: Cell| #[trigger] queue1.dom().contains(c) implies free(
        rooms,
        c.0 as int,
        c.1 as int,
    ) && walk_reaches(rooms, start.0, start.1, c.0 as int, c.1 as int) && ((c.0 as int, c.1 as int)
        == start || parent_of(parents1, c.0 as int, c.1 as int).is_some()) by {
        if queue0.dom().contains(c) && c != item {
        } else {
            assert(listed(around, c.0 as int, c.1 as int));
            lemma_walk_step(rooms, start.0, start.1, ix, iy, c.0 as int, c.1 as int);
        }
    }
    assert forall|x: int, y: int, nx: int, ny: int|
        #![trigger marked(explored1, x, y), king_step(x, y, nx, ny)]
        marked(explored1, x, y) && king_step(x, y, nx, ny) && free(rooms, nx, ny) implies marked(
        explored1,
        nx,
        ny,
    ) || queue1.dom().contains((nx as i32, ny as i32)) by {
        if x == ix && y == iy {
            let cell = HashVec2 { x: nx as i32, y: ny as i32 };
            assert(neighbours(rooms, ix, iy, 8).contains(cell));
            let k = choose|k: int| 0 <= k < around.len() && around[k] == cell;
            assert(around[k].x == nx && around[k].y == ny);
            assert(listed(around, nx, ny));
        } else {
            assert(marked(explored0, x, y));
            if !marked(explored0, nx, ny) {
                assert(queue0.dom().contains((nx as i32, ny as i32)));
            }
        }
    }
    if !marked(explored1, start.0, start.1) {
        assert(queue0.dom().contains((start.0 as i32, start.1 as i32)));
    }
}

/// A table for `rooms` in which no cell has a parent.
fn blank_parents(rooms: &Vec<Vec<Objects>>) -> (parents: Vec<Vec<Option<HashVec2>>>)
    ensures
        parents_fit(parents@, rooms@),
        forall|x: int, y: int| parent_of(parents@, x, y).is_none(),
{
    let mut parents: Vec<Vec<Option<HashVec2>>> = Vec::new();
    let mut j: usize = 0;
    while j < rooms.len()
        invariant
            j <= rooms.len(),
            parents.len() == j,
            forall|i: int| 0 <= i < j ==> (#[trigger] parents@[i]).len() == rooms@[i].len(),
            forall|i: int, x: int|
                0 <= i < j && 0 <= x < parents@[i].len() ==> (#[trigger] parents@[i]@[x]).is_none(),
        decreases rooms.len() - j,
    {
        let mut row: Vec<Option<HashVec2>> = Vec::new();
        let mut x: usize = 0;
        while x < rooms[j].len()
            invariant
                j < rooms.len(),
                x <= rooms@[j as int].len(),
                row.len() == x,
                forall|i: int| 0 <= i < x ==> (#[trigger] row@[i]).is_none(),
            decreases rooms@[j as int].len() - x,
        {
            row.push(None);
            x += 1;
        }
        parents.push(row);
        j += 1;
    }
    parents
}

/// Records `parent` as the parent of the cell `(x, y)`.
fn set_parent(parents: &mut Vec<Vec<Option<HashVec2>>>, x: usize, y: usize, parent: HashVec2)
    requires
        y < old(parents).len(),
        x < old(parents)[y as int].len(),
    ensures
        final(parents).len() == old(parents).len(),
        forall|j: int|
            0 <= j < old(parents).len() ==> (#[trigger] final(parents)[j]).len() == old(
                parents,
            )[j].len(),
        forall|cx: int, cy: int| #[trigger]
            parent_of(final(parents)@, cx, cy) == if cx == x && cy == y {
                Some(parent)
            } else {
                parent_of(old(parents)@, cx, cy)
            },
{
    parents[y][x] = Some(parent);
}

/// Puts the cells of `around` into the queue, each with its priority, and
/// records `item` as the parent of those that have none yet.
fn expand(
    item: HashVec2,
    around: &Vec<HashVec2>,
    goal: &HashVec2,
    rooms: &Vec<Vec<Objects>>,
    queue: &mut PriorityQueue<Cell, i32, RandomState>,
    parents: &mut Vec<Vec<Option<HashVec2>>>,
)
    requires
        grid_small(rooms@),
        parents_fit(old(parents)@, rooms@),
        free(rooms@, goal.x as int, goal.y as int),
        forall|k: int|
            0 <= k < around.len() ==> free(rooms@, (#[trigger] around@[k]).x as int, around@[k].y as int),
        queue_contents(*old(queue)).dom().finite(),
    ensures
        parents_fit(final(parents)@, rooms@),
        queue_contents(*final(queue)).dom().finite(),
        forall|c: Cell| #[trigger]
            queue_contents(*final(queue)).dom().contains(c) <==> queue_contents(
                *old(queue),
            ).dom().contains(c) || listed(around@, c.0 as int, c.1 as int),
        forall|x: int, y: int| #[trigger]
            parent_of(final(parents)@, x, y) == if parent_of(old(parents)@, x, y).is_none()
                && listed(around@, x, y) {
                Some(item)
            } else {
                parent_of(old(parents)@, x, y)
            },
{
    let mut k: usize = 0;
    while k < around.len()
        invariant
            k <= around.len(),
            grid_small(rooms@),
            parents_fit(parents@, rooms@),
            free(rooms@, goal.x as int, goal.y as int),
            forall|i: int|
                0 <= i < around.len() ==> free(
                    rooms@,
                    (#[trigger] around@[i]).x as int,
                    around@[i].y as int,
                ),
            queue_contents(*queue).dom().finite(),
            forall|c: Cell| #[trigger]
                queue_contents(*queue).dom().contains(c) <==> queue_contents(
                    *old(queue),
                ).dom().contains(c) || listed(around@.take(k as int), c.0 as int, c.1 as int),
            forall|x: int, y: int| #[trigger]
                parent_of(parents@, x, y) == if parent_of(old(parents)@, x, y).is_none() && listed(
                    around@.take(k as int),
                    x,
                    y,
                ) {
                    Some(item)
                } else {
                    parent_of(old(parents)@, x, y)
                },
        decreases around.len() - k,
    {
        let child = around[k];
        let ghost done = around@.take(k as int);
        let ghost more = around@.take(k + 1);
        let ghost queue0 = queue_contents(*queue);
        let ghost parents0 = parents@;
        queue_push(queue, (child.x, child.y), manhattan_heuristic(&child, goal));
        let x: usize = child.x as usize;
        let y: usize = child.y as usize;
        if parents[y][x].is_none() {
            set_parent(parents, x, y, item);
        }
        proof {
            assert(more[k as int] == child);
            assert forall|cx: int, cy: int| listed(more, cx, cy) <==> listed(done, cx, cy) || (cx
                == child.x && cy == child.y) by {
                if listed(done, cx, cy) {
                    let i = choose|i: int|
                        0 <= i < done.len() && (#[trigger] done[i]).x == cx && done[i].y == cy;
                    assert(more[i] == done[i]);
                }
                if listed(more, cx, cy) {
                    let i = choose|i: int|
                        0 <= i < more.len() && (#[trigger] more[i]).x == cx && more[i].y == cy;
                    if i < k {
                        assert(done[i] == more[i]);
                    }
                }
            }
            assert(queue_contents(*queue).dom() =~= queue0.dom().insert((child.x, child.y)));
            assert forall|c: Cell| #[trigger]
                queue_contents(*queue).dom().contains(c) <==> queue_contents(
                    *old(queue),
                ).dom().contains(c) || listed(more, c.0 as int, c.1 as int) by {
                assert(queue0.dom().contains(c) <==> queue_contents(*old(queue)).dom().contains(c)
                    || listed(done, c.0 as int, c.1 as int));
            }
            assert forall|cx: int, cy: int| #[trigger]
                parent_of(parents@, cx, cy) == if parent_of(old(parents)@, cx, cy).is_none()
                    && listed(more, cx, cy) {
                    Some(item)
                } else {
                    parent_of(old(parents)@, cx, cy)
                } by {
            }
        }
        k += 1;
    }
    proof {
        assert(around@.take(around.len() as int) =~= around@);
    }
}

/// The path is a route from `start` to `goal`: it ends at the goal, walks
/// over free cells, and begins one step from the start, or is the goal alone
/// where that is the start.
pub open spec fn route(rooms: Seq<Vec<Objects>>, start: HashVec2, goal: HashVec2, path: Seq<HashVec2>)
    -> bool {
    &&& path.len() > 0
    &&& path.last() == goal
    &&& forall|i: int|
        0 <= i < path.len() ==> free(rooms, (#[trigger] path[i]).x as int, path[i].y as int)
    &&& forall|i: int|
        0 <= i < path.len() - 1 ==> king_step(
            path[i].x as int,
            path[i].y as int,
            (#[trigger] path[i + 1]).x as int,
            path[i + 1].y as int,
        )
    &&& if start == goal {
        path.len() == 1
    } else {
        king_step(start.x as int, start.y as int, path[0].x as int, path[0].y as int)
    }
}

/// Searches a way from `start` to `goal` over the cells that are no walls,
/// taking first the cell that lies closest to the goal.  Returns the cells
/// of the way after the start, the goal the last of them, or `None` where no
/// walk leads from the start to the goal.
pub fn astar(start: HashVec2, goal: HashVec2, rooms: &Vec<Vec<Objects>>) -> (found: Option<
    Vec<HashVec2>,
>)
    requires
        grid_small(rooms@),
    ensures
        found.is_some() <==> walk_reaches(
            rooms@,
            start.x as int,
            start.y as int,
            goal.x as int,
            goal.y as int,
        ),
        found matches Some(path) ==> route(rooms@, start, goal, path@),
{
    let ghost s = (start.x as int, start.y as int);
    let ghost g = (goal.x as int, goal.y as int);
    if !pos_valid(&start, rooms) || !pos_valid(&goal, rooms) {
        proof {
            if walk_reaches(rooms@, s.0, s.1, g.0, g.1) {
                let path = choose|path: Seq<(int, int)>| #[trigger]
                    is_walk(rooms@, path) && path[0] == s && path.last() == g;
                assert(free(rooms@, path[0].0, path[0].1));
                assert(free(rooms@, path[path.len() - 1].0, path[path.len() - 1].1));
            }
        }
        return None;
    }
    if start == goal {
        proof {
            lemma_walk_self(rooms@, s.0, s.1);
        }
        let mut alone: Vec<HashVec2> = Vec::new();
        alone.push(goal);
        return Some(alone);
    }
    let mut parents = blank_parents(rooms);
    let mut explored = blank_mask(rooms);
    let mut queue = queue_new();
    queue_push(&mut queue, (start.x, start.y), 0);
    let ghost mut rank: Map<(int, int), nat> = Map::empty();
    let ghost mut clock: nat = 0;
    let mut reached: bool = false;
    proof {
        lemma_walk_self(rooms@, s.0, s.1);
        assert(queue_contents(queue).dom() =~= set![(start.x, start.y)]);
    }
    loop
        invariant_except_break
            search_state(rooms@, s, g, explored@, parents@, queue_contents(queue), rank, clock),
            !reached,
        invariant
            s == (start.x as int, start.y as int),
            g == (goal.x as int, goal.y as int),
            s != g,
            free(rooms@, g.0, g.1),
        ensures
            trail_state(rooms@, s, g, explored@, parents@, rank, clock),
            reached ==> walk_reaches(rooms@, s.0, s.1, g.0, g.1) && parent_of(
                parents@,
                g.0,
                g.1,
            ).is_some(),
            !reached ==> !walk_reaches(rooms@, s.0, s.1, g.0, g.1),
        decreases unmarked(explored@), queue_contents(queue).dom().len(),
    {
        let ghost queue0 = queue_contents(queue);
        let popped = queue_pop(&mut queue);
        let cell = match popped {
            None => {
                proof {
                    lemma_search_exhausted(rooms@, s, g, explored@, parents@, queue0, rank, clock);
                }
                break ;
            },
            Some((cell, _)) => cell,
        };
        proof {
            assert(queue0.dom().contains(cell));
        }
        let item = HashVec2::new(cell.0, cell.1);
        if item == goal {
            reached = true;
            break ;
        }
        let x: usize = cell.0 as usize;
        let y: usize = cell.1 as usize;
        if explored[y][x] {
            proof {
                assert(marked(explored@, cell.0 as int, cell.1 as int));
                lemma_search_skip(rooms@, s, g, explored@, parents@, queue0, rank, clock, cell);
            }
            continue ;
        }
        let ghost explored0 = explored@;
        let ghost parents0 = parents@;
        mark(&mut explored, x, y);
        let around = item.directions(rooms);
        proof {
            lemma_neighbours(rooms@, cell.0 as int, cell.1 as int);
            assert(queue_contents(queue).dom() =~= queue0.dom().remove(cell));
        }
        expand(item, &around, &goal, rooms, &mut queue, &mut parents);
        proof {
            lemma_search_explore(
                rooms@,
                s,
                g,
                explored0,
                explored@,
                parents0,
                parents@,
                queue0,
                queue_contents(queue),
                rank,
                clock,
                cell,
                around@,
            );
            rank = rank.insert((cell.0 as int, cell.1 as int), clock);
            clock = clock + 1;
        }
    }
    if !reached {
        return None;
    }
    let mut path: Vec<HashVec2> = Vec::new();
    path.push(goal);
    let mut current = goal;
    loop
        invariant
            trail_state(rooms@, s, g, explored@, parents@, rank, clock),
            s == (start.x as int, start.y as int),
            g == (goal.x as int, goal.y as int),
            s != g,
            path@.len() > 0,
            path@[0] == current,
            path@.last() == goal,
            (current.x as int, current.y as int) != s,
            current == goal || marked(explored@, current.x as int, current.y as int),
            parent_of(parents@, current.x as int, current.y as int).is_some(),
            forall|i: int|
                0 <= i < path@.len() ==> free(rooms@, (#[trigger] path@[i]).x as int, path@[i].y as int),
            forall|i: int|
                0 <= i < path@.len() - 1 ==> king_step(
                    path@[i].x as int,
                    path@[i].y as int,
                    (#[trigger] path@[i + 1]).x as int,
                    path@[i + 1].y as int,
                ),
        ensures
            route(rooms@, start, goal, path@),
        decreases
                if marked(explored@, current.x as int, current.y as int) {
                    rank[(current.x as int, current.y as int)]
                } else {
                    clock
                },
    {
        let x: usize = current.x as usize;
        let y: usize = current.y as usize;
        let grandpa = match parents[y][x] {
            None => {
                break ;
            },
            Some(grandpa) => grandpa,
        };
        proof {
            assert(parent_of(parents@, current.x as int, current.y as int) == Some(grandpa));
        }
        if grandpa == start {
            break ;
        }
        let ghost before = path@;
        path.insert(0, grandpa);
        proof {
            assert(marked(explored@, grandpa.x as int, grandpa.y as int));
            assert forall|i: int| 0 <= i < path@.len() implies free(
                rooms@,
                (#[trigger] path@[i]).x as int,
                path@[i].y as int,
            ) by {
                if i > 0 {
                    assert(path@[i] == before[i - 1]);
                }
            }
            assert forall|i: int| 0 <= i < path@.len() - 1 implies king_step(
                path@[i].x as int,
                path@[i].y as int,
                (#[trigger] path@[i + 1]).x as int,
                path@[i + 1].y as int,
            ) by {
                if i > 0 {
                    assert(path@[i] == before[i - 1]);
                    assert(path@[i + 1] == before[i - 1 + 1]);
                } else {
                    assert(path@[1] == before[0]);
                }
            }
        }
        current = grandpa;
    }
    Some(path)
}

} // verus!
