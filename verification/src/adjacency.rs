//! Which rooms lie next to which: from the centre of each room a ray is
//! cast in each of the four directions, and the first other room that it
//! meets is the neighbour on that side.

use vstd::prelude::*;
use crate::rect::Rect;

verus! {

/// The four directions of the grid.  Rows are counted downwards, so south
/// is towards the higher rows.
#[derive(Clone, Copy, Debug, PartialEq, Eq, Structural)]
pub enum Cardinal {
    East,
    West,
    South,
    North,
}

impl Cardinal {
    /// The step along x.
    pub open spec fn dx(self) -> int {
        match self {
            Cardinal::East => 1,
            Cardinal::West => -1,
            _ => 0,
        }
    }

    /// The step along y.
    pub open spec fn dy(self) -> int {
        match self {
            Cardinal::South => 1,
            Cardinal::North => -1,
            _ => 0,
        }
    }

    /// The place of the direction in the order in which rays are cast.
    pub open spec fn rank(self) -> int {
        match self {
            Cardinal::East => 0,
            Cardinal::West => 1,
            Cardinal::South => 2,
            Cardinal::North => 3,
        }
    }

    /// The step of the direction as `(dx, dy)`.
    pub fn vector(&self) -> (v: (i32, i32))
        ensures
            v.0 == self.dx(),
            v.1 == self.dy(),
    {
        match self {
            Cardinal::East => (1, 0),
            Cardinal::West => (-1, 0),
            Cardinal::South => (0, 1),
            Cardinal::North => (0, -1),
        }
    }

    /// The direction at place `rank` in the order in which rays are cast.
    pub fn from_rank(rank: usize) -> (dir: Cardinal)
        requires
            rank < 4,
        ensures
            dir.rank() == rank,
    {
        if rank == 0 {
            Cardinal::East
        } else if rank == 1 {
            Cardinal::West
        } else if rank == 2 {
            Cardinal::South
        } else {
            Cardinal::North
        }
    }
}

/// A room, the neighbour that a ray from it met, and the direction of the ray.
#[derive(Clone, Copy, Debug, PartialEq, Eq, Structural)]
pub struct AdjacencyEdge {
    pub room_index: usize,
    pub neighbor_index: usize,
    pub direction: Cardinal,
}

/// All rectangles are well formed.
pub open spec fn rooms_wf(rooms: Seq<Rect>) -> bool {
    forall|k: int| 0 <= k < rooms.len() ==> (#[trigger] rooms[k]).wf()
}

/// The cell `step` cells away from the centre of `rect` in direction `dir`.
pub open spec fn ray_cell(rect: Rect, dir: Cardinal, step: int) -> (int, int) {
    (rect.center_x() + dir.dx() * step, rect.center_y() + dir.dy() * step)
}

/// The ray written out for each direction.
pub proof fn lemma_ray_cell(rect: Rect, dir: Cardinal, step: int)
    ensures
        ray_cell(rect, dir, step) == match dir {
            Cardinal::East => (rect.center_x() + step, rect.center_y()),
            Cardinal::West => (rect.center_x() - step, rect.center_y()),
            Cardinal::South => (rect.center_x(), rect.center_y() + step),
            Cardinal::North => (rect.center_x(), rect.center_y() - step),
        },
{
    assert(1 * step == step && (-1) * step == -step && 0 * step == 0);
}

/// The cell is a cell of a grid of side `size`.
pub open spec fn in_square(cell: (int, int), size: int) -> bool {
    0 <= cell.0 < size && 0 <= cell.1 < size
}

/// `j` is the first room of the list that holds the cell `(x, y)`.
pub open spec fn first_room_at(rooms: Seq<Rect>, x: int, y: int, j: int) -> bool {
    &&& 0 <= j < rooms.len()
    &&& rooms[j].contains(x, y)
    &&& forall|i: int| 0 <= i < j ==> !(#[trigger] rooms[i]).contains(x, y)
}

/// The ray from room `i` meets room `j` at `step`: `j` is the first room
/// that holds the cell there, and it has other bounds than room `i`.
pub open spec fn hit(rooms: Seq<Rect>, i: int, dir: Cardinal, step: int, j: int) -> bool {
    first_room_at(rooms, ray_cell(rooms[i], dir, step).0, ray_cell(rooms[i], dir, step).1, j)
        && rooms[j] != rooms[i]
}

/// The ray from room `i` meets room `j` at `step` and nothing before, and has
/// not left the grid by then.  A ray is `size / 2` cells long.
pub open spec fn nearest_hit(
    rooms: Seq<Rect>,
    size: int,
    i: int,
    dir: Cardinal,
    step: int,
    j: int,
) -> bool {
    &&& 0 <= i < rooms.len()
    &&& 0 <= step < size / 2
    &&& forall|s: int| 0 <= s <= step ==> in_square(#[trigger] ray_cell(rooms[i], dir, s), size)
    &&& hit(rooms, i, dir, step, j)
    &&& forall|s: int, k: int| 0 <= s < step ==> !#[trigger] hit(rooms, i, dir, s, k)
}

/// Room `j` is the first other room that the ray from room `i` meets.
pub open spec fn ray_reaches(rooms: Seq<Rect>, size: int, i: int, dir: Cardinal, j: int) -> bool {
    exists|step: int| nearest_hit(rooms, size, i, dir, step, j)
}

/// A ray meets at most one room.
pub proof fn lemma_ray_target_unique(
    rooms: Seq<Rect>,
    size: int,
    i: int,
    dir: Cardinal,
    j: int,
    k: int,
)
    requires
        ray_reaches(rooms, size, i, dir, j),
        ray_reaches(rooms, size, i, dir, k),
    ensures
        j == k,
{
    let s = choose|s: int| nearest_hit(rooms, size, i, dir, s, j);
    let t = choose|t: int| nearest_hit(rooms, size, i, dir, t, k);
    if s < t {
        assert(!hit(rooms, i, dir, s, j));
    } else if t < s {
        assert(!hit(rooms, i, dir, t, k));
    } else {
        if j < k {
            assert(!rooms[j].contains(ray_cell(rooms[i], dir, s).0, ray_cell(rooms[i], dir, s).1));
        } else if k < j {
            assert(!rooms[k].contains(ray_cell(rooms[i], dir, s).0, ray_cell(rooms[i], dir, s).1));
        }
    }
}

/// The first room of the list that holds the cell `(x, y)`.
pub fn room_at(rooms: &Vec<Rect>, x: usize, y: usize) -> (found: Option<usize>)
    requires
        rooms_wf(rooms@),
    ensures
        match found {
            Some(j) => first_room_at(rooms@, x as int, y as int, j as int),
            None => forall|j: int|
                0 <= j < rooms.len() ==> !(#[trigger] rooms[j]).contains(x as int, y as int),
        },
{
    let mut j: usize = 0;
    while j < rooms.len()
        invariant
            j <= rooms.len(),
            rooms_wf(rooms@),
            forall|i: int| 0 <= i < j ==> !(#[trigger] rooms[i]).contains(x as int, y as int),
        decreases rooms.len() - j,
    {
        if rooms[j].touches_point(x, y) {
            return Some(j);
        }
        j += 1;
    }
    None
}

/// Casts the ray from the centre of room `index` in direction `dir` and
/// returns the first other room that it meets within `size / 2` cells and
/// inside the grid.
pub fn cast_ray(rooms: &Vec<Rect>, size: usize, index: usize, dir: Cardinal) -> (target: Option<
    usize,
>)
    requires
        rooms_wf(rooms@),
        index < rooms.len(),
    ensures
        match target {
            Some(j) => ray_reaches(rooms@, size as int, index as int, dir, j as int),
            None => forall|j: int| !ray_reaches(rooms@, size as int, index as int, dir, j),
        },
{
    let rect = rooms[index];
    let center = rect.get_center();
    let ghost i = index as int;
    if center.0 >= size || center.1 >= size {
        proof {
            lemma_ray_cell(rooms@[i], dir, 0);
            assert forall|j: int| !ray_reaches(rooms@, size as int, i, dir, j) by {
                if ray_reaches(rooms@, size as int, i, dir, j) {
                    let t = choose|t: int| nearest_hit(rooms@, size as int, i, dir, t, j);
                    assert(in_square(ray_cell(rooms@[i], dir, 0), size as int));
                }
            }
        }
        return None;
    }
    let mut step: usize = 0;
    while step < size / 2
        invariant
            step <= size / 2,
            center.0 < size,
            center.1 < size,
            rooms_wf(rooms@),
            index < rooms.len(),
            i == index,
            rect == rooms@[i],
            center.0 == rect.center_x(),
            center.1 == rect.center_y(),
            forall|s: int|
                0 <= s < step ==> in_square(#[trigger] ray_cell(rooms@[i], dir, s), size as int),
            forall|s: int, k: int| 0 <= s < step ==> !#[trigger] hit(rooms@, i, dir, s, k),
        decreases size / 2 - step,
    {
        let ghost cell = ray_cell(rooms@[i], dir, step as int);
        proof {
            lemma_ray_cell(rooms@[i], dir, step as int);
        }
        let mut outside: bool = false;
        let mut x: usize = center.0;
        let mut y: usize = center.1;
        match dir {
            Cardinal::East => {
                if step >= size - center.0 {
                    outside = true;
                } else {
                    x = center.0 + step;
                }
            },
            Cardinal::West => {
                if step > center.0 {
                    outside = true;
                } else {
                    x = center.0 - step;
                }
            },
            Cardinal::South => {
                if step >= size - center.1 {
                    outside = true;
                } else {
                    y = center.1 + step;
                }
            },
            Cardinal::North => {
                if step > center.1 {
                    outside = true;
                } else {
                    y = center.1 - step;
                }
            },
        }
        if outside {
            proof {
                assert(!in_square(cell, size as int));
                assert forall|j: int| !ray_reaches(rooms@, size as int, i, dir, j) by {
                    if ray_reaches(rooms@, size as int, i, dir, j) {
                        let t = choose|t: int| nearest_hit(rooms@, size as int, i, dir, t, j);
                        if t < step {
                            assert(!hit(rooms@, i, dir, t, j));
                        } else {
                            assert(in_square(ray_cell(rooms@[i], dir, step as int), size as int));
                        }
                    }
                }
            }
            return None;
        }
        assert(cell == (x as int, y as int));
        match room_at(rooms, x, y) {
            Some(j) => {
                if rooms[j] != rect {
                    proof {
                        assert(hit(rooms@, i, dir, step as int, j as int));
                        assert(nearest_hit(rooms@, size as int, i, dir, step as int, j as int));
                    }
                    return Some(j);
                }
                proof {
                    assert forall|k: int| !hit(rooms@, i, dir, step as int, k) by {
                        if hit(rooms@, i, dir, step as int, k) {
                            if k < j {
                                assert(!rooms@[k].contains(x as int, y as int));
                            } else if j < k {
                                assert(!rooms@[j as int].contains(x as int, y as int));
                            }
                        }
                    }
                }
            },
            None => {
                proof {
                    assert forall|k: int| !hit(rooms@, i, dir, step as int, k) by {
                        if hit(rooms@, i, dir, step as int, k) {
                            assert(rooms@[k].contains(x as int, y as int));
                        }
                    }
                }
            },
        }
        step += 1;
    }
    proof {
        assert forall|j: int| !ray_reaches(rooms@, size as int, i, dir, j) by {
            if ray_reaches(rooms@, size as int, i, dir, j) {
                let t = choose|t: int| nearest_hit(rooms@, size as int, i, dir, t, j);
                assert(!hit(rooms@, i, dir, t, j));
            }
        }
    }
    None
}

/// One of the first `rank` rays from room `i` met room `j`.
pub open spec fn hit_before(rooms: Seq<Rect>, size: int, i: int, rank: int, j: int) -> bool {
    exists|d: Cardinal| d.rank() < rank && #[trigger] ray_reaches(rooms, size, i, d, j)
}

/// A ray from room `i` cast before the one in direction `dir` met room `j`.
pub open spec fn earlier_hit(rooms: Seq<Rect>, size: int, i: int, dir: Cardinal, j: int) -> bool {
    hit_before(rooms, size, i, dir.rank(), j)
}

/// The edge from room `i` in direction `dir` to room `j` is recorded: the
/// ray meets `j`, and, unless several edges between two rooms are allowed,
/// no earlier ray from `i` met `j` and no edge from `j` to `i` was recorded
/// when the rays from `j` were cast, which is before those from `i`.
pub open spec fn records(
    rooms: Seq<Rect>,
    size: int,
    multi: bool,
    i: int,
    dir: Cardinal,
    j: int,
) -> bool
    decreases i,
{
    &&& ray_reaches(rooms, size, i, dir, j)
    &&& multi || !earlier_hit(rooms, size, i, dir, j)
    &&& multi || !(0 <= j < i && (records(rooms, size, multi, j, Cardinal::East, i) || records(
        rooms,
        size,
        multi,
        j,
        Cardinal::West,
        i,
    ) || records(rooms, size, multi, j, Cardinal::South, i) || records(
        rooms,
        size,
        multi,
        j,
        Cardinal::North,
        i,
    )))
}

/// The order of the edges: by room, then by the order of the rays.
pub open spec fn edge_before(a: AdjacencyEdge, b: AdjacencyEdge) -> bool {
    a.room_index < b.room_index || (a.room_index == b.room_index && a.direction.rank()
        < b.direction.rank())
}

/// The ray of room `i` in direction `dir` is cast before the scan stands at
/// room `at` and the direction of rank `rank`.
pub open spec fn ray_done(i: int, dir: Cardinal, at: int, rank: int) -> bool {
    i < at || (i == at && dir.rank() < rank)
}

/// `edges` are the recorded edges of all rays cast before the scan stands
/// at room `at` and rank `rank`, in order.
pub open spec fn edges_upto(
    rooms: Seq<Rect>,
    size: int,
    multi: bool,
    edges: Seq<AdjacencyEdge>,
    at: int,
    rank: int,
) -> bool {
    &&& forall|k: int|
        0 <= k < edges.len() ==> records(
            rooms,
            size,
            multi,
            (#[trigger] edges[k]).room_index as int,
            edges[k].direction,
            edges[k].neighbor_index as int,
        ) && ray_done(edges[k].room_index as int, edges[k].direction, at, rank)
    &&& forall|k: int, l: int|
        0 <= k < l < edges.len() ==> edge_before(#[trigger] edges[k], #[trigger] edges[l])
    &&& forall|i: int, dir: Cardinal, j: int| #[trigger]
        records(rooms, size, multi, i, dir, j) && ray_done(i, dir, at, rank) ==> exists|k: int|
            0 <= k < edges.len() && #[trigger] edges[k] == (AdjacencyEdge {
                room_index: i as usize,
                neighbor_index: j as usize,
                direction: dir,
            })
}

/// `edges` are the recorded edges of all rays of all rooms, in order.
pub open spec fn adjacency(rooms: Seq<Rect>, size: int, multi: bool, edges: Seq<AdjacencyEdge>)
    -> bool {
    edges_upto(rooms, size, multi, edges, rooms.len() as int, 0)
}

/// Some edge of the list leads from room `from` to room `to`.
pub open spec fn has_edge(edges: Seq<AdjacencyEdge>, from: int, to: int) -> bool {
    exists|k: int|
        0 <= k < edges.len() && (#[trigger] edges[k]).room_index == from && edges[k].neighbor_index
            == to
}

/// Whether some edge of the list leads from room `from` to room `to`.
pub fn find_edge(edges: &Vec<AdjacencyEdge>, from: usize, to: usize) -> (b: bool)
    ensures
        b == has_edge(edges@, from as int, to as int),
{
    let mut k: usize = 0;
    while k < edges.len()
        invariant
            k <= edges.len(),
            forall|l: int|
                0 <= l < k ==> !((#[trigger] edges@[l]).room_index == from
                    && edges@[l].neighbor_index == to),
        decreases edges.len() - k,
    {
        if edges[k].room_index == from && edges[k].neighbor_index == to {
            return true;
        }
        k += 1;
    }
    false
}

/// Whether `value` is an entry of `list`.
fn holds(list: &Vec<usize>, value: usize) -> (b: bool)
    ensures
        b == list@.contains(value),
{
    let mut k: usize = 0;
    while k < list.len()
        invariant
            k <= list.len(),
            forall|l: int| 0 <= l < k ==> list@[l] != value,
        decreases list.len() - k,
    {
        if list[k] == value {
            return true;
        }
        k += 1;
    }
    false
}

/// A room is never recorded as its own neighbour, and a recorded neighbour
/// is a room of the list.
pub proof fn lemma_records_other(
    rooms: Seq<Rect>,
    size: int,
    multi: bool,
    i: int,
    dir: Cardinal,
    j: int,
)
    requires
        ray_reaches(rooms, size, i, dir, j),
    ensures
        0 <= i < rooms.len(),
        0 <= j < rooms.len(),
        i != j,
{
    let s = choose|s: int| nearest_hit(rooms, size, i, dir, s, j);
    assert(hit(rooms, i, dir, s, j));
}

/// The neighbours of all rooms: for each room in turn a ray is cast to the
/// east, west, south and north, and the first other room that a ray meets is
/// recorded with the direction.  Unless `allow_multi_edges` is set, a room
/// that an earlier ray of the same room has met is passed over, and so is one
/// from which an edge to this room is already recorded.
pub fn adjacent_rects(rects: &Vec<Rect>, size: usize, allow_multi_edges: bool) -> (edges: Vec<
    AdjacencyEdge,
>)
    requires
        rooms_wf(rects@),
    ensures
        adjacency(rects@, size as int, allow_multi_edges, edges@),
{
    let mut edges: Vec<AdjacencyEdge> = Vec::new();
    let mut index: usize = 0;
    let ghost sz = size as int;
    let ghost multi = allow_multi_edges;
    proof {
        assert forall|i: int, dir: Cardinal, j: int| #[trigger]
            records(rects@, sz, multi, i, dir, j) implies !ray_done(i, dir, 0, 0) by {
            lemma_records_other(rects@, sz, multi, i, dir, j);
        }
    }
    while index < rects.len()
        invariant
            index <= rects.len(),
            rooms_wf(rects@),
            sz == size,
            multi == allow_multi_edges,
            edges_upto(rects@, sz, multi, edges@, index as int, 0),
        decreases rects.len() - index,
    {
        let mut met: Vec<usize> = Vec::new();
        let mut rank: usize = 0;
        while rank < 4
            invariant
                rank <= 4,
                index < rects.len(),
                rooms_wf(rects@),
                sz == size,
                multi == allow_multi_edges,
                edges_upto(rects@, sz, multi, edges@, index as int, rank as int),
                forall|v: usize| #[trigger]
                    met@.contains(v) <==> hit_before(rects@, sz, index as int, rank as int, v as int),
            decreases 4 - rank,
        {
            let dir = Cardinal::from_rank(rank);
            let ghost edges0 = edges@;
            let ghost met0 = met@;
            let target = cast_ray(rects, size, index, dir);
            match target {
                Some(j) => {
                    proof {
                        lemma_records_other(rects@, sz, multi, index as int, dir, j as int);
                    }
                    let seen = holds(&met, j);
                    let back = find_edge(&edges, j, index);
                    met.push(j);
                    let keep = allow_multi_edges || (!seen && !back);
                    proof {
                        assert(seen == earlier_hit(rects@, sz, index as int, dir, j as int));
                        let links = 0 <= j < index && (records(
                            rects@,
                            sz,
                            multi,
                            j as int,
                            Cardinal::East,
                            index as int,
                        ) || records(rects@, sz, multi, j as int, Cardinal::West, index as int)
                            || records(rects@, sz, multi, j as int, Cardinal::South, index as int)
                            || records(rects@, sz, multi, j as int, Cardinal::North, index as int));
                        assert(back == links) by {
                            if back {
                                let k = choose|k: int|
                                    0 <= k < edges0.len() && (#[trigger] edges0[k]).room_index == j
                                        && edges0[k].neighbor_index == index;
                                assert(ray_done(j as int, edges0[k].direction, index as int, rank as int));
                                assert(records(
                                    rects@,
                                    sz,
                                    multi,
                                    j as int,
                                    edges0[k].direction,
                                    index as int,
                                ));
                            }
                            if links {
                                let d = if records(
                                    rects@,
                                    sz,
                                    multi,
                                    j as int,
                                    Cardinal::East,
                                    index as int,
                                ) {
                                    Cardinal::East
                                } else if records(
                                    rects@,
                                    sz,
                                    multi,
                                    j as int,
                                    Cardinal::West,
                                    index as int,
                                ) {
                                    Cardinal::West
                                } else if records(
                                    rects@,
                                    sz,
                                    multi,
                                    j as int,
                                    Cardinal::South,
                                    index as int,
                                ) {
                                    Cardinal::South
                                } else {
                                    Cardinal::North
                                };
                                assert(records(rects@, sz, multi, j as int, d, index as int));
                                assert(ray_done(j as int, d, index as int, rank as int));
                                let k = choose|k: int|
                                    0 <= k < edges0.len() && #[trigger] edges0[k] == (AdjacencyEdge {
                                        room_index: j,
                                        neighbor_index: index,
                                        direction: d,
                                    });
                                assert(edges0[k].room_index == j);
                            }
                        }
                        assert(keep == records(rects@, sz, multi, index as int, dir, j as int));
                    }
                    if keep {
                        edges.push(
                            AdjacencyEdge { room_index: index, neighbor_index: j, direction: dir },
                        );
                    }
                    proof {
                        lemma_edges_step(
                            rects@,
                            sz,
                            multi,
                            edges0,
                            edges@,
                            index as int,
                            dir,
                            Some(j as int),
                        );
                        assert forall|v: usize| #[trigger]
                            met@.contains(v) <==> hit_before(
                                rects@,
                                sz,
                                index as int,
                                rank + 1,
                                v as int,
                            ) by {
                            assert(met@ == met0.push(j));
                            if met@.contains(v) {
                                let l = choose|l: int| 0 <= l < met@.len() && met@[l] == v;
                                if l < met0.len() {
                                    assert(met0[l] == v);
                                    assert(met0.contains(v));
                                    let d = choose|d: Cardinal|
                                        d.rank() < rank && #[trigger] ray_reaches(
                                            rects@,
                                            sz,
                                            index as int,
                                            d,
                                            v as int,
                                        );
                                    assert(d.rank() < rank + 1);
                                } else {
                                    assert(v == j);
                                    assert(ray_reaches(rects@, sz, index as int, dir, v as int));
                                }
                            }
                            if hit_before(rects@, sz, index as int, rank + 1, v as int) {
                                let d = choose|d: Cardinal|
                                    d.rank() < rank + 1 && #[trigger] ray_reaches(
                                        rects@,
                                        sz,
                                        index as int,
                                        d,
                                        v as int,
                                    );
                                if d.rank() < rank {
                                    assert(hit_before(rects@, sz, index as int, rank as int, v as int));
                                    assert(met0.contains(v));
                                    let l = choose|l: int| 0 <= l < met0.len() && met0[l] == v;
                                    assert(met@[l] == v);
                                } else {
                                    assert(d == dir);
                                    lemma_ray_target_unique(
                                        rects@,
                                        sz,
                                        index as int,
                                        dir,
                                        v as int,
                                        j as int,
                                    );
                                    assert(met@[met0.len() as int] == j);
                                }
                            }
                        }
                    }
                },
                None => {
                    proof {
                        lemma_edges_step(
                            rects@,
                            sz,
                            multi,
                            edges0,
                            edges@,
                            index as int,
                            dir,
                            None,
                        );
                        assert forall|v: usize| #[trigger]
                            met@.contains(v) <==> hit_before(
                                rects@,
                                sz,
                                index as int,
                                rank + 1,
                                v as int,
                            ) by {
                            if met@.contains(v) {
                                assert(hit_before(rects@, sz, index as int, rank as int, v as int));
                                let d = choose|d: Cardinal|
                                    d.rank() < rank && #[trigger] ray_reaches(
                                        rects@,
                                        sz,
                                        index as int,
                                        d,
                                        v as int,
                                    );
                                assert(d.rank() < rank + 1);
                            }
                            if hit_before(rects@, sz, index as int, rank + 1, v as int) {
                                let d = choose|d: Cardinal|
                                    d.rank() < rank + 1 && #[trigger] ray_reaches(
                                        rects@,
                                        sz,
                                        index as int,
                                        d,
                                        v as int,
                                    );
                                if d.rank() == rank {
                                    assert(d == dir);
                                }
                                assert(hit_before(rects@, sz, index as int, rank as int, v as int));
                            }
                        }
                    }
                },
            }
            rank += 1;
        }
        proof {
            assert forall|i: int, dir: Cardinal| ray_done(i, dir, index as int, 4) implies ray_done(
                i,
                dir,
                index + 1,
                0,
            ) by {}
            assert forall|i: int, dir: Cardinal| ray_done(i, dir, index + 1, 0) implies ray_done(
                i,
                dir,
                index as int,
                4,
            ) by {}
        }
        index += 1;
    }
    edges
}

/// The list of edges after one more ray: with the edge to `target` at its
/// end where the ray met a room and the edge is recorded, unchanged otherwise.
proof fn lemma_edges_step(
    rooms: Seq<Rect>,
    size: int,
    multi: bool,
    before: Seq<AdjacencyEdge>,
    after: Seq<AdjacencyEdge>,
    at: int,
    dir: Cardinal,
    target: Option<int>,
)
    requires
        0 <= at < rooms.len(),
        at <= usize::MAX,
        edges_upto(rooms, size, multi, before, at, dir.rank()),
        match target {
            Some(j) => ray_reaches(rooms, size, at, dir, j) && 0 <= j <= usize::MAX && after == if records(
                rooms,
                size,
                multi,
                at,
                dir,
                j,
            ) {
                before.push(
                    AdjacencyEdge {
                        room_index: at as usize,
                        neighbor_index: j as usize,
                        direction: dir,
                    },
                )
            } else {
                before
            },
            None => after == before && forall|j: int| !ray_reaches(rooms, size, at, dir, j),
        },
    ensures
        edges_upto(rooms, size, multi, after, at, dir.rank() + 1),
{
    let next = dir.rank() + 1;
    assert forall|k: int| 0 <= k < after.len() implies records(
        rooms,
        size,
        multi,
        (#[trigger] after[k]).room_index as int,
        after[k].direction,
        after[k].neighbor_index as int,
    ) && ray_done(after[k].room_index as int, after[k].direction, at, next) by {
        if k < before.len() {
            assert(after[k] == before[k]);
        }
    }
    assert forall|k: int, l: int| 0 <= k < l < after.len() implies edge_before(
        #[trigger] after[k],
        #[trigger] after[l],
    ) by {
        assert(after[k] == before[k]);
        if l < before.len() {
            assert(after[l] == before[l]);
        } else {
            assert(ray_done(before[k].room_index as int, before[k].direction, at, dir.rank()));
        }
    }
    assert forall|i: int, d: Cardinal, j: int| #[trigger]
        records(rooms, size, multi, i, d, j) && ray_done(i, d, at, next) implies exists|k: int|
        0 <= k < after.len() && #[trigger] after[k] == (AdjacencyEdge {
            room_index: i as usize,
            neighbor_index: j as usize,
            direction: d,
        }) by {
        if ray_done(i, d, at, dir.rank()) {
            let k = choose|k: int|
                0 <= k < before.len() && #[trigger] before[k] == (AdjacencyEdge {
                    room_index: i as usize,
                    neighbor_index: j as usize,
                    direction: d,
                });
            assert(after[k] == before[k]);
        } else {
            assert(i == at && d == dir);
            match target {
                Some(t) => {
                    lemma_ray_target_unique(rooms, size, at, dir, j, t);
                    assert(after[before.len() as int] == (AdjacencyEdge {
                        room_index: i as usize,
                        neighbor_index: j as usize,
                        direction: d,
                    }));
                },
                None => {},
            }
        }
    }
}

/// No edge comes before itself, and of two edges not both come before the other.
proof fn lemma_edge_order(a: AdjacencyEdge, b: AdjacencyEdge)
    ensures
        !edge_before(a, a),
        !(edge_before(a, b) && edge_before(b, a)),
{
}

/// Two lists of the recorded edges have the same edge at each place.
proof fn lemma_same_edge_at(
    rooms: Seq<Rect>,
    size: int,
    multi: bool,
    a: Seq<AdjacencyEdge>,
    b: Seq<AdjacencyEdge>,
    i: int,
)
    requires
        adjacency(rooms, size, multi, a),
        adjacency(rooms, size, multi, b),
        0 <= i < a.len(),
        0 <= i < b.len(),
    ensures
        a[i] == b[i],
    decreases i,
{
    let n = rooms.len() as int;
    let ea = a[i];
    let eb = b[i];
    lemma_records_other(
        rooms,
        size,
        multi,
        ea.room_index as int,
        ea.direction,
        ea.neighbor_index as int,
    );
    lemma_records_other(
        rooms,
        size,
        multi,
        eb.room_index as int,
        eb.direction,
        eb.neighbor_index as int,
    );
    assert(ray_done(ea.room_index as int, ea.direction, n, 0));
    assert(ray_done(eb.room_index as int, eb.direction, n, 0));
    let j = choose|j: int|
        0 <= j < b.len() && #[trigger] b[j] == (AdjacencyEdge {
            room_index: (ea.room_index as int) as usize,
            neighbor_index: (ea.neighbor_index as int) as usize,
            direction: ea.direction,
        });
    assert(b[j] == ea);
    let k = choose|k: int|
        0 <= k < a.len() && #[trigger] a[k] == (AdjacencyEdge {
            room_index: (eb.room_index as int) as usize,
            neighbor_index: (eb.neighbor_index as int) as usize,
            direction: eb.direction,
        });
    assert(a[k] == eb);
    lemma_edge_order(ea, eb);
    lemma_edge_order(eb, ea);
    if j < i {
        lemma_same_edge_at(rooms, size, multi, a, b, j);
        assert(edge_before(a[j], a[i]));
    } else if k < i {
        lemma_same_edge_at(rooms, size, multi, a, b, k);
        assert(edge_before(b[k], b[i]));
    } else if j > i {
        assert(edge_before(b[i], b[j]));
        if k > i {
            assert(edge_before(a[i], a[k]));
        }
    }
}

/// The rooms and the size of the grid determine the list of the recorded edges.
pub proof fn lemma_adjacency_unique(
    rooms: Seq<Rect>,
    size: int,
    multi: bool,
    a: Seq<AdjacencyEdge>,
    b: Seq<AdjacencyEdge>,
)
    requires
        adjacency(rooms, size, multi, a),
        adjacency(rooms, size, multi, b),
    ensures
        a == b,
{
    lemma_no_longer(rooms, size, multi, a, b);
    lemma_no_longer(rooms, size, multi, b, a);
    assert forall|i: int| 0 <= i < a.len() implies a[i] == b[i] by {
        lemma_same_edge_at(rooms, size, multi, a, b, i);
    }
    assert(a =~= b);
}

/// Of two lists of the recorded edges the second is not the longer one.
proof fn lemma_no_longer(
    rooms: Seq<Rect>,
    size: int,
    multi: bool,
    a: Seq<AdjacencyEdge>,
    b: Seq<AdjacencyEdge>,
)
    requires
        adjacency(rooms, size, multi, a),
        adjacency(rooms, size, multi, b),
    ensures
        b.len() <= a.len(),
{
    if b.len() > a.len() {
        let n = rooms.len() as int;
        let e = b[a.len() as int];
        lemma_records_other(
            rooms,
            size,
            multi,
            e.room_index as int,
            e.direction,
            e.neighbor_index as int,
        );
        assert(ray_done(e.room_index as int, e.direction, n, 0));
        let k = choose|k: int|
            0 <= k < a.len() && #[trigger] a[k] == (AdjacencyEdge {
                room_index: (e.room_index as int) as usize,
                neighbor_index: (e.neighbor_index as int) as usize,
                direction: e.direction,
            });
        assert(a[k] == e);
        lemma_same_edge_at(rooms, size, multi, a, b, k);
        assert(edge_before(b[k], b[a.len() as int]));
        lemma_edge_order(e, e);
    }
}

} // verus!
