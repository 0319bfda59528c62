//! Extraction of the open regions of a grid: a flood fill over cells that
//! are open and next to each other, and the rectangle around what it reaches.

use vstd::prelude::*;
use crate::grid::{Objects, is_open, is_wall, square, point_valid, cardinals};
use crate::rect::Rect;

verus! {

/// Two cells are next to each other in a row or in a column.
pub open spec fn adjacent(ax: int, ay: int, bx: int, by: int) -> bool {
    (ax == bx && (ay == by + 1 || by == ay + 1)) || (ay == by && (ax == bx + 1 || bx == ax + 1))
}

/// `mask` has a flag for each cell of `room`.
pub open spec fn mask_fits(mask: Seq<Vec<bool>>, room: Seq<Vec<Objects>>) -> bool {
    mask.len() == room.len() && forall|j: int|
        0 <= j < room.len() ==> (#[trigger] mask[j]).len() == room[j].len()
}

/// The flag of the cell `(x, y)` is set.
pub open spec fn marked(mask: Seq<Vec<bool>>, x: int, y: int) -> bool {
    0 <= y < mask.len() && 0 <= x < mask[y].len() && mask[y][x]
}

/// The cells whose flag is set.
pub open spec fn marked_cells(mask: Seq<Vec<bool>>) -> Set<(int, int)> {
    Set::new(|c: (int, int)| marked(mask, c.0, c.1))
}

/// The cell `(x, y)` is open and not among the `blocked` ones.
pub open spec fn passable(room: Seq<Vec<Objects>>, blocked: Set<(int, int)>, x: int, y: int)
    -> bool {
    is_open(room, x, y) && !blocked.contains((x, y))
}

/// `path` walks over passable cells, each next to the one before.
pub open spec fn is_path(room: Seq<Vec<Objects>>, blocked: Set<(int, int)>, path: Seq<(int, int)>)
    -> bool {
    &&& path.len() > 0
    &&& forall|i: int|
        0 <= i < path.len() ==> passable(room, blocked, (#[trigger] path[i]).0, path[i].1)
    &&& forall|i: int|
        0 <= i < path.len() - 1 ==> adjacent(
            path[i].0,
            path[i].1,
            (#[trigger] path[i + 1]).0,
            path[i + 1].1,
        )
}

/// Some path over passable cells leads from `(sx, sy)` to `(x, y)`.
pub open spec fn reaches(
    room: Seq<Vec<Objects>>,
    blocked: Set<(int, int)>,
    sx: int,
    sy: int,
    x: int,
    y: int,
) -> bool {
    exists|path: Seq<(int, int)>| #[trigger]
        is_path(room, blocked, path) && path[0] == (sx, sy) && path.last() == (x, y)
}

/// `r` is the smallest rectangle around the cells reached from `(sx, sy)`.
pub open spec fn bounding_box(
    room: Seq<Vec<Objects>>,
    blocked: Set<(int, int)>,
    sx: int,
    sy: int,
    r: Rect,
) -> bool {
    &&& forall|x: int, y: int| #[trigger]
        reaches(room, blocked, sx, sy, x, y) ==> r.contains(x, y)
    &&& exists|y: int| #[trigger] reaches(room, blocked, sx, sy, r.x as int, y)
    &&& exists|y: int| #[trigger] reaches(room, blocked, sx, sy, r.right(), y)
    &&& exists|x: int| #[trigger] reaches(room, blocked, sx, sy, x, r.y as int)
    &&& exists|x: int| #[trigger] reaches(room, blocked, sx, sy, x, r.bottom())
}

/// A passable cell reaches itself.
pub proof fn lemma_reaches_self(room: Seq<Vec<Objects>>, blocked: Set<(int, int)>, x: int, y: int)
    requires
        passable(room, blocked, x, y),
    ensures
        reaches(room, blocked, x, y, x, y),
{
    let path = seq![(x, y)];
    assert(is_path(room, blocked, path));
    assert(path[0] == (x, y) && path.last() == (x, y));
}

/// What reaches a cell reaches the passable cells next to it.
pub proof fn lemma_reaches_step(
    room: Seq<Vec<Objects>>,
    blocked: Set<(int, int)>,
    sx: int,
    sy: int,
    x: int,
    y: int,
    nx: int,
    ny: int,
)
    requires
        reaches(room, blocked, sx, sy, x, y),
        adjacent(x, y, nx, ny),
        passable(room, blocked, nx, ny),
    ensures
        reaches(room, blocked, sx, sy, nx, ny),
{
    let path = choose|path: Seq<(int, int)>| #[trigger]
        is_path(room, blocked, path) && path[0] == (sx, sy) && path.last() == (x, y);
    let longer = path.push((nx, ny));
    assert forall|i: int| 0 <= i < longer.len() implies passable(
        room,
        blocked,
        (#[trigger] longer[i]).0,
        longer[i].1,
    ) by {
        if i < path.len() {
            assert(longer[i] == path[i]);
        }
    }
    assert forall|i: int| 0 <= i < longer.len() - 1 implies adjacent(
        longer[i].0,
        longer[i].1,
        (#[trigger] longer[i + 1]).0,
        longer[i + 1].1,
    ) by {
        if i < path.len() - 1 {
            assert(longer[i] == path[i]);
            assert(longer[i + 1] == path[i + 1]);
        } else {
            assert(longer[i] == path.last());
        }
    }
    assert(is_path(room, blocked, longer));
    assert(longer[0] == (sx, sy) && longer.last() == (nx, ny));
}

/// Only a passable cell reaches anything, and only passable cells are reached.
pub proof fn lemma_reaches_passable(
    room: Seq<Vec<Objects>>,
    blocked: Set<(int, int)>,
    sx: int,
    sy: int,
    x: int,
    y: int,
)
    requires
        reaches(room, blocked, sx, sy, x, y),
    ensures
        passable(room, blocked, sx, sy),
        passable(room, blocked, x, y),
{
    let path = choose|path: Seq<(int, int)>| #[trigger]
        is_path(room, blocked, path) && path[0] == (sx, sy) && path.last() == (x, y);
    assert(passable(room, blocked, path[0].0, path[0].1));
    assert(passable(room, blocked, path[path.len() - 1].0, path[path.len() - 1].1));
}

/// The number of flags of a row that are not set.
pub open spec fn row_unmarked(row: Seq<bool>) -> nat
    decreases row.len(),
{
    if row.len() == 0 {
        0
    } else {
        row_unmarked(row.drop_last()) + if row.last() {
            0nat
        } else {
            1nat
        }
    }
}

/// The number of flags of a mask that are not set.
pub open spec fn unmarked(mask: Seq<Vec<bool>>) -> nat
    decreases mask.len(),
{
    if mask.len() == 0 {
        0
    } else {
        unmarked(mask.drop_last()) + row_unmarked(mask.last()@)
    }
}

proof fn lemma_row_unmarked_set(row: Seq<bool>, x: int)
    requires
        0 <= x < row.len(),
        !row[x],
    ensures
        row_unmarked(row.update(x, true)) + 1 == row_unmarked(row),
    decreases row.len(),
{
    if x == row.len() - 1 {
        assert(row.update(x, true).drop_last() =~= row.drop_last());
    } else {
        lemma_row_unmarked_set(row.drop_last(), x);
        assert(row.update(x, true).drop_last() =~= row.drop_last().update(x, true));
    }
}

proof fn lemma_unmarked_set(before: Seq<Vec<bool>>, after: Seq<Vec<bool>>, x: int, y: int)
    requires
        0 <= y < before.len(),
        0 <= x < before[y].len(),
        !before[y][x],
        after.len() == before.len(),
        after[y]@ == before[y]@.update(x, true),
        forall|j: int| 0 <= j < before.len() && j != y ==> after[j] == before[j],
    ensures
        unmarked(after) + 1 == unmarked(before),
    decreases before.len(),
{
    if y == before.len() - 1 {
        assert(after.drop_last() =~= before.drop_last());
        lemma_row_unmarked_set(before[y]@, x);
    } else {
        lemma_unmarked_set(before.drop_last(), after.drop_last(), x, y);
    }
}

/// Sets the flag of the cell `(x, y)`, which was not set.
pub(crate) fn mark(explored: &mut Vec<Vec<bool>>, x: usize, y: usize)
    requires
        y < old(explored).len(),
        x < old(explored)[y as int].len(),
        !old(explored)[y as int][x as int],
    ensures
        final(explored).len() == old(explored).len(),
        forall|j: int|
            0 <= j < old(explored).len() ==> (#[trigger] final(explored)[j]).len() == old(
                explored,
            )[j].len(),
        forall|cx: int, cy: int|
            marked(final(explored)@, cx, cy) == (marked(old(explored)@, cx, cy) || (cx == x && cy
                == y)),
        unmarked(final(explored)@) + 1 == unmarked(old(explored)@),
{
    explored[y][x] = true;
    proof {
        lemma_unmarked_set(old(explored)@, explored@, x as int, y as int);
    }
}

/// The cell `(x, y)` is an entry of `stack`.
pub open spec fn on_stack(stack: Seq<(usize, usize)>, x: int, y: int) -> bool {
    exists|k: int| 0 <= k < stack.len() && (#[trigger] stack[k]).0 == x && stack[k].1 == y
}

/// A set of cells that holds the start, where that is passable, and with each
/// of its cells the passable cells next to it, holds all that the start reaches.
proof fn lemma_closed_holds_reached(
    room: Seq<Vec<Objects>>,
    blocked: Set<(int, int)>,
    cells: Set<(int, int)>,
    sx: int,
    sy: int,
    path: Seq<(int, int)>,
)
    requires
        passable(room, blocked, sx, sy) ==> cells.contains((sx, sy)),
        forall|x: int, y: int, nx: int, ny: int|
            #![trigger cells.contains((x, y)), cells.contains((nx, ny))]
            cells.contains((x, y)) && adjacent(x, y, nx, ny) && passable(room, blocked, nx, ny)
                ==> cells.contains((nx, ny)),
        is_path(room, blocked, path),
        path[0] == (sx, sy),
    ensures
        cells.contains(path.last()),
    decreases path.len(),
{
    if path.len() == 1 {
        assert(passable(room, blocked, path[0].0, path[0].1));
    } else {
        let shorter = path.drop_last();
        assert forall|i: int| 0 <= i < shorter.len() implies passable(
            room,
            blocked,
            (#[trigger] shorter[i]).0,
            shorter[i].1,
        ) by {
            assert(shorter[i] == path[i]);
        }
        assert forall|i: int| 0 <= i < shorter.len() - 1 implies adjacent(
            shorter[i].0,
            shorter[i].1,
            (#[trigger] shorter[i + 1]).0,
            shorter[i + 1].1,
        ) by {
            assert(shorter[i] == path[i]);
            assert(shorter[i + 1] == path[i + 1]);
        }
        lemma_closed_holds_reached(room, blocked, cells, sx, sy, shorter);
        let last = path.len() - 1;
        assert(shorter.last() == path[last - 1]);
        assert(adjacent(path[last - 1].0, path[last - 1].1, path[last - 1 + 1].0, path[last - 1 + 1].1));
        assert(passable(room, blocked, path[last].0, path[last].1));
        let a = path[last - 1];
        let b = path[last];
        assert(cells.contains((a.0, a.1)));
        assert(cells.contains((b.0, b.1)));
    }
}

/// The bounds `(left, right, top, bottom)` widened to hold the cell `(x, y)`.
fn widen(bounds: Option<(usize, usize, usize, usize)>, x: usize, y: usize) -> (w: (
    usize,
    usize,
    usize,
    usize,
))
    ensures
        bounds.is_none() ==> w == (x, x, y, y),
        bounds matches Some(b) ==> w == (
            if x < b.0 {
                x
            } else {
                b.0
            },
            if x > b.1 {
                x
            } else {
                b.1
            },
            if y < b.2 {
                y
            } else {
                b.2
            },
            if y > b.3 {
                y
            } else {
                b.3
            },
        ),
{
    match bounds {
        None => (x, x, y, y),
        Some(b) => (
            if x < b.0 {
                x
            } else {
                b.0
            },
            if x > b.1 {
                x
            } else {
                b.1
            },
            if y < b.2 {
                y
            } else {
                b.2
            },
            if y > b.3 {
                y
            } else {
                b.3
            },
        ),
    }
}

/// Flood fill from `point` over the open cells of `room` whose flag in
/// `explored` is not set.  Sets the flag of every cell that it reaches and
/// returns the smallest rectangle around them, or `None` where `point` itself
/// is no such cell.
pub fn find_rect(point: (usize, usize), room: &Vec<Vec<Objects>>, explored: &mut Vec<Vec<bool>>)
    -> (found: Option<Rect>)
    requires
        mask_fits(old(explored)@, room@),
    ensures
        mask_fits(final(explored)@, room@),
        forall|x: int, y: int| #[trigger]
            marked(final(explored)@, x, y) == (marked(old(explored)@, x, y) || reaches(
                room@,
                marked_cells(old(explored)@),
                point.0 as int,
                point.1 as int,
                x,
                y,
            )),
        found.is_some() == passable(
            room@,
            marked_cells(old(explored)@),
            point.0 as int,
            point.1 as int,
        ),
        found matches Some(r) ==> r.wf() && bounding_box(
            room@,
            marked_cells(old(explored)@),
            point.0 as int,
            point.1 as int,
            r,
        ),
{
    let ghost blocked = marked_cells(old(explored)@);
    let ghost sx = point.0 as int;
    let ghost sy = point.1 as int;
    let mut stack: Vec<(usize, usize)> = Vec::new();
    stack.push(point);
    let mut bounds: Option<(usize, usize, usize, usize)> = None;
    let ghost mut at_left: int = 0;
    let ghost mut at_right: int = 0;
    let ghost mut at_top: int = 0;
    let ghost mut at_bottom: int = 0;
    proof {
        assert(stack@[0] == point);
        assert(on_stack(stack@, sx, sy));
        if passable(room@, blocked, sx, sy) {
            lemma_reaches_self(room@, blocked, sx, sy);
        }
    }
    loop
        invariant
            blocked == marked_cells(old(explored)@),
            sx == point.0,
            sy == point.1,
            mask_fits(old(explored)@, room@),
            mask_fits(explored@, room@),
            forall|x: int, y: int|
                marked(old(explored)@, x, y) ==> #[trigger] marked(explored@, x, y),
            forall|x: int, y: int| #[trigger]
                marked(explored@, x, y) && !marked(old(explored)@, x, y) ==> reaches(
                    room@,
                    blocked,
                    sx,
                    sy,
                    x,
                    y,
                ),
            forall|k: int|
                0 <= k < stack.len() && passable(
                    room@,
                    blocked,
                    (#[trigger] stack@[k]).0 as int,
                    stack@[k].1 as int,
                ) ==> reaches(room@, blocked, sx, sy, stack@[k].0 as int, stack@[k].1 as int),
            forall|x: int, y: int, nx: int, ny: int|
                #![trigger marked(explored@, x, y), adjacent(x, y, nx, ny)]
                marked(explored@, x, y) && !marked(old(explored)@, x, y) && adjacent(x, y, nx, ny)
                    && passable(room@, blocked, nx, ny) ==> marked(explored@, nx, ny) || on_stack(
                    stack@,
                    nx,
                    ny,
                ),
            passable(room@, blocked, sx, sy) ==> marked(explored@, sx, sy) || on_stack(
                stack@,
                sx,
                sy,
            ),
            bounds.is_none() ==> forall|x: int, y: int| #[trigger]
                marked(explored@, x, y) ==> marked(old(explored)@, x, y),
            bounds matches Some(b) ==> {
                &&& b.0 <= b.1
                &&& b.2 <= b.3
                &&& forall|x: int, y: int| #[trigger]
                    marked(explored@, x, y) && !marked(old(explored)@, x, y) ==> b.0 <= x <= b.1
                        && b.2 <= y <= b.3
                &&& marked(explored@, b.0 as int, at_left) && !marked(
                    old(explored)@,
                    b.0 as int,
                    at_left,
                )
                &&& marked(explored@, b.1 as int, at_right) && !marked(
                    old(explored)@,
                    b.1 as int,
                    at_right,
                )
                &&& marked(explored@, at_top, b.2 as int) && !marked(
                    old(explored)@,
                    at_top,
                    b.2 as int,
                )
                &&& marked(explored@, at_bottom, b.3 as int) && !marked(
                    old(explored)@,
                    at_bottom,
                    b.3 as int,
                )
            },
        ensures
            stack.len() == 0,
        decreases unmarked(explored@), stack.len(),
    {
        let ghost stack0 = stack@;
        let ghost mask0 = explored@;
        let p = match stack.pop() {
            None => {
                break ;
            },
            Some(p) => p,
        };
        let ghost stack1 = stack@;
        proof {
            assert(p == stack0[stack0.len() - 1]);
            assert forall|x: int, y: int|
                on_stack(stack0, x, y) && !(x == p.0 && y == p.1) implies #[trigger] on_stack(
                stack1,
                x,
                y,
            ) by {
                let k = choose|k: int|
                    0 <= k < stack0.len() && (#[trigger] stack0[k]).0 == x && stack0[k].1 == y;
                assert(stack1[k] == stack0[k]);
            }
        }
        if !point_valid(&p, room) {
            continue ;
        }
        if explored[p.1][p.0] {
            assert(marked(explored@, p.0 as int, p.1 as int));
            continue ;
        }
        proof {
            assert(!marked(mask0, p.0 as int, p.1 as int));
            assert(!marked(old(explored)@, p.0 as int, p.1 as int));
            assert(passable(room@, blocked, p.0 as int, p.1 as int));
            assert(reaches(room@, blocked, sx, sy, p.0 as int, p.1 as int));
        }
        mark(explored, p.0, p.1);
        let wider = widen(bounds, p.0, p.1);
        proof {
            if bounds.is_none() || p.0 < bounds.unwrap().0 {
                at_left = p.1 as int;
            }
            if bounds.is_none() || p.0 > bounds.unwrap().1 {
                at_right = p.1 as int;
            }
            if bounds.is_none() || p.1 < bounds.unwrap().2 {
                at_top = p.0 as int;
            }
            if bounds.is_none() || p.1 > bounds.unwrap().3 {
                at_bottom = p.0 as int;
            }
        }
        bounds = Some(wider);
        let around = cardinals(&p);
        stack.push(around[0]);
        stack.push(around[1]);
        stack.push(around[2]);
        stack.push(around[3]);
        proof {
            let stack2 = stack@;
            let n = stack1.len() as int;
            assert(stack2.len() == n + 4);
            assert(stack2[n] == around[0] && stack2[n + 1] == around[1] && stack2[n + 2]
                == around[2] && stack2[n + 3] == around[3]);
            assert forall|x: int, y: int| on_stack(stack1, x, y) implies #[trigger] on_stack(
                stack2,
                x,
                y,
            ) by {
                let k = choose|k: int|
                    0 <= k < stack1.len() && (#[trigger] stack1[k]).0 == x && stack1[k].1 == y;
                assert(stack2[k] == stack1[k]);
            }
            assert forall|k: int|
                0 <= k < stack2.len() && passable(
                    room@,
                    blocked,
                    (#[trigger] stack2[k]).0 as int,
                    stack2[k].1 as int,
                ) implies reaches(room@, blocked, sx, sy, stack2[k].0 as int, stack2[k].1 as int) by {
                if k < n {
                    assert(stack2[k] == stack1[k]);
                    assert(stack1[k] == stack0[k]);
                } else {
                    let e = stack2[k];
                    if e.0 == p.0 && e.1 == p.1 {
                    } else {
                        assert(adjacent(p.0 as int, p.1 as int, e.0 as int, e.1 as int));
                        lemma_reaches_step(
                            room@,
                            blocked,
                            sx,
                            sy,
                            p.0 as int,
                            p.1 as int,
                            e.0 as int,
                            e.1 as int,
                        );
                    }
                }
            }
            assert forall|x: int, y: int, nx: int, ny: int|
                #![trigger marked(explored@, x, y), adjacent(x, y, nx, ny)]
                marked(explored@, x, y) && !marked(old(explored)@, x, y) && adjacent(x, y, nx, ny)
                    && passable(room@, blocked, nx, ny) implies marked(explored@, nx, ny)
                || on_stack(stack2, nx, ny) by {
                if x == p.0 && y == p.1 {
                    if ny == y + 1 {
                        assert(stack2[n].0 == nx && stack2[n].1 == ny);
                    } else if y == ny + 1 {
                        assert(stack2[n + 1].0 == nx && stack2[n + 1].1 == ny);
                    } else if nx == x + 1 {
                        assert(stack2[n + 2].0 == nx && stack2[n + 2].1 == ny);
                    } else {
                        assert(stack2[n + 3].0 == nx && stack2[n + 3].1 == ny);
                    }
                } else {
                    assert(marked(mask0, x, y));
                    assert(adjacent(x, y, nx, ny));
                    if marked(mask0, nx, ny) {
                    } else {
                        assert(on_stack(stack0, nx, ny));
                        if nx == p.0 && ny == p.1 {
                        } else {
                            assert(on_stack(stack1, nx, ny));
                        }
                    }
                }
            }
            if passable(room@, blocked, sx, sy) && !marked(explored@, sx, sy) {
                assert(!marked(mask0, sx, sy));
                assert(on_stack(stack0, sx, sy));
                assert(on_stack(stack1, sx, sy));
            }
        }
    }
    proof {
        let cells = Set::new(
            |c: (int, int)| marked(explored@, c.0, c.1) && !marked(old(explored)@, c.0, c.1),
        );
        assert forall|x: int, y: int| #[trigger]
            marked(explored@, x, y) == (marked(old(explored)@, x, y) || reaches(
                room@,
                blocked,
                sx,
                sy,
                x,
                y,
            )) by {
            if reaches(room@, blocked, sx, sy, x, y) {
                let path = choose|path: Seq<(int, int)>| #[trigger]
                    is_path(room@, blocked, path) && path[0] == (sx, sy) && path.last() == (x, y);
                assert forall|ax: int, ay: int, nx: int, ny: int|
                    #![trigger cells.contains((ax, ay)), cells.contains((nx, ny))]
                    cells.contains((ax, ay)) && adjacent(ax, ay, nx, ny) && passable(
                        room@,
                        blocked,
                        nx,
                        ny,
                    ) implies cells.contains((nx, ny)) by {
                    assert(marked(explored@, ax, ay));
                    assert(adjacent(ax, ay, nx, ny));
                    assert(!on_stack(stack@, nx, ny));
                }
                assert(!on_stack(stack@, sx, sy));
                lemma_closed_holds_reached(room@, blocked, cells, sx, sy, path);
                assert(cells.contains((x, y)));
            }
        }
        if passable(room@, blocked, sx, sy) {
            lemma_reaches_self(room@, blocked, sx, sy);
            assert(marked(explored@, sx, sy));
        }
        if bounds.is_some() {
            let b = bounds.unwrap();
            assert(reaches(room@, blocked, sx, sy, b.0 as int, at_left));
            lemma_reaches_passable(room@, blocked, sx, sy, b.0 as int, at_left);
        }
    }
    match bounds {
        None => None,
        Some(b) => {
            let r = Rect::new(b.0, b.2, b.1 - b.0, b.3 - b.2);
            proof {
                assert(reaches(room@, blocked, sx, sy, r.x as int, at_left));
                assert(reaches(room@, blocked, sx, sy, r.right(), at_right));
                assert(reaches(room@, blocked, sx, sy, at_top, r.y as int));
                assert(reaches(room@, blocked, sx, sy, at_bottom, r.bottom()));
                assert forall|x: int, y: int| #[trigger]
                    reaches(room@, blocked, sx, sy, x, y) implies r.contains(x, y) by {
                    assert(marked(explored@, x, y));
                    lemma_reaches_passable(room@, blocked, sx, sy, x, y);
                }
            }
            Some(r)
        },
    }
}

/// A path without its last cell is a path.
proof fn lemma_path_drop_last(room: Seq<Vec<Objects>>, blocked: Set<(int, int)>, path: Seq<(int, int)>)
    requires
        is_path(room, blocked, path),
        path.len() > 1,
    ensures
        is_path(room, blocked, path.drop_last()),
{
    let shorter = path.drop_last();
    assert forall|i: int| 0 <= i < shorter.len() implies passable(
        room,
        blocked,
        (#[trigger] shorter[i]).0,
        shorter[i].1,
    ) by {
        assert(shorter[i] == path[i]);
    }
    assert forall|i: int| 0 <= i < shorter.len() - 1 implies adjacent(
        shorter[i].0,
        shorter[i].1,
        (#[trigger] shorter[i + 1]).0,
        shorter[i + 1].1,
    ) by {
        assert(shorter[i] == path[i]);
        assert(shorter[i + 1] == path[i + 1]);
    }
}

/// What reaches the first cell of a path reaches its last cell.
proof fn lemma_reaches_along(
    room: Seq<Vec<Objects>>,
    blocked: Set<(int, int)>,
    sx: int,
    sy: int,
    path: Seq<(int, int)>,
)
    requires
        is_path(room, blocked, path),
        reaches(room, blocked, sx, sy, path[0].0, path[0].1),
    ensures
        reaches(room, blocked, sx, sy, path.last().0, path.last().1),
    decreases path.len(),
{
    if path.len() > 1 {
        lemma_path_drop_last(room, blocked, path);
        lemma_reaches_along(room, blocked, sx, sy, path.drop_last());
        let last = path.len() - 1;
        assert(path.drop_last().last() == path[last - 1]);
        assert(adjacent(
            path[last - 1].0,
            path[last - 1].1,
            path[last - 1 + 1].0,
            path[last - 1 + 1].1,
        ));
        assert(passable(room, blocked, path[last].0, path[last].1));
        lemma_reaches_step(
            room,
            blocked,
            sx,
            sy,
            path[last - 1].0,
            path[last - 1].1,
            path[last].0,
            path[last].1,
        );
    }
}

/// Reaching carries over: from `a` to `b` and from `b` to `c` gives from `a` to `c`.
pub proof fn lemma_reaches_trans(
    room: Seq<Vec<Objects>>,
    blocked: Set<(int, int)>,
    ax: int,
    ay: int,
    bx: int,
    by: int,
    cx: int,
    cy: int,
)
    requires
        reaches(room, blocked, ax, ay, bx, by),
        reaches(room, blocked, bx, by, cx, cy),
    ensures
        reaches(room, blocked, ax, ay, cx, cy),
{
    let path = choose|path: Seq<(int, int)>| #[trigger]
        is_path(room, blocked, path) && path[0] == (bx, by) && path.last() == (cx, cy);
    lemma_reaches_along(room, blocked, ax, ay, path);
}

/// Each cell of a path reaches the first cell of the path.
proof fn lemma_reaches_back(
    room: Seq<Vec<Objects>>,
    blocked: Set<(int, int)>,
    path: Seq<(int, int)>,
    i: int,
)
    requires
        is_path(room, blocked, path),
        0 <= i < path.len(),
    ensures
        reaches(room, blocked, path[i].0, path[i].1, path[0].0, path[0].1),
    decreases i,
{
    assert(passable(room, blocked, path[i].0, path[i].1));
    lemma_reaches_self(room, blocked, path[i].0, path[i].1);
    if i > 0 {
        lemma_reaches_back(room, blocked, path, i - 1);
        assert(passable(room, blocked, path[i - 1].0, path[i - 1].1));
        assert(adjacent(path[i - 1].0, path[i - 1].1, path[i - 1 + 1].0, path[i - 1 + 1].1));
        lemma_reaches_step(
            room,
            blocked,
            path[i].0,
            path[i].1,
            path[i].0,
            path[i].1,
            path[i - 1].0,
            path[i - 1].1,
        );
        lemma_reaches_trans(
            room,
            blocked,
            path[i].0,
            path[i].1,
            path[i - 1].0,
            path[i - 1].1,
            path[0].0,
            path[0].1,
        );
    }
}

/// Reaching goes both ways.
pub proof fn lemma_reaches_sym(
    room: Seq<Vec<Objects>>,
    blocked: Set<(int, int)>,
    ax: int,
    ay: int,
    bx: int,
    by: int,
)
    requires
        reaches(room, blocked, ax, ay, bx, by),
    ensures
        reaches(room, blocked, bx, by, ax, ay),
{
    let path = choose|path: Seq<(int, int)>| #[trigger]
        is_path(room, blocked, path) && path[0] == (ax, ay) && path.last() == (bx, by);
    lemma_reaches_back(room, blocked, path, path.len() - 1);
}

/// Two cells belong to one region: a path over open cells joins them.
pub open spec fn connected(room: Seq<Vec<Objects>>, ax: int, ay: int, bx: int, by: int) -> bool {
    reaches(room, Set::empty(), ax, ay, bx, by)
}

/// With every cell of `blocked` all cells of its region are blocked too.
pub open spec fn whole_regions(room: Seq<Vec<Objects>>, blocked: Set<(int, int)>) -> bool {
    forall|ax: int, ay: int, bx: int, by: int|
        #![trigger blocked.contains((ax, ay)), connected(room, ax, ay, bx, by)]
        blocked.contains((ax, ay)) && connected(room, ax, ay, bx, by) ==> blocked.contains(
            (bx, by),
        )
}

/// A path that avoids blocked cells is a path over open cells.
pub proof fn lemma_reaches_connected(
    room: Seq<Vec<Objects>>,
    blocked: Set<(int, int)>,
    sx: int,
    sy: int,
    x: int,
    y: int,
)
    requires
        reaches(room, blocked, sx, sy, x, y),
    ensures
        connected(room, sx, sy, x, y),
{
    let path = choose|path: Seq<(int, int)>| #[trigger]
        is_path(room, blocked, path) && path[0] == (sx, sy) && path.last() == (x, y);
    assert(is_path(room, Set::empty(), path));
}

/// Where whole regions are blocked, a cell that is not blocked reaches all
/// of its region without meeting a blocked cell.
pub proof fn lemma_connected_reaches(
    room: Seq<Vec<Objects>>,
    blocked: Set<(int, int)>,
    sx: int,
    sy: int,
    x: int,
    y: int,
)
    requires
        whole_regions(room, blocked),
        !blocked.contains((sx, sy)),
        connected(room, sx, sy, x, y),
    ensures
        reaches(room, blocked, sx, sy, x, y),
{
    let none = Set::<(int, int)>::empty();
    let path = choose|path: Seq<(int, int)>| #[trigger]
        is_path(room, none, path) && path[0] == (sx, sy) && path.last() == (x, y);
    assert forall|i: int| 0 <= i < path.len() implies passable(
        room,
        blocked,
        (#[trigger] path[i]).0,
        path[i].1,
    ) by {
        lemma_reaches_back(room, none, path, i);
        assert(connected(room, path[i].0, path[i].1, sx, sy));
        if blocked.contains((path[i].0, path[i].1)) {
            assert(blocked.contains((sx, sy)));
        }
        assert(passable(room, none, path[i].0, path[i].1));
    }
    assert(is_path(room, blocked, path));
}

/// The scan goes row by row: `(ax, ay)` comes before `(bx, by)`.
pub open spec fn scanned_before(ax: int, ay: int, bx: int, by: int) -> bool {
    ay < by || (ay == by && ax < bx)
}

/// `(x, y)` is the first cell of its region in the order of the scan.
pub open spec fn is_seed(room: Seq<Vec<Objects>>, x: int, y: int) -> bool {
    is_open(room, x, y) && forall|px: int, py: int| #[trigger]
        connected(room, x, y, px, py) ==> !scanned_before(px, py, x, y)
}

/// `r` is the smallest rectangle around the region of `(sx, sy)`.
pub open spec fn region_box(room: Seq<Vec<Objects>>, sx: int, sy: int, r: Rect) -> bool {
    bounding_box(room, Set::empty(), sx, sy, r)
}

/// `seeds` are the first cells of all regions of `room`, in the order of the
/// scan, and `rects` are the rectangles around their regions.
pub open spec fn extraction(room: Seq<Vec<Objects>>, seeds: Seq<(int, int)>, rects: Seq<Rect>)
    -> bool {
    &&& seeds.len() == rects.len()
    &&& forall|k: int|
        0 <= k < seeds.len() ==> is_seed(room, (#[trigger] seeds[k]).0, seeds[k].1)
    &&& forall|k: int|
        0 <= k < seeds.len() ==> (#[trigger] rects[k]).wf() && region_box(
            room,
            seeds[k].0,
            seeds[k].1,
            rects[k],
        )
    &&& forall|k: int, l: int|
        0 <= k < l < seeds.len() ==> scanned_before(
            (#[trigger] seeds[k]).0,
            seeds[k].1,
            (#[trigger] seeds[l]).0,
            seeds[l].1,
        )
    &&& forall|x: int, y: int| #[trigger]
        is_seed(room, x, y) ==> exists|k: int|
            0 <= k < seeds.len() && #[trigger] seeds[k] == (x, y)
}

/// `rects` holds one rectangle for each region of `room`: the smallest
/// rectangle around it, in the order in which a scan row by row meets the
/// regions.
pub open spec fn extracted(room: Seq<Vec<Objects>>, rects: Seq<Rect>) -> bool {
    exists|seeds: Seq<(int, int)>| extraction(room, seeds, rects)
}

/// What holds when the scan stands before the cell `(x, y)`.
spec fn scan_state(
    room: Seq<Vec<Objects>>,
    mask: Seq<Vec<bool>>,
    seeds: Seq<(int, int)>,
    rects: Seq<Rect>,
    x: int,
    y: int,
) -> bool {
    &&& mask_fits(mask, room)
    &&& whole_regions(room, marked_cells(mask))
    &&& forall|cx: int, cy: int| #[trigger]
        marked(mask, cx, cy) ==> exists|k: int|
            0 <= k < seeds.len() && connected(room, (#[trigger] seeds[k]).0, seeds[k].1, cx, cy)
    &&& forall|cx: int, cy: int|
        is_open(room, cx, cy) && scanned_before(cx, cy, x, y) ==> #[trigger] marked(mask, cx, cy)
    &&& seeds.len() == rects.len()
    &&& forall|k: int|
        0 <= k < seeds.len() ==> is_seed(room, (#[trigger] seeds[k]).0, seeds[k].1)
            && scanned_before(seeds[k].0, seeds[k].1, x, y)
    &&& forall|k: int|
        0 <= k < seeds.len() ==> (#[trigger] rects[k]).wf() && region_box(
            room,
            seeds[k].0,
            seeds[k].1,
            rects[k],
        )
    &&& forall|k: int, l: int|
        0 <= k < l < seeds.len() ==> scanned_before(
            (#[trigger] seeds[k]).0,
            seeds[k].1,
            (#[trigger] seeds[l]).0,
            seeds[l].1,
        )
    &&& forall|cx: int, cy: int| #[trigger]
        is_seed(room, cx, cy) && scanned_before(cx, cy, x, y) ==> exists|k: int|
            0 <= k < seeds.len() && #[trigger] seeds[k] == (cx, cy)
}

proof fn lemma_scan_skip(
    room: Seq<Vec<Objects>>,
    mask: Seq<Vec<bool>>,
    seeds: Seq<(int, int)>,
    rects: Seq<Rect>,
    x: int,
    y: int,
)
    requires
        scan_state(room, mask, seeds, rects, x, y),
        !is_open(room, x, y) || marked(mask, x, y),
    ensures
        scan_state(room, mask, seeds, rects, x + 1, y),
{
    if is_seed(room, x, y) {
        assert(marked(mask, x, y));
        let k = choose|k: int|
            0 <= k < seeds.len() && connected(room, (#[trigger] seeds[k]).0, seeds[k].1, x, y);
        lemma_reaches_sym(room, Set::empty(), seeds[k].0, seeds[k].1, x, y);
        assert(connected(room, x, y, seeds[k].0, seeds[k].1));
        assert(false);
    }
}

proof fn lemma_scan_found(
    room: Seq<Vec<Objects>>,
    mask0: Seq<Vec<bool>>,
    mask1: Seq<Vec<bool>>,
    seeds: Seq<(int, int)>,
    rects: Seq<Rect>,
    x: int,
    y: int,
    r: Rect,
)
    requires
        scan_state(room, mask0, seeds, rects, x, y),
        is_open(room, x, y),
        !marked(mask0, x, y),
        mask_fits(mask1, room),
        forall|cx: int, cy: int| #[trigger]
            marked(mask1, cx, cy) == (marked(mask0, cx, cy) || reaches(
                room,
                marked_cells(mask0),
                x,
                y,
                cx,
                cy,
            )),
        r.wf(),
        bounding_box(room, marked_cells(mask0), x, y, r),
    ensures
        scan_state(room, mask1, seeds.push((x, y)), rects.push(r), x + 1, y),
{
    let none = Set::<(int, int)>::empty();
    let blocked = marked_cells(mask0);
    let seeds1 = seeds.push((x, y));
    let rects1 = rects.push(r);
    let n = seeds.len() as int;
    // Avoiding the blocked cells changes nothing for the region of `(x, y)`.
    assert forall|cx: int, cy: int|
        reaches(room, blocked, x, y, cx, cy) == #[trigger] reaches(room, none, x, y, cx, cy) by {
        if reaches(room, blocked, x, y, cx, cy) {
            lemma_reaches_connected(room, blocked, x, y, cx, cy);
        }
        if connected(room, x, y, cx, cy) {
            lemma_connected_reaches(room, blocked, x, y, cx, cy);
        }
    }
    lemma_reaches_self(room, none, x, y);
    lemma_reaches_self(room, blocked, x, y);
    assert(marked(mask1, x, y));
    assert forall|ax: int, ay: int, bx: int, by: int|
        #![trigger marked_cells(mask1).contains((ax, ay)), connected(room, ax, ay, bx, by)]
        marked_cells(mask1).contains((ax, ay)) && connected(
            room,
            ax,
            ay,
            bx,
            by,
        ) implies marked_cells(mask1).contains((bx, by)) by {
        assert(marked(mask1, ax, ay));
        if marked(mask0, ax, ay) {
            assert(blocked.contains((ax, ay)));
            assert(blocked.contains((bx, by)));
            assert(marked(mask0, bx, by));
        } else {
            lemma_reaches_connected(room, blocked, x, y, ax, ay);
            lemma_reaches_trans(room, none, x, y, ax, ay, bx, by);
            lemma_connected_reaches(room, blocked, x, y, bx, by);
        }
        assert(marked(mask1, bx, by));
    }
    assert forall|cx: int, cy: int| #[trigger] marked(mask1, cx, cy) implies exists|k: int|
        0 <= k < seeds1.len() && connected(room, (#[trigger] seeds1[k]).0, seeds1[k].1, cx, cy) by {
        if marked(mask0, cx, cy) {
            let k = choose|k: int|
                0 <= k < seeds.len() && connected(
                    room,
                    (#[trigger] seeds[k]).0,
                    seeds[k].1,
                    cx,
                    cy,
                );
            assert(seeds1[k] == seeds[k]);
        } else {
            assert(seeds1[n] == (x, y));
            lemma_reaches_connected(room, blocked, x, y, cx, cy);
            assert(connected(room, seeds1[n].0, seeds1[n].1, cx, cy));
        }
    }
    assert forall|px: int, py: int| #[trigger] connected(room, x, y, px, py) implies !scanned_before(
        px,
        py,
        x,
        y,
    ) by {
        if scanned_before(px, py, x, y) {
            lemma_reaches_passable(room, none, x, y, px, py);
            assert(marked(mask0, px, py));
            lemma_reaches_sym(room, none, x, y, px, py);
            assert(blocked.contains((px, py)));
            assert(connected(room, px, py, x, y));
            assert(blocked.contains((x, y)));
        }
    }
    assert(is_seed(room, x, y));
    assert forall|k: int| 0 <= k < seeds1.len() implies is_seed(
        room,
        (#[trigger] seeds1[k]).0,
        seeds1[k].1,
    ) && scanned_before(seeds1[k].0, seeds1[k].1, x + 1, y) by {
        if k < n {
            assert(seeds1[k] == seeds[k]);
        }
    }
    assert(region_box(room, x, y, r)) by {
        let y0 = choose|y0: int| #[trigger] reaches(room, blocked, x, y, r.x as int, y0);
        assert(connected(room, x, y, r.x as int, y0));
        let y1 = choose|y1: int| #[trigger] reaches(room, blocked, x, y, r.right(), y1);
        assert(connected(room, x, y, r.right(), y1));
        let x0 = choose|x0: int| #[trigger] reaches(room, blocked, x, y, x0, r.y as int);
        assert(connected(room, x, y, x0, r.y as int));
        let x1 = choose|x1: int| #[trigger] reaches(room, blocked, x, y, x1, r.bottom());
        assert(connected(room, x, y, x1, r.bottom()));
        assert forall|cx: int, cy: int| #[trigger]
            reaches(room, none, x, y, cx, cy) implies r.contains(cx, cy) by {
            assert(reaches(room, blocked, x, y, cx, cy));
        }
    }
    assert forall|k: int| 0 <= k < seeds1.len() implies (#[trigger] rects1[k]).wf() && region_box(
        room,
        seeds1[k].0,
        seeds1[k].1,
        rects1[k],
    ) by {
        if k < n {
            assert(seeds1[k] == seeds[k]);
            assert(rects1[k] == rects[k]);
        }
    }
    assert forall|k: int, l: int| 0 <= k < l < seeds1.len() implies scanned_before(
        (#[trigger] seeds1[k]).0,
        seeds1[k].1,
        (#[trigger] seeds1[l]).0,
        seeds1[l].1,
    ) by {
        assert(seeds1[k] == seeds[k]);
        if l < n {
            assert(seeds1[l] == seeds[l]);
        }
    }
    assert forall|cx: int, cy: int| #[trigger]
        is_seed(room, cx, cy) && scanned_before(cx, cy, x + 1, y) implies exists|k: int|
        0 <= k < seeds1.len() && #[trigger] seeds1[k] == (cx, cy) by {
        if scanned_before(cx, cy, x, y) {
            let k = choose|k: int| 0 <= k < seeds.len() && #[trigger] seeds[k] == (cx, cy);
            assert(seeds1[k] == seeds[k]);
        } else {
            assert(seeds1[n] == (cx, cy));
        }
    }
}

proof fn lemma_scan_next_row(
    room: Seq<Vec<Objects>>,
    mask: Seq<Vec<bool>>,
    seeds: Seq<(int, int)>,
    rects: Seq<Rect>,
    y: int,
)
    requires
        0 <= y < room.len(),
        scan_state(room, mask, seeds, rects, room[y].len() as int, y),
    ensures
        scan_state(room, mask, seeds, rects, 0, y + 1),
{
    let x = room[y].len() as int;
    assert forall|cx: int, cy: int|
        is_open(room, cx, cy) && scanned_before(cx, cy, 0, y + 1) implies #[trigger] marked(
        mask,
        cx,
        cy,
    ) by {
        assert(scanned_before(cx, cy, x, y));
    }
    assert forall|cx: int, cy: int| #[trigger]
        is_seed(room, cx, cy) && scanned_before(cx, cy, 0, y + 1) implies exists|k: int|
        0 <= k < seeds.len() && #[trigger] seeds[k] == (cx, cy) by {
        assert(scanned_before(cx, cy, x, y));
    }
}

/// A mask for `room` with no flag set.
pub fn blank_mask(room: &Vec<Vec<Objects>>) -> (mask: Vec<Vec<bool>>)
    ensures
        mask_fits(mask@, room@),
        forall|x: int, y: int| !marked(mask@, x, y),
{
    let mut mask: Vec<Vec<bool>> = Vec::new();
    let mut j: usize = 0;
    while j < room.len()
        invariant
            j <= room.len(),
            mask.len() == j,
            forall|i: int| 0 <= i < j ==> (#[trigger] mask@[i]).len() == room@[i].len(),
            forall|i: int, x: int|
                0 <= i < j && 0 <= x < mask@[i].len() ==> !(#[trigger] mask@[i]@[x]),
        decreases room.len() - j,
    {
        let row = vec![false; room[j].len()];
        mask.push(row);
        j += 1;
    }
    mask
}

/// The regions of `room`: scans the cells row by row, fills each region from
/// the first of its cells that the scan meets and returns the smallest
/// rectangle around each region, in that order.  A grid without an open cell
/// gives no rectangle.
pub fn find_rects(room: &Vec<Vec<Objects>>) -> (rects: Vec<Rect>)
    ensures
        extracted(room@, rects@),
{
    let mut explored = blank_mask(room);
    let mut rects: Vec<Rect> = Vec::new();
    let ghost mut seeds: Seq<(int, int)> = Seq::empty();
    let mut y: usize = 0;
    proof {
        assert(marked_cells(explored@) =~= Set::<(int, int)>::empty());
    }
    while y < room.len()
        invariant
            y <= room.len(),
            scan_state(room@, explored@, seeds, rects@, 0, y as int),
        decreases room.len() - y,
    {
        let mut x: usize = 0;
        while x < room[y].len()
            invariant
                y < room.len(),
                x <= room[y as int].len(),
                scan_state(room@, explored@, seeds, rects@, x as int, y as int),
            decreases room[y as int].len() - x,
        {
            let here = (x, y);
            if point_valid(&here, room) && !explored[y][x] {
                let ghost mask0 = explored@;
                let ghost rects0 = rects@;
                let found = find_rect(here, room, &mut explored);
                proof {
                    assert(!marked_cells(mask0).contains((x as int, y as int)));
                }
                let r = found.unwrap();
                rects.push(r);
                proof {
                    lemma_scan_found(
                        room@,
                        mask0,
                        explored@,
                        seeds,
                        rects0,
                        x as int,
                        y as int,
                        r,
                    );
                    seeds = seeds.push((x as int, y as int));
                }
            } else {
                proof {
                    lemma_scan_skip(room@, explored@, seeds, rects@, x as int, y as int);
                }
            }
            x += 1;
        }
        proof {
            lemma_scan_next_row(room@, explored@, seeds, rects@, y as int);
        }
        y += 1;
    }
    proof {
        assert(extraction(room@, seeds, rects@));
    }
    rects
}

/// The rectangle around a region of a square grid lies inside the grid.
pub proof fn lemma_region_box_fits(room: Seq<Vec<Objects>>, sx: int, sy: int, r: Rect, size: int)
    requires
        square(room, size),
        region_box(room, sx, sy, r),
    ensures
        r.fits(size),
{
    let none = Set::<(int, int)>::empty();
    let y = choose|y: int| #[trigger] reaches(room, none, sx, sy, r.right(), y);
    lemma_reaches_passable(room, none, sx, sy, r.right(), y);
    let x = choose|x: int| #[trigger] reaches(room, none, sx, sy, x, r.bottom());
    lemma_reaches_passable(room, none, sx, sy, x, r.bottom());
}

/// The rectangles extracted from a square grid lie inside the grid.
pub proof fn lemma_extracted_fit(room: Seq<Vec<Objects>>, rects: Seq<Rect>, size: int)
    requires
        square(room, size),
        extracted(room, rects),
    ensures
        forall|k: int| 0 <= k < rects.len() ==> (#[trigger] rects[k]).wf() && rects[k].fits(size),
{
    let seeds = choose|seeds: Seq<(int, int)>| extraction(room, seeds, rects);
    assert forall|k: int| 0 <= k < rects.len() implies (#[trigger] rects[k]).wf() && rects[k].fits(
        size,
    ) by {
        lemma_region_box_fits(room, seeds[k].0, seeds[k].1, rects[k], size);
    }
}

/// Every cell on the edges of `r` is a wall of the grid.
pub open spec fn walled(room: Seq<Vec<Objects>>, r: Rect) -> bool {
    forall|x: int, y: int| #[trigger] r.on_edge(x, y) ==> is_wall(room, x, y)
}

/// A rectangle with walls on all its edges shuts in what lies inside: from
/// a cell inside, only cells inside are reached.
pub proof fn lemma_walled_encloses(
    room: Seq<Vec<Objects>>,
    r: Rect,
    sx: int,
    sy: int,
    x: int,
    y: int,
)
    requires
        walled(room, r),
        r.contains(sx, sy),
        connected(room, sx, sy, x, y),
    ensures
        r.contains(x, y),
        !r.on_edge(x, y),
{
    let none = Set::<(int, int)>::empty();
    let path = choose|path: Seq<(int, int)>| #[trigger]
        is_path(room, none, path) && path[0] == (sx, sy) && path.last() == (x, y);
    let inside = Set::new(|c: (int, int)| r.contains(c.0, c.1) && !r.on_edge(c.0, c.1));
    assert(passable(room, none, path[0].0, path[0].1));
    assert(inside.contains((sx, sy)));
    assert forall|ax: int, ay: int, nx: int, ny: int|
        #![trigger inside.contains((ax, ay)), inside.contains((nx, ny))]
        inside.contains((ax, ay)) && adjacent(ax, ay, nx, ny) && passable(
            room,
            none,
            nx,
            ny,
        ) implies inside.contains((nx, ny)) by {
        assert(r.contains(nx, ny));
        if r.on_edge(nx, ny) {
            assert(room[ny][nx] == Objects::Wall);
        }
    }
    lemma_closed_holds_reached(room, none, inside, sx, sy, path);
    assert(inside.contains((x, y)));
}

/// A set of cells has one smallest rectangle around it.
pub proof fn lemma_bounding_box_unique(
    room: Seq<Vec<Objects>>,
    blocked: Set<(int, int)>,
    sx: int,
    sy: int,
    a: Rect,
    b: Rect,
)
    requires
        bounding_box(room, blocked, sx, sy, a),
        bounding_box(room, blocked, sx, sy, b),
    ensures
        a == b,
{
    let ya = choose|y: int| #[trigger] reaches(room, blocked, sx, sy, a.x as int, y);
    assert(b.contains(a.x as int, ya));
    let yb = choose|y: int| #[trigger] reaches(room, blocked, sx, sy, b.x as int, y);
    assert(a.contains(b.x as int, yb));
    let yc = choose|y: int| #[trigger] reaches(room, blocked, sx, sy, a.right(), y);
    assert(b.contains(a.right(), yc));
    let yd = choose|y: int| #[trigger] reaches(room, blocked, sx, sy, b.right(), y);
    assert(a.contains(b.right(), yd));
    let xa = choose|x: int| #[trigger] reaches(room, blocked, sx, sy, x, a.y as int);
    assert(b.contains(xa, a.y as int));
    let xb = choose|x: int| #[trigger] reaches(room, blocked, sx, sy, x, b.y as int);
    assert(a.contains(xb, b.y as int));
    let xc = choose|x: int| #[trigger] reaches(room, blocked, sx, sy, x, a.bottom());
    assert(b.contains(xc, a.bottom()));
    let xd = choose|x: int| #[trigger] reaches(room, blocked, sx, sy, x, b.bottom());
    assert(a.contains(xd, b.bottom()));
}

/// Two lists of the seeds of a grid have the same seed at each place.
proof fn lemma_same_seed_at(
    room: Seq<Vec<Objects>>,
    a: Seq<(int, int)>,
    ra: Seq<Rect>,
    b: Seq<(int, int)>,
    rb: Seq<Rect>,
    i: int,
)
    requires
        extraction(room, a, ra),
        extraction(room, b, rb),
        0 <= i < a.len(),
        0 <= i < b.len(),
    ensures
        a[i] == b[i],
    decreases i,
{
    let sa = a[i];
    let sb = b[i];
    assert(is_seed(room, sa.0, sa.1));
    assert(is_seed(room, sb.0, sb.1));
    let j = choose|j: int| 0 <= j < b.len() && #[trigger] b[j] == (sa.0, sa.1);
    let k = choose|k: int| 0 <= k < a.len() && #[trigger] a[k] == (sb.0, sb.1);
    if j < i {
        lemma_same_seed_at(room, a, ra, b, rb, j);
        assert(scanned_before(a[j].0, a[j].1, a[i].0, a[i].1));
    } else if k < i {
        lemma_same_seed_at(room, a, ra, b, rb, k);
        assert(scanned_before(b[k].0, b[k].1, b[i].0, b[i].1));
    } else if j > i {
        assert(scanned_before(b[i].0, b[i].1, b[j].0, b[j].1));
        if k > i {
            assert(scanned_before(a[i].0, a[i].1, a[k].0, a[k].1));
        }
    }
}

/// Of two lists of the seeds of a grid the second is not the longer one.
proof fn lemma_seeds_no_longer(
    room: Seq<Vec<Objects>>,
    a: Seq<(int, int)>,
    ra: Seq<Rect>,
    b: Seq<(int, int)>,
    rb: Seq<Rect>,
)
    requires
        extraction(room, a, ra),
        extraction(room, b, rb),
    ensures
        b.len() <= a.len(),
{
    if b.len() > a.len() {
        let s = b[a.len() as int];
        assert(is_seed(room, s.0, s.1));
        let k = choose|k: int| 0 <= k < a.len() && #[trigger] a[k] == (s.0, s.1);
        lemma_same_seed_at(room, a, ra, b, rb, k);
        assert(scanned_before(b[k].0, b[k].1, b[a.len() as int].0, b[a.len() as int].1));
    }
}

/// The grid determines what is extracted from it.
pub proof fn lemma_extracted_unique(room: Seq<Vec<Objects>>, first: Seq<Rect>, second: Seq<Rect>)
    requires
        extracted(room, first),
        extracted(room, second),
    ensures
        first == second,
{
    let a = choose|seeds: Seq<(int, int)>| extraction(room, seeds, first);
    let b = choose|seeds: Seq<(int, int)>| extraction(room, seeds, second);
    lemma_seeds_no_longer(room, a, first, b, second);
    lemma_seeds_no_longer(room, b, second, a, first);
    assert forall|i: int| 0 <= i < first.len() implies first[i] == second[i] by {
        lemma_same_seed_at(room, a, first, b, second, i);
        lemma_bounding_box_unique(room, Set::empty(), a[i].0, a[i].1, first[i], second[i]);
    }
    assert(first =~= second);
}

} // verus!
