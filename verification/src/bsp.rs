//! The shape of a partition: the tree of the cuts that made it.  A grid
//! that a tree renders is determined by the tree, cell by cell.

use vstd::prelude::*;
use crate::grid::{Objects, square, same_shape, in_grid, is_open, is_wall};
use crate::partition::{SplitQueue, span, on_queue, CUT_MIN, CUT_MAX, lemma_cut_in_range};
use crate::rect::Rect;

verus! {

/// How a region was dealt with: left whole, still waiting in the queue, or
/// cut at so many thousandths of its span into the region before the wall
/// and the region after it.  Where the wall stands on the first line of the
/// region there is no region before it, and a whole leaf stands in its place.
pub enum Bsp {
    Whole,
    Pending,
    Cut(usize, Box<Bsp>, Box<Bsp>),
}

/// Every cell of the region is an open cell of the grid.
pub open spec fn region_open(room: Seq<Vec<Objects>>, task: SplitQueue) -> bool {
    forall|x: int, y: int| #[trigger] task.region().contains(x, y) ==> is_open(room, x, y)
}

/// Every cell of the wall of a cut at `permille` is a wall of the grid.
pub open spec fn wall_drawn(room: Seq<Vec<Objects>>, task: SplitQueue, permille: int) -> bool {
    forall|x: int, y: int| #[trigger] task.on_wall(permille, x, y) ==> is_wall(room, x, y)
}

/// The region before the wall of a cut.
pub open spec fn before_child(task: SplitQueue, permille: int) -> SplitQueue {
    task.child((task.major().0, (task.cut(permille) - 1) as usize))
}

/// The region after the wall of a cut.
pub open spec fn after_child(task: SplitQueue, permille: int) -> SplitQueue {
    task.child(((task.cut(permille) + 1) as usize, task.major().1))
}

/// The grid shows the region `task` as the tree says: a whole region is open
/// and no longer than the limit along its major axis, a cut region is longer,
/// has the wall of the cut drawn, and shows the regions on both sides as the
/// subtrees say.  No region is pending.
pub open spec fn renders(tree: Bsp, task: SplitQueue, limit: int, room: Seq<Vec<Objects>>) -> bool
    decreases tree,
{
    match tree {
        Bsp::Whole => !task.splits(limit) && region_open(room, task),
        Bsp::Pending => false,
        Bsp::Cut(permille, before, after) => {
            &&& task.splits(limit)
            &&& CUT_MIN <= permille <= CUT_MAX
            &&& wall_drawn(room, task, permille as int)
            &&& renders(*after, after_child(task, permille as int), limit, room)
            &&& if task.cut(permille as int) > task.major().0 {
                renders(*before, before_child(task, permille as int), limit, room)
            } else {
                *before == Bsp::Whole
            }
        },
    }
}

/// As `renders`, while the partitioner is at work: a pending region is open
/// and waits in the queue, and the regions of the leaves are those of `regions`.
pub open spec fn grows(
    tree: Bsp,
    task: SplitQueue,
    size: int,
    limit: int,
    room: Seq<Vec<Objects>>,
    queue: Seq<SplitQueue>,
    regions: Set<Rect>,
) -> bool
    decreases tree,
{
    match tree {
        Bsp::Whole => {
            &&& task.wf(size)
            &&& !task.splits(limit)
            &&& region_open(room, task)
            &&& regions.contains(task.region())
            &&& !on_queue(queue, task.region())
        },
        Bsp::Pending => {
            &&& task.wf(size)
            &&& queue.contains(task)
            &&& region_open(room, task)
            &&& regions.contains(task.region())
        },
        Bsp::Cut(permille, before, after) => {
            &&& task.wf(size)
            &&& task.splits(limit)
            &&& CUT_MIN <= permille <= CUT_MAX
            &&& wall_drawn(room, task, permille as int)
            &&& grows(*after, after_child(task, permille as int), size, limit, room, queue, regions)
            &&& if task.cut(permille as int) > task.major().0 {
                grows(*before, before_child(task, permille as int), size, limit, room, queue, regions)
            } else {
                *before == Bsp::Whole
            }
        },
    }
}

/// The tree with `with` in the place of the pending region `target`.
pub open spec fn graft(tree: Bsp, task: SplitQueue, target: SplitQueue, with: Bsp) -> Bsp
    decreases tree,
{
    match tree {
        Bsp::Whole => Bsp::Whole,
        Bsp::Pending => if task == target {
            with
        } else {
            Bsp::Pending
        },
        Bsp::Cut(permille, before, after) => Bsp::Cut(
            permille,
            Box::new(
                if task.cut(permille as int) > task.major().0 {
                    graft(*before, before_child(task, permille as int), target, with)
                } else {
                    *before
                },
            ),
            Box::new(graft(*after, after_child(task, permille as int), target, with)),
        ),
    }
}

/// What a step of the partitioner leaves as it was: the cells outside the
/// region `target` that it took from the queue, the other regions of the
/// queue, and the other rectangles of `regions`.
pub open spec fn step_frame(
    size: int,
    room0: Seq<Vec<Objects>>,
    room1: Seq<Vec<Objects>>,
    queue0: Seq<SplitQueue>,
    queue1: Seq<SplitQueue>,
    regions0: Set<Rect>,
    regions1: Set<Rect>,
    target: SplitQueue,
) -> bool {
    &&& square(room0, size)
    &&& same_shape(room0, room1)
    &&& queue0.contains(target)
    &&& regions0.contains(target.region())
    &&& target.wf(size)
    &&& forall|x: int, y: int| #![trigger room1[y][x]]
        in_grid(room0, x, y) ==> room1[y][x] == room0[y][x] || (target.region().contains(x, y)
            && room1[y][x] == Objects::Wall)
    &&& forall|r: Rect| #[trigger]
        regions0.contains(r) && r != target.region() ==> r.apart(target.region())
            && regions1.contains(r)
    &&& forall|u: SplitQueue| #[trigger]
        queue0.contains(u) && u != target ==> queue1.contains(u) && u.region() != target.region()
    &&& forall|r: Rect| #[trigger]
        regions0.contains(r) && r != target.region() && !on_queue(queue0, r) ==> !on_queue(
            queue1,
            r,
        )
}

/// A step of the partitioner grafts what it did with the region it took
/// from the queue into the tree.
pub proof fn lemma_grows_step(
    tree: Bsp,
    task: SplitQueue,
    size: int,
    limit: int,
    room0: Seq<Vec<Objects>>,
    room1: Seq<Vec<Objects>>,
    queue0: Seq<SplitQueue>,
    queue1: Seq<SplitQueue>,
    regions0: Set<Rect>,
    regions1: Set<Rect>,
    target: SplitQueue,
    with: Bsp,
)
    requires
        grows(tree, task, size, limit, room0, queue0, regions0),
        grows(with, target, size, limit, room1, queue1, regions1),
        step_frame(size, room0, room1, queue0, queue1, regions0, regions1, target),
    ensures
        grows(graft(tree, task, target, with), task, size, limit, room1, queue1, regions1),
    decreases tree,
{
    match tree {
        Bsp::Whole => {
            let r = task.region();
            assert(r != target.region()) by {
                if r == target.region() {
                    let k = choose|k: int| 0 <= k < queue0.len() && queue0[k] == target;
                    assert(queue0[k].region() == r);
                    assert(on_queue(queue0, r));
                }
            }
            assert(r.apart(target.region()));
            assert forall|x: int, y: int| #[trigger] r.contains(x, y) implies is_open(
                room1,
                x,
                y,
            ) by {
                assert(is_open(room0, x, y));
                assert(!target.region().contains(x, y));
            }
        },
        Bsp::Pending => {
            if task != target {
                let r = task.region();
                assert(r.apart(target.region()));
                assert forall|x: int, y: int| #[trigger] r.contains(x, y) implies is_open(
                    room1,
                    x,
                    y,
                ) by {
                    assert(is_open(room0, x, y));
                    assert(!target.region().contains(x, y));
                }
            }
        },
        Bsp::Cut(permille, before, after) => {
            let p = permille as int;
            assert forall|x: int, y: int| #[trigger] task.on_wall(p, x, y) implies is_wall(
                room1,
                x,
                y,
            ) by {
                assert(is_wall(room0, x, y));
            }
            lemma_grows_step(
                *after,
                after_child(task, p),
                size,
                limit,
                room0,
                room1,
                queue0,
                queue1,
                regions0,
                regions1,
                target,
                with,
            );
            if task.cut(p) > task.major().0 {
                lemma_grows_step(
                    *before,
                    before_child(task, p),
                    size,
                    limit,
                    room0,
                    room1,
                    queue0,
                    queue1,
                    regions0,
                    regions1,
                    target,
                    with,
                );
            }
        },
    }
}

/// With nothing left in the queue the tree renders the grid.
pub proof fn lemma_grows_done(
    tree: Bsp,
    task: SplitQueue,
    size: int,
    limit: int,
    room: Seq<Vec<Objects>>,
    regions: Set<Rect>,
)
    requires
        grows(tree, task, size, limit, room, Seq::empty(), regions),
    ensures
        renders(tree, task, limit, room),
    decreases tree,
{
    match tree {
        Bsp::Whole => {},
        Bsp::Pending => {
            assert(!Seq::<SplitQueue>::empty().contains(task));
        },
        Bsp::Cut(permille, before, after) => {
            let p = permille as int;
            lemma_grows_done(*after, after_child(task, p), size, limit, room, regions);
            if task.cut(p) > task.major().0 {
                lemma_grows_done(*before, before_child(task, p), size, limit, room, regions);
            }
        },
    }
}

/// The tree determines the grid: two grids of side `size` that it renders
/// for the same region agree on every cell of the region.
pub proof fn lemma_renders_same(
    tree: Bsp,
    task: SplitQueue,
    size: int,
    limit: int,
    first: Seq<Vec<Objects>>,
    second: Seq<Vec<Objects>>,
    x: int,
    y: int,
)
    requires
        0 <= limit,
        task.wf(size),
        square(first, size),
        square(second, size),
        renders(tree, task, limit, first),
        renders(tree, task, limit, second),
        task.region().contains(x, y),
    ensures
        first[y][x] == second[y][x],
    decreases tree,
{
    match tree {
        Bsp::Whole => {},
        Bsp::Pending => {},
        Bsp::Cut(permille, before, after) => {
            let p = permille as int;
            assert(span(task.major()) >= 1);
            lemma_cut_in_range(task, p);
            crate::partition::lemma_split_reduces_work(task, p, size);
            crate::partition::lemma_children_tile(task, p, size);
            let kids = task.children(p);
            if task.on_wall(p, x, y) {
                assert(is_wall(first, x, y) && is_wall(second, x, y));
            } else {
                let along = if task.direction == crate::partition::Direction::Vertical {
                    x
                } else {
                    y
                };
                if along > task.cut(p) {
                    assert(kids[kids.len() - 1] == after_child(task, p));
                    assert(after_child(task, p).wf(size));
                    lemma_renders_same(*after, after_child(task, p), size, limit, first, second, x, y);
                } else {
                    assert(kids[0] == before_child(task, p));
                    assert(before_child(task, p).wf(size));
                    lemma_renders_same(
                        *before,
                        before_child(task, p),
                        size,
                        limit,
                        first,
                        second,
                        x,
                        y,
                    );
                }
            }
        },
    }
}

} // verus!
