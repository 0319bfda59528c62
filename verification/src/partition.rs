//! Binary space partition: the grid is cut again and again by walls one
//! cell thick until no region is longer than the split limit along the axis
//! it would be cut on.

use vstd::prelude::*;
use macroquad::rand::RandGenerator;
use crate::grid::{Objects, square, same_shape, in_grid, all_open, new_room, set_wall};
use crate::rect::Rect;
use crate::rng::{rand_range, RANGE_LIMIT};
use crate::tiling::{tiled, covered};
use crate::bsp::{
    Bsp, grows, graft, renders, step_frame, region_open, before_child, after_child,
    lemma_grows_step, lemma_grows_done,
};
use crate::grid::{is_open, is_wall};

verus! {

/// The orientation of the wall that a split draws.  A vertical wall cuts the
/// x range of a region, a horizontal wall its y range.
#[derive(Clone, Copy, Debug, PartialEq, Eq, Structural)]
pub enum Direction {
    Vertical,
    Horizontal,
}

/// A region that is waiting to be split.
#[derive(Clone, Copy, Debug)]
pub struct SplitQueue {
    /// In which direction to draw the wall.
    pub direction: Direction,
    /// First and last column of the region.
    pub x_limits: (usize, usize),
    /// First and last row of the region.
    pub y_limits: (usize, usize),
}

/// The lowest and the highest cut position, in thousandths of the span.
pub const CUT_MIN: usize = 300;

pub const CUT_MAX: usize = 700;

/// The largest grid side that the generator accepts: with it the work
/// queue stays within `RANGE_LIMIT`.
pub const MAX_SIZE: usize = 1024;

/// The distance between the two ends of a range.
pub open spec fn span(limits: (usize, usize)) -> int {
    limits.1 - limits.0
}

impl SplitQueue {
    pub fn new(direction: Direction, x_limits: (usize, usize), y_limits: (usize, usize)) -> (s:
        SplitQueue)
        ensures
            s == (SplitQueue { direction, x_limits, y_limits }),
    {
        SplitQueue { direction, x_limits, y_limits }
    }

    /// Both ranges are in order and inside a grid of side `size`.
    pub open spec fn wf(self, size: int) -> bool {
        self.x_limits.0 <= self.x_limits.1 < size && self.y_limits.0 <= self.y_limits.1 < size
    }

    /// The range that the wall cuts.
    pub open spec fn major(self) -> (usize, usize) {
        match self.direction {
            Direction::Vertical => self.x_limits,
            Direction::Horizontal => self.y_limits,
        }
    }

    /// The range along which the wall runs.
    pub open spec fn minor(self) -> (usize, usize) {
        match self.direction {
            Direction::Vertical => self.y_limits,
            Direction::Horizontal => self.x_limits,
        }
    }

    /// The cells of the region as a rectangle.
    pub open spec fn region(self) -> Rect {
        Rect {
            x: self.x_limits.0,
            y: self.y_limits.0,
            width: (self.x_limits.1 - self.x_limits.0) as usize,
            height: (self.y_limits.1 - self.y_limits.0) as usize,
        }
    }

    /// The number of cells of the region.
    pub open spec fn area(self) -> int {
        (span(self.x_limits) + 1) * (span(self.y_limits) + 1)
    }

    /// An upper bound on the number of queue entries that this region and
    /// all regions cut from it will ever account for.
    pub open spec fn work(self) -> int {
        2 * self.area() - 1
    }

    /// The region is split: it is longer than `split_limit` along its major axis.
    pub open spec fn splits(self, split_limit: int) -> bool {
        span(self.major()) > split_limit
    }

    /// Where the wall is drawn for a cut at `permille` thousandths.
    pub open spec fn cut(self, permille: int) -> int {
        self.major().0 + span(self.major()) * permille / 1000
    }

    /// The cell `(x, y)` lies on the wall of a cut at `permille`.
    pub open spec fn on_wall(self, permille: int, x: int, y: int) -> bool {
        match self.direction {
            Direction::Vertical => x == self.cut(permille) && self.y_limits.0 <= y
                <= self.y_limits.1,
            Direction::Horizontal => y == self.cut(permille) && self.x_limits.0 <= x
                <= self.x_limits.1,
        }
    }

    /// The region on one side of the wall: `piece` of the major range, the
    /// whole minor range.  It will be cut along its longer side, and along
    /// the axis of its parent where both are equal.
    pub open spec fn child(self, piece: (usize, usize)) -> SplitQueue {
        let other = self.minor();
        match self.direction {
            Direction::Vertical => SplitQueue {
                direction: if span(piece) < span(other) {
                    Direction::Horizontal
                } else {
                    Direction::Vertical
                },
                x_limits: piece,
                y_limits: other,
            },
            Direction::Horizontal => SplitQueue {
                direction: if span(piece) < span(other) {
                    Direction::Vertical
                } else {
                    Direction::Horizontal
                },
                x_limits: other,
                y_limits: piece,
            },
        }
    }

    /// The regions left by a cut at `permille`: the one before the wall,
    /// unless the wall stands on the first line, then the one after it.
    pub open spec fn children(self, permille: int) -> Seq<SplitQueue> {
        let cut = self.cut(permille);
        let after = self.child(((cut + 1) as usize, self.major().1));
        if cut > self.major().0 {
            seq![self.child((self.major().0, (cut - 1) as usize)), after]
        } else {
            seq![after]
        }
    }
}

/// The sum of the work of the regions of a queue.
pub open spec fn total_work(queue: Seq<SplitQueue>) -> int
    decreases queue.len(),
{
    if queue.len() == 0 {
        0
    } else {
        total_work(queue.drop_last()) + queue.last().work()
    }
}

/// All regions of the queue are well formed.
pub open spec fn queue_wf(queue: Seq<SplitQueue>, size: int) -> bool {
    forall|i: int| 0 <= i < queue.len() ==> (#[trigger] queue[i]).wf(size)
}

/// The work of a region is at least one.
pub proof fn lemma_work_positive(task: SplitQueue, size: int)
    requires
        task.wf(size),
    ensures
        task.area() >= 1,
        task.work() >= 1,
        task.area() <= size * size,
{
    let w = span(task.x_limits) + 1;
    let h = span(task.y_limits) + 1;
    assert(w * h >= 1 && w * h <= size * size) by (nonlinear_arith)
        requires
            1 <= w <= size,
            1 <= h <= size,
    ;
}

/// The work of the whole grid, with which the partitioner starts: the
/// queue is taken from fewer than `2 * size * size` times.
pub proof fn lemma_whole_work(whole: SplitQueue, size: int)
    requires
        1 <= size <= usize::MAX,
        whole.x_limits == (0usize, (size - 1) as usize),
        whole.y_limits == (0usize, (size - 1) as usize),
    ensures
        whole.work() == 2 * (size * size) - 1,
{
}

proof fn lemma_total_work_push(queue: Seq<SplitQueue>, task: SplitQueue)
    ensures
        total_work(queue.push(task)) == total_work(queue) + task.work(),
{
    assert(queue.push(task).drop_last() =~= queue);
}

proof fn lemma_total_work_remove(queue: Seq<SplitQueue>, i: int)
    requires
        0 <= i < queue.len(),
    ensures
        total_work(queue.remove(i)) == total_work(queue) - queue[i].work(),
    decreases queue.len(),
{
    if i == queue.len() - 1 {
        assert(queue.remove(i) =~= queue.drop_last());
    } else {
        lemma_total_work_remove(queue.drop_last(), i);
        assert(queue.remove(i).drop_last() =~= queue.drop_last().remove(i));
    }
}

proof fn lemma_total_work_at_least_len(queue: Seq<SplitQueue>, size: int)
    requires
        queue_wf(queue, size),
    ensures
        total_work(queue) >= queue.len(),
    decreases queue.len(),
{
    if queue.len() > 0 {
        lemma_total_work_at_least_len(queue.drop_last(), size);
        lemma_work_positive(queue.last(), size);
    }
}

/// Where a cut falls: at or after the first line of the range and before its
/// last line.
pub proof fn lemma_cut_in_range(task: SplitQueue, permille: int)
    requires
        span(task.major()) >= 1,
        0 <= permille <= CUT_MAX,
    ensures
        task.major().0 <= task.cut(permille) < task.major().1,
{
    let s = span(task.major());
    assert(0 <= s * permille <= s * 700) by (nonlinear_arith)
        requires
            s >= 1,
            0 <= permille <= 700,
    ;
}

/// A split leaves well-formed regions inside the region that was split, and
/// they account for less work than it did: the queue of the partitioner
/// cannot grow for ever.
pub proof fn lemma_split_reduces_work(task: SplitQueue, permille: int, size: int)
    requires
        task.wf(size),
        span(task.major()) >= 1,
        0 <= permille <= CUT_MAX,
    ensures
        queue_wf(task.children(permille), size),
        0 < total_work(task.children(permille)) < task.work(),
{
    lemma_cut_in_range(task, permille);
    let cut = task.cut(permille);
    let major = task.major();
    let other = task.minor();
    let m = span(other) + 1;
    let after = task.child(((cut + 1) as usize, major.1));
    let la = major.1 - cut;
    assert(after.area() == la * m) by (nonlinear_arith)
        requires
            after.area() == (span(after.x_limits) + 1) * (span(after.y_limits) + 1),
            (span(after.x_limits) + 1 == la && span(after.y_limits) + 1 == m) || (span(
                after.x_limits,
            ) + 1 == m && span(after.y_limits) + 1 == la),
    ;
    let full = span(major) + 1;
    assert(task.area() == full * m) by (nonlinear_arith)
        requires
            task.area() == (span(task.x_limits) + 1) * (span(task.y_limits) + 1),
            (span(task.x_limits) + 1 == full && span(task.y_limits) + 1 == m) || (span(
                task.x_limits,
            ) + 1 == m && span(task.y_limits) + 1 == full),
    ;
    lemma_work_positive(after, size);
    if cut > major.0 {
        let before = task.child((major.0, (cut - 1) as usize));
        let lb = cut - major.0;
        assert(before.area() == lb * m) by (nonlinear_arith)
            requires
                before.area() == (span(before.x_limits) + 1) * (span(before.y_limits) + 1),
                (span(before.x_limits) + 1 == lb && span(before.y_limits) + 1 == m) || (span(
                    before.x_limits,
                ) + 1 == m && span(before.y_limits) + 1 == lb),
        ;
        lemma_work_positive(before, size);
        assert(lb * m + la * m + m == full * m) by (nonlinear_arith)
            requires
                lb + la + 1 == full,
        ;
        lemma_total_work_push(Seq::empty(), before);
        lemma_total_work_push(seq![before], after);
        assert(Seq::<SplitQueue>::empty().push(before) =~= seq![before]);
        assert(seq![before].push(after) =~= seq![before, after]);
    } else {
        assert(la * m + m == full * m) by (nonlinear_arith)
            requires
                la + 1 == full,
        ;
        lemma_total_work_push(Seq::empty(), after);
        assert(Seq::<SplitQueue>::empty().push(after) =~= seq![after]);
    }
}

/// The rectangle has a side of at most `limit` cells beyond its first.
pub open spec fn short(r: Rect, limit: int) -> bool {
    r.width <= limit || r.height <= limit
}

/// The open cells of `room` are the cells of rectangles that keep apart from
/// each other, and each rectangle has a side that is not longer than the
/// split limit allows.
pub open spec fn partitioned(room: Seq<Vec<Objects>>, size: int, limit: int) -> bool {
    exists|regions: Set<Rect>| #[trigger]
        tiled(room, size, regions) && forall|r: Rect| #[trigger]
            regions.contains(r) ==> short(r, limit)
}

/// Some region of the queue has the cells of `r`.
pub open spec fn on_queue(queue: Seq<SplitQueue>, r: Rect) -> bool {
    exists|i: int| 0 <= i < queue.len() && (#[trigger] queue[i]).region() == r
}

/// What holds of the partitioner between two steps, with the region `held`
/// taken from the queue and not yet dealt with, if there is one.
spec fn partition_state(
    room: Seq<Vec<Objects>>,
    size: int,
    limit: int,
    regions: Set<Rect>,
    queue: Seq<SplitQueue>,
    held: Option<SplitQueue>,
) -> bool {
    &&& square(room, size)
    &&& tiled(room, size, regions)
    &&& queue_wf(queue, size)
    &&& forall|i: int| 0 <= i < queue.len() ==> regions.contains((#[trigger] queue[i]).region())
    &&& forall|i: int, j: int|
        0 <= i < j < queue.len() ==> (#[trigger] queue[i]).region() != (#[trigger] queue[j]).region()
    &&& held matches Some(h) ==> {
        &&& h.wf(size)
        &&& regions.contains(h.region())
        &&& forall|i: int| 0 <= i < queue.len() ==> (#[trigger] queue[i]).region() != h.region()
    }
    &&& forall|r: Rect| #[trigger]
        regions.contains(r) ==> on_queue(queue, r) || short(r, limit) || (held matches Some(h)
            && r == h.region())
}

proof fn lemma_state_initial(room: Seq<Vec<Objects>>, size: int, limit: int, whole: SplitQueue)
    requires
        1 <= size <= usize::MAX,
        square(room, size),
        all_open(room),
        whole.x_limits == (0usize, (size - 1) as usize),
        whole.y_limits == (0usize, (size - 1) as usize),
    ensures
        partition_state(room, size, limit, set![whole.region()], seq![whole], None),
{
    let regions = set![whole.region()];
    let queue = seq![whole];
    assert(queue[0] == whole);
    assert forall|x: int, y: int| #![trigger room[y][x]]
        0 <= x < size && 0 <= y < size implies (room[y][x] == Objects::Air <==> covered(
        regions,
        x,
        y,
    )) by {
        assert(in_grid(room, x, y));
        assert(regions.contains(whole.region()) && whole.region().contains(x, y));
    }
    assert forall|r: Rect| #[trigger] regions.contains(r) implies on_queue(queue, r) by {
        assert(queue[0].region() == r);
    }
}

proof fn lemma_state_pop(
    room: Seq<Vec<Objects>>,
    size: int,
    limit: int,
    regions: Set<Rect>,
    queue: Seq<SplitQueue>,
    i: int,
)
    requires
        partition_state(room, size, limit, regions, queue, None),
        0 <= i < queue.len(),
    ensures
        partition_state(room, size, limit, regions, queue.remove(i), Some(queue[i])),
{
    let rest = queue.remove(i);
    let h = queue[i];
    assert forall|k: int| 0 <= k < rest.len() implies regions.contains(
        (#[trigger] rest[k]).region(),
    ) && rest[k].region() != h.region() && rest[k].wf(size) by {
        if k < i {
            assert(rest[k] == queue[k]);
        } else {
            assert(rest[k] == queue[k + 1]);
        }
    }
    assert forall|k: int, l: int| 0 <= k < l < rest.len() implies (#[trigger] rest[k]).region() != (
    #[trigger] rest[l]).region() by {
        let a = if k < i {
            k
        } else {
            k + 1
        };
        let b = if l < i {
            l
        } else {
            l + 1
        };
        assert(rest[k] == queue[a] && rest[l] == queue[b]);
    }
    assert forall|r: Rect| #[trigger] regions.contains(r) implies on_queue(rest, r) || short(
        r,
        limit,
    ) || r == h.region() by {
        if on_queue(queue, r) && r != h.region() {
            let k = choose|k: int| 0 <= k < queue.len() && (#[trigger] queue[k]).region() == r;
            if k < i {
                assert(rest[k] == queue[k]);
            } else {
                assert(rest[k - 1] == queue[k]);
            }
        }
    }
}

proof fn lemma_state_drop(
    room: Seq<Vec<Objects>>,
    size: int,
    limit: int,
    regions: Set<Rect>,
    queue: Seq<SplitQueue>,
    held: SplitQueue,
)
    requires
        partition_state(room, size, limit, regions, queue, Some(held)),
        !held.splits(limit),
    ensures
        partition_state(room, size, limit, regions, queue, None),
{
    assert(short(held.region(), limit));
}

/// The rectangles of the regions that a cut leaves.
pub open spec fn child_regions(task: SplitQueue, permille: int) -> Set<Rect> {
    Set::new(|r: Rect| on_queue(task.children(permille), r))
}

/// The regions that a cut leaves lie inside the region that is cut, apart
/// from each other, and hold all of its cells but those of the wall.
pub proof fn lemma_children_tile(task: SplitQueue, permille: int, size: int)
    requires
        task.wf(size),
        span(task.major()) >= 1,
        0 <= permille <= CUT_MAX,
    ensures
        forall|r: Rect| #[trigger]
            child_regions(task, permille).contains(r) ==> r.wf() && r.within(task.region()),
        forall|r: Rect, s: Rect|
            #![trigger child_regions(task, permille).contains(r), child_regions(task, permille).contains(s)]
            child_regions(task, permille).contains(r) && child_regions(task, permille).contains(s)
                && r != s ==> r.apart(s),
        forall|x: int, y: int|
            task.region().contains(x, y) ==> (task.on_wall(permille, x, y) <==> !#[trigger] covered(
                child_regions(task, permille),
                x,
                y,
            )),
        forall|i: int, j: int|
            0 <= i < j < task.children(permille).len() ==> (#[trigger] task.children(
                permille,
            )[i]).region() != (#[trigger] task.children(permille)[j]).region(),
{
    lemma_cut_in_range(task, permille);
    let kids = task.children(permille);
    let set = child_regions(task, permille);
    let cut = task.cut(permille);
    let major = task.major();
    let after = task.child(((cut + 1) as usize, major.1));
    assert forall|r: Rect| #[trigger] set.contains(r) implies r.wf() && r.within(task.region())
        && (r == after.region() || (cut > major.0 && r == task.child(
        (major.0, (cut - 1) as usize),
    ).region())) by {
        let i = choose|i: int| 0 <= i < kids.len() && (#[trigger] kids[i]).region() == r;
    }
    assert forall|x: int, y: int| task.region().contains(x, y) implies (task.on_wall(
        permille,
        x,
        y,
    ) <==> !#[trigger] covered(set, x, y)) by {
        if covered(set, x, y) {
            let r = choose|r: Rect| #[trigger] set.contains(r) && r.contains(x, y);
            assert(!task.on_wall(permille, x, y));
        }
        if !task.on_wall(permille, x, y) {
            let along = if task.direction == Direction::Vertical {
                x
            } else {
                y
            };
            if along > cut {
                assert(kids[kids.len() - 1] == after);
                assert(on_queue(kids, after.region()));
                assert(set.contains(after.region()) && after.region().contains(x, y));
            } else {
                let before = task.child((major.0, (cut - 1) as usize));
                assert(kids[0] == before);
                assert(on_queue(kids, before.region()));
                assert(set.contains(before.region()) && before.region().contains(x, y));
            }
        }
    }
}

proof fn lemma_state_split(
    room0: Seq<Vec<Objects>>,
    room1: Seq<Vec<Objects>>,
    size: int,
    limit: int,
    regions: Set<Rect>,
    queue: Seq<SplitQueue>,
    held: SplitQueue,
    permille: int,
)
    requires
        partition_state(room0, size, limit, regions, queue, Some(held)),
        span(held.major()) >= 1,
        0 <= permille <= CUT_MAX,
        same_shape(room0, room1),
        forall|x: int, y: int| #![trigger room1[y][x]]
            in_grid(room0, x, y) ==> room1[y][x] == if held.on_wall(permille, x, y) {
                Objects::Wall
            } else {
                room0[y][x]
            },
    ensures
        partition_state(
            room1,
            size,
            limit,
            regions.remove(held.region()).union(child_regions(held, permille)),
            queue + held.children(permille),
            None,
        ),
{
    let r = held.region();
    let kids = held.children(permille);
    let kid_set = child_regions(held, permille);
    let after = regions.remove(r).union(kid_set);
    let longer = queue + kids;
    lemma_children_tile(held, permille, size);
    lemma_split_reduces_work(held, permille, size);
    lemma_cut_in_range(held, permille);
    assert forall|a: Rect| #[trigger] after.contains(a) implies a.wf() && a.fits(size) by {
        if kid_set.contains(a) {
            assert(a.within(r));
        }
    }
    assert forall|a: Rect, b: Rect|
        #![trigger after.contains(a), after.contains(b)]
        after.contains(a) && after.contains(b) && a != b implies a.apart(b) by {
        if kid_set.contains(a) && kid_set.contains(b) {
        } else if kid_set.contains(a) {
            assert(regions.contains(b) && b != r);
            assert(b.apart(r));
            assert(a.within(r));
        } else if kid_set.contains(b) {
            assert(regions.contains(a) && a != r);
            assert(a.apart(r));
            assert(b.within(r));
        } else {
            assert(regions.contains(a) && regions.contains(b));
        }
    }
    assert forall|x: int, y: int| #![trigger room1[y][x]]
        0 <= x < size && 0 <= y < size implies (room1[y][x] == Objects::Air <==> covered(
        after,
        x,
        y,
    )) by {
        assert(in_grid(room0, x, y));
        if room1[y][x] == Objects::Air {
            assert(!held.on_wall(permille, x, y));
            assert(covered(regions, x, y));
            let s = choose|s: Rect| #[trigger] regions.contains(s) && s.contains(x, y);
            if s == r {
                assert(covered(kid_set, x, y));
                let k = choose|k: Rect| #[trigger] kid_set.contains(k) && k.contains(x, y);
                assert(after.contains(k));
            } else {
                assert(after.contains(s));
            }
        }
        if covered(after, x, y) {
            let s = choose|s: Rect| #[trigger] after.contains(s) && s.contains(x, y);
            if kid_set.contains(s) {
                assert(s.within(r));
                assert(regions.contains(r) && r.contains(x, y));
                assert(covered(regions, x, y));
                assert(covered(kid_set, x, y));
                assert(!held.on_wall(permille, x, y));
            } else {
                assert(regions.contains(s) && s != r);
                assert(covered(regions, x, y));
                assert(s.apart(r));
                assert(!r.contains(x, y));
                assert(!held.on_wall(permille, x, y));
            }
        }
    }
    assert forall|i: int| 0 <= i < longer.len() implies (#[trigger] longer[i]).wf(size)
        && after.contains(longer[i].region()) by {
        if i < queue.len() {
            assert(longer[i] == queue[i]);
        } else {
            assert(longer[i] == kids[i - queue.len()]);
            assert(on_queue(kids, longer[i].region()));
        }
    }
    assert forall|i: int, j: int| 0 <= i < j < longer.len() implies (#[trigger] longer[i]).region()
        != (#[trigger] longer[j]).region() by {
        if j < queue.len() {
            assert(longer[i] == queue[i] && longer[j] == queue[j]);
        } else if i < queue.len() {
            assert(longer[i] == queue[i]);
            assert(longer[j] == kids[j - queue.len()]);
            assert(on_queue(kids, longer[j].region()));
            assert(kid_set.contains(longer[j].region()));
            assert(longer[j].region().within(r));
            assert(regions.contains(queue[i].region()) && queue[i].region() != r);
            assert(queue[i].region().apart(r));
        } else {
            assert(longer[i] == kids[i - queue.len()]);
            assert(longer[j] == kids[j - queue.len()]);
        }
    }
    assert forall|a: Rect| #[trigger] after.contains(a) implies on_queue(longer, a) || short(
        a,
        limit,
    ) by {
        if kid_set.contains(a) {
            let k = choose|k: int| 0 <= k < kids.len() && (#[trigger] kids[k]).region() == a;
            assert(longer[queue.len() + k] == kids[k]);
        } else if on_queue(queue, a) {
            let k = choose|k: int| 0 <= k < queue.len() && (#[trigger] queue[k]).region() == a;
            assert(longer[k] == queue[k]);
        }
    }
}

/// The leaf that a cut puts in the place of a pending region: the cut with
/// both regions that it leaves pending.
pub open spec fn cut_leaf(task: SplitQueue, permille: int) -> Bsp {
    Bsp::Cut(
        permille as usize,
        Box::new(
            if task.cut(permille) > task.major().0 {
                Bsp::Pending
            } else {
                Bsp::Whole
            },
        ),
        Box::new(Bsp::Pending),
    )
}

proof fn lemma_tree_drop(
    tree: Bsp,
    whole: SplitQueue,
    room: Seq<Vec<Objects>>,
    size: int,
    limit: int,
    regions: Set<Rect>,
    queue: Seq<SplitQueue>,
    i: int,
)
    requires
        partition_state(room, size, limit, regions, queue, None),
        grows(tree, whole, size, limit, room, queue, regions),
        0 <= i < queue.len(),
        !queue[i].splits(limit),
    ensures
        grows(
            graft(tree, whole, queue[i], Bsp::Whole),
            whole,
            size,
            limit,
            room,
            queue.remove(i),
            regions,
        ),
{
    let target = queue[i];
    let rest = queue.remove(i);
    lemma_state_pop(room, size, limit, regions, queue, i);
    assert(queue.contains(target));
    assert forall|x: int, y: int| #[trigger] target.region().contains(x, y) implies is_open(
        room,
        x,
        y,
    ) by {
        assert(covered(regions, x, y));
    }
    assert(!on_queue(rest, target.region()));
    assert forall|u: SplitQueue| #[trigger] queue.contains(u) && u != target implies rest.contains(
        u,
    ) && u.region() != target.region() by {
        let j = choose|j: int| 0 <= j < queue.len() && queue[j] == u;
        if j < i {
            assert(rest[j] == u);
        } else {
            assert(rest[j - 1] == u);
        }
    }
    assert forall|r: Rect| #[trigger]
        regions.contains(r) && r != target.region() && !on_queue(queue, r) implies !on_queue(
        rest,
        r,
    ) by {
        if on_queue(rest, r) {
            let k = choose|k: int| 0 <= k < rest.len() && (#[trigger] rest[k]).region() == r;
            if k < i {
                assert(queue[k].region() == r);
            } else {
                assert(queue[k + 1].region() == r);
            }
        }
    }
    assert(step_frame(size, room, room, queue, rest, regions, regions, target));
    lemma_grows_step(
        tree,
        whole,
        size,
        limit,
        room,
        room,
        queue,
        rest,
        regions,
        regions,
        target,
        Bsp::Whole,
    );
}

proof fn lemma_tree_split(
    tree: Bsp,
    whole: SplitQueue,
    room0: Seq<Vec<Objects>>,
    room1: Seq<Vec<Objects>>,
    size: int,
    limit: int,
    regions: Set<Rect>,
    queue: Seq<SplitQueue>,
    i: int,
    permille: int,
)
    requires
        partition_state(room0, size, limit, regions, queue, None),
        grows(tree, whole, size, limit, room0, queue, regions),
        0 <= i < queue.len(),
        0 <= limit,
        queue[i].splits(limit),
        CUT_MIN <= permille <= CUT_MAX,
        same_shape(room0, room1),
        forall|x: int, y: int| #![trigger room1[y][x]]
            in_grid(room0, x, y) ==> room1[y][x] == if queue[i].on_wall(permille, x, y) {
                Objects::Wall
            } else {
                room0[y][x]
            },
    ensures
        grows(
            graft(tree, whole, queue[i], cut_leaf(queue[i], permille)),
            whole,
            size,
            limit,
            room1,
            queue.remove(i) + queue[i].children(permille),
            regions.remove(queue[i].region()).union(child_regions(queue[i], permille)),
        ),
{
    let target = queue[i];
    let r = target.region();
    let rest = queue.remove(i);
    let kids = target.children(permille);
    let longer = rest + kids;
    let kid_set = child_regions(target, permille);
    let regions1 = regions.remove(r).union(kid_set);
    lemma_state_pop(room0, size, limit, regions, queue, i);
    lemma_children_tile(target, permille, size);
    lemma_split_reduces_work(target, permille, size);
    lemma_cut_in_range(target, permille);
    assert(queue.contains(target));
    let after = after_child(target, permille);
    assert(kids[kids.len() - 1] == after);
    assert(longer[longer.len() - 1] == after);
    assert(on_queue(kids, after.region()));
    assert forall|x: int, y: int| #[trigger] target.on_wall(permille, x, y) implies is_wall(
        room1,
        x,
        y,
    ) by {
        assert(r.contains(x, y));
    }
    assert forall|k: int| 0 <= k < kids.len() implies region_open(room1, #[trigger] kids[k])
        && longer.contains(kids[k]) && regions1.contains(kids[k].region()) && kids[k].wf(size) by {
        let kid = kids[k];
        assert(on_queue(kids, kid.region()));
        assert(kid_set.contains(kid.region()));
        assert(longer[rest.len() + k] == kid);
        assert forall|x: int, y: int| #[trigger] kid.region().contains(x, y) implies is_open(
            room1,
            x,
            y,
        ) by {
            assert(r.contains(x, y));
            assert(covered(regions, x, y));
            assert(covered(kid_set, x, y));
            assert(!target.on_wall(permille, x, y));
        }
    }
    assert(grows(Bsp::Pending, after, size, limit, room1, longer, regions1));
    if target.cut(permille) > target.major().0 {
        let before = before_child(target, permille);
        assert(kids[0] == before);
        assert(grows(Bsp::Pending, before, size, limit, room1, longer, regions1));
    }
    assert(grows(cut_leaf(target, permille), target, size, limit, room1, longer, regions1));
    assert forall|x: int, y: int| #![trigger room1[y][x]]
        in_grid(room0, x, y) implies room1[y][x] == room0[y][x] || (r.contains(x, y) && room1[y][x]
        == Objects::Wall) by {}
    assert forall|u: SplitQueue| #[trigger] queue.contains(u) && u != target implies longer.contains(
        u,
    ) && u.region() != r by {
        let j = choose|j: int| 0 <= j < queue.len() && queue[j] == u;
        if j < i {
            assert(rest[j] == u);
            assert(longer[j] == u);
        } else {
            assert(rest[j - 1] == u);
            assert(longer[j - 1] == u);
        }
    }
    assert forall|a: Rect| #[trigger]
        regions.contains(a) && a != r && !on_queue(queue, a) implies !on_queue(longer, a) by {
        if on_queue(longer, a) {
            let k = choose|k: int| 0 <= k < longer.len() && (#[trigger] longer[k]).region() == a;
            if k < rest.len() {
                assert(longer[k] == rest[k]);
                if k < i {
                    assert(queue[k].region() == a);
                } else {
                    assert(queue[k + 1].region() == a);
                }
            } else {
                assert(longer[k] == kids[k - rest.len()]);
                assert(on_queue(kids, a));
                assert(kid_set.contains(a));
                assert(a.within(r));
                assert(a.apart(r));
            }
        }
    }
    assert(step_frame(size, room0, room1, queue, longer, regions, regions1, target));
    lemma_grows_step(
        tree,
        whole,
        size,
        limit,
        room0,
        room1,
        queue,
        longer,
        regions,
        regions1,
        target,
        cut_leaf(target, permille),
    );
}

/// The grid is the partition of a grid of side `size` that some tree of
/// cuts renders, with the first wall in one of the two directions.
pub open spec fn partition_of(room: Seq<Vec<Objects>>, size: int, limit: int) -> bool {
    exists|first: Direction, tree: Bsp| #[trigger]
        renders(
            tree,
            SplitQueue {
                direction: first,
                x_limits: (0usize, (size - 1) as usize),
                y_limits: (0usize, (size - 1) as usize),
            },
            limit,
            room,
        )
}

/// `span * permille / 1000`, computed without overflow.
fn cut_offset(length: usize, permille: usize) -> (offset: usize)
    requires
        permille <= 1000,
    ensures
        offset == length * permille / 1000,
        offset <= length,
{
    assert(length * permille <= length * 1000) by (nonlinear_arith)
        requires
            permille <= 1000,
    ;
    let wide: u128 = (length as u128) * (permille as u128) / 1000;
    wide as usize
}

/// The region on one side of a wall.
fn make_child(parent: &SplitQueue, piece: (usize, usize)) -> (c: SplitQueue)
    requires
        piece.0 <= piece.1,
        parent.minor().0 <= parent.minor().1,
    ensures
        c == parent.child(piece),
{
    match parent.direction {
        Direction::Vertical => {
            let other = parent.y_limits;
            if piece.1 - piece.0 < other.1 - other.0 {
                SplitQueue::new(Direction::Horizontal, piece, other)
            } else {
                SplitQueue::new(Direction::Vertical, piece, other)
            }
        },
        Direction::Horizontal => {
            let other = parent.x_limits;
            if piece.1 - piece.0 < other.1 - other.0 {
                SplitQueue::new(Direction::Vertical, other, piece)
            } else {
                SplitQueue::new(Direction::Horizontal, other, piece)
            }
        },
    }
}

/// Takes a region out of the queue, each with the same chance, or returns
/// `None` where the queue is empty.
pub fn pop_random(raw: &mut Vec<SplitQueue>, rng: &RandGenerator) -> (popped: Option<SplitQueue>)
    requires
        old(raw).len() <= RANGE_LIMIT,
    ensures
        old(raw).len() == 0 ==> popped.is_none() && final(raw)@ == old(raw)@,
        old(raw).len() > 0 ==> exists|i: int|
            0 <= i < old(raw).len() && popped == Some(#[trigger] old(raw)@[i]) && final(raw)@
                == old(raw)@.remove(i),
{
    if raw.is_empty() {
        return None;
    }
    let i: usize = rand_range(rng, 0, raw.len());
    let copy = raw.remove(i);
    Some(copy)
}

/// Cuts `split` at `permille` thousandths of its major range: draws the wall
/// into `room` and appends the regions on both sides of it to `queue`.
pub fn split_region(
    room: &mut Vec<Vec<Objects>>,
    split: SplitQueue,
    permille: usize,
    queue: &mut Vec<SplitQueue>,
)
    requires
        square(old(room)@, old(room).len() as int),
        split.wf(old(room).len() as int),
        span(split.major()) >= 1,
        permille <= CUT_MAX,
    ensures
        same_shape(old(room)@, final(room)@),
        forall|x: int, y: int| #![trigger final(room)@[y][x]]
            in_grid(old(room)@, x, y) ==> final(room)@[y][x] == if split.on_wall(
                permille as int,
                x,
                y,
            ) {
                Objects::Wall
            } else {
                old(room)@[y][x]
            },
        final(queue)@ == old(queue)@ + split.children(permille as int),
{
    let (major, minor) = match split.direction {
        Direction::Vertical => (split.x_limits, split.y_limits),
        Direction::Horizontal => (split.y_limits, split.x_limits),
    };
    let offset: usize = cut_offset(major.1 - major.0, permille);
    proof {
        lemma_cut_in_range(split, permille as int);
    }
    let cut: usize = major.0 + offset;
    let mut i: usize = minor.0;
    while i <= minor.1
        invariant
            minor.0 <= i <= minor.1 + 1,
            minor == split.minor(),
            cut == split.cut(permille as int),
            split.wf(old(room).len() as int),
            square(old(room)@, old(room).len() as int),
            same_shape(old(room)@, room@),
            split.major().0 <= cut < split.major().1,
            forall|x: int, y: int| #![trigger room@[y][x]]
                in_grid(old(room)@, x, y) ==> room@[y][x] == if split.on_wall(
                    permille as int,
                    x,
                    y,
                ) && (match split.direction {
                    Direction::Vertical => y < i,
                    Direction::Horizontal => x < i,
                }) {
                    Objects::Wall
                } else {
                    old(room)@[y][x]
                },
        decreases minor.1 + 1 - i,
    {
        match split.direction {
            Direction::Vertical => set_wall(room, cut, i),
            Direction::Horizontal => set_wall(room, i, cut),
        }
        i += 1;
    }
    if cut > major.0 {
        queue.push(make_child(&split, (major.0, cut - 1)));
    }
    queue.push(make_child(&split, (cut + 1, major.1)));
    proof {
        assert(final(queue)@ =~= old(queue)@ + split.children(permille as int));
    }
}

/// Partitions a grid of side `size`: starts from the whole grid, with the
/// first wall vertical or horizontal by chance, and cuts regions taken from
/// the queue in random order until none is left.  A region that is no longer
/// than `split_limit` along its major axis is dropped from the queue as it is.
pub fn init_rects(size: usize, split_limit: usize, rng: &RandGenerator) -> (room: Vec<
    Vec<Objects>,
>)
    requires
        1 <= size <= MAX_SIZE,
    ensures
        square(room@, size as int),
        partition_of(room@, size as int, split_limit as int),
        partitioned(room@, size as int, split_limit as int),
        size - 1 <= split_limit ==> all_open(room@),
{
    let mut room = new_room(size);
    let first = if rand_range(rng, 0, 2) == 0 {
        Direction::Vertical
    } else {
        Direction::Horizontal
    };
    let whole = SplitQueue::new(first, (0, size - 1), (0, size - 1));
    let mut queue: Vec<SplitQueue> = Vec::new();
    queue.push(whole);
    let ghost mut regions: Set<Rect> = set![whole.region()];
    let ghost mut tree: Bsp = Bsp::Pending;
    proof {
        lemma_work_positive(whole, size as int);
        lemma_total_work_push(Seq::empty(), whole);
        assert(queue@ =~= seq![whole]);
        assert(size * size <= 1024 * 1024) by (nonlinear_arith)
            requires
                size <= 1024,
        ;
        lemma_state_initial(room@, size as int, split_limit as int, whole);
        assert(queue@[0] == whole);
        assert(queue@.contains(whole));
        assert forall|x: int, y: int| #[trigger] whole.region().contains(x, y) implies is_open(
            room@,
            x,
            y,
        ) by {
            assert(in_grid(room@, x, y));
        }
    }
    loop
        invariant
            1 <= size <= MAX_SIZE,
            whole.wf(size as int),
            partition_state(room@, size as int, split_limit as int, regions, queue@, None),
            grows(tree, whole, size as int, split_limit as int, room@, queue@, regions),
            total_work(queue@) <= 2 * (size * size) - 1,
            size * size <= 1024 * 1024,
            size - 1 <= split_limit ==> all_open(room@),
        ensures
            queue@.len() == 0,
        decreases total_work(queue@),
    {
        proof {
            lemma_total_work_at_least_len(queue@, size as int);
        }
        let ghost before = queue@;
        let popped = pop_random(&mut queue, rng);
        let split = match popped {
            None => {
                break ;
            },
            Some(split) => split,
        };
        let ghost i = choose|i: int|
            0 <= i < before.len() && popped == Some(#[trigger] before[i]) && queue@
                == before.remove(i);
        proof {
            assert(before.len() > 0);
            assert(split == before[i]);
            lemma_total_work_remove(before, i);
            lemma_work_positive(split, size as int);
            lemma_state_pop(room@, size as int, split_limit as int, regions, before, i);
            lemma_total_work_at_least_len(queue@, size as int);
        }
        let major = match split.direction {
            Direction::Vertical => split.x_limits,
            Direction::Horizontal => split.y_limits,
        };
        if major.1 - major.0 <= split_limit {
            proof {
                lemma_tree_drop(
                    tree,
                    whole,
                    room@,
                    size as int,
                    split_limit as int,
                    regions,
                    before,
                    i,
                );
                tree = graft(tree, whole, split, Bsp::Whole);
                lemma_state_drop(room@, size as int, split_limit as int, regions, queue@, split);
            }
            continue ;
        }
        let permille: usize = rand_range(rng, CUT_MIN, CUT_MAX + 1);
        let ghost pending = queue@;
        let ghost room0 = room@;
        split_region(&mut room, split, permille, &mut queue);
        proof {
            lemma_split_reduces_work(split, permille as int, size as int);
            lemma_total_work_concat(pending, split.children(permille as int));
            lemma_state_split(
                room0,
                room@,
                size as int,
                split_limit as int,
                regions,
                pending,
                split,
                permille as int,
            );
            lemma_tree_split(
                tree,
                whole,
                room0,
                room@,
                size as int,
                split_limit as int,
                regions,
                before,
                i,
                permille as int,
            );
            tree = graft(tree, whole, split, cut_leaf(split, permille as int));
            regions = regions.remove(split.region()).union(child_regions(split, permille as int));
            lemma_total_work_at_least_len(queue@, size as int);
        }
    }
    proof {
        assert forall|r: Rect| #[trigger] regions.contains(r) implies short(
            r,
            split_limit as int,
        ) by {
            assert(!on_queue(queue@, r));
        }
        assert(tiled(room@, size as int, regions));
        assert(queue@ =~= Seq::<SplitQueue>::empty());
        lemma_grows_done(tree, whole, size as int, split_limit as int, room@, regions);
        assert(whole == (SplitQueue {
            direction: first,
            x_limits: (0usize, (size - 1) as usize),
            y_limits: (0usize, (size - 1) as usize),
        }));
    }
    room
}

proof fn lemma_total_work_concat(queue: Seq<SplitQueue>, more: Seq<SplitQueue>)
    ensures
        total_work(queue + more) == total_work(queue) + total_work(more),
    decreases more.len(),
{
    if more.len() == 0 {
        assert(queue + more =~= queue);
    } else {
        lemma_total_work_concat(queue, more.drop_last());
        assert((queue + more).drop_last() =~= queue + more.drop_last());
    }
}

} // verus!
