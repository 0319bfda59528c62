//! Turning the extracted regions into rooms: each rectangle is shrunk by a
//! random factor and moved by a random share of the gap that this leaves,
//! and the grid is drawn anew with nothing but the edges of the rooms.

use vstd::prelude::*;
use macroquad::rand::RandGenerator;
use crate::grid::{Objects, square, same_shape, in_grid, new_room, set_wall};
use crate::rect::Rect;
use crate::rng::rand_range;

verus! {

/// The smallest and the largest scale of a room, in thousandths.
pub const SCALE_MIN: usize = 700;

pub const SCALE_MAX: usize = 900;

/// The largest shift of a room, in thousandths of the gap.
pub const SHIFT_MAX: usize = 1000;

/// `value * permille / 1000`, rounded to the nearest integer, halves upwards.
pub open spec fn share(value: int, permille: int) -> int {
    (value * permille + 500) / 1000
}

/// `rect` scaled to `scale` thousandths of its width and height and moved
/// right and down by `shift_x` and `shift_y` thousandths of what it lost.
pub open spec fn shrunk(rect: Rect, scale: int, shift_x: int, shift_y: int) -> Rect {
    let width = share(rect.width as int, scale);
    let height = share(rect.height as int, scale);
    Rect {
        x: (rect.x + share(rect.width - width, shift_x)) as usize,
        y: (rect.y + share(rect.height - height, shift_y)) as usize,
        width: width as usize,
        height: height as usize,
    }
}

/// A share of up to a thousand thousandths is no more than the whole.
pub proof fn lemma_share_bounds(value: int, permille: int)
    requires
        0 <= value,
        0 <= permille <= 1000,
    ensures
        0 <= share(value, permille) <= value,
{
    assert(0 <= value * permille <= value * 1000) by (nonlinear_arith)
        requires
            0 <= value,
            0 <= permille <= 1000,
    ;
}

/// A shrunk room lies inside the rectangle it was made from.
pub proof fn lemma_shrunk_within(rect: Rect, scale: int, shift_x: int, shift_y: int)
    requires
        rect.wf(),
        0 <= scale <= 1000,
        0 <= shift_x <= SHIFT_MAX,
        0 <= shift_y <= SHIFT_MAX,
    ensures
        shrunk(rect, scale, shift_x, shift_y).wf(),
        shrunk(rect, scale, shift_x, shift_y).within(rect),
        shrunk(rect, scale, shift_x, shift_y).width == share(rect.width as int, scale),
        shrunk(rect, scale, shift_x, shift_y).height == share(rect.height as int, scale),
        shrunk(rect, scale, shift_x, shift_y).x == rect.x + share(
            rect.width - share(rect.width as int, scale),
            shift_x,
        ),
        shrunk(rect, scale, shift_x, shift_y).y == rect.y + share(
            rect.height - share(rect.height as int, scale),
            shift_y,
        ),
{
    lemma_share_bounds(rect.width as int, scale);
    lemma_share_bounds(rect.height as int, scale);
    lemma_share_bounds(rect.width - share(rect.width as int, scale), shift_x);
    lemma_share_bounds(rect.height - share(rect.height as int, scale), shift_y);
}

/// Rooms shrunk from rectangles that share no cell share no cell, whatever
/// the scales and shifts.
pub proof fn lemma_shrunk_rooms_disjoint(
    a: Rect,
    b: Rect,
    scale_a: int,
    shift_ax: int,
    shift_ay: int,
    scale_b: int,
    shift_bx: int,
    shift_by: int,
)
    requires
        a.wf(),
        b.wf(),
        a.disjoint(b),
        0 <= scale_a <= 1000,
        0 <= shift_ax <= SHIFT_MAX,
        0 <= shift_ay <= SHIFT_MAX,
        0 <= scale_b <= 1000,
        0 <= shift_bx <= SHIFT_MAX,
        0 <= shift_by <= SHIFT_MAX,
    ensures
        shrunk(a, scale_a, shift_ax, shift_ay).disjoint(shrunk(b, scale_b, shift_bx, shift_by)),
{
    lemma_shrunk_within(a, scale_a, shift_ax, shift_ay);
    lemma_shrunk_within(b, scale_b, shift_bx, shift_by);
}

/// `share(value, permille)`, computed without overflow.
fn share_of(value: usize, permille: usize) -> (s: usize)
    requires
        permille <= 1000,
    ensures
        s == share(value as int, permille as int),
        s <= value,
{
    proof {
        lemma_share_bounds(value as int, permille as int);
    }
    assert(value * permille <= value * 1000) by (nonlinear_arith)
        requires
            permille <= 1000,
    ;
    let wide: u128 = ((value as u128) * (permille as u128) + 500) / 1000;
    wide as usize
}

/// Shrinks `rect` in place to `scale` thousandths and moves it by `shift_x`
/// and `shift_y` thousandths of the gap.
pub fn shrink_rect(rect: &mut Rect, scale: usize, shift_x: usize, shift_y: usize)
    requires
        old(rect).wf(),
        scale <= 1000,
        shift_x <= SHIFT_MAX,
        shift_y <= SHIFT_MAX,
    ensures
        *final(rect) == shrunk(*old(rect), scale as int, shift_x as int, shift_y as int),
        final(rect).wf(),
        final(rect).within(*old(rect)),
{
    proof {
        lemma_shrunk_within(*old(rect), scale as int, shift_x as int, shift_y as int);
    }
    let width: usize = share_of(rect.width, scale);
    let height: usize = share_of(rect.height, scale);
    let x: usize = rect.x + share_of(rect.width - width, shift_x);
    let y: usize = rect.y + share_of(rect.height - height, shift_y);
    rect.x = x;
    rect.y = y;
    rect.width = width;
    rect.height = height;
}

/// `room` is `rect` shrunk by a scale from `SCALE_MIN..=SCALE_MAX` and moved
/// by shares of the gap from `0..=SHIFT_MAX`.
pub open spec fn is_shrunk(rect: Rect, room: Rect) -> bool {
    exists|scale: int, shift_x: int, shift_y: int|
        SCALE_MIN <= scale <= SCALE_MAX && 0 <= shift_x <= SHIFT_MAX && 0 <= shift_y <= SHIFT_MAX
            && room == #[trigger] shrunk(rect, scale, shift_x, shift_y)
}

/// Shrinks `rect` in place by a scale drawn from `SCALE_MIN..=SCALE_MAX` and
/// moves it by shares of the gap drawn from `0..=SHIFT_MAX`, one for each axis.
pub fn rand_rect(rect: &mut Rect, rng: &RandGenerator)
    requires
        old(rect).wf(),
    ensures
        is_shrunk(*old(rect), *final(rect)),
        final(rect).wf(),
        final(rect).within(*old(rect)),
{
    let scale: usize = rand_range(rng, SCALE_MIN, SCALE_MAX + 1);
    let shift_x: usize = rand_range(rng, 0, SHIFT_MAX + 1);
    let shift_y: usize = rand_range(rng, 0, SHIFT_MAX + 1);
    shrink_rect(rect, scale, shift_x, shift_y);
    assert(*rect == shrunk(*old(rect), scale as int, shift_x as int, shift_y as int));
}

/// Every cell of `rect` is a cell of `room`.
pub open spec fn rect_in_grid(room: Seq<Vec<Objects>>, rect: Rect) -> bool {
    rect.bottom() < room.len() && forall|j: int|
        rect.y <= j <= rect.bottom() ==> rect.right() < (#[trigger] room[j]).len()
}

/// Draws the four edges of `rect` into `room` as walls.
pub fn draw_rect(rect: &Rect, room: &mut Vec<Vec<Objects>>)
    requires
        rect.wf(),
        rect_in_grid(old(room)@, *rect),
    ensures
        same_shape(old(room)@, final(room)@),
        forall|x: int, y: int| #![trigger final(room)@[y][x]]
            in_grid(old(room)@, x, y) ==> final(room)@[y][x] == if rect.on_edge(x, y) {
                Objects::Wall
            } else {
                old(room)@[y][x]
            },
{
    let left: usize = rect.x;
    let top: usize = rect.y;
    let right: usize = rect.get_right();
    let bottom: usize = rect.get_bottom();
    let mut x: usize = left;
    while x <= right
        invariant
            left == rect.x,
            top == rect.y,
            right == rect.right(),
            bottom == rect.bottom(),
            left <= x <= right + 1,
            rect_in_grid(old(room)@, *rect),
            same_shape(old(room)@, room@),
            forall|cx: int, cy: int| #![trigger room@[cy][cx]]
                in_grid(old(room)@, cx, cy) ==> room@[cy][cx] == if left <= cx < x && (cy == top
                    || cy == bottom) {
                    Objects::Wall
                } else {
                    old(room)@[cy][cx]
                },
        decreases right + 1 - x,
    {
        assert(old(room)@[top as int].len() > right);
        assert(old(room)@[bottom as int].len() > right);
        set_wall(room, x, top);
        set_wall(room, x, bottom);
        x += 1;
    }
    let mut y: usize = top;
    while y <= bottom
        invariant
            left == rect.x,
            top == rect.y,
            right == rect.right(),
            bottom == rect.bottom(),
            top <= y <= bottom + 1,
            rect_in_grid(old(room)@, *rect),
            same_shape(old(room)@, room@),
            forall|cx: int, cy: int| #![trigger room@[cy][cx]]
                in_grid(old(room)@, cx, cy) ==> room@[cy][cx] == if (left <= cx <= right && (cy
                    == top || cy == bottom)) || (top <= cy < y && (cx == left || cx == right)) {
                    Objects::Wall
                } else {
                    old(room)@[cy][cx]
                },
        decreases bottom + 1 - y,
    {
        assert(old(room)@[y as int].len() > right);
        assert(bottom < room.len());
        set_wall(room, left, y);
        set_wall(room, right, y);
        y += 1;
    }
}

/// Some rectangle of `rects` has the cell `(x, y)` on one of its edges.
pub open spec fn on_some_edge(rects: Seq<Rect>, x: int, y: int) -> bool {
    exists|k: int| 0 <= k < rects.len() && (#[trigger] rects[k]).on_edge(x, y)
}

/// All rectangles are well formed and inside a grid of side `size`.
pub open spec fn rooms_fit(rects: Seq<Rect>, size: int) -> bool {
    forall|k: int| 0 <= k < rects.len() ==> (#[trigger] rects[k]).wf() && rects[k].fits(size)
}

/// A grid of side `size` that is open but for the edges of `rects`.
pub fn draw_rects(rects: &Vec<Rect>, size: usize) -> (room: Vec<Vec<Objects>>)
    requires
        rooms_fit(rects@, size as int),
    ensures
        square(room@, size as int),
        forall|x: int, y: int| #![trigger room@[y][x]]
            0 <= x < size && 0 <= y < size ==> room@[y][x] == if on_some_edge(rects@, x, y) {
                Objects::Wall
            } else {
                Objects::Air
            },
{
    let mut room = new_room(size);
    let mut k: usize = 0;
    while k < rects.len()
        invariant
            k <= rects.len(),
            rooms_fit(rects@, size as int),
            square(room@, size as int),
            forall|x: int, y: int| #![trigger room@[y][x]]
                0 <= x < size && 0 <= y < size ==> room@[y][x] == if on_some_edge(
                    rects@.take(k as int),
                    x,
                    y,
                ) {
                    Objects::Wall
                } else {
                    Objects::Air
                },
        decreases rects.len() - k,
    {
        let ghost before = room@;
        draw_rect(&rects[k], &mut room);
        proof {
            let done = rects@.take(k as int);
            let more = rects@.take(k + 1);
            assert forall|x: int, y: int| #![trigger room@[y][x]]
                0 <= x < size && 0 <= y < size implies room@[y][x] == if on_some_edge(more, x, y) {
                Objects::Wall
            } else {
                Objects::Air
            } by {
                assert(in_grid(before, x, y));
                assert(more[k as int] == rects@[k as int]);
                if on_some_edge(done, x, y) {
                    let j = choose|j: int| 0 <= j < done.len() && (#[trigger] done[j]).on_edge(x, y);
                    assert(more[j] == done[j]);
                }
                if on_some_edge(more, x, y) {
                    let j = choose|j: int| 0 <= j < more.len() && (#[trigger] more[j]).on_edge(x, y);
                    if j < k {
                        assert(done[j] == more[j]);
                    }
                }
            }
        }
        k += 1;
    }
    proof {
        assert(rects@.take(rects.len() as int) =~= rects@);
    }
    room
}

} // verus!
