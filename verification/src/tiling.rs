//! Grids whose open cells are the cells of rectangles that keep apart from
//! each other.  On such a grid every region is one of the rectangles, and
//! the extraction of regions returns the rectangles themselves.

use vstd::prelude::*;
use crate::grid::{Objects, square};
use crate::rect::Rect;
use crate::regions::{
    adjacent, passable, is_path, reaches, connected, region_box, extracted, extraction, is_seed,
    scanned_before, lemma_reaches_self, lemma_reaches_step, lemma_bounding_box_unique,
};

verus! {

/// The open cells of `room`, a grid of side `size`, are the cells of the
/// rectangles of `regions`, and any two of the rectangles are apart.
pub open spec fn tiled(room: Seq<Vec<Objects>>, size: int, regions: Set<Rect>) -> bool {
    &&& forall|r: Rect| #[trigger] regions.contains(r) ==> r.wf() && r.fits(size)
    &&& forall|r: Rect, s: Rect|
        #![trigger regions.contains(r), regions.contains(s)]
        regions.contains(r) && regions.contains(s) && r != s ==> r.apart(s)
    &&& forall|x: int, y: int| #![trigger room[y][x]]
        0 <= x < size && 0 <= y < size ==> (room[y][x] == Objects::Air <==> covered(
            regions,
            x,
            y,
        ))
}

/// Some rectangle of `regions` holds the cell `(x, y)`.
pub open spec fn covered(regions: Set<Rect>, x: int, y: int) -> bool {
    exists|r: Rect| #[trigger] regions.contains(r) && r.contains(x, y)
}

/// What is reached from a cell of a rectangle of a tiled grid lies in
/// that rectangle.
proof fn lemma_reached_stays(
    room: Seq<Vec<Objects>>,
    size: int,
    regions: Set<Rect>,
    r: Rect,
    sx: int,
    sy: int,
    path: Seq<(int, int)>,
)
    requires
        square(room, size),
        tiled(room, size, regions),
        regions.contains(r),
        is_path(room, Set::empty(), path),
        r.contains(path[0].0, path[0].1),
    ensures
        r.contains(path.last().0, path.last().1),
    decreases path.len(),
{
    if path.len() > 1 {
        let shorter = path.drop_last();
        assert forall|i: int| 0 <= i < shorter.len() implies passable(
            room,
            Set::empty(),
            (#[trigger] shorter[i]).0,
            shorter[i].1,
        ) by {
            assert(shorter[i] == path[i]);
        }
        assert forall|i: int| 0 <= i < shorter.len() - 1 implies adjacent(
            shorter[i].0,
            shorter[i].1,
            (#[trigger] shorter[i + 1]).0,
            shorter[i + 1].1,
        ) by {
            assert(shorter[i] == path[i]);
            assert(shorter[i + 1] == path[i + 1]);
        }
        lemma_reached_stays(room, size, regions, r, sx, sy, shorter);
        let n = path.len() - 1;
        let a = path[n - 1];
        let b = path[n];
        assert(shorter.last() == a);
        assert(adjacent(path[n - 1].0, path[n - 1].1, path[n - 1 + 1].0, path[n - 1 + 1].1));
        assert(passable(room, Set::empty(), b.0, b.1));
        assert(room[b.1][b.0] == Objects::Air);
        assert(covered(regions, b.0, b.1));
        let s = choose|s: Rect| #[trigger] regions.contains(s) && s.contains(b.0, b.1);
        if s != r {
            assert(r.apart(s));
        }
    }
}

/// In a rectangle of a tiled grid a cell reaches the cells of its row.
proof fn lemma_walk_row(
    room: Seq<Vec<Objects>>,
    size: int,
    regions: Set<Rect>,
    r: Rect,
    sx: int,
    sy: int,
    x: int,
    steps: nat,
)
    requires
        square(room, size),
        tiled(room, size, regions),
        regions.contains(r),
        r.contains(sx, sy),
        r.contains(x, sy),
        steps == if x >= sx {
            x - sx
        } else {
            sx - x
        },
    ensures
        connected(room, sx, sy, x, sy),
    decreases steps,
{
    assert(room[sy][sx] == Objects::Air) by {
        assert(covered(regions, sx, sy));
    }
    if x == sx {
        lemma_reaches_self(room, Set::empty(), sx, sy);
    } else {
        let before = if x > sx {
            x - 1
        } else {
            x + 1
        };
        lemma_walk_row(room, size, regions, r, sx, sy, before, (steps - 1) as nat);
        assert(room[sy][x] == Objects::Air) by {
            assert(covered(regions, x, sy));
        }
        lemma_reaches_step(room, Set::empty(), sx, sy, before, sy, x, sy);
    }
}

/// In a rectangle of a tiled grid a cell reaches the cells of its column.
proof fn lemma_walk_column(
    room: Seq<Vec<Objects>>,
    size: int,
    regions: Set<Rect>,
    r: Rect,
    sx: int,
    sy: int,
    y: int,
    steps: nat,
)
    requires
        square(room, size),
        tiled(room, size, regions),
        regions.contains(r),
        r.contains(sx, sy),
        r.contains(sx, y),
        steps == if y >= sy {
            y - sy
        } else {
            sy - y
        },
    ensures
        connected(room, sx, sy, sx, y),
    decreases steps,
{
    assert(room[sy][sx] == Objects::Air) by {
        assert(covered(regions, sx, sy));
    }
    if y == sy {
        lemma_reaches_self(room, Set::empty(), sx, sy);
    } else {
        let before = if y > sy {
            y - 1
        } else {
            y + 1
        };
        lemma_walk_column(room, size, regions, r, sx, sy, before, (steps - 1) as nat);
        assert(room[y][sx] == Objects::Air) by {
            assert(covered(regions, sx, y));
        }
        lemma_reaches_step(room, Set::empty(), sx, sy, sx, before, sx, y);
    }
}

/// In a rectangle of a tiled grid every cell reaches every other.
pub proof fn lemma_rectangle_connected(
    room: Seq<Vec<Objects>>,
    size: int,
    regions: Set<Rect>,
    r: Rect,
    sx: int,
    sy: int,
    x: int,
    y: int,
)
    requires
        square(room, size),
        tiled(room, size, regions),
        regions.contains(r),
        r.contains(sx, sy),
        r.contains(x, y),
    ensures
        connected(room, sx, sy, x, y),
{
    let across = if x >= sx {
        x - sx
    } else {
        sx - x
    };
    let down = if y >= sy {
        y - sy
    } else {
        sy - y
    };
    lemma_walk_row(room, size, regions, r, sx, sy, x, across as nat);
    lemma_walk_column(room, size, regions, r, x, sy, y, down as nat);
    crate::regions::lemma_reaches_trans(room, Set::empty(), sx, sy, x, sy, x, y);
}

/// On a tiled grid the region of a cell is the rectangle that holds the cell.
pub proof fn lemma_region_is_rectangle(
    room: Seq<Vec<Objects>>,
    size: int,
    regions: Set<Rect>,
    r: Rect,
    sx: int,
    sy: int,
)
    requires
        square(room, size),
        tiled(room, size, regions),
        regions.contains(r),
        r.contains(sx, sy),
    ensures
        region_box(room, sx, sy, r),
        forall|x: int, y: int| #[trigger] connected(room, sx, sy, x, y) <==> r.contains(x, y),
{
    let none = Set::<(int, int)>::empty();
    assert forall|x: int, y: int| #[trigger] connected(room, sx, sy, x, y) <==> r.contains(
        x,
        y,
    ) by {
        if connected(room, sx, sy, x, y) {
            let path = choose|path: Seq<(int, int)>| #[trigger]
                is_path(room, none, path) && path[0] == (sx, sy) && path.last() == (x, y);
            lemma_reached_stays(room, size, regions, r, sx, sy, path);
        }
        if r.contains(x, y) {
            lemma_rectangle_connected(room, size, regions, r, sx, sy, x, y);
        }
    }
    assert(r.contains(r.x as int, sy) && r.contains(r.right(), sy));
    assert(r.contains(sx, r.y as int) && r.contains(sx, r.bottom()));
    assert(reaches(room, none, sx, sy, r.x as int, sy)) by {
        assert(connected(room, sx, sy, r.x as int, sy));
    }
    assert(reaches(room, none, sx, sy, r.right(), sy)) by {
        assert(connected(room, sx, sy, r.right(), sy));
    }
    assert(reaches(room, none, sx, sy, sx, r.y as int)) by {
        assert(connected(room, sx, sy, sx, r.y as int));
    }
    assert(reaches(room, none, sx, sy, sx, r.bottom())) by {
        assert(connected(room, sx, sy, sx, r.bottom()));
    }
    assert forall|x: int, y: int| #[trigger] reaches(room, none, sx, sy, x, y) implies r.contains(
        x,
        y,
    ) by {
        assert(connected(room, sx, sy, x, y));
    }
}

/// All rectangles of the list are rectangles of the set, and any two of
/// them are apart.
pub open spec fn picked_apart(regions: Set<Rect>, rects: Seq<Rect>) -> bool {
    &&& forall|k: int| 0 <= k < rects.len() ==> regions.contains(#[trigger] rects[k])
    &&& forall|k: int, l: int|
        0 <= k < l < rects.len() ==> (#[trigger] rects[k]).apart(#[trigger] rects[l])
}

/// What is extracted from a tiled grid are rectangles of the tiling, each once.
pub proof fn lemma_extracted_tiles(
    room: Seq<Vec<Objects>>,
    size: int,
    regions: Set<Rect>,
    rects: Seq<Rect>,
)
    requires
        square(room, size),
        tiled(room, size, regions),
        extracted(room, rects),
    ensures
        picked_apart(regions, rects),
{
    let none = Set::<(int, int)>::empty();
    let seeds = choose|seeds: Seq<(int, int)>| extraction(room, seeds, rects);
    assert forall|k: int| 0 <= k < rects.len() implies regions.contains(#[trigger] rects[k])
        && rects[k].contains(seeds[k].0, seeds[k].1) by {
        let s = seeds[k];
        assert(is_seed(room, s.0, s.1));
        assert(room[s.1][s.0] == Objects::Air);
        assert(covered(regions, s.0, s.1));
        let r = choose|r: Rect| #[trigger] regions.contains(r) && r.contains(s.0, s.1);
        lemma_region_is_rectangle(room, size, regions, r, s.0, s.1);
        lemma_bounding_box_unique(room, none, s.0, s.1, r, rects[k]);
    }
    assert forall|k: int, l: int| 0 <= k < l < rects.len() implies (#[trigger] rects[k]).apart(
        #[trigger] rects[l],
    ) by {
        let a = seeds[k];
        let b = seeds[l];
        assert(regions.contains(rects[k]) && rects[k].contains(a.0, a.1));
        assert(regions.contains(rects[l]) && rects[l].contains(b.0, b.1));
        if rects[k] == rects[l] {
            lemma_rectangle_connected(room, size, regions, rects[l], b.0, b.1, a.0, a.1);
            assert(is_seed(room, b.0, b.1));
            assert(scanned_before(a.0, a.1, b.0, b.1));
            assert(false);
        }
    }
}

} // verus!
