//! Decoration: small obstacles, drawn as text, are stamped into the rooms.

use vstd::prelude::*;
use macroquad::rand::RandGenerator;
use vstd::string::StringSliceAdditionalSpecFns;
use crate::grid::{Objects, square, same_shape, in_grid, new_room, set_wall, set_cell, copy_room};
use crate::rect::Rect;
use crate::rng::{rand_range, RANGE_LIMIT};
use crate::shrink::rooms_fit;

verus! {

/// The byte that stands for a wall in the text of an obstacle.
pub const WALL_MARK: u8 = 35;

/// The byte that ends a line.
pub const LINE_FEED: u8 = 10;

/// The sides of the small, the medium and the large obstacles.
pub const SMALL_SIDE: usize = 2;

pub const MEDIUM_SIDE: usize = 3;

pub const LARGE_SIDE: usize = 5;

/// A space, a tab or a carriage return.
pub open spec fn is_blank(byte: u8) -> bool {
    byte == 32 || byte == 9 || byte == 13
}

/// The number of the line that the byte at `i` stands in.
pub open spec fn row_at(text: Seq<u8>, i: int) -> int
    decreases i,
{
    if i <= 0 {
        0
    } else {
        row_at(text, i - 1) + if text[i - 1] == LINE_FEED {
            1int
        } else {
            0int
        }
    }
}

/// The column of the byte at `i`: its place in its line, the blanks that
/// begin the line not counted.
pub open spec fn col_at(text: Seq<u8>, i: int) -> int
    decreases i,
{
    if i <= 0 {
        0
    } else if text[i - 1] == LINE_FEED {
        0
    } else if is_blank(text[i - 1]) && col_at(text, i - 1) == 0 {
        0
    } else {
        col_at(text, i - 1) + 1
    }
}

/// One of the first `n` bytes of the text is a wall mark in line `y` at column `x`.
pub open spec fn marks_before(text: Seq<u8>, n: int, x: int, y: int) -> bool {
    exists|i: int|
        0 <= i < n && #[trigger] text[i] == WALL_MARK && row_at(text, i) == y && col_at(text, i)
            == x
}

/// The text has a wall mark in line `y` at column `x`.
pub open spec fn marks(text: Seq<u8>, x: int, y: int) -> bool {
    marks_before(text, text.len() as int, x, y)
}

proof fn lemma_position_bounds(text: Seq<u8>, i: int)
    requires
        0 <= i,
    ensures
        0 <= row_at(text, i) <= i,
        0 <= col_at(text, i) <= i,
    decreases i,
{
    if i > 0 {
        lemma_position_bounds(text, i - 1);
    }
}

/// Reads an obstacle of side `size` from its text: one line for each row, a
/// wall for each wall mark, open cells elsewhere.  Blanks before the first
/// other byte of a line are skipped, and marks beyond the side are left out.
pub fn parse_object(size: usize, text: &[u8]) -> (object: Vec<Vec<Objects>>)
    ensures
        square(object@, size as int),
        forall|x: int, y: int| #![trigger object@[y][x]]
            0 <= x < size && 0 <= y < size ==> object@[y][x] == if marks(text@, x, y) {
                Objects::Wall
            } else {
                Objects::Air
            },
{
    let mut object = new_room(size);
    let mut row: usize = 0;
    let mut col: usize = 0;
    let mut i: usize = 0;
    while i < text.len()
        invariant
            i <= text.len(),
            row == row_at(text@, i as int),
            col == col_at(text@, i as int),
            square(object@, size as int),
            forall|x: int, y: int| #![trigger object@[y][x]]
                0 <= x < size && 0 <= y < size ==> object@[y][x] == if marks_before(
                    text@,
                    i as int,
                    x,
                    y,
                ) {
                    Objects::Wall
                } else {
                    Objects::Air
                },
        decreases text.len() - i,
    {
        let byte = text[i];
        let ghost before = object@;
        proof {
            lemma_position_bounds(text@, i as int);
        }
        if byte == WALL_MARK && row < size && col < size {
            set_wall(&mut object, col, row);
        }
        proof {
            assert forall|x: int, y: int| #![trigger object@[y][x]]
                0 <= x < size && 0 <= y < size implies object@[y][x] == if marks_before(
                text@,
                i + 1,
                x,
                y,
            ) {
                Objects::Wall
            } else {
                Objects::Air
            } by {
                assert(in_grid(before, x, y));
                if marks_before(text@, i as int, x, y) {
                    let j = choose|j: int|
                        0 <= j < i && #[trigger] text@[j] == WALL_MARK && row_at(text@, j) == y
                            && col_at(text@, j) == x;
                    assert(marks_before(text@, i + 1, x, y));
                }
                if marks_before(text@, i + 1, x, y) && !marks_before(text@, i as int, x, y) {
                    let j = choose|j: int|
                        0 <= j < i + 1 && #[trigger] text@[j] == WALL_MARK && row_at(text@, j) == y
                            && col_at(text@, j) == x;
                    assert(j == i);
                }
                if byte == WALL_MARK && row == y && col == x {
                    assert(text@[i as int] == WALL_MARK);
                    assert(marks_before(text@, i + 1, x, y));
                }
            }
        }
        if byte == LINE_FEED {
            row += 1;
            col = 0;
        } else if (byte == 32 || byte == 9 || byte == 13) && col == 0 {
        } else {
            col += 1;
        }
        i += 1;
    }
    object
}

/// The cell `(x, y)` of a square obstacle after a quarter turn clockwise.
pub open spec fn turned_cell(object: Seq<Vec<Objects>>, x: int, y: int) -> Objects {
    object[object.len() - 1 - x][y]
}

/// `after` is `before` after a quarter turn clockwise.
pub open spec fn turned(before: Seq<Vec<Objects>>, after: Seq<Vec<Objects>>) -> bool {
    &&& square(after, before.len() as int)
    &&& forall|x: int, y: int| #![trigger after[y][x]]
        0 <= x < before.len() && 0 <= y < before.len() ==> after[y][x] == turned_cell(
            before,
            x,
            y,
        )
}

/// `after` is `before` after `turns` quarter turns clockwise, `turns` at most 2.
pub open spec fn turned_by(before: Seq<Vec<Objects>>, after: Seq<Vec<Objects>>, turns: int) -> bool {
    let n = before.len() as int;
    &&& square(after, n)
    &&& forall|x: int, y: int| #![trigger after[y][x]]
        0 <= x < n && 0 <= y < n ==> after[y][x] == if turns == 0 {
            before[y][x]
        } else if turns == 1 {
            before[n - 1 - x][y]
        } else {
            before[n - 1 - y][n - 1 - x]
        }
}

/// Turns a square obstacle by a quarter turn clockwise.
pub fn rotate_array(object: &mut Vec<Vec<Objects>>)
    requires
        square(old(object)@, old(object).len() as int),
    ensures
        turned(old(object)@, final(object)@),
{
    let n: usize = object.len();
    let mut fresh = new_room(n);
    let mut y: usize = 0;
    while y < n
        invariant
            y <= n,
            n == object.len(),
            object@ == old(object)@,
            square(object@, n as int),
            square(fresh@, n as int),
            forall|cx: int, cy: int| #![trigger fresh@[cy][cx]]
                0 <= cx < n && 0 <= cy < y ==> fresh@[cy][cx] == turned_cell(object@, cx, cy),
        decreases n - y,
    {
        let mut x: usize = 0;
        while x < n
            invariant
                x <= n,
                y < n,
                n == object.len(),
                object@ == old(object)@,
                square(object@, n as int),
                square(fresh@, n as int),
                forall|cx: int, cy: int| #![trigger fresh@[cy][cx]]
                    0 <= cx < n && (0 <= cy < y || (cy == y && cx < x)) ==> fresh@[cy][cx]
                        == turned_cell(object@, cx, cy),
            decreases n - x,
        {
            let ghost before = fresh@;
            let value = object[n - 1 - x][y];
            set_cell(&mut fresh, x, y, value);
            proof {
                assert forall|cx: int, cy: int| #![trigger fresh@[cy][cx]]
                    0 <= cx < n && (0 <= cy < y || (cy == y && cx < x + 1)) implies fresh@[cy][cx]
                    == turned_cell(object@, cx, cy) by {
                    assert(in_grid(before, cx, cy));
                }
            }
            x += 1;
        }
        y += 1;
    }
    *object = fresh;
}

/// `object` is the obstacle of side `side` that `text` draws.
pub open spec fn reads(object: Seq<Vec<Objects>>, side: int, text: Seq<u8>) -> bool {
    square(object, side) && forall|x: int, y: int| #![trigger object[y][x]]
        0 <= x < side && 0 <= y < side ==> object[y][x] == if marks(text, x, y) {
            Objects::Wall
        } else {
            Objects::Air
        }
}

/// `objects` are the obstacles of side `side` that `texts` draw, one by one.
pub open spec fn list_reads(objects: Seq<Vec<Vec<Objects>>>, side: int, texts: Seq<Seq<u8>>) -> bool {
    objects.len() == texts.len() && forall|k: int|
        0 <= k < objects.len() ==> reads((#[trigger] objects[k])@, side, texts[k])
}

/// The texts of the small obstacles.
pub open spec fn small_texts() -> Seq<Seq<u8>> {
    seq!["##\n##".spec_bytes(), "#\n##".spec_bytes(), "##".spec_bytes(), "#".spec_bytes()]
}

/// The texts of the medium obstacles.
pub open spec fn medium_texts() -> Seq<Seq<u8>> {
    seq![
        "###\n###".spec_bytes(),
        "##\n###".spec_bytes(),
        "##\n0##".spec_bytes(),
        "###\n# #".spec_bytes(),
        "###\n##\n#  ".spec_bytes(),
        "0##\n0##\n## ".spec_bytes(),
        "###\n# #\n###".spec_bytes(),
    ]
}

/// The texts of the large obstacles.
pub open spec fn large_texts() -> Seq<Seq<u8>> {
    seq![
        "\n#\n#  ##\n##  #\n##  #".spec_bytes(),
        "##  #\n0000#\n\n#  ##\n#   #".spec_bytes(),
        "##\n#   #\n#   #\n#\n#    ".spec_bytes(),
        "#####\n#\n0000#\n000##\n#    ".spec_bytes(),
    ]
}

/// The small obstacles.
pub fn small_objects() -> (objects: Vec<Vec<Vec<Objects>>>)
    ensures
        list_reads(objects@, SMALL_SIDE as int, small_texts()),
{
    let mut objects: Vec<Vec<Vec<Objects>>> = Vec::new();
    objects.push(parse_object(SMALL_SIDE, "##\n##".as_bytes()));
    objects.push(parse_object(SMALL_SIDE, "#\n##".as_bytes()));
    objects.push(parse_object(SMALL_SIDE, "##".as_bytes()));
    objects.push(parse_object(SMALL_SIDE, "#".as_bytes()));
    objects
}

/// The medium obstacles.
pub fn medium_objects() -> (objects: Vec<Vec<Vec<Objects>>>)
    ensures
        list_reads(objects@, MEDIUM_SIDE as int, medium_texts()),
{
    let mut objects: Vec<Vec<Vec<Objects>>> = Vec::new();
    objects.push(parse_object(MEDIUM_SIDE, "###\n###".as_bytes()));
    objects.push(parse_object(MEDIUM_SIDE, "##\n###".as_bytes()));
    objects.push(parse_object(MEDIUM_SIDE, "##\n0##".as_bytes()));
    objects.push(parse_object(MEDIUM_SIDE, "###\n# #".as_bytes()));
    objects.push(parse_object(MEDIUM_SIDE, "###\n##\n#  ".as_bytes()));
    objects.push(parse_object(MEDIUM_SIDE, "0##\n0##\n## ".as_bytes()));
    objects.push(parse_object(MEDIUM_SIDE, "###\n# #\n###".as_bytes()));
    objects
}

/// The large obstacles.
pub fn large_objects() -> (objects: Vec<Vec<Vec<Objects>>>)
    ensures
        list_reads(objects@, LARGE_SIDE as int, large_texts()),
{
    let mut objects: Vec<Vec<Vec<Objects>>> = Vec::new();
    objects.push(parse_object(LARGE_SIDE, "\n#\n#  ##\n##  #\n##  #".as_bytes()));
    objects.push(parse_object(LARGE_SIDE, "##  #\n0000#\n\n#  ##\n#   #".as_bytes()));
    objects.push(parse_object(LARGE_SIDE, "##\n#   #\n#   #\n#\n#    ".as_bytes()));
    objects.push(parse_object(LARGE_SIDE, "#####\n#\n0000#\n000##\n#    ".as_bytes()));
    objects
}

/// One entry of `array`, each with the same chance, or `None` where `array`
/// is empty.
pub fn random_array<'a, T>(array: &'a Vec<T>, rng: &RandGenerator) -> (picked: Option<&'a T>)
    requires
        array.len() <= RANGE_LIMIT,
    ensures
        picked.is_none() <==> array.len() == 0,
        picked matches Some(entry) ==> exists|i: int|
            0 <= i < array.len() && *entry == #[trigger] array@[i],
{
    if array.len() == 0 {
        return None;
    }
    let i: usize = rand_range(rng, 0, array.len());
    Some(&array[i])
}

/// Every obstacle of the list is a square.
pub open spec fn objects_square(array: Seq<Vec<Vec<Objects>>>) -> bool {
    forall|k: int| 0 <= k < array.len() ==> square((#[trigger] array[k])@, array[k].len() as int)
}

/// A copy of one obstacle of `array`, picked at random and turned by up to
/// two quarter turns, or `None` where `array` is empty.
pub fn complete_random(array: &Vec<Vec<Vec<Objects>>>, rng: &RandGenerator) -> (chosen: Option<
    Vec<Vec<Objects>>,
>)
    requires
        array.len() <= RANGE_LIMIT,
        objects_square(array@),
    ensures
        chosen.is_none() <==> array.len() == 0,
        chosen matches Some(object) ==> exists|i: int, turns: int|
            0 <= i < array.len() && 0 <= turns <= 2 && #[trigger] turned_by(
                array@[i]@,
                object@,
                turns,
            ),
{
    let picked = match random_array(array, rng) {
        None => {
            return None;
        },
        Some(picked) => picked,
    };
    let ghost i = choose|i: int| 0 <= i < array.len() && *picked == #[trigger] array@[i];
    let mut random = copy_room(picked);
    let turns: usize = rand_range(rng, 0, 3);
    assert(turned_by(array@[i]@, random@, 0));
    if turns >= 1 {
        rotate_array(&mut random);
        assert(turned_by(array@[i]@, random@, 1));
    }
    if turns >= 2 {
        rotate_array(&mut random);
        assert(turned_by(array@[i]@, random@, 2));
    }
    let ghost turned_copy = random@;
    let chosen = Some(random);
    assert(turned_by(array@[i]@, chosen.unwrap()@, turns as int)) by {
        assert(chosen.unwrap()@ == turned_copy);
    }
    chosen
}

/// The cell `(cx, cy)` of the grid takes a wall from `object` stamped with
/// its first cell at `(left, top)`.
pub open spec fn stamped(object: Seq<Vec<Objects>>, left: int, top: int, cx: int, cy: int) -> bool {
    in_grid(object, cx - left, cy - top) && object[cy - top][cx - left] == Objects::Wall
}

/// Stamps the walls of `object` into `room`, with the first cell of the
/// obstacle `x` cells right of and `y` cells below the corner of `rect`.
pub fn paste_object(
    x: usize,
    y: usize,
    object: &Vec<Vec<Objects>>,
    rect: &Rect,
    room: &mut Vec<Vec<Objects>>,
)
    requires
        square(object@, object.len() as int),
        square(old(room)@, old(room).len() as int),
        rect.x + x + object.len() <= old(room).len(),
        rect.y + y + object.len() <= old(room).len(),
    ensures
        same_shape(old(room)@, final(room)@),
        forall|cx: int, cy: int| #![trigger final(room)@[cy][cx]]
            in_grid(old(room)@, cx, cy) ==> final(room)@[cy][cx] == if stamped(
                object@,
                rect.x + x,
                rect.y + y,
                cx,
                cy,
            ) {
                Objects::Wall
            } else {
                old(room)@[cy][cx]
            },
{
    let n: usize = object.len();
    let left: usize = rect.x + x;
    let top: usize = rect.y + y;
    let mut oy: usize = 0;
    while oy < n
        invariant
            oy <= n,
            n == object.len(),
            left == rect.x + x,
            top == rect.y + y,
            left + n <= old(room).len(),
            top + n <= old(room).len(),
            square(object@, n as int),
            square(old(room)@, old(room).len() as int),
            same_shape(old(room)@, room@),
            forall|cx: int, cy: int| #![trigger room@[cy][cx]]
                in_grid(old(room)@, cx, cy) ==> room@[cy][cx] == if stamped(
                    object@,
                    left as int,
                    top as int,
                    cx,
                    cy,
                ) && cy - top < oy {
                    Objects::Wall
                } else {
                    old(room)@[cy][cx]
                },
        decreases n - oy,
    {
        let mut ox: usize = 0;
        while ox < n
            invariant
                ox <= n,
                oy < n,
                n == object.len(),
                left + n <= old(room).len(),
                top + n <= old(room).len(),
                square(object@, n as int),
                square(old(room)@, old(room).len() as int),
                same_shape(old(room)@, room@),
                forall|cx: int, cy: int| #![trigger room@[cy][cx]]
                    in_grid(old(room)@, cx, cy) ==> room@[cy][cx] == if stamped(
                        object@,
                        left as int,
                        top as int,
                        cx,
                        cy,
                    ) && (cy - top < oy || (cy - top == oy && cx - left < ox)) {
                        Objects::Wall
                    } else {
                        old(room)@[cy][cx]
                    },
            decreases n - ox,
        {
            if object[oy][ox] == Objects::Wall {
                set_wall(room, left + ox, top + oy);
            }
            ox += 1;
        }
        oy += 1;
    }
}

/// The side of the obstacles that go into `rect`: the largest of the three
/// that leaves the walls of the room free, or zero where none does.
pub open spec fn tier_side(rect: Rect) -> int {
    let least = if rect.width < rect.height {
        rect.width
    } else {
        rect.height
    };
    if least > LARGE_SIDE {
        LARGE_SIDE as int
    } else if least > MEDIUM_SIDE {
        MEDIUM_SIDE as int
    } else if least > SMALL_SIDE {
        SMALL_SIDE as int
    } else {
        0
    }
}

/// The cell `(x, y)` lies where the obstacle of `rect` is stamped: in the
/// square of side `tier_side` one cell inside the corner of the room.
pub open spec fn decorated(rect: Rect, x: int, y: int) -> bool {
    rect.x < x <= rect.x + tier_side(rect) && rect.y < y <= rect.y + tier_side(rect)
}

/// Where an obstacle is stamped the room has no wall of its own.
pub proof fn lemma_decorated_inside(rect: Rect, x: int, y: int)
    requires
        decorated(rect, x, y),
    ensures
        rect.contains(x, y),
        !rect.on_edge(x, y),
{
}

/// The three lists of obstacles.
pub struct ObjectLibrary {
    pub small: Vec<Vec<Vec<Objects>>>,
    pub medium: Vec<Vec<Vec<Objects>>>,
    pub large: Vec<Vec<Vec<Objects>>>,
}

impl ObjectLibrary {
    /// Each list holds squares of its side, at least one and no more than
    /// the random source can choose from.
    pub open spec fn wf(self) -> bool {
        &&& 0 < self.small.len() <= RANGE_LIMIT
        &&& 0 < self.medium.len() <= RANGE_LIMIT
        &&& 0 < self.large.len() <= RANGE_LIMIT
        &&& forall|k: int|
            0 <= k < self.small.len() ==> square((#[trigger] self.small@[k])@, SMALL_SIDE as int)
        &&& forall|k: int|
            0 <= k < self.medium.len() ==> square((#[trigger] self.medium@[k])@, MEDIUM_SIDE as int)
        &&& forall|k: int|
            0 <= k < self.large.len() ==> square((#[trigger] self.large@[k])@, LARGE_SIDE as int)
    }

    /// The lists are those that the texts of the library draw.
    pub open spec fn standard(self) -> bool {
        &&& list_reads(self.small@, SMALL_SIDE as int, small_texts())
        &&& list_reads(self.medium@, MEDIUM_SIDE as int, medium_texts())
        &&& list_reads(self.large@, LARGE_SIDE as int, large_texts())
    }

    /// The list that the obstacle of the room `rect` is picked from.
    pub open spec fn list_for(self, rect: Rect) -> Seq<Vec<Vec<Objects>>> {
        if tier_side(rect) == LARGE_SIDE {
            self.large@
        } else if tier_side(rect) == MEDIUM_SIDE {
            self.medium@
        } else if tier_side(rect) == SMALL_SIDE {
            self.small@
        } else {
            Seq::empty()
        }
    }

    /// The library read from its texts.
    pub fn new() -> (library: ObjectLibrary)
        ensures
            library.wf(),
            library.standard(),
    {
        ObjectLibrary { small: small_objects(), medium: medium_objects(), large: large_objects() }
    }
}

/// `pick` may be the obstacle of the room `rect`: one of the list for the
/// room, turned by up to two quarter turns, or none where the room is too
/// small for any.
pub open spec fn may_pick(library: ObjectLibrary, rect: Rect, pick: Option<Seq<Vec<Objects>>>)
    -> bool {
    if tier_side(rect) == 0 {
        pick.is_none()
    } else {
        pick.is_some() && exists|i: int, turns: int|
            0 <= i < library.list_for(rect).len() && 0 <= turns <= 2 && #[trigger] turned_by(
                library.list_for(rect)[i]@,
                pick.unwrap(),
                turns,
            )
    }
}

/// The cell `(x, y)` takes a wall from the obstacle of the room `rect`,
/// which is stamped one cell inside the corner of the room.
pub open spec fn stamped_in(rect: Rect, pick: Option<Seq<Vec<Objects>>>, x: int, y: int) -> bool {
    pick.is_some() && stamped(pick.unwrap(), rect.x + 1, rect.y + 1, x, y)
}

/// An obstacle is stamped where its room is decorated.
pub proof fn lemma_stamped_decorated(
    library: ObjectLibrary,
    rect: Rect,
    pick: Option<Seq<Vec<Objects>>>,
    x: int,
    y: int,
)
    requires
        library.wf(),
        may_pick(library, rect, pick),
        stamped_in(rect, pick, x, y),
    ensures
        decorated(rect, x, y),
{
    let list = library.list_for(rect);
    let (i, turns) = choose|i: int, turns: int|
        0 <= i < list.len() && 0 <= turns <= 2 && #[trigger] turned_by(
            list[i]@,
            pick.unwrap(),
            turns,
        );
    assert(square(list[i]@, tier_side(rect)));
}

/// Stamps one obstacle, picked and turned at random, into the room `rect`:
/// one of the largest kind that leaves the walls of the room free, one cell
/// inside the corner of the room.  A room too small for any obstacle stays
/// as it is.
pub fn gen_battle_room(
    room: &mut Vec<Vec<Objects>>,
    rect: &Rect,
    library: &ObjectLibrary,
    rng: &RandGenerator,
)
    requires
        square(old(room)@, old(room).len() as int),
        rect.wf(),
        rect.fits(old(room).len() as int),
        library.wf(),
    ensures
        same_shape(old(room)@, final(room)@),
        exists|pick: Option<Seq<Vec<Objects>>>| #[trigger]
            may_pick(*library, *rect, pick) && forall|x: int, y: int| #![trigger final(room)@[y][x]]
                in_grid(old(room)@, x, y) ==> final(room)@[y][x] == if stamped_in(
                    *rect,
                    pick,
                    x,
                    y,
                ) {
                    Objects::Wall
                } else {
                    old(room)@[y][x]
                },
{
    let least: usize = if rect.width < rect.height {
        rect.width
    } else {
        rect.height
    };
    let array = if least > LARGE_SIDE {
        &library.large
    } else if least > MEDIUM_SIDE {
        &library.medium
    } else if least > SMALL_SIDE {
        &library.small
    } else {
        proof {
            let none = None::<Seq<Vec<Objects>>>;
            assert(may_pick(*library, *rect, none));
            assert forall|x: int, y: int| #![trigger room@[y][x]]
                in_grid(old(room)@, x, y) implies room@[y][x] == if stamped_in(*rect, none, x, y) {
                Objects::Wall
            } else {
                old(room)@[y][x]
            } by {}
        }
        return ;
    };
    proof {
        assert(objects_square(array@));
        assert(array@ == library.list_for(*rect));
    }
    match complete_random(array, rng) {
        Some(object) => {
            proof {
                let (i, turns) = choose|i: int, turns: int|
                    0 <= i < array.len() && 0 <= turns <= 2 && #[trigger] turned_by(
                        array@[i]@,
                        object@,
                        turns,
                    );
                assert(square(array@[i]@, tier_side(*rect)));
                assert(object.len() == tier_side(*rect));
                let pick = Some(object@);
                assert(tier_side(*rect) != 0);
                assert(0 <= i < library.list_for(*rect).len() && 0 <= turns <= 2 && turned_by(
                    library.list_for(*rect)[i]@,
                    pick.unwrap(),
                    turns,
                ));
                assert(may_pick(*library, *rect, pick));
            }
            paste_object(1, 1, &object, rect, room);
            proof {
                let pick = Some(object@);
                assert forall|x: int, y: int| #![trigger room@[y][x]]
                    in_grid(old(room)@, x, y) implies room@[y][x] == if stamped_in(
                    *rect,
                    pick,
                    x,
                    y,
                ) {
                    Objects::Wall
                } else {
                    old(room)@[y][x]
                } by {}
            }
        },
        None => {
            proof {
                assert(false);
            }
        },
    }
}

/// Some room of the list has its obstacle stamped over the cell `(x, y)`.
pub open spec fn decorated_by_some(rects: Seq<Rect>, x: int, y: int) -> bool {
    exists|k: int| 0 <= k < rects.len() && decorated(#[trigger] rects[k], x, y)
}

/// The cell `(x, y)` takes a wall from the obstacle of room `k`.
pub open spec fn stamped_at(
    rects: Seq<Rect>,
    picks: Seq<Option<Seq<Vec<Objects>>>>,
    k: int,
    x: int,
    y: int,
) -> bool {
    0 <= k < picks.len() && k < rects.len() && stamped_in(rects[k], picks[k], x, y)
}

/// The cell `(x, y)` takes a wall from the obstacle of some room.
pub open spec fn stamped_by_some(
    rects: Seq<Rect>,
    picks: Seq<Option<Seq<Vec<Objects>>>>,
    x: int,
    y: int,
) -> bool {
    exists|k: int| stamped_at(rects, picks, k, x, y)
}

/// `picks` holds for each room an obstacle that may be picked for it.
pub open spec fn may_pick_all(
    library: ObjectLibrary,
    rects: Seq<Rect>,
    picks: Seq<Option<Seq<Vec<Objects>>>>,
) -> bool {
    picks.len() == rects.len() && forall|k: int|
        0 <= k < rects.len() ==> may_pick(library, rects[k], #[trigger] picks[k])
}

/// Decorates every room with one obstacle of the library, picked and
/// turned at random.  Nothing else changes.
pub fn post(
    room: &mut Vec<Vec<Objects>>,
    rects: &Vec<Rect>,
    library: &ObjectLibrary,
    rng: &RandGenerator,
)
    requires
        square(old(room)@, old(room).len() as int),
        rooms_fit(rects@, old(room).len() as int),
        library.wf(),
    ensures
        same_shape(old(room)@, final(room)@),
        exists|picks: Seq<Option<Seq<Vec<Objects>>>>| #[trigger]
            may_pick_all(*library, rects@, picks) && forall|x: int, y: int| #![trigger final(room)@[y][x]]
                in_grid(old(room)@, x, y) ==> final(room)@[y][x] == if stamped_by_some(
                    rects@,
                    picks,
                    x,
                    y,
                ) {
                    Objects::Wall
                } else {
                    old(room)@[y][x]
                },
        forall|x: int, y: int| #![trigger final(room)@[y][x]]
            in_grid(old(room)@, x, y) ==> final(room)@[y][x] == old(room)@[y][x] || (final(room)@[y][x]
                == Objects::Wall && decorated_by_some(rects@, x, y)),
{
    let ghost mut picks: Seq<Option<Seq<Vec<Objects>>>> = Seq::empty();
    let mut k: usize = 0;
    while k < rects.len()
        invariant
            k <= rects.len(),
            library.wf(),
            square(old(room)@, old(room).len() as int),
            rooms_fit(rects@, old(room).len() as int),
            same_shape(old(room)@, room@),
            picks.len() == k,
            forall|j: int| 0 <= j < k ==> may_pick(*library, rects@[j], #[trigger] picks[j]),
            forall|x: int, y: int| #![trigger room@[y][x]]
                in_grid(old(room)@, x, y) ==> room@[y][x] == if stamped_by_some(
                    rects@,
                    picks,
                    x,
                    y,
                ) {
                    Objects::Wall
                } else {
                    old(room)@[y][x]
                },
        decreases rects.len() - k,
    {
        let ghost before = room@;
        let ghost picks0 = picks;
        gen_battle_room(room, &rects[k], library, rng);
        proof {
            let rect = rects@[k as int];
            let pick = choose|pick: Option<Seq<Vec<Objects>>>| #[trigger]
                may_pick(*library, rect, pick) && forall|x: int, y: int| #![trigger room@[y][x]]
                    in_grid(before, x, y) ==> room@[y][x] == if stamped_in(rect, pick, x, y) {
                        Objects::Wall
                    } else {
                        before[y][x]
                    };
            picks = picks0.push(pick);
            assert forall|j: int| 0 <= j < k + 1 implies may_pick(
                *library,
                rects@[j],
                #[trigger] picks[j],
            ) by {
                if j < k {
                    assert(picks[j] == picks0[j]);
                }
            }
            assert forall|x: int, y: int| #![trigger room@[y][x]]
                in_grid(old(room)@, x, y) implies room@[y][x] == if stamped_by_some(
                rects@,
                picks,
                x,
                y,
            ) {
                Objects::Wall
            } else {
                old(room)@[y][x]
            } by {
                assert(in_grid(before, x, y));
                if stamped_by_some(rects@, picks0, x, y) {
                    let j = choose|j: int| stamped_at(rects@, picks0, j, x, y);
                    assert(picks[j] == picks0[j]);
                    assert(stamped_at(rects@, picks, j, x, y));
                }
                if stamped_in(rect, pick, x, y) {
                    assert(stamped_at(rects@, picks, k as int, x, y));
                }
                if stamped_by_some(rects@, picks, x, y) {
                    let j = choose|j: int| stamped_at(rects@, picks, j, x, y);
                    if j < k {
                        assert(picks[j] == picks0[j]);
                        assert(stamped_at(rects@, picks0, j, x, y));
                    }
                }
            }
        }
        k += 1;
    }
    proof {
        assert(may_pick_all(*library, rects@, picks));
        assert forall|x: int, y: int| #![trigger room@[y][x]]
            in_grid(old(room)@, x, y) implies room@[y][x] == old(room)@[y][x] || (room@[y][x]
            == Objects::Wall && decorated_by_some(rects@, x, y)) by {
            if stamped_by_some(rects@, picks, x, y) {
                let j = choose|j: int| stamped_at(rects@, picks, j, x, y);
                lemma_stamped_decorated(*library, rects@[j], picks[j], x, y);
            }
        }
    }
}

} // verus!
