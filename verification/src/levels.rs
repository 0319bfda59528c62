//! Rooms drawn by hand, read from text: rooms are set apart by an empty
//! line, each line of a room is a row, a space is an open cell and `#` a
//! wall.  Any other byte stands for nothing.

use vstd::prelude::*;
use crate::grid::Objects;

verus! {

/// The byte that ends a line.
pub const NEWLINE: u8 = 10;

/// The byte of an open cell.
pub const OPEN_MARK: u8 = 32;

/// The byte of a wall.
pub const WALL_MARK: u8 = 35;

/// The cell that a byte stands for, if it stands for one.
pub open spec fn cell_of(byte: u8) -> Seq<Objects> {
    if byte == OPEN_MARK {
        seq![Objects::Air]
    } else if byte == WALL_MARK {
        seq![Objects::Wall]
    } else {
        Seq::empty()
    }
}

/// The cells of the bytes from `start` up to `end`.
pub open spec fn cells_in(text: Seq<u8>, start: int, end: int) -> Seq<Objects>
    decreases end - start,
{
    if start >= end {
        Seq::empty()
    } else {
        cell_of(text[start]) + cells_in(text, start + 1, end)
    }
}

/// The place of the first newline from `start` on and before `end`, or
/// `end` where there is none.
pub open spec fn next_newline(text: Seq<u8>, start: int, end: int) -> int
    decreases end - start,
{
    if start >= end {
        end
    } else if text[start] == NEWLINE {
        start
    } else {
        next_newline(text, start + 1, end)
    }
}

/// The rows of the lines from `start` up to `end`.  The text after the
/// last newline is a line too, also where it is empty.
pub open spec fn lines_in(text: Seq<u8>, start: int, end: int) -> Seq<Seq<Objects>>
    decreases end - start,
{
    let stop = next_newline(text, start, end);
    if start <= stop < end {
        seq![cells_in(text, start, stop)] + lines_in(text, stop + 1, end)
    } else {
        seq![cells_in(text, start, end)]
    }
}

/// Two newlines stand at `at` and after it.
pub open spec fn break_at(text: Seq<u8>, at: int) -> bool {
    0 <= at && at + 1 < text.len() && text[at] == NEWLINE && text[at + 1] == NEWLINE
}

/// The place of the first empty line from `start` on, or the end of the
/// text where there is none.
pub open spec fn next_break(text: Seq<u8>, start: int) -> int
    decreases text.len() - start,
{
    if start >= text.len() {
        text.len() as int
    } else if break_at(text, start) {
        start
    } else {
        next_break(text, start + 1)
    }
}

/// The rooms of the text from `start` on.  The text after the last empty
/// line is a room too, also where it is empty.
pub open spec fn rooms_from(text: Seq<u8>, start: int) -> Seq<Seq<Seq<Objects>>>
    decreases text.len() - start,
{
    let stop = next_break(text, start);
    if 0 <= start <= stop && stop + 1 < text.len() {
        seq![lines_in(text, start, stop)] + rooms_from(text, stop + 2)
    } else {
        seq![lines_in(text, start, text.len() as int)]
    }
}

/// The rows of a room as sequences.
pub open spec fn rows_of(room: Seq<Vec<Objects>>) -> Seq<Seq<Objects>> {
    Seq::new(room.len(), |j: int| room[j]@)
}

/// The rooms of a list as sequences.
pub open spec fn rooms_of(rooms: Seq<Vec<Vec<Objects>>>) -> Seq<Seq<Seq<Objects>>> {
    Seq::new(rooms.len(), |k: int| rows_of(rooms[k]@))
}

proof fn lemma_next_break(text: Seq<u8>, start: int)
    requires
        0 <= start <= text.len(),
    ensures
        start <= next_break(text, start) <= text.len(),
        next_break(text, start) < text.len() ==> break_at(text, next_break(text, start)),
    decreases text.len() - start,
{
    if start < text.len() && !break_at(text, start) {
        lemma_next_break(text, start + 1);
    }
}

/// The row of the bytes from `start` up to `end`.
fn parse_line(text: &[u8], start: usize, end: usize) -> (row: Vec<Objects>)
    requires
        start <= end <= text.len(),
    ensures
        row@ == cells_in(text@, start as int, end as int),
{
    let mut row: Vec<Objects> = Vec::new();
    let mut i: usize = start;
    while i < end
        invariant
            start <= i <= end <= text.len(),
            row@ + cells_in(text@, i as int, end as int) == cells_in(
                text@,
                start as int,
                end as int,
            ),
        decreases end - i,
    {
        let ghost before = row@;
        let byte = text[i];
        if byte == OPEN_MARK {
            row.push(Objects::Air);
        } else if byte == WALL_MARK {
            row.push(Objects::Wall);
        }
        proof {
            assert(row@ =~= before + cell_of(byte));
            assert(row@ + cells_in(text@, i + 1, end as int) =~= before + (cell_of(byte) + cells_in(
                text@,
                i + 1,
                end as int,
            )));
        }
        i += 1;
    }
    proof {
        assert(row@ + Seq::<Objects>::empty() =~= row@);
    }
    row
}

/// The place of the first newline from `start` on and before `end`.
fn find_newline(text: &[u8], start: usize, end: usize) -> (stop: usize)
    requires
        start <= end <= text.len(),
    ensures
        stop == next_newline(text@, start as int, end as int),
        start <= stop <= end,
{
    let mut i: usize = start;
    while i < end
        invariant
            start <= i <= end <= text.len(),
            next_newline(text@, i as int, end as int) == next_newline(
                text@,
                start as int,
                end as int,
            ),
        decreases end - i,
    {
        if text[i] == NEWLINE {
            return i;
        }
        i += 1;
    }
    i
}

/// The place of the first empty line from `start` on.
fn find_break(text: &[u8], start: usize) -> (stop: usize)
    requires
        start <= text.len(),
    ensures
        stop == next_break(text@, start as int),
        start <= stop <= text.len(),
{
    let mut i: usize = start;
    while i < text.len()
        invariant
            start <= i <= text.len(),
            next_break(text@, i as int) == next_break(text@, start as int),
        decreases text.len() - i,
    {
        if i + 1 < text.len() && text[i] == NEWLINE && text[i + 1] == NEWLINE {
            return i;
        }
        i += 1;
    }
    i
}

/// The rows of the lines from `start` up to `end`.
fn parse_room(text: &[u8], start: usize, end: usize) -> (room: Vec<Vec<Objects>>)
    requires
        start <= end <= text.len(),
    ensures
        rows_of(room@) == lines_in(text@, start as int, end as int),
{
    let mut room: Vec<Vec<Objects>> = Vec::new();
    let mut from: usize = start;
    loop
        invariant_except_break
            rows_of(room@) + lines_in(text@, from as int, end as int) == lines_in(
                text@,
                start as int,
                end as int,
            ),
        invariant
            start <= from <= end <= text.len(),
        ensures
            rows_of(room@) == lines_in(text@, start as int, end as int),
        decreases end - from,
    {
        let ghost before = room@;
        let stop = find_newline(text, from, end);
        let row = parse_line(text, from, stop);
        room.push(row);
        proof {
            assert(rows_of(room@) =~= rows_of(before) + seq![cells_in(
                text@,
                from as int,
                stop as int,
            )]);
        }
        if stop < end {
            proof {
                assert(rows_of(room@) + lines_in(text@, stop + 1, end as int) =~= rows_of(before) + (
                seq![cells_in(text@, from as int, stop as int)] + lines_in(
                    text@,
                    stop + 1,
                    end as int,
                )));
            }
            from = stop + 1;
        } else {
            break ;
        }
    }
    room
}

/// Reads the rooms of a text.
pub fn init_rooms(text: &[u8]) -> (rooms: Vec<Vec<Vec<Objects>>>)
    ensures
        rooms_of(rooms@) == rooms_from(text@, 0),
{
    let mut rooms: Vec<Vec<Vec<Objects>>> = Vec::new();
    let mut from: usize = 0;
    loop
        invariant_except_break
            rooms_of(rooms@) + rooms_from(text@, from as int) == rooms_from(text@, 0),
        invariant
            from <= text.len(),
        ensures
            rooms_of(rooms@) == rooms_from(text@, 0),
        decreases text.len() - from,
    {
        let ghost before = rooms@;
        let stop = find_break(text, from);
        proof {
            lemma_next_break(text@, from as int);
        }
        if stop < text.len() {
            let room = parse_room(text, from, stop);
            rooms.push(room);
            proof {
                assert(rooms_of(rooms@) =~= rooms_of(before) + seq![lines_in(
                    text@,
                    from as int,
                    stop as int,
                )]);
                assert(rooms_of(rooms@) + rooms_from(text@, stop + 2) =~= rooms_of(before) + (
                seq![lines_in(text@, from as int, stop as int)] + rooms_from(text@, stop + 2)));
            }
            from = stop + 2;
        } else {
            let room = parse_room(text, from, text.len());
            rooms.push(room);
            proof {
                assert(rooms_of(rooms@) =~= rooms_of(before) + seq![lines_in(
                    text@,
                    from as int,
                    text@.len() as int,
                )]);
            }
            break ;
        }
    }
    rooms
}

} // verus!
