//! The eight ways a walker can face, told from the signs of its two speeds.

use vstd::prelude::*;

verus! {

/// A way to face, named by the keys that lead there: `W` is up, `A` left,
/// `S` down and `D` right.
#[derive(Hash, PartialEq, Eq, Debug, Clone, Copy, Structural)]
pub enum Direction {
    W,
    A,
    S,
    D,
    WA,
    WD,
    SA,
    SD,
}

/// The way to face with the speed `(h, v)`, each one of -1, 0 and 1, for a
/// walker that faced `current` before: standing still changes nothing.
pub open spec fn faces(h: int, v: int, current: Direction) -> Direction {
    if h == 1 && v == 0 {
        Direction::D
    } else if h == -1 && v == 0 {
        Direction::A
    } else if h == 0 && v == 1 {
        Direction::S
    } else if h == 0 && v == -1 {
        Direction::W
    } else if h == 1 && v == 1 {
        Direction::SD
    } else if h == -1 && v == 1 {
        Direction::SA
    } else if h == 1 && v == -1 {
        Direction::WD
    } else if h == -1 && v == -1 {
        Direction::WA
    } else {
        current
    }
}

/// The sign of a speed: -1, 0 or 1.
pub fn signum(speed: i32) -> (sign: i32)
    ensures
        sign == if speed > 0 {
            1int
        } else if speed < 0 {
            -1int
        } else {
            0int
        },
{
    if speed > 0 {
        1
    } else if speed < 0 {
        -1
    } else {
        0
    }
}

/// The way a walker faces that moves with the signs `h` and `v` of its
/// speeds to the right and downwards and that faced `current` before.
pub fn update_direction(h: i32, v: i32, current: Direction) -> (direction: Direction)
    requires
        -1 <= h <= 1,
        -1 <= v <= 1,
    ensures
        direction == faces(h as int, v as int, current),
{
    match (h, v) {
        (1, 0) => Direction::D,
        (-1, 0) => Direction::A,
        (0, 1) => Direction::S,
        (0, -1) => Direction::W,
        (1, 1) => Direction::SD,
        (-1, 1) => Direction::SA,
        (1, -1) => Direction::WD,
        (-1, -1) => Direction::WA,
        _ => current,
    }
}

/// The name of a way to face, as the files of the pictures bear it.
pub fn direction_name(direction: Direction) -> (name: &'static str)
    ensures
        name@ == match direction {
            Direction::W => "w"@,
            Direction::A => "a"@,
            Direction::S => "s"@,
            Direction::D => "d"@,
            Direction::WA => "wa"@,
            Direction::WD => "wd"@,
            Direction::SA => "sa"@,
            Direction::SD => "sd"@,
        },
{
    match direction {
        Direction::W => "w",
        Direction::A => "a",
        Direction::S => "s",
        Direction::D => "d",
        Direction::WA => "wa",
        Direction::WD => "wd",
        Direction::SA => "sa",
        Direction::SD => "sd",
    }
}

} // verus!
