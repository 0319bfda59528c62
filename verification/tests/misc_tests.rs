use room_gen::color::hex;
use room_gen::facing::{direction_name, signum, update_direction, Direction};
use room_gen::grid::Objects;
use room_gen::levels::init_rooms;

const A: Objects = Objects::Air;
const W: Objects = Objects::Wall;

#[test]
fn hex_reads_three_pairs_of_digits() {
    assert_eq!(hex("#313639"), Some((0x31, 0x36, 0x39, 255)));
    assert_eq!(hex("#000000"), Some((0, 0, 0, 255)));
    assert_eq!(hex("#ffffff"), Some((255, 255, 255, 255)));
    assert_eq!(hex("#AbCdEf"), Some((0xab, 0xcd, 0xef, 255)));
    assert_eq!(hex("x0a141e and more"), Some((10, 20, 30, 255)));
}

#[test]
fn hex_refuses_short_and_wrong_text() {
    assert_eq!(hex(""), None);
    assert_eq!(hex("#12345"), None);
    assert_eq!(hex("#12345g"), None);
    assert_eq!(hex("#+12345"), None);
    assert_eq!(hex("#12 456"), None);
    assert_eq!(hex("#/:@G`g"), None);
}

#[test]
fn signum_of_a_speed() {
    assert_eq!(signum(7), 1);
    assert_eq!(signum(-7), -1);
    assert_eq!(signum(0), 0);
    assert_eq!(signum(i32::MIN), -1);
    assert_eq!(signum(i32::MAX), 1);
}

#[test]
fn update_direction_follows_the_speeds() {
    let before = Direction::SA;
    assert_eq!(update_direction(1, 0, before), Direction::D);
    assert_eq!(update_direction(-1, 0, before), Direction::A);
    assert_eq!(update_direction(0, 1, before), Direction::S);
    assert_eq!(update_direction(0, -1, before), Direction::W);
    assert_eq!(update_direction(1, 1, before), Direction::SD);
    assert_eq!(update_direction(-1, 1, before), Direction::SA);
    assert_eq!(update_direction(1, -1, before), Direction::WD);
    assert_eq!(update_direction(-1, -1, before), Direction::WA);
}

#[test]
fn update_direction_keeps_the_way_when_standing() {
    for before in [Direction::W, Direction::A, Direction::S, Direction::D, Direction::WD] {
        assert_eq!(update_direction(0, 0, before), before);
    }
}

#[test]
fn direction_names() {
    let names: Vec<&str> = [
        Direction::W,
        Direction::A,
        Direction::S,
        Direction::D,
        Direction::WA,
        Direction::WD,
        Direction::SA,
        Direction::SD,
    ]
    .iter()
    .map(|d| direction_name(*d))
    .collect();
    assert_eq!(names, vec!["w", "a", "s", "d", "wa", "wd", "sa", "sd"]);
}

#[test]
fn init_rooms_reads_rooms_and_rows() {
    let rooms = init_rooms("###\n# #\n###\n\n# \n #".as_bytes());
    assert_eq!(
        rooms,
        vec![
            vec![vec![W, W, W], vec![W, A, W], vec![W, W, W]],
            vec![vec![W, A], vec![A, W]],
        ]
    );
}

#[test]
fn init_rooms_of_an_empty_text() {
    assert_eq!(init_rooms("".as_bytes()), vec![vec![Vec::<Objects>::new()]]);
}

#[test]
fn init_rooms_keeps_the_line_after_the_last_newline() {
    assert_eq!(init_rooms("#\n".as_bytes()), vec![vec![vec![W], vec![]]]);
    assert_eq!(init_rooms("#\n\n".as_bytes()), vec![vec![vec![W]], vec![vec![]]]);
}

#[test]
fn init_rooms_with_three_newlines() {
    assert_eq!(
        init_rooms("#\n\n\n ".as_bytes()),
        vec![vec![vec![W]], vec![vec![], vec![A]]]
    );
    assert_eq!(
        init_rooms("#\n\n\n\n ".as_bytes()),
        vec![vec![vec![W]], vec![vec![]], vec![vec![A]]]
    );
}

#[test]
fn init_rooms_skips_other_bytes() {
    assert_eq!(
        init_rooms("a# b\r\n\t#é".as_bytes()),
        vec![vec![vec![W, A], vec![W]]]
    );
}

#[test]
fn init_rooms_agrees_with_splitting() {
    let text = "## #\n#  #\n\n\n# #\n\n##\n#\n\n";
    let mut expected = Vec::new();
    for room in text.split("\n\n") {
        let mut rows = Vec::new();
        for line in room.split('\n') {
            let row: Vec<Objects> = line
                .chars()
                .filter(|c| *c == ' ' || *c == '#')
                .map(|c| if c == '#' { W } else { A })
                .collect();
            rows.push(row);
        }
        expected.push(rows);
    }
    assert_eq!(init_rooms(text.as_bytes()), expected);
}
