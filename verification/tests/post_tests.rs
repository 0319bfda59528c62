use macroquad::rand::RandGenerator;
use room_gen::grid::{copy_room, new_room, Objects};
use room_gen::post::{
    complete_random, gen_battle_room, large_objects, medium_objects, parse_object, paste_object, post,
    random_array, rotate_array, small_objects, ObjectLibrary,
};
use room_gen::rect::Rect;
use room_gen::shrink::draw_rects;

fn picture(room: &Vec<Vec<Objects>>) -> Vec<String> {
    room.iter()
        .map(|row| row.iter().map(|c| if *c == Objects::Wall { '#' } else { '.' }).collect())
        .collect()
}

fn print_room(room: &Vec<Vec<Objects>>) {
    for line in picture(room) {
        println!("{}", line);
    }
}

#[test]
fn parse_object_reads_rows_and_columns() {
    assert_eq!(picture(&parse_object(2, "#\n##".as_bytes())), vec!["#.", "##"]);
    assert_eq!(picture(&parse_object(3, "###\n# #\n###".as_bytes())), vec!["###", "#.#", "###"]);
    assert_eq!(picture(&parse_object(3, "".as_bytes())), vec!["...", "...", "..."]);
}

#[test]
fn parse_object_skips_blanks_before_a_row() {
    assert_eq!(
        picture(&parse_object(3, "##\n         0##\n\t #  ".as_bytes())),
        vec!["##.", ".##", "#.."]
    );
    assert_eq!(picture(&parse_object(2, "  #\r\n ##\r\n".as_bytes())), vec!["#.", "##"]);
}

#[test]
fn parse_object_leaves_out_what_does_not_fit() {
    assert_eq!(picture(&parse_object(2, "####\n####\n####".as_bytes())), vec!["##", "##"]);
    assert_eq!(picture(&parse_object(1, "\n\n#".as_bytes())), vec!["."]);
    assert!(parse_object(0, "#".as_bytes()).is_empty());
}

#[test]
fn parse_object_counts_empty_lines() {
    assert_eq!(
        picture(&parse_object(5, "\n#\n#  ##\n##  #\n##  #".as_bytes())),
        vec![".....", "#....", "#..##", "##..#", "##..#"]
    );
}

#[test]
fn rotate_array_turns_clockwise() {
    let mut object = parse_object(2, "#".as_bytes());
    rotate_array(&mut object);
    assert_eq!(picture(&object), vec![".#", ".."]);
    rotate_array(&mut object);
    assert_eq!(picture(&object), vec!["..", ".#"]);
    rotate_array(&mut object);
    assert_eq!(picture(&object), vec!["..", "#."]);
    rotate_array(&mut object);
    assert_eq!(picture(&object), vec!["#.", ".."]);
}

#[test]
fn rotate_array_of_a_larger_object() {
    let mut object = parse_object(3, "###\n#\n#".as_bytes());
    rotate_array(&mut object);
    assert_eq!(picture(&object), vec!["###", "..#", "..#"]);
    let mut nothing: Vec<Vec<Objects>> = Vec::new();
    rotate_array(&mut nothing);
    assert!(nothing.is_empty());
}

#[test]
fn libraries_hold_squares() {
    let small = small_objects();
    let medium = medium_objects();
    let large = large_objects();
    assert_eq!((small.len(), medium.len(), large.len()), (4, 7, 4));
    for (list, side) in [(&small, 2usize), (&medium, 3), (&large, 5)] {
        for object in list.iter() {
            assert_eq!(object.len(), side);
            assert!(object.iter().all(|row| row.len() == side));
            assert!(object.iter().flatten().any(|c| *c == Objects::Wall));
        }
    }
    assert_eq!(picture(&small[1]), vec!["#.", "##"]);
    assert_eq!(picture(&medium[5]), vec![".##", ".##", "##."]);
    assert_eq!(picture(&large[3]), vec!["#####", "#....", "....#", "...##", "#...."]);
}

#[test]
fn random_array_of_nothing() {
    let rng = RandGenerator::new();
    let nothing: Vec<u32> = Vec::new();
    assert_eq!(random_array(&nothing, &rng), None);
}

#[test]
fn random_array_picks_every_entry() {
    let rng = RandGenerator::new();
    rng.srand(4);
    let array = vec![10u32, 20, 30, 40];
    let mut seen = std::collections::BTreeSet::new();
    for _ in 0..300 {
        let picked = *random_array(&array, &rng).unwrap();
        assert!(array.contains(&picked));
        seen.insert(picked);
    }
    assert_eq!(seen.len(), 4);
}

#[test]
fn complete_random_of_nothing() {
    let rng = RandGenerator::new();
    assert!(complete_random(&Vec::new(), &rng).is_none());
}

#[test]
fn complete_random_turns_an_entry() {
    let rng = RandGenerator::new();
    rng.srand(8);
    let array = vec![parse_object(2, "#".as_bytes())];
    let mut seen = std::collections::BTreeSet::new();
    for _ in 0..100 {
        let object = complete_random(&array, &rng).unwrap();
        let text = picture(&object);
        assert!(text == vec!["#.", ".."] || text == vec![".#", ".."] || text == vec!["..", ".#"]);
        seen.insert(text);
    }
    assert_eq!(seen.len(), 3);
}

#[test]
fn post_test() {
    let rng = RandGenerator::new();
    let large = large_objects();
    for _ in 0..15 {
        let random = complete_random(&large, &rng).unwrap();
        println!();
        print_room(&random);
        assert_eq!(random.len(), 5);
        let mut turned = false;
        for object in &large {
            let mut copy = copy_room(object);
            for _ in 0..3 {
                turned = turned || copy == random;
                rotate_array(&mut copy);
            }
        }
        assert!(turned);
    }
}

#[test]
fn paste_object_stamps_the_walls() {
    let mut room = new_room(6);
    room[2][2] = Objects::Wall;
    let object = parse_object(2, "#\n##".as_bytes());
    paste_object(1, 2, &object, &Rect::new(1, 1, 4, 4), &mut room);
    assert_eq!(
        picture(&room),
        vec!["......", "......", "..#...", "..#...", "..##..", "......"]
    );
}

#[test]
fn paste_object_keeps_walls_under_open_cells() {
    let mut room = vec![vec![Objects::Wall; 3]; 3];
    let object = parse_object(2, "".as_bytes());
    paste_object(0, 0, &object, &Rect::new(1, 1, 1, 1), &mut room);
    assert_eq!(room, vec![vec![Objects::Wall; 3]; 3]);
}

#[test]
fn gen_battle_room_stays_inside_the_room() {
    let rng = RandGenerator::new();
    let library = ObjectLibrary::new();
    for seed in 0..30u64 {
        rng.srand(seed);
        for (side, stamp) in [(8usize, 5usize), (6, 5), (5, 3), (4, 3), (3, 2)] {
            let rect = Rect::new(2, 3, side, side);
            let drawn = draw_rects(&vec![rect], 20);
            let mut room = drawn.clone();
            gen_battle_room(&mut room, &rect, &library, &rng);
            let mut added = 0;
            for y in 0..20 {
                for x in 0..20 {
                    if room[y][x] != drawn[y][x] {
                        added += 1;
                        assert_eq!(room[y][x], Objects::Wall);
                        assert!(x > 2 && x <= 2 + stamp && y > 3 && y <= 3 + stamp);
                        assert!(x < 2 + side && y < 3 + side);
                    }
                }
            }
            assert!(added > 0);
        }
    }
}

#[test]
fn gen_battle_room_leaves_a_small_room_alone() {
    let rng = RandGenerator::new();
    let library = ObjectLibrary::new();
    for side in 0..3usize {
        let rect = Rect::new(2, 3, side, 9);
        let drawn = draw_rects(&vec![rect], 20);
        let mut room = drawn.clone();
        gen_battle_room(&mut room, &rect, &library, &rng);
        assert_eq!(room, drawn);
    }
}

#[test]
fn post_only_adds_walls_inside_rooms() {
    let rng = RandGenerator::new();
    rng.srand(12);
    let rects = vec![Rect::new(1, 1, 7, 7), Rect::new(10, 1, 4, 4), Rect::new(1, 10, 2, 2)];
    let drawn = draw_rects(&rects, 20);
    let mut room = drawn.clone();
    post(&mut room, &rects, &ObjectLibrary::new(), &rng);
    let mut changed = [0usize; 3];
    for y in 0..20 {
        for x in 0..20 {
            if room[y][x] != drawn[y][x] {
                assert_eq!(room[y][x], Objects::Wall);
                let k = rects
                    .iter()
                    .position(|r| x > r.x && x < r.get_right() && y > r.y && y < r.get_bottom())
                    .unwrap();
                changed[k] += 1;
            }
        }
    }
    assert!(changed[0] > 0 && changed[1] > 0);
    assert_eq!(changed[2], 0);
}
