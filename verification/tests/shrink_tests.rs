use macroquad::rand::RandGenerator;
use room_gen::grid::{new_room, Objects};
use room_gen::rect::Rect;
use room_gen::shrink::{draw_rect, draw_rects, rand_rect, shrink_rect};

#[test]
fn shrink_rect_rounds_to_the_nearest_cell() {
    let mut r = Rect::new(10, 20, 10, 5);
    shrink_rect(&mut r, 700, 0, 1000);
    assert_eq!(r, Rect::new(10, 21, 7, 4));
}

#[test]
fn shrink_rect_rounds_halves_upwards() {
    let mut r = Rect::new(0, 0, 5, 15);
    shrink_rect(&mut r, 900, 500, 500);
    assert_eq!(r, Rect::new(0, 1, 5, 14));
    let mut s = Rect::new(3, 4, 20, 20);
    shrink_rect(&mut s, 800, 500, 250);
    assert_eq!(s, Rect::new(5, 5, 16, 16));
}

#[test]
fn shrink_rect_keeps_a_rectangle_at_full_scale() {
    let mut r = Rect::new(7, 9, 13, 1);
    shrink_rect(&mut r, 1000, 1000, 1000);
    assert_eq!(r, Rect::new(7, 9, 13, 1));
    let mut point = Rect::new(2, 2, 0, 0);
    shrink_rect(&mut point, 700, 1000, 1000);
    assert_eq!(point, Rect::new(2, 2, 0, 0));
}

#[test]
fn shrink_rect_takes_the_largest_rectangle() {
    let mut r = Rect::new(0, 0, usize::MAX, usize::MAX);
    shrink_rect(&mut r, 1000, 0, 0);
    assert_eq!(r, Rect::new(0, 0, usize::MAX, usize::MAX));
}

#[test]
fn rand_rect_stays_inside_and_in_scale() {
    let rng = RandGenerator::new();
    rng.srand(9);
    let mut widths = std::collections::BTreeSet::new();
    for _ in 0..500 {
        let before = Rect::new(10, 20, 100, 50);
        let mut r = before;
        rand_rect(&mut r, &rng);
        assert!(r.width >= 70 && r.width <= 90);
        assert!(r.height >= 35 && r.height <= 45);
        assert!(r.x >= before.x && r.get_right() <= before.get_right());
        assert!(r.y >= before.y && r.get_bottom() <= before.get_bottom());
        widths.insert(r.width);
    }
    assert!(widths.len() > 5);
}

#[test]
fn shrunk_neighbours_stay_apart() {
    let rng = RandGenerator::new();
    rng.srand(2);
    for _ in 0..200 {
        let mut a = Rect::new(0, 0, 9, 9);
        let mut b = Rect::new(10, 0, 9, 9);
        rand_rect(&mut a, &rng);
        rand_rect(&mut b, &rng);
        assert!(a.get_right() < b.x);
        assert!(!a.touches_rect(&b));
    }
}

#[test]
fn draw_rect_draws_the_four_edges() {
    let mut room = new_room(6);
    draw_rect(&Rect::new(1, 2, 3, 2), &mut room);
    for y in 0..6 {
        for x in 0..6 {
            let inside = (1..=4).contains(&x) && (2..=4).contains(&y);
            let edge = inside && (x == 1 || x == 4 || y == 2 || y == 4);
            assert_eq!(room[y][x], if edge { Objects::Wall } else { Objects::Air });
        }
    }
}

#[test]
fn draw_rect_of_one_cell() {
    let mut room = new_room(3);
    draw_rect(&Rect::new(2, 2, 0, 0), &mut room);
    let mut expected = new_room(3);
    expected[2][2] = Objects::Wall;
    assert_eq!(room, expected);
}

#[test]
fn draw_rects_starts_from_an_open_grid() {
    let rects = vec![Rect::new(0, 0, 2, 2), Rect::new(3, 3, 1, 1)];
    let room = draw_rects(&rects, 5);
    let text: Vec<String> = room
        .iter()
        .map(|row| row.iter().map(|c| if *c == Objects::Wall { '#' } else { '.' }).collect())
        .collect();
    assert_eq!(text, vec!["###..", "#.#..", "###..", "...##", "...##"]);
    assert_eq!(draw_rects(&Vec::new(), 4), new_room(4));
}
