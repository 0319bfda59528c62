use room_gen::grid::{cardinals, copy_room, new_room, point_valid, set_cell, set_wall, Objects};
use room_gen::rect::Rect;

#[test]
fn cardinals_inside_the_grid() {
    assert_eq!(cardinals(&(3, 2)), [(3, 3), (3, 1), (4, 2), (2, 2)]);
}

#[test]
fn cardinals_stay_at_row_and_column_zero() {
    assert_eq!(cardinals(&(0, 0)), [(0, 1), (0, 0), (1, 0), (0, 0)]);
    assert_eq!(cardinals(&(0, 5)), [(0, 6), (0, 4), (1, 5), (0, 5)]);
    assert_eq!(cardinals(&(5, 0)), [(5, 1), (5, 0), (6, 0), (4, 0)]);
}

#[test]
fn new_room_is_square_and_open() {
    let room = new_room(5);
    assert_eq!(room.len(), 5);
    for row in &room {
        assert_eq!(row.len(), 5);
        for cell in row {
            assert_eq!(*cell, Objects::Air);
        }
    }
    assert!(new_room(0).is_empty());
}

#[test]
fn point_valid_tells_open_cells() {
    let mut room = new_room(3);
    set_wall(&mut room, 1, 2);
    assert!(point_valid(&(0, 0), &room));
    assert!(point_valid(&(2, 2), &room));
    assert!(!point_valid(&(1, 2), &room));
    assert!(point_valid(&(2, 1), &room));
}

#[test]
fn point_valid_refuses_cells_outside() {
    let room = new_room(3);
    assert!(!point_valid(&(3, 0), &room));
    assert!(!point_valid(&(0, 3), &room));
    assert!(!point_valid(&(usize::MAX, usize::MAX), &room));
    let ragged = vec![vec![Objects::Air; 4], vec![Objects::Air; 1]];
    assert!(point_valid(&(3, 0), &ragged));
    assert!(!point_valid(&(3, 1), &ragged));
}

#[test]
fn set_wall_changes_one_cell() {
    let mut room = new_room(4);
    set_wall(&mut room, 3, 1);
    for y in 0..4 {
        for x in 0..4 {
            let expected = if x == 3 && y == 1 { Objects::Wall } else { Objects::Air };
            assert_eq!(room[y][x], expected);
        }
    }
}

#[test]
fn set_cell_can_open_a_wall() {
    let mut room = new_room(2);
    set_cell(&mut room, 0, 1, Objects::Wall);
    assert_eq!(room[1][0], Objects::Wall);
    set_cell(&mut room, 0, 1, Objects::Air);
    assert_eq!(room, new_room(2));
}

#[test]
fn copy_room_copies_every_cell() {
    let mut room = vec![vec![Objects::Air; 3], vec![Objects::Air; 1], vec![]];
    room[0][2] = Objects::Wall;
    room[1][0] = Objects::Wall;
    assert_eq!(copy_room(&room), room);
}

#[test]
fn rect_edges_and_center() {
    let r = Rect::new(2, 3, 5, 4);
    assert_eq!(r.get_left(), 2);
    assert_eq!(r.get_top(), 3);
    assert_eq!(r.get_right(), 7);
    assert_eq!(r.get_bottom(), 7);
    assert_eq!(r.get_center(), (4, 5));
    assert_eq!(Rect::new(0, 0, 0, 0).get_center(), (0, 0));
}

#[test]
fn rect_bounds_are_half_open() {
    assert_eq!(Rect::new(2, 3, 5, 4).bounds(), Some((2, 3, 8, 8)));
    assert_eq!(Rect::new(0, 0, usize::MAX, 1).bounds(), None);
    assert_eq!(Rect::new(0, usize::MAX, 1, 0).bounds(), None);
}

#[test]
fn rect_touches_point_includes_the_edges() {
    let r = Rect::new(2, 3, 5, 4);
    assert!(r.touches_point(2, 3));
    assert!(r.touches_point(7, 7));
    assert!(r.touches_point(4, 5));
    assert!(!r.touches_point(1, 3));
    assert!(!r.touches_point(8, 7));
    assert!(!r.touches_point(2, 2));
    assert!(!r.touches_point(7, 8));
}

#[test]
fn rect_touches_rect_wants_overlapping_interiors() {
    let r = Rect::new(2, 3, 5, 4);
    assert!(r.touches_rect(&Rect::new(6, 6, 3, 3)));
    assert!(r.touches_rect(&r));
    assert!(!r.touches_rect(&Rect::new(7, 3, 3, 3)));
    assert!(!r.touches_rect(&Rect::new(2, 7, 3, 3)));
    assert!(!r.touches_rect(&Rect::new(20, 20, 1, 1)));
}
