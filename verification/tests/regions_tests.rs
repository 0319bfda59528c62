use room_gen::grid::{new_room, set_wall, Objects};
use room_gen::rect::Rect;
use room_gen::regions::{blank_mask, find_rect, find_rects};

#[test]
fn open_grid_is_one_region() {
    let room = vec![vec![Objects::Air; 4]; 4];
    let rects = find_rects(&room);
    assert_eq!(rects.len(), 1);
    assert_eq!(rects[0], Rect::new(0, 0, 3, 3));
    assert_eq!(rects[0].bounds(), Some((0, 0, 4, 4)));
}

#[test]
fn two_blocks_are_two_regions() {
    let mut room = vec![vec![Objects::Air; 7]; 3];
    for y in 0..3 {
        room[y][3] = Objects::Wall;
    }
    let rects = find_rects(&room);
    assert_eq!(rects, vec![Rect::new(0, 0, 2, 2), Rect::new(4, 0, 2, 2)]);
    assert!(!rects[0].touches_rect(&rects[1]));
    assert!(rects[0].get_right() < rects[1].get_left());
    assert_eq!(rects[0].bounds(), Some((0, 0, 3, 3)));
    assert_eq!(rects[1].bounds(), Some((4, 0, 7, 3)));
}

#[test]
fn regions_come_in_scan_order() {
    let mut room = new_room(5);
    for i in 0..5 {
        set_wall(&mut room, 2, i);
        set_wall(&mut room, i, 2);
    }
    let rects = find_rects(&room);
    assert_eq!(
        rects,
        vec![
            Rect::new(0, 0, 1, 1),
            Rect::new(3, 0, 1, 1),
            Rect::new(0, 3, 1, 1),
            Rect::new(3, 3, 1, 1),
        ]
    );
}

#[test]
fn grid_without_open_cell_has_no_region() {
    let room = vec![vec![Objects::Wall; 3]; 3];
    assert!(find_rects(&room).is_empty());
    let nothing: Vec<Vec<Objects>> = Vec::new();
    assert!(find_rects(&nothing).is_empty());
}

#[test]
fn region_in_the_first_column_is_found() {
    let mut room = new_room(3);
    for y in 0..3 {
        set_wall(&mut room, 1, y);
    }
    let rects = find_rects(&room);
    assert_eq!(rects, vec![Rect::new(0, 0, 0, 2), Rect::new(2, 0, 0, 2)]);
}

#[test]
fn region_that_is_no_rectangle_gets_its_bounding_box() {
    let mut room = new_room(3);
    set_wall(&mut room, 1, 1);
    set_wall(&mut room, 2, 1);
    set_wall(&mut room, 1, 2);
    set_wall(&mut room, 2, 2);
    let rects = find_rects(&room);
    assert_eq!(rects, vec![Rect::new(0, 0, 2, 2)]);
}

#[test]
fn diagonal_cells_are_not_joined() {
    let mut room = new_room(2);
    set_wall(&mut room, 1, 0);
    set_wall(&mut room, 0, 1);
    let rects = find_rects(&room);
    assert_eq!(rects, vec![Rect::new(0, 0, 0, 0), Rect::new(1, 1, 0, 0)]);
}

#[test]
fn find_rect_marks_what_it_reaches() {
    let mut room = vec![vec![Objects::Air; 7]; 3];
    for y in 0..3 {
        room[y][3] = Objects::Wall;
    }
    let mut explored = blank_mask(&room);
    let found = find_rect((5, 1), &room, &mut explored);
    assert_eq!(found, Some(Rect::new(4, 0, 2, 2)));
    for y in 0..3 {
        for x in 0..7 {
            assert_eq!(explored[y][x], x >= 4);
        }
    }
    assert_eq!(find_rect((6, 2), &room, &mut explored), None);
    assert_eq!(find_rect((0, 0), &room, &mut explored), Some(Rect::new(0, 0, 2, 2)));
}

#[test]
fn find_rect_from_a_wall_or_from_outside_finds_nothing() {
    let mut room = new_room(3);
    set_wall(&mut room, 1, 1);
    let mut explored = blank_mask(&room);
    assert_eq!(find_rect((1, 1), &room, &mut explored), None);
    assert_eq!(find_rect((3, 0), &room, &mut explored), None);
    assert_eq!(find_rect((0, 9), &room, &mut explored), None);
    assert_eq!(explored, blank_mask(&room));
}

#[test]
fn find_rect_on_a_ragged_grid() {
    let room = vec![vec![Objects::Air; 4], vec![Objects::Air; 2], vec![Objects::Air; 3]];
    let mut explored = blank_mask(&room);
    assert_eq!(find_rect((3, 0), &room, &mut explored), Some(Rect::new(0, 0, 3, 2)));
    assert_eq!(explored, vec![vec![true; 4], vec![true; 2], vec![true; 3]]);
}

#[test]
fn blank_mask_has_the_shape_of_the_grid() {
    let room = vec![vec![Objects::Air; 4], vec![], vec![Objects::Wall; 3]];
    assert_eq!(blank_mask(&room), vec![vec![false; 4], vec![], vec![false; 3]]);
}
