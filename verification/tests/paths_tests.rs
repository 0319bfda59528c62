use room_gen::adjacency::{AdjacencyEdge, Cardinal};
use room_gen::grid::{new_room, Objects};
use room_gen::paths::{carve_corridor, carve_paths, door_cells, door_count, paths, plan_corridor, Corridor};
use room_gen::rect::Rect;
use room_gen::shrink::draw_rects;

fn picture(room: &Vec<Vec<Objects>>) -> Vec<String> {
    room.iter()
        .map(|row| row.iter().map(|c| if *c == Objects::Wall { '#' } else { '.' }).collect())
        .collect()
}

#[test]
fn door_count_follows_the_grid() {
    assert_eq!(door_count(0), 1);
    assert_eq!(door_count(20), 1);
    assert_eq!(door_count(59), 1);
    assert_eq!(door_count(60), 2);
    assert_eq!(door_count(100), 3);
}

#[test]
fn plan_corridor_between_aligned_rooms() {
    let a = Rect::new(1, 1, 4, 4);
    let b = Rect::new(10, 1, 4, 4);
    assert_eq!(
        plan_corridor(&a, &b, Cardinal::East, 1),
        Some(Corridor { start: (5, 3), end: (10, 3), direction: Cardinal::East })
    );
    assert_eq!(
        plan_corridor(&b, &a, Cardinal::West, 1),
        Some(Corridor { start: (10, 3), end: (5, 3), direction: Cardinal::West })
    );
}

#[test]
fn plan_corridor_south_and_north() {
    let a = Rect::new(2, 1, 6, 3);
    let b = Rect::new(1, 9, 8, 4);
    assert_eq!(
        plan_corridor(&a, &b, Cardinal::South, 2),
        Some(Corridor { start: (5, 4), end: (5, 9), direction: Cardinal::South })
    );
    assert_eq!(
        plan_corridor(&b, &a, Cardinal::North, 2),
        Some(Corridor { start: (5, 9), end: (5, 4), direction: Cardinal::North })
    );
}

#[test]
fn plan_corridor_moves_into_the_span_of_the_target() {
    let a = Rect::new(1, 1, 4, 4);
    let low = Rect::new(10, 3, 4, 4);
    assert_eq!(
        plan_corridor(&a, &low, Cardinal::East, 1),
        Some(Corridor { start: (5, 4), end: (10, 4), direction: Cardinal::East })
    );
    let high = Rect::new(10, 0, 4, 3);
    assert_eq!(
        plan_corridor(&a, &high, Cardinal::East, 1),
        Some(Corridor { start: (5, 2), end: (10, 2), direction: Cardinal::East })
    );
    let tall = Rect::new(10, 0, 4, 30);
    assert_eq!(
        plan_corridor(&a, &tall, Cardinal::East, 2),
        Some(Corridor { start: (5, 3), end: (10, 3), direction: Cardinal::East })
    );
}

#[test]
fn plan_corridor_keeps_both_walls_in_the_target() {
    for y in 0..20usize {
        for height in 0..8usize {
            for half in 1..4usize {
                let a = Rect::new(1, 6, 4, 6);
                let b = Rect::new(10, y, 4, height);
                match plan_corridor(&a, &b, Cardinal::East, half) {
                    Some(c) => {
                        assert!(height >= 2 * half);
                        assert_eq!(c.start.1, c.end.1);
                        assert!(b.y + half <= c.start.1);
                        assert!(c.start.1 + half <= b.y + height);
                    }
                    None => assert!(height < 2 * half),
                }
            }
        }
    }
}

#[test]
fn plan_corridor_refuses_a_narrow_target() {
    let a = Rect::new(1, 1, 4, 4);
    assert_eq!(plan_corridor(&a, &Rect::new(10, 3, 4, 1), Cardinal::East, 1), None);
    assert_eq!(plan_corridor(&a, &Rect::new(10, 1, 4, 3), Cardinal::East, 2), None);
    assert!(plan_corridor(&a, &Rect::new(10, 1, 4, 4), Cardinal::East, 2).is_some());
}

#[test]
fn plan_corridor_refuses_a_target_behind() {
    let a = Rect::new(10, 1, 4, 4);
    let b = Rect::new(1, 1, 4, 4);
    assert_eq!(plan_corridor(&a, &b, Cardinal::East, 1), None);
    assert_eq!(plan_corridor(&b, &a, Cardinal::West, 1), None);
    assert_eq!(plan_corridor(&a, &b, Cardinal::South, 1), None);
}

#[test]
fn carve_corridor_draws_two_walls() {
    let mut room = new_room(8);
    let c = Corridor { start: (2, 3), end: (6, 3), direction: Cardinal::East };
    carve_corridor(&mut room, &c, 1);
    assert_eq!(
        picture(&room),
        vec![
            "........", "........", "..####..", "........", "..####..", "........", "........",
            "........",
        ]
    );
}

#[test]
fn carve_corridor_towards_lower_cells() {
    let mut room = new_room(8);
    let c = Corridor { start: (4, 6), end: (4, 2), direction: Cardinal::North };
    carve_corridor(&mut room, &c, 2);
    assert_eq!(
        picture(&room),
        vec![
            "........", "........", "........", "..#...#.", "..#...#.", "..#...#.", "..#...#.",
            "........",
        ]
    );
}

#[test]
fn carve_corridor_from_row_zero_draws_nothing() {
    let mut room = new_room(8);
    let c = Corridor { start: (4, 0), end: (4, 5), direction: Cardinal::South };
    carve_corridor(&mut room, &c, 1);
    assert_eq!(room, new_room(8));
    let d = Corridor { start: (0, 4), end: (5, 4), direction: Cardinal::East };
    carve_corridor(&mut room, &d, 1);
    assert_eq!(room, new_room(8));
}

#[test]
fn carve_corridor_of_no_length() {
    let mut room = new_room(8);
    let c = Corridor { start: (4, 4), end: (4, 4), direction: Cardinal::West };
    carve_corridor(&mut room, &c, 1);
    assert_eq!(room, new_room(8));
}

#[test]
fn door_cells_are_a_band_at_each_end() {
    let c = Corridor { start: (5, 10), end: (9, 10), direction: Cardinal::East };
    assert_eq!(door_cells(&c, 1), vec![(9, 10), (5, 10)]);
    assert_eq!(
        door_cells(&c, 3),
        vec![(9, 9), (5, 9), (9, 10), (5, 10), (9, 11), (5, 11)]
    );
    assert_eq!(door_cells(&c, 2), vec![(9, 9), (5, 9), (9, 10), (5, 10)]);
    assert!(door_cells(&c, 0).is_empty());
    let down = Corridor { start: (7, 2), end: (7, 6), direction: Cardinal::South };
    assert_eq!(
        door_cells(&down, 3),
        vec![(6, 6), (6, 2), (7, 6), (7, 2), (8, 6), (8, 2)]
    );
}

#[test]
fn carve_paths_goes_through_the_edges() {
    let rects = vec![Rect::new(1, 1, 4, 4), Rect::new(10, 1, 4, 4), Rect::new(1, 10, 4, 1)];
    let edges = vec![
        AdjacencyEdge { room_index: 0, neighbor_index: 1, direction: Cardinal::East },
        AdjacencyEdge { room_index: 0, neighbor_index: 2, direction: Cardinal::East },
        AdjacencyEdge { room_index: 0, neighbor_index: 2, direction: Cardinal::South },
    ];
    let mut room = new_room(20);
    let doors = carve_paths(&rects, &edges, 20, &mut room);
    assert_eq!(doors, vec![(10, 3), (5, 3), (3, 10), (3, 5)]);
    for y in 0..20 {
        for x in 0..20 {
            let east = (y == 2 || y == 4) && (5..10).contains(&x);
            let south = (x == 2 || x == 4) && (5..10).contains(&y);
            assert_eq!(room[y][x], if east || south { Objects::Wall } else { Objects::Air });
        }
    }
}

#[test]
fn paths_links_neighbouring_rooms() {
    let rects = vec![Rect::new(1, 1, 4, 4), Rect::new(10, 1, 4, 4)];
    let mut room = draw_rects(&rects, 20);
    let drawn = room.clone();
    let doors = paths(&rects, 20, &mut room, false);
    assert_eq!(doors, vec![(10, 3), (5, 3)]);
    for y in 0..20 {
        for x in 0..20 {
            let wall = (y == 2 || y == 4) && (5..10).contains(&x);
            let expected = if wall { Objects::Wall } else { drawn[y][x] };
            assert_eq!(room[y][x], expected);
        }
    }
    assert_eq!(room[3][7], Objects::Air);
}

#[test]
fn paths_carves_both_ways_where_allowed() {
    let rects = vec![Rect::new(1, 1, 4, 4), Rect::new(10, 1, 4, 4)];
    let mut room = draw_rects(&rects, 20);
    let doors = paths(&rects, 20, &mut room, true);
    assert_eq!(doors, vec![(10, 3), (5, 3), (5, 3), (10, 3)]);
}

#[test]
fn paths_in_a_large_grid_has_wide_corridors() {
    let rects = vec![Rect::new(10, 10, 20, 20), Rect::new(40, 12, 20, 20)];
    let mut room = draw_rects(&rects, 100);
    let doors = paths(&rects, 100, &mut room, false);
    assert_eq!(
        doors,
        vec![(40, 19), (30, 19), (40, 20), (30, 20), (40, 21), (30, 21)]
    );
    for x in 30..40 {
        assert_eq!(room[18][x], Objects::Wall);
        assert_eq!(room[22][x], Objects::Wall);
    }
    for x in 31..40 {
        for y in 19..22 {
            assert_eq!(room[y][x], Objects::Air);
        }
    }
}

#[test]
fn paths_without_neighbours_changes_nothing() {
    let rects = vec![Rect::new(1, 1, 4, 4)];
    let mut room = draw_rects(&rects, 20);
    let drawn = room.clone();
    assert!(paths(&rects, 20, &mut room, false).is_empty());
    assert_eq!(room, drawn);
}
