use macroquad::rand::RandGenerator;
use room_gen::astar::{astar, manhattan_heuristic, pos_valid, HashVec2};
use room_gen::gen::generate_room;
use room_gen::grid::{new_room, Objects};

fn grid(text: &[&str]) -> Vec<Vec<Objects>> {
    text.iter()
        .map(|row| row.chars().map(|c| if c == '#' { Objects::Wall } else { Objects::Air }).collect())
        .collect()
}

fn check_route(rooms: &Vec<Vec<Objects>>, start: HashVec2, goal: HashVec2, path: &Vec<HashVec2>) {
    assert_eq!(*path.last().unwrap(), goal);
    let mut before = start;
    for (i, cell) in path.iter().enumerate() {
        assert!(pos_valid(cell, rooms));
        if !(i == 0 && start == goal) {
            assert!((cell.x - before.x).abs() <= 1 && (cell.y - before.y).abs() <= 1);
            assert!(*cell != before);
        }
        before = *cell;
    }
}

fn reachable(rooms: &Vec<Vec<Objects>>, start: HashVec2, goal: HashVec2) -> bool {
    if !pos_valid(&start, rooms) || !pos_valid(&goal, rooms) {
        return false;
    }
    let mut seen = std::collections::BTreeSet::new();
    let mut stack = vec![start];
    while let Some(cell) = stack.pop() {
        if !seen.insert((cell.x, cell.y)) {
            continue;
        }
        for next in cell.directions(rooms) {
            stack.push(next);
        }
    }
    seen.contains(&(goal.x, goal.y))
}

#[test]
fn astar_test() {
    let room = vec![
        vec![Objects::Air, Objects::Wall, Objects::Air, Objects::Air],
        vec![Objects::Wall, Objects::Air, Objects::Air, Objects::Air],
        vec![Objects::Air, Objects::Air, Objects::Wall, Objects::Wall],
        vec![Objects::Air, Objects::Air, Objects::Wall, Objects::Air],
    ];
    let goal = HashVec2::new(3, 3);
    let p = HashVec2::new(0, 0);

    println!("{:?}", astar(p, goal, &room));
    assert_eq!(astar(p, goal, &room), None);
    assert_eq!(
        astar(p, HashVec2::new(3, 0), &room),
        Some(vec![HashVec2::new(1, 1), HashVec2::new(2, 0), HashVec2::new(3, 0)])
    );
}

#[test]
fn manhattan_heuristic_is_the_negated_distance() {
    assert_eq!(manhattan_heuristic(&HashVec2::new(0, 0), &HashVec2::new(3, 4)), -7);
    assert_eq!(manhattan_heuristic(&HashVec2::new(3, 4), &HashVec2::new(0, 0)), -7);
    assert_eq!(manhattan_heuristic(&HashVec2::new(-2, 5), &HashVec2::new(2, -5)), -14);
    assert_eq!(manhattan_heuristic(&HashVec2::new(9, 9), &HashVec2::new(9, 9)), 0);
    assert_eq!(
        manhattan_heuristic(&HashVec2::new(i32::MAX, 0), &HashVec2::new(0, 0)),
        -i32::MAX
    );
}

#[test]
fn pos_valid_wants_a_cell_that_is_no_wall() {
    let room = grid(&["..#", "#.."]);
    assert!(pos_valid(&HashVec2::new(0, 0), &room));
    assert!(pos_valid(&HashVec2::new(2, 1), &room));
    assert!(!pos_valid(&HashVec2::new(2, 0), &room));
    assert!(!pos_valid(&HashVec2::new(0, 1), &room));
    assert!(!pos_valid(&HashVec2::new(-1, 0), &room));
    assert!(!pos_valid(&HashVec2::new(0, -1), &room));
    assert!(!pos_valid(&HashVec2::new(3, 0), &room));
    assert!(!pos_valid(&HashVec2::new(0, 2), &room));
}

#[test]
fn directions_come_in_order() {
    let room = new_room(3);
    let around = HashVec2::new(1, 1).directions(&room);
    let expected: Vec<HashVec2> = [(2, 1), (0, 1), (1, 2), (1, 0), (2, 2), (0, 2), (2, 0), (0, 0)]
        .iter()
        .map(|(x, y)| HashVec2::new(*x, *y))
        .collect();
    assert_eq!(around, expected);
}

#[test]
fn directions_leave_out_walls_and_cells_outside() {
    let room = grid(&[".#.", "...", "#.."]);
    assert_eq!(
        HashVec2::new(0, 0).directions(&room),
        vec![HashVec2::new(0, 1), HashVec2::new(1, 1)]
    );
    assert_eq!(
        HashVec2::new(1, 1).directions(&room),
        vec![
            HashVec2::new(2, 1),
            HashVec2::new(0, 1),
            HashVec2::new(1, 2),
            HashVec2::new(2, 2),
            HashVec2::new(2, 0),
            HashVec2::new(0, 0),
        ]
    );
    assert!(HashVec2::new(10, 10).directions(&room).is_empty());
}

#[test]
fn astar_goes_straight_over_open_ground() {
    let room = new_room(5);
    let path = astar(HashVec2::new(0, 0), HashVec2::new(4, 4), &room).unwrap();
    let expected: Vec<HashVec2> = (1..5).map(|i| HashVec2::new(i, i)).collect();
    assert_eq!(path, expected);
    let along = astar(HashVec2::new(4, 2), HashVec2::new(0, 2), &room).unwrap();
    let expected: Vec<HashVec2> = (0..4).rev().map(|x| HashVec2::new(x, 2)).collect();
    assert_eq!(along, expected);
}

#[test]
fn astar_from_the_goal_is_the_goal() {
    let room = new_room(3);
    let here = HashVec2::new(1, 2);
    assert_eq!(astar(here, here, &room), Some(vec![here]));
}

#[test]
fn astar_to_the_next_cell() {
    let room = new_room(3);
    assert_eq!(
        astar(HashVec2::new(1, 1), HashVec2::new(2, 2), &room),
        Some(vec![HashVec2::new(2, 2)])
    );
}

#[test]
fn astar_refuses_walls_and_cells_outside() {
    let room = grid(&["..#", "..."]);
    let inside = HashVec2::new(0, 0);
    assert_eq!(astar(inside, HashVec2::new(2, 0), &room), None);
    assert_eq!(astar(HashVec2::new(2, 0), inside, &room), None);
    assert_eq!(astar(inside, HashVec2::new(3, 0), &room), None);
    assert_eq!(astar(HashVec2::new(-1, 0), inside, &room), None);
    assert_eq!(astar(HashVec2::new(2, 0), HashVec2::new(2, 0), &room), None);
    assert_eq!(astar(inside, inside, &Vec::new()), None);
}

#[test]
fn astar_goes_round_a_wall() {
    let room = grid(&[".....", ".###.", ".#...", ".#.#.", "...#."]);
    let start = HashVec2::new(0, 0);
    let goal = HashVec2::new(4, 4);
    let path = astar(start, goal, &room).unwrap();
    check_route(&room, start, goal, &path);
    let back = astar(goal, start, &room).unwrap();
    check_route(&room, goal, start, &back);
}

#[test]
fn astar_finds_no_way_through_a_closed_wall() {
    let room = grid(&["..#..", "..#..", "..#..", "..#..", "..#.."]);
    assert_eq!(astar(HashVec2::new(0, 0), HashVec2::new(4, 4), &room), None);
    assert_eq!(astar(HashVec2::new(4, 0), HashVec2::new(1, 4), &room), None);
    assert!(astar(HashVec2::new(0, 0), HashVec2::new(1, 4), &room).is_some());
}

#[test]
fn astar_slips_between_walls_that_touch_at_a_corner() {
    let room = grid(&[".#", "#."]);
    assert_eq!(
        astar(HashVec2::new(0, 0), HashVec2::new(1, 1), &room),
        Some(vec![HashVec2::new(1, 1)])
    );
}

#[test]
fn astar_agrees_with_a_plain_search() {
    let rng = RandGenerator::new();
    rng.srand(21);
    for seed in 0..4u64 {
        rng.srand(seed);
        let rooms = generate_room(24, 6, false, &rng).unwrap().room;
        for _ in 0..60 {
            let start = HashVec2::new(rng.gen_range(0, 24), rng.gen_range(0, 24));
            let goal = HashVec2::new(rng.gen_range(0, 24), rng.gen_range(0, 24));
            let found = astar(start, goal, &rooms);
            assert_eq!(found.is_some(), reachable(&rooms, start, goal));
            if let Some(path) = found {
                check_route(&rooms, start, goal, &path);
            }
        }
    }
}
