use macroquad::rand::RandGenerator;
use room_gen::grid::{new_room, Objects};
use room_gen::partition::{init_rects, pop_random, split_region, Direction, SplitQueue};
use room_gen::regions::find_rects;

fn same_task(a: &SplitQueue, b: &SplitQueue) -> bool {
    a.direction == b.direction && a.x_limits == b.x_limits && a.y_limits == b.y_limits
}

#[test]
fn pop_random_on_an_empty_queue() {
    let rng = RandGenerator::new();
    let mut queue: Vec<SplitQueue> = Vec::new();
    assert!(pop_random(&mut queue, &rng).is_none());
    assert!(queue.is_empty());
}

#[test]
fn pop_random_takes_one_entry_out() {
    let rng = RandGenerator::new();
    rng.srand(11);
    for _ in 0..50 {
        let mut queue = vec![
            SplitQueue::new(Direction::Vertical, (0, 1), (0, 1)),
            SplitQueue::new(Direction::Horizontal, (2, 3), (0, 1)),
            SplitQueue::new(Direction::Vertical, (4, 5), (0, 1)),
        ];
        let before = queue.clone();
        let popped = pop_random(&mut queue, &rng).unwrap();
        assert_eq!(queue.len(), 2);
        let at = before.iter().position(|t| same_task(t, &popped)).unwrap();
        let mut rest = before.clone();
        rest.remove(at);
        assert!(rest.iter().zip(queue.iter()).all(|(a, b)| same_task(a, b)));
    }
}

#[test]
fn pop_random_reaches_every_entry() {
    let rng = RandGenerator::new();
    rng.srand(5);
    let mut seen = [false; 3];
    for _ in 0..200 {
        let mut queue = vec![
            SplitQueue::new(Direction::Vertical, (0, 0), (0, 0)),
            SplitQueue::new(Direction::Vertical, (1, 1), (0, 0)),
            SplitQueue::new(Direction::Vertical, (2, 2), (0, 0)),
        ];
        let popped = pop_random(&mut queue, &rng).unwrap();
        seen[popped.x_limits.0] = true;
    }
    assert_eq!(seen, [true, true, true]);
}

#[test]
fn pop_random_empties_the_queue() {
    let rng = RandGenerator::new();
    rng.srand(3);
    let mut queue = Vec::new();
    for i in 0..10 {
        queue.push(SplitQueue::new(Direction::Horizontal, (i, i), (0, 0)));
    }
    let mut seen = vec![false; 10];
    while let Some(task) = pop_random(&mut queue, &rng) {
        assert!(!seen[task.x_limits.0]);
        seen[task.x_limits.0] = true;
    }
    assert!(seen.iter().all(|s| *s));
}

#[test]
fn split_region_draws_a_vertical_wall() {
    let mut room = new_room(10);
    let mut queue = Vec::new();
    let task = SplitQueue::new(Direction::Vertical, (0, 9), (0, 9));
    split_region(&mut room, task, 500, &mut queue);
    for y in 0..10 {
        for x in 0..10 {
            let expected = if x == 4 { Objects::Wall } else { Objects::Air };
            assert_eq!(room[y][x], expected);
        }
    }
    assert_eq!(queue.len(), 2);
    assert!(same_task(&queue[0], &SplitQueue::new(Direction::Horizontal, (0, 3), (0, 9))));
    assert!(same_task(&queue[1], &SplitQueue::new(Direction::Horizontal, (5, 9), (0, 9))));
}

#[test]
fn split_region_draws_a_horizontal_wall_inside_the_region() {
    let mut room = new_room(12);
    let mut queue = vec![SplitQueue::new(Direction::Vertical, (0, 0), (0, 0))];
    let task = SplitQueue::new(Direction::Horizontal, (2, 4), (1, 11));
    split_region(&mut room, task, 700, &mut queue);
    for y in 0..12 {
        for x in 0..12 {
            let expected = if y == 8 && (2..=4).contains(&x) { Objects::Wall } else { Objects::Air };
            assert_eq!(room[y][x], expected);
        }
    }
    assert_eq!(queue.len(), 3);
    assert!(same_task(&queue[1], &SplitQueue::new(Direction::Horizontal, (2, 4), (1, 7))));
    assert!(same_task(&queue[2], &SplitQueue::new(Direction::Horizontal, (2, 4), (9, 11))));
}

#[test]
fn split_region_keeps_the_axis_when_the_sides_are_equal() {
    let mut room = new_room(12);
    let mut queue = Vec::new();
    let task = SplitQueue::new(Direction::Vertical, (0, 11), (0, 4));
    split_region(&mut room, task, 500, &mut queue);
    assert!(same_task(&queue[0], &SplitQueue::new(Direction::Vertical, (0, 4), (0, 4))));
    assert!(same_task(&queue[1], &SplitQueue::new(Direction::Vertical, (6, 11), (0, 4))));
}

#[test]
fn split_region_on_the_first_line_leaves_one_region() {
    let mut room = new_room(4);
    let mut queue = Vec::new();
    let task = SplitQueue::new(Direction::Vertical, (0, 3), (0, 3));
    split_region(&mut room, task, 300, &mut queue);
    for y in 0..4 {
        assert_eq!(room[y][0], Objects::Wall);
        assert_eq!(room[y][1], Objects::Air);
    }
    assert_eq!(queue.len(), 1);
    assert!(same_task(&queue[0], &SplitQueue::new(Direction::Horizontal, (1, 3), (0, 3))));
}

#[test]
fn init_rects_without_a_split_is_open() {
    let rng = RandGenerator::new();
    rng.srand(1);
    let room = init_rects(10, 9, &rng);
    assert_eq!(room, new_room(10));
    assert_eq!(init_rects(1, 0, &rng), new_room(1));
}

#[test]
fn init_rects_splits_a_long_grid() {
    let rng = RandGenerator::new();
    for seed in 0..20u64 {
        rng.srand(seed);
        let room = init_rects(20, 5, &rng);
        assert_eq!(room.len(), 20);
        assert!(room.iter().all(|row| row.len() == 20));
        let rects = find_rects(&room);
        assert!(rects.len() >= 2);
        for r in &rects {
            assert!(r.width <= 5 || r.height <= 5);
        }
    }
}

#[test]
fn init_rects_ends_for_the_smallest_limits() {
    let rng = RandGenerator::new();
    for seed in 0..10u64 {
        rng.srand(seed);
        for limit in 0..3usize {
            let room = init_rects(16, limit, &rng);
            assert_eq!(room.len(), 16);
            assert!(room.iter().all(|row| row.len() == 16));
        }
    }
}

#[test]
fn init_rects_leaves_rectangles() {
    let rng = RandGenerator::new();
    for seed in 0..20u64 {
        rng.srand(seed);
        let room = init_rects(30, 7, &rng);
        let rects = find_rects(&room);
        let mut open = 0usize;
        for row in &room {
            open += row.iter().filter(|c| **c == Objects::Air).count();
        }
        let mut covered = 0usize;
        for (i, r) in rects.iter().enumerate() {
            covered += (r.width + 1) * (r.height + 1);
            for s in &rects[i + 1..] {
                assert!(
                    r.get_right() < s.x || s.get_right() < r.x || r.get_bottom() < s.y
                        || s.get_bottom() < r.y
                );
            }
        }
        assert_eq!(open, covered);
    }
}
