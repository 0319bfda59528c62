use macroquad::rand::RandGenerator;
use room_gen::gen::{check_config, generate_room, ConfigError, DungeonGenerator, Manager, shrink_rects};
use room_gen::grid::Objects;
use room_gen::rect::Rect;
use room_gen::world::{load_walls, SQUARE_SIZE};

fn print_room(room: &Vec<Vec<Objects>>) {
    for row in room {
        let line: String = row.iter().map(|c| if *c == Objects::Wall { '#' } else { '.' }).collect();
        println!("{}", line);
    }
}

fn seeded(seed: u64) -> RandGenerator {
    let rng = RandGenerator::new();
    rng.srand(seed);
    rng
}

fn check_dungeon(m: &Manager, size: usize) {
    assert_eq!(m.room.len(), size);
    assert!(m.room.iter().all(|row| row.len() == size));
    for (x, y) in &m.doors {
        assert!(*x < size && *y < size);
    }
    for (i, r) in m.rects.iter().enumerate() {
        assert!(r.get_right() < size && r.get_bottom() < size);
        for x in r.x..=r.get_right() {
            assert_eq!(m.room[r.y][x], Objects::Wall);
            assert_eq!(m.room[r.get_bottom()][x], Objects::Wall);
        }
        for y in r.y..=r.get_bottom() {
            assert_eq!(m.room[y][r.x], Objects::Wall);
            assert_eq!(m.room[y][r.get_right()], Objects::Wall);
        }
        for s in &m.rects[i + 1..] {
            assert!(
                r.get_right() < s.x || s.get_right() < r.x || r.get_bottom() < s.y
                    || s.get_bottom() < r.y
            );
            assert!(!r.touches_rect(s));
        }
    }
}

#[test]
fn config_is_checked() {
    assert_eq!(check_config(3, 1), Err(ConfigError::SizeTooSmall));
    assert_eq!(check_config(0, 0), Err(ConfigError::SizeTooSmall));
    assert_eq!(check_config(1025, 5), Err(ConfigError::SizeTooLarge));
    assert_eq!(check_config(20, 20), Err(ConfigError::SplitLimitTooLarge));
    assert_eq!(check_config(20, 21), Err(ConfigError::SplitLimitTooLarge));
    assert_eq!(check_config(20, 19), Ok(()));
    assert_eq!(check_config(4, 0), Ok(()));
    assert_eq!(check_config(1024, 1023), Ok(()));
    assert_eq!(check_config(2, 5), Err(ConfigError::SizeTooSmall));
    assert_eq!(check_config(2000, 5000), Err(ConfigError::SizeTooLarge));
}

#[test]
fn faulty_config_generates_nothing() {
    let rng = seeded(1);
    assert_eq!(generate_room(3, 1, false, &rng).err(), Some(ConfigError::SizeTooSmall));
    assert_eq!(generate_room(5000, 1, false, &rng).err(), Some(ConfigError::SizeTooLarge));
    assert_eq!(generate_room(20, 20, false, &rng).err(), Some(ConfigError::SplitLimitTooLarge));
    assert_eq!(
        DungeonGenerator::new(20, 30, false, 1).err(),
        Some(ConfigError::SplitLimitTooLarge)
    );
    assert_eq!(DungeonGenerator::new(1, 0, true, 1).err(), Some(ConfigError::SizeTooSmall));
}

#[test]
fn same_seed_same_dungeon() {
    let first = generate_room(20, 5, false, &seeded(7)).unwrap();
    let second = generate_room(20, 5, false, &seeded(7)).unwrap();
    for y in 0..20 {
        for x in 0..20 {
            assert_eq!(first.room[y][x], second.room[y][x]);
        }
    }
    assert_eq!(first.doors, second.doors);
    assert_eq!(first.rects, second.rects);
    assert!(first.rects.len() >= 2);
    assert!(first.doors.len() >= 2);
    check_dungeon(&first, 20);
}

#[test]
fn other_seed_other_dungeon() {
    let first = generate_room(20, 5, false, &seeded(7)).unwrap();
    let second = generate_room(20, 5, false, &seeded(8)).unwrap();
    assert!(first.room != second.room);
}

#[test]
fn generator_keeps_its_configuration() {
    let generator = DungeonGenerator::new(20, 5, true, 7).ok().unwrap();
    assert_eq!(generator.size(), 20);
    assert_eq!(generator.split_limit(), 5);
    assert!(generator.allow_multi_edges());
}

#[test]
fn generator_starts_again_from_its_seed() {
    let generator = DungeonGenerator::new(20, 5, false, 7).ok().unwrap();
    let first = generator.generate();
    let next = generator.generate();
    generator.reseed(7);
    let again = generator.generate();
    assert_eq!(first.room, again.room);
    assert_eq!(first.doors, again.doors);
    assert!(first.room != next.room);
    let direct = generate_room(20, 5, false, &seeded(7)).unwrap();
    assert_eq!(first.room, direct.room);
}

#[test]
fn dungeons_stay_inside_the_grid() {
    for seed in 0..8u64 {
        let rng = seeded(seed);
        for size in [4usize, 5, 7, 12, 20, 33, 64] {
            for split_limit in [0usize, 1, 2, size / 3, size / 2, size - 1] {
                let m = generate_room(size, split_limit, seed % 2 == 0, &rng).unwrap();
                check_dungeon(&m, size);
            }
        }
    }
}

#[test]
fn one_region_gives_one_room() {
    for seed in 0..10u64 {
        let m = generate_room(20, 19, false, &seeded(seed)).unwrap();
        assert_eq!(m.rects.len(), 1);
        assert!(m.doors.is_empty());
        assert!(m.rects[0].width >= 13 && m.rects[0].width <= 17);
        check_dungeon(&m, 20);
    }
}

#[test]
fn several_edges_give_more_doors() {
    let single = generate_room(40, 10, false, &seeded(3)).unwrap();
    let multi = generate_room(40, 10, true, &seeded(3)).unwrap();
    assert_eq!(single.rects, multi.rects);
    assert!(multi.doors.len() > single.doors.len());
}

#[test]
fn shrink_rects_shrinks_each_room() {
    let rng = seeded(6);
    let before = vec![Rect::new(0, 0, 10, 10), Rect::new(20, 5, 30, 8), Rect::new(3, 3, 0, 0)];
    let mut rects = before.clone();
    shrink_rects(&mut rects, &rng);
    assert_eq!(rects.len(), 3);
    for (r, b) in rects.iter().zip(before.iter()) {
        assert!(r.x >= b.x && r.y >= b.y);
        assert!(r.get_right() <= b.get_right() && r.get_bottom() <= b.get_bottom());
    }
    assert!(rects[0].width >= 7 && rects[0].width <= 9);
    assert!(rects[1].width >= 21 && rects[1].width <= 27);
    assert_eq!(rects[2], before[2]);
}

#[test]
fn gen_test() {
    let rng = RandGenerator::new();
    let size = 100;
    let split_limit = size / 3;
    let manager = generate_room(size, split_limit, false, &rng).unwrap();
    print_room(&manager.room);
    check_dungeon(&manager, size);
}

#[test]
fn rooms_test() {
    let rng = seeded(100);
    let manager = generate_room(100, 100 / 3, true, &rng).unwrap();
    print_room(&manager.room);
    check_dungeon(&manager, 100);
    assert!(!manager.rects.is_empty());
}

#[test]
fn load_walls_lists_the_walls_row_by_row() {
    let room = vec![
        vec![Objects::Wall, Objects::Air, Objects::Wall],
        vec![Objects::Air, Objects::Air],
        vec![Objects::Air, Objects::Wall],
    ];
    assert_eq!(
        load_walls(&room, 30),
        vec![Rect::new(0, 0, 30, 30), Rect::new(60, 0, 30, 30), Rect::new(30, 60, 30, 30)]
    );
    assert_eq!(load_walls(&room, 1), vec![Rect::new(0, 0, 1, 1), Rect::new(2, 0, 1, 1), Rect::new(1, 2, 1, 1)]);
    assert_eq!(load_walls(&room, 0), vec![Rect::new(0, 0, 0, 0); 3]);
    assert!(load_walls(&Vec::new(), 30).is_empty());
}

#[test]
fn load_walls_twice_gives_the_same() {
    let m = generate_room(20, 5, false, &seeded(7)).unwrap();
    let first = load_walls(&m.room, SQUARE_SIZE);
    let second = load_walls(&m.room, SQUARE_SIZE);
    assert_eq!(first, second);
    let walls = m.room.iter().flatten().filter(|c| **c == Objects::Wall).count();
    assert_eq!(first.len(), walls);
    for r in &first {
        assert_eq!((r.width, r.height), (30, 30));
        assert_eq!(m.room[r.y / 30][r.x / 30], Objects::Wall);
        assert_eq!((r.x % 30, r.y % 30), (0, 0));
    }
}

#[test]
fn rooms_are_closed_all_round() {
    for seed in 0..6u64 {
        let m = generate_room(30, 8, false, &seeded(seed)).unwrap();
        assert!(m.rects.len() >= 2);
        for (k, r) in m.rects.iter().enumerate() {
            let center = r.get_center();
            let mut explored = room_gen::regions::blank_mask(&m.room);
            let found = room_gen::regions::find_rect(center, &m.room, &mut explored);
            if let Some(region) = found {
                assert!(region.x > r.x && region.get_right() < r.get_right());
                assert!(region.y > r.y && region.get_bottom() < r.get_bottom());
            }
            for (l, other) in m.rects.iter().enumerate() {
                if l != k {
                    let (x, y) = other.get_center();
                    assert!(!explored[y][x]);
                }
            }
        }
    }
}

#[test]
fn rooms_keep_a_side_within_the_split_limit() {
    for seed in 0..6u64 {
        for split_limit in [3usize, 6, 10] {
            let m = generate_room(40, split_limit, false, &seeded(seed)).unwrap();
            for r in &m.rects {
                assert!(r.width <= split_limit || r.height <= split_limit);
            }
        }
    }
}
