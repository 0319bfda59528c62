use room_gen::adjacency::{adjacent_rects, cast_ray, find_edge, room_at, AdjacencyEdge, Cardinal};
use room_gen::rect::Rect;

fn edge(room_index: usize, neighbor_index: usize, direction: Cardinal) -> AdjacencyEdge {
    AdjacencyEdge { room_index, neighbor_index, direction }
}

#[test]
fn cardinal_vectors() {
    assert_eq!(Cardinal::East.vector(), (1, 0));
    assert_eq!(Cardinal::West.vector(), (-1, 0));
    assert_eq!(Cardinal::South.vector(), (0, 1));
    assert_eq!(Cardinal::North.vector(), (0, -1));
}

#[test]
fn cardinal_order_of_the_rays() {
    assert_eq!(Cardinal::from_rank(0), Cardinal::East);
    assert_eq!(Cardinal::from_rank(1), Cardinal::West);
    assert_eq!(Cardinal::from_rank(2), Cardinal::South);
    assert_eq!(Cardinal::from_rank(3), Cardinal::North);
}

#[test]
fn room_at_returns_the_first_room() {
    let rooms = vec![Rect::new(0, 0, 4, 4), Rect::new(3, 3, 4, 4), Rect::new(10, 10, 1, 1)];
    assert_eq!(room_at(&rooms, 0, 0), Some(0));
    assert_eq!(room_at(&rooms, 4, 4), Some(0));
    assert_eq!(room_at(&rooms, 5, 4), Some(1));
    assert_eq!(room_at(&rooms, 11, 11), Some(2));
    assert_eq!(room_at(&rooms, 8, 8), None);
    assert_eq!(room_at(&Vec::new(), 0, 0), None);
}

#[test]
fn cast_ray_meets_the_nearest_room() {
    let rooms = vec![Rect::new(1, 1, 4, 4), Rect::new(10, 1, 4, 4), Rect::new(16, 1, 2, 4)];
    assert_eq!(cast_ray(&rooms, 20, 0, Cardinal::East), Some(1));
    assert_eq!(cast_ray(&rooms, 20, 1, Cardinal::West), Some(0));
    assert_eq!(cast_ray(&rooms, 20, 1, Cardinal::East), Some(2));
    assert_eq!(cast_ray(&rooms, 20, 0, Cardinal::West), None);
    assert_eq!(cast_ray(&rooms, 20, 0, Cardinal::South), None);
    assert_eq!(cast_ray(&rooms, 20, 0, Cardinal::North), None);
}

#[test]
fn cast_ray_is_half_the_grid_long() {
    let rooms = vec![Rect::new(1, 1, 4, 4), Rect::new(10, 1, 4, 4)];
    assert_eq!(cast_ray(&rooms, 16, 0, Cardinal::East), Some(1));
    assert_eq!(cast_ray(&rooms, 15, 0, Cardinal::East), None);
    assert_eq!(cast_ray(&rooms, 0, 0, Cardinal::East), None);
}

#[test]
fn cast_ray_stops_at_the_edge_of_the_grid() {
    let rooms = vec![Rect::new(1, 1, 4, 4), Rect::new(30, 1, 4, 4)];
    assert_eq!(cast_ray(&rooms, 30, 0, Cardinal::East), None);
    assert_eq!(cast_ray(&rooms, 62, 0, Cardinal::East), Some(1));
    let outside = vec![Rect::new(40, 1, 4, 4), Rect::new(30, 1, 4, 4)];
    assert_eq!(cast_ray(&outside, 40, 0, Cardinal::West), None);
}

#[test]
fn cast_ray_looks_south_and_north() {
    let rooms = vec![Rect::new(2, 8, 2, 2), Rect::new(1, 1, 4, 4)];
    assert_eq!(cast_ray(&rooms, 20, 0, Cardinal::North), Some(1));
    assert_eq!(cast_ray(&rooms, 20, 1, Cardinal::South), Some(0));
}

#[test]
fn adjacent_rects_records_each_pair_once() {
    let rooms = vec![Rect::new(1, 1, 4, 4), Rect::new(10, 1, 4, 4), Rect::new(1, 10, 4, 4)];
    let edges = adjacent_rects(&rooms, 20, false);
    assert_eq!(edges, vec![edge(0, 1, Cardinal::East), edge(0, 2, Cardinal::South)]);
}

#[test]
fn adjacent_rects_with_several_edges_allowed() {
    let rooms = vec![Rect::new(1, 1, 4, 4), Rect::new(10, 1, 4, 4), Rect::new(1, 10, 4, 4)];
    let edges = adjacent_rects(&rooms, 20, true);
    assert_eq!(
        edges,
        vec![
            edge(0, 1, Cardinal::East),
            edge(0, 2, Cardinal::South),
            edge(1, 0, Cardinal::West),
            edge(2, 0, Cardinal::North),
        ]
    );
}

#[test]
fn adjacent_rects_passes_over_a_room_met_before() {
    let rooms = vec![Rect::new(4, 4, 2, 2), Rect::new(0, 0, 10, 3), Rect::new(8, 0, 3, 10)];
    assert_eq!(cast_ray(&rooms, 40, 0, Cardinal::East), Some(2));
    assert_eq!(cast_ray(&rooms, 40, 0, Cardinal::North), Some(1));
    assert_eq!(cast_ray(&rooms, 40, 1, Cardinal::East), Some(2));
    assert_eq!(cast_ray(&rooms, 40, 1, Cardinal::South), Some(0));
    let edges = adjacent_rects(&rooms, 40, false);
    assert_eq!(
        edges,
        vec![edge(0, 2, Cardinal::East), edge(0, 1, Cardinal::North), edge(1, 2, Cardinal::East)]
    );
}

#[test]
fn adjacent_rects_of_no_room_or_one() {
    assert!(adjacent_rects(&Vec::new(), 20, false).is_empty());
    assert!(adjacent_rects(&vec![Rect::new(1, 1, 4, 4)], 20, true).is_empty());
}

#[test]
fn find_edge_looks_for_both_ends() {
    let edges = vec![edge(0, 1, Cardinal::East), edge(2, 0, Cardinal::North)];
    assert!(find_edge(&edges, 0, 1));
    assert!(find_edge(&edges, 2, 0));
    assert!(!find_edge(&edges, 1, 0));
    assert!(!find_edge(&edges, 0, 2));
    assert!(!find_edge(&Vec::new(), 0, 0));
}
