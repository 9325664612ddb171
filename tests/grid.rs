use tile_collision::map::{CollisionMap, GridPos, WorldPos};
use tile_collision::tile_type::TileType;

fn pos(x: i32, y: i32) -> WorldPos {
    WorldPos { x, y }
}

#[test]
fn new_map_is_empty_and_walkable() {
    let map = CollisionMap::new(3, 2, 16, 0, 0);
    assert_eq!(map.width(), 3);
    assert_eq!(map.height(), 2);
    assert_eq!(map.tile_size(), 16);
    assert_eq!(map.origin(), pos(0, 0));
    for y in 0..2 {
        for x in 0..3 {
            assert_eq!(map.get_tile(x, y), Some(TileType::Empty));
            assert!(map.is_walkable(x, y));
        }
    }
}

#[test]
fn in_bounds_edges() {
    let map = CollisionMap::new(4, 3, 10, -5, 7);
    assert!(map.in_bounds(0, 0));
    assert!(map.in_bounds(3, 2));
    assert!(!map.in_bounds(4, 0));
    assert!(!map.in_bounds(0, 3));
    assert!(!map.in_bounds(-1, 0));
    assert!(!map.in_bounds(0, -1));
}

#[test]
fn grid_world_round_trip() {
    let map = CollisionMap::new(5, 4, 33, -100, 40);
    for y in 0..4 {
        for x in 0..5 {
            let c = map.grid_to_world(x, y);
            assert_eq!(map.world_to_grid(c), GridPos { x, y });
        }
    }
}

#[test]
fn grid_to_world_is_cell_centre() {
    let map = CollisionMap::new(3, 3, 32, 0, 0);
    assert_eq!(map.grid_to_world(0, 0), pos(16, 16));
    assert_eq!(map.grid_to_world(2, 1), pos(80, 48));
}

#[test]
fn world_to_grid_floors_negative_offsets() {
    let map = CollisionMap::new(3, 3, 32, 0, 0);
    assert_eq!(map.world_to_grid(pos(-1, 0)), GridPos { x: -1, y: 0 });
    assert_eq!(map.world_to_grid(pos(-32, -33)), GridPos { x: -1, y: -2 });
    assert_eq!(map.world_to_grid(pos(31, 32)), GridPos { x: 0, y: 1 });
}

#[test]
fn world_to_grid_saturates() {
    let map = CollisionMap::new(1, 1, 1, i32::MIN, i32::MIN);
    let g = map.world_to_grid(pos(i32::MAX, i32::MIN));
    assert_eq!(g, GridPos { x: i32::MAX, y: 0 });
    assert!(!map.is_world_pos_walkable(pos(i32::MAX, i32::MIN)));
    assert!(map.is_world_pos_walkable(pos(i32::MIN, i32::MIN)));
}

#[test]
fn out_of_bounds_is_blocked() {
    let map = CollisionMap::new(2, 2, 8, 0, 0);
    for (x, y) in [(-1, 0), (0, -1), (2, 0), (0, 2), (i32::MIN, i32::MAX)] {
        assert!(!map.is_walkable(x, y));
        assert_eq!(map.get_tile(x, y), None);
    }
}

#[test]
fn set_tile_and_out_of_bounds_no_op() {
    let mut map = CollisionMap::new(2, 2, 8, 0, 0);
    map.set_tile(1, 0, TileType::Rock);
    map.set_tile(5, 5, TileType::Water);
    map.set_tile(-1, 0, TileType::Water);
    assert_eq!(map.get_tile(1, 0), Some(TileType::Rock));
    assert!(!map.is_walkable(1, 0));
    assert_eq!(map.get_tile(0, 0), Some(TileType::Empty));
    assert_eq!(map.get_tile(0, 1), Some(TileType::Empty));
    assert_eq!(map.get_tile(1, 1), Some(TileType::Empty));
}

#[test]
fn world_pos_walkable_reads_cell() {
    let mut map = CollisionMap::new(2, 1, 10, 100, 0);
    map.set_tile(1, 0, TileType::Water);
    assert!(map.is_world_pos_walkable(pos(105, 5)));
    assert!(!map.is_world_pos_walkable(pos(115, 5)));
    assert!(!map.is_world_pos_walkable(pos(99, 5)));
    assert!(!map.is_world_pos_walkable(pos(120, 5)));
}

fn tree_strip() -> CollisionMap {
    let mut map = CollisionMap::new(2, 1, 32, 0, 0);
    map.set_tile(1, 0, TileType::Tree);
    map
}

#[test]
fn circle_overlapping_tree_is_blocked() {
    let map = tree_strip();
    assert!(!map.is_circle_clear(pos(48, 16), 14));
}

#[test]
fn circle_beside_tree_is_clear() {
    let map = tree_strip();
    assert!(map.is_circle_clear(pos(20, 16), 10));
}

#[test]
fn tree_adjustment_lets_circle_cut_corner() {
    // Reach 10 - 0.2 * 32 = 3.6 against the tree, whose square starts at x = 32.
    let map = tree_strip();
    assert!(map.is_circle_clear(pos(28, 16), 10));
    let mut water = CollisionMap::new(2, 1, 32, 0, 0);
    water.set_tile(1, 0, TileType::Water);
    assert!(!water.is_circle_clear(pos(28, 16), 10));
}

#[test]
fn circle_leaving_grid_is_not_clear() {
    let map = CollisionMap::new(2, 2, 10, 0, 0);
    assert!(!map.is_circle_clear(pos(3, 10), 4));
    assert!(!map.is_circle_clear(pos(10, 17), 4));
    assert!(map.is_circle_clear(pos(10, 10), 4));
}

#[test]
fn circle_touching_far_edge_is_not_clear() {
    // The bounding square ends exactly on the grid's far edge, whose cell
    // index lies off the grid.
    let map = CollisionMap::new(2, 2, 10, 0, 0);
    assert!(!map.is_circle_clear(pos(16, 10), 4));
}

#[test]
fn zero_radius_checks_centre_cell() {
    let mut map = CollisionMap::new(2, 1, 10, 0, 0);
    map.set_tile(1, 0, TileType::Rock);
    assert!(map.is_circle_clear(pos(5, 5), 0));
    assert!(!map.is_circle_clear(pos(15, 5), 0));
    assert!(map.is_circle_clear(pos(5, 5), -3));
    assert!(!map.is_circle_clear(pos(-5, 5), 0));
}

#[test]
fn sweep_without_displacement_returns_start() {
    let map = tree_strip();
    for r in [-5, 0, 3, 14, 1000] {
        assert_eq!(map.sweep_circle(pos(20, 16), pos(20, 16), r), pos(20, 16));
        assert_eq!(map.sweep_circle(pos(-500, 9), pos(-500, 9), r), pos(-500, 9));
    }
}

#[test]
fn sweep_unobstructed_reaches_target() {
    let map = CollisionMap::new(10, 10, 64, 0, 0);
    assert_eq!(map.sweep_circle(pos(100, 100), pos(400, 250), 20), pos(400, 250));
    assert_eq!(map.sweep_circle(pos(300, 300), pos(301, 300), 20), pos(301, 300));
}

fn centre_block() -> CollisionMap {
    let mut map = CollisionMap::new(3, 3, 100, 0, 0);
    map.set_tile(1, 1, TileType::Water);
    map
}

#[test]
fn sweep_stops_before_wall() {
    let map = centre_block();
    let end = map.sweep_circle(pos(50, 150), pos(250, 150), 40);
    assert!(end.x <= 100 - 40);
    assert_eq!(end.y, 150);
    assert!(map.is_circle_clear(end, 40));
}

#[test]
fn sweep_stop_position_exact() {
    let map = centre_block();
    assert_eq!(map.sweep_circle(pos(50, 150), pos(250, 150), 40), pos(50, 150));
}

#[test]
fn sweep_slides_along_wall() {
    let mut map = CollisionMap::new(6, 3, 100, 0, 0);
    for x in 0..6 {
        map.set_tile(x, 1, TileType::Water);
    }
    let end = map.sweep_circle(pos(50, 79), pos(250, 179), 20);
    assert_eq!(end.y, 79);
    assert!(end.x > 50);
    assert_eq!(end, pos(250, 79));
}

#[test]
fn sweep_stops_in_corner() {
    let mut map = CollisionMap::new(3, 3, 100, 0, 0);
    map.set_tile(2, 1, TileType::Rock);
    map.set_tile(1, 2, TileType::Rock);
    map.set_tile(2, 2, TileType::Rock);
    let end = map.sweep_circle(pos(150, 150), pos(290, 290), 40);
    assert!(map.is_circle_clear(end, 40));
    assert_ne!(end, pos(290, 290));
}

#[test]
fn sweep_never_enters_blocked_circle() {
    let map = centre_block();
    let end = map.sweep_circle(pos(50, 50), pos(250, 250), 30);
    assert!(end == pos(50, 50) || map.is_circle_clear(end, 30));
}
