use tile_collision::builder::{
    build_collision_map, convert_water_edges_to_shore, TilePlacement, GRID_ORIGIN_X,
    GRID_ORIGIN_Y, TILE_SIZE,
};
use tile_collision::map::{CollisionMap, WorldPos};
use tile_collision::tile_type::TileType;

fn at(col: i32, row: i32, z: i32, tile_type: TileType) -> TilePlacement {
    TilePlacement {
        x: GRID_ORIGIN_X + col * TILE_SIZE + TILE_SIZE / 2,
        y: GRID_ORIGIN_Y + row * TILE_SIZE + TILE_SIZE / 2,
        z,
        tile_type,
    }
}

fn cells(map: &CollisionMap) -> Vec<Option<TileType>> {
    let mut out = Vec::new();
    for y in 0..map.height() {
        for x in 0..map.width() {
            out.push(map.get_tile(x, y));
        }
    }
    out
}

#[test]
fn empty_placements_build_nothing() {
    assert!(build_collision_map(&Vec::new()).is_none());
}

#[test]
fn single_placement_builds_one_cell() {
    let map = build_collision_map(&vec![at(3, 4, 0, TileType::Grass)]).unwrap();
    assert_eq!(map.width(), 1);
    assert_eq!(map.height(), 1);
    assert_eq!(map.tile_size(), TILE_SIZE);
    assert_eq!(map.origin(), WorldPos { x: GRID_ORIGIN_X, y: GRID_ORIGIN_Y });
    assert_eq!(map.get_tile(0, 0), Some(TileType::Grass));
}

#[test]
fn fixed_origin_values() {
    assert_eq!(GRID_ORIGIN_X, -(TILE_SIZE * 25 / 2));
    assert_eq!(GRID_ORIGIN_Y, -(TILE_SIZE * 18 / 2));
}

#[test]
fn grid_covers_bounding_box_from_zero() {
    let ps = vec![
        at(2, 5, 0, TileType::Dirt),
        at(4, 6, 0, TileType::Rock),
        at(3, 5, 0, TileType::Grass),
    ];
    let map = build_collision_map(&ps).unwrap();
    assert_eq!(map.width(), 3);
    assert_eq!(map.height(), 2);
    assert_eq!(map.get_tile(0, 0), Some(TileType::Dirt));
    assert_eq!(map.get_tile(2, 1), Some(TileType::Rock));
    assert_eq!(map.get_tile(1, 0), Some(TileType::Grass));
    assert_eq!(map.get_tile(0, 1), Some(TileType::Empty));
}

#[test]
fn placements_left_of_origin_use_floor() {
    let p = TilePlacement { x: GRID_ORIGIN_X - 1, y: GRID_ORIGIN_Y, z: 0, tile_type: TileType::Rock };
    let q = TilePlacement { x: GRID_ORIGIN_X, y: GRID_ORIGIN_Y, z: 0, tile_type: TileType::Dirt };
    let map = build_collision_map(&vec![p, q]).unwrap();
    assert_eq!(map.width(), 2);
    assert_eq!(map.get_tile(0, 0), Some(TileType::Rock));
    assert_eq!(map.get_tile(1, 0), Some(TileType::Dirt));
}

#[test]
fn higher_layer_wins_in_either_order() {
    let low = at(1, 1, 1, TileType::Grass);
    let high = at(1, 1, 5, TileType::Tree);
    let a = build_collision_map(&vec![low, high]).unwrap();
    let b = build_collision_map(&vec![high, low]).unwrap();
    assert_eq!(a.get_tile(0, 0), Some(TileType::Tree));
    assert_eq!(b.get_tile(0, 0), Some(TileType::Tree));
}

#[test]
fn equal_heights_keep_first() {
    let a = at(0, 0, 3, TileType::Dirt);
    let b = at(0, 0, 3, TileType::Rock);
    assert_eq!(build_collision_map(&vec![a, b]).unwrap().get_tile(0, 0), Some(TileType::Dirt));
    assert_eq!(build_collision_map(&vec![b, a]).unwrap().get_tile(0, 0), Some(TileType::Rock));
}

#[test]
fn huge_extent_builds_nothing() {
    let a = TilePlacement { x: i32::MIN, y: 0, z: 0, tile_type: TileType::Dirt };
    let b = TilePlacement { x: i32::MAX, y: 0, z: 0, tile_type: TileType::Dirt };
    assert!(build_collision_map(&vec![a, b]).is_none());
}

fn water_block(n: i32) -> CollisionMap {
    let mut map = CollisionMap::new(n, n, 10, 0, 0);
    for y in 0..n {
        for x in 0..n {
            map.set_tile(x, y, TileType::Water);
        }
    }
    map
}

#[test]
fn water_surrounded_by_water_stays_water() {
    let mut map = water_block(3);
    convert_water_edges_to_shore(&mut map);
    for c in cells(&map) {
        assert_eq!(c, Some(TileType::Water));
    }
}

#[test]
fn water_with_one_walkable_neighbour_becomes_shore() {
    let mut map = water_block(5);
    map.set_tile(0, 0, TileType::Grass);
    convert_water_edges_to_shore(&mut map);
    assert_eq!(map.get_tile(1, 1), Some(TileType::Shore));
    assert_eq!(map.get_tile(1, 0), Some(TileType::Shore));
    assert_eq!(map.get_tile(0, 1), Some(TileType::Shore));
    assert_eq!(map.get_tile(0, 0), Some(TileType::Grass));
    assert_eq!(map.get_tile(2, 2), Some(TileType::Water));
    assert_eq!(map.get_tile(2, 0), Some(TileType::Water));
    assert_eq!(map.get_tile(4, 4), Some(TileType::Water));
}

#[test]
fn shoreline_does_not_cascade() {
    // A new shore cell is walkable, but it must not turn its water
    // neighbours into shore within the same pass.
    let mut map = CollisionMap::new(4, 1, 10, 0, 0);
    map.set_tile(1, 0, TileType::Water);
    map.set_tile(2, 0, TileType::Water);
    map.set_tile(3, 0, TileType::Water);
    convert_water_edges_to_shore(&mut map);
    assert_eq!(
        cells(&map),
        vec![
            Some(TileType::Empty),
            Some(TileType::Shore),
            Some(TileType::Water),
            Some(TileType::Water)
        ]
    );
}

#[test]
fn shoreline_ignores_blocking_land() {
    let mut map = CollisionMap::new(2, 1, 10, 0, 0);
    map.set_tile(0, 0, TileType::Tree);
    map.set_tile(1, 0, TileType::Water);
    convert_water_edges_to_shore(&mut map);
    assert_eq!(map.get_tile(1, 0), Some(TileType::Water));
}

#[test]
fn shoreline_same_in_reversed_input_order() {
    let mut ps = Vec::new();
    for row in 0..4 {
        for col in 0..5 {
            let t = if (col + row) % 3 == 0 { TileType::Grass } else { TileType::Water };
            ps.push(at(col, row, (col * 7 + row) % 4, t));
        }
    }
    ps.push(at(2, 2, 9, TileType::Rock));
    let forward = build_collision_map(&ps).unwrap();
    ps.reverse();
    let backward = build_collision_map(&ps).unwrap();
    assert_eq!(cells(&forward), cells(&backward));
    assert_eq!(forward.get_tile(2, 2), Some(TileType::Rock));
    assert_eq!(forward.get_tile(1, 0), Some(TileType::Shore));
}

#[test]
fn build_runs_shoreline_pass() {
    let ps = vec![
        at(0, 0, 0, TileType::Grass),
        at(1, 0, 0, TileType::Water),
        at(2, 0, 0, TileType::Water),
        at(3, 0, 0, TileType::Water),
    ];
    let map = build_collision_map(&ps).unwrap();
    assert_eq!(map.get_tile(1, 0), Some(TileType::Shore));
    assert_eq!(map.get_tile(2, 0), Some(TileType::Water));
    assert!(map.is_walkable(1, 0));
    assert!(!map.is_walkable(2, 0));
}
