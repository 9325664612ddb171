use tile_collision::character::{CharacterState, GameState};
use tile_collision::collider::{validate_movement, Collider, Displacement, COLLIDER_RADIUS};
use tile_collision::map::{CollisionMap, WorldPos};
use tile_collision::tile_type::{TileMarker, TileType};
use tile_collision::tilemap::{PixelRect, TilemapDefinition, TilemapSprite};

#[test]
fn walkable_categories() {
    for t in [TileType::Empty, TileType::Dirt, TileType::Grass, TileType::YellowGrass, TileType::Shore] {
        assert!(t.is_walkable());
        assert_eq!(t.collision_adjustment(), 0);
    }
    for t in [TileType::Water, TileType::Tree, TileType::Rock] {
        assert!(!t.is_walkable());
    }
}

#[test]
fn corner_cutting_adjustments() {
    assert_eq!(TileType::Tree.collision_adjustment(), -20);
    assert_eq!(TileType::Rock.collision_adjustment(), -20);
    assert_eq!(TileType::Water.collision_adjustment(), 0);
}

#[test]
fn defaults() {
    assert_eq!(TileType::default(), TileType::Empty);
    assert_eq!(CharacterState::default(), CharacterState::Idle);
    assert_eq!(GameState::default(), GameState::Loading);
    let c = Collider::default();
    assert_eq!(c.radius, COLLIDER_RADIUS);
    assert_eq!((c.offset_x, c.offset_y), (0, 0));
}

#[test]
fn tile_marker_holds_category() {
    assert_eq!(TileMarker::new(TileType::Rock).tile_type, TileType::Rock);
}

#[test]
fn grounded_states() {
    assert!(CharacterState::Idle.is_grounded());
    assert!(CharacterState::Walking.is_grounded());
    assert!(CharacterState::Running.is_grounded());
    assert!(!CharacterState::Jumping.is_grounded());
}

#[test]
fn collider_offsets_position() {
    let c = Collider { radius: 5, offset_x: 3, offset_y: -4 };
    assert_eq!(c.world_position(10, 10), WorldPos { x: 13, y: 6 });
}

fn open_field() -> CollisionMap {
    CollisionMap::new(10, 10, 64, 0, 0)
}

#[test]
fn movement_without_map_is_unchecked() {
    let c = Collider { radius: 10, offset_x: 0, offset_y: 0 };
    assert_eq!(validate_movement(None, &c, 100, 100, 5000, 0), None);
}

#[test]
fn free_movement_keeps_velocity() {
    let map = open_field();
    let c = Collider { radius: 10, offset_x: 0, offset_y: 0 };
    assert_eq!(validate_movement(Some(&map), &c, 100, 100, 30, -20), None);
    assert_eq!(validate_movement(Some(&map), &c, 100, 100, 0, 0), None);
}

#[test]
fn blocked_movement_reports_permitted_displacement() {
    let mut map = CollisionMap::new(3, 3, 100, 0, 0);
    map.set_tile(1, 1, TileType::Water);
    let c = Collider { radius: 40, offset_x: 0, offset_y: 0 };
    assert_eq!(
        validate_movement(Some(&map), &c, 50, 150, 200, 0),
        Some(Displacement { dx: 0, dy: 0 })
    );
}

#[test]
fn sliding_movement_reports_slide() {
    let mut map = CollisionMap::new(6, 3, 100, 0, 0);
    for x in 0..6 {
        map.set_tile(x, 1, TileType::Water);
    }
    let c = Collider { radius: 20, offset_x: 10, offset_y: 0 };
    assert_eq!(
        validate_movement(Some(&map), &c, 40, 79, 200, 100),
        Some(Displacement { dx: 200, dy: 0 })
    );
}

fn atlas() -> TilemapDefinition {
    let sprites: Vec<TilemapSprite> = vec![
        TilemapSprite { name: "dirt", pixel_x: 0, pixel_y: 0 },
        TilemapSprite { name: "grass", pixel_x: 64, pixel_y: 0 },
        TilemapSprite { name: "grass", pixel_x: 128, pixel_y: 64 },
    ];
    TilemapDefinition {
        tile_width: 64,
        tile_height: 32,
        atlas_width: 256,
        atlas_height: 128,
        sprites: Box::leak(sprites.into_boxed_slice()),
    }
}

#[test]
fn sprite_index_finds_first_match() {
    let a = atlas();
    assert_eq!(a.sprite_index("dirt"), Some(0));
    assert_eq!(a.sprite_index("grass"), Some(1));
    assert_eq!(a.sprite_index("water"), None);
    assert_eq!(a.sprite_index(""), None);
    assert_eq!(a.sprite_index("gras"), None);
}

#[test]
fn atlas_sizes_and_rects() {
    let a = atlas();
    assert_eq!(a.tile_size(), (64, 32));
    assert_eq!(a.atlas_size(), (256, 128));
    assert_eq!(
        a.sprite_rect(2),
        PixelRect { min_x: 128, min_y: 64, max_x: 192, max_y: 96 }
    );
}
