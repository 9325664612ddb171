//! Tile-grid collision for a top-down tile world.
//!
//! World coordinates are integers in world units. A `CollisionMap` indexes
//! the terrain category of each grid cell and answers walkability, circle
//! overlap and swept-movement queries; `build_collision_map` derives such a
//! map from scattered tile placements, and `validate_movement` checks one
//! frame of a body's motion against it.

pub mod builder;
pub mod character;
pub mod collider;
pub mod map;
pub mod tile_type;
pub mod tilemap;
