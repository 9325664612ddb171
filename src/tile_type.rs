use vstd::prelude::*;

verus! {

/// Terrain category of one tile.
#[derive(Debug, Clone, Copy, PartialEq, Eq, Structural, Hash)]
pub enum TileType {
    Empty,
    Dirt,
    Grass,
    YellowGrass,
    Shore,
    Water,
    Tree,
    Rock,
}

/// Whether a body may stand on a tile of this category.
pub open spec fn walkable(t: TileType) -> bool {
    !(t == TileType::Water || t == TileType::Tree || t == TileType::Rock)
}

/// Change of a body's collision radius against a blocking tile of this
/// category, in hundredths of the tile size. Negative values let a body cut
/// corners.
pub open spec fn adjustment(t: TileType) -> int {
    if t == TileType::Tree || t == TileType::Rock {
        -20
    } else {
        0
    }
}

impl TileType {
    pub fn is_walkable(&self) -> (r: bool)
        ensures
            r == walkable(*self),
    {
        !matches!(self, TileType::Water | TileType::Tree | TileType::Rock)
    }

    /// The radius adjustment in hundredths of the tile size.
    pub fn collision_adjustment(&self) -> (r: i32)
        ensures
            r == adjustment(*self),
    {
        match self {
            TileType::Tree | TileType::Rock => -20,
            _ => 0,
        }
    }
}

impl Default for TileType {
    fn default() -> (r: TileType)
        ensures
            r == TileType::Empty,
    {
        TileType::Empty
    }
}

/// Marks a spawned tile with its terrain category.
#[derive(Debug, Clone, Copy, PartialEq, Eq, Structural)]
pub struct TileMarker {
    pub tile_type: TileType,
}

impl TileMarker {
    pub fn new(tile_type: TileType) -> (r: TileMarker)
        ensures
            r.tile_type == tile_type,
    {
        TileMarker { tile_type }
    }
}

} // verus!
