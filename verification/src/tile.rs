//! The closed set of tile kinds and their classification predicates.

use vstd::prelude::*;

verus! {

/// A single cell of the terrain grid. `Empty` is the uninitialized state;
/// generation replaces it everywhere a player could ever look.
///
/// Grass tiles carry the integer distance to the nearest shallow water,
/// used for a cosmetic color gradient (0 means "no water nearby").
#[derive(Copy, Clone, Debug, PartialEq, Eq, Structural)]
pub enum TileType {
    Empty,
    Floor,
    Wall,
    ShallowWater,
    DeepWater,
    ShallowLava,
    DeepLava,
    ShortGrass(i32),
    TallGrass(i32),
    SmallMushroom,
    LargeMushroom,
    ThickWebs,
    ThinWebs,
    EggSac,
    Fire,
    CampSeat,
    TentTopRight,
    TentTopLeft,
    TentTopCenter,
    TentBottomCenter,
    TentBottomLeft,
    TentBottomRight,
    HiveWall,
    HiveFloor,
}

impl Default for TileType {
    fn default() -> (r: Self)
        ensures
            r == TileType::Empty,
    {
        TileType::Empty
    }
}

/// A tile a player can stand on and path through.
pub open spec fn spec_is_safe(tile_type: TileType) -> bool {
    match tile_type {
        TileType::Wall => false,
        TileType::HiveWall => false,
        TileType::Fire => false,
        TileType::DeepLava | TileType::ShallowLava => false,
        TileType::Empty => false,
        _ => true,
    }
}

/// Whether a tile is foliage (grass or mushrooms, either size).
pub open spec fn spec_is_foliage(tile_type: TileType) -> bool {
    match tile_type {
        TileType::ShortGrass(_) | TileType::TallGrass(_) => true,
        TileType::SmallMushroom | TileType::LargeMushroom => true,
        _ => false,
    }
}

/// Whether a tile is liquid (water or lava, either depth).
pub open spec fn spec_is_liquid(tile_type: TileType) -> bool {
    match tile_type {
        TileType::DeepLava | TileType::ShallowLava => true,
        TileType::DeepWater | TileType::ShallowWater => true,
        _ => false,
    }
}

/// Returns true if the given tile type is safe for spawning the player and
/// for pathing.
pub fn is_safe(tile_type: TileType) -> (r: bool)
    ensures
        r == spec_is_safe(tile_type),
{
    match tile_type {
        TileType::Wall => false,
        TileType::HiveWall => false,
        TileType::Fire => false,
        TileType::DeepLava | TileType::ShallowLava => false,
        TileType::Empty => false,
        _ => true,
    }
}

/// The large variant of a foliage tile.
pub open spec fn spec_large_foliage_variant(tile_type: TileType) -> TileType {
    match tile_type {
        TileType::ShortGrass(_) | TileType::TallGrass(_) => TileType::TallGrass(0),
        _ => TileType::LargeMushroom,
    }
}

/// Returns the large variant of a tile type if it is foliage.
///
/// Callers must only pass foliage; anything else is a contract violation.
pub fn large_foliage_variant(tile_type: TileType) -> (r: TileType)
    requires
        spec_is_foliage(tile_type),
    ensures
        r == spec_large_foliage_variant(tile_type),
{
    match tile_type {
        TileType::ShortGrass(_) | TileType::TallGrass(_) => TileType::TallGrass(0),
        _ => TileType::LargeMushroom,
    }
}

/// The small variant of a foliage tile.
pub open spec fn spec_small_foliage_variant(tile_type: TileType) -> TileType {
    match tile_type {
        TileType::ShortGrass(_) | TileType::TallGrass(_) => TileType::ShortGrass(0),
        _ => TileType::SmallMushroom,
    }
}

/// Returns the small variant of a tile type if it is foliage.
///
/// Callers must only pass foliage; anything else is a contract violation.
pub fn small_foliage_variant(tile_type: TileType) -> (r: TileType)
    requires
        spec_is_foliage(tile_type),
    ensures
        r == spec_small_foliage_variant(tile_type),
{
    match tile_type {
        TileType::ShortGrass(_) | TileType::TallGrass(_) => TileType::ShortGrass(0),
        _ => TileType::SmallMushroom,
    }
}

/// The deep variant of a liquid tile.
pub open spec fn spec_deep_liquid_variant(tile_type: TileType) -> TileType {
    match tile_type {
        TileType::DeepLava | TileType::ShallowLava => TileType::DeepLava,
        _ => TileType::DeepWater,
    }
}

/// Returns the deep variant of a tile type if it is liquid.
///
/// Callers must only pass liquids; anything else is a contract violation.
pub fn deep_liquid_variant(tile_type: TileType) -> (r: TileType)
    requires
        spec_is_liquid(tile_type),
    ensures
        r == spec_deep_liquid_variant(tile_type),
{
    match tile_type {
        TileType::DeepLava | TileType::ShallowLava => TileType::DeepLava,
        _ => TileType::DeepWater,
    }
}

/// The shallow variant of a liquid tile.
pub open spec fn spec_shallow_liquid_variant(tile_type: TileType) -> TileType {
    match tile_type {
        TileType::DeepLava | TileType::ShallowLava => TileType::ShallowLava,
        _ => TileType::ShallowWater,
    }
}

/// Returns the shallow variant of a tile type if it is liquid.
///
/// Callers must only pass liquids; anything else is a contract violation.
pub fn shallow_liquid_variant(tile_type: TileType) -> (r: TileType)
    requires
        spec_is_liquid(tile_type),
    ensures
        r == spec_shallow_liquid_variant(tile_type),
{
    match tile_type {
        TileType::DeepLava | TileType::ShallowLava => TileType::ShallowLava,
        _ => TileType::ShallowWater,
    }
}

/// How strongly a tile blocks sight, in percent: 0 is fully see-through,
/// 100 fully opaque, intermediate values are partial occluders.
pub open spec fn spec_tile_transparency(tile_type: TileType) -> u8 {
    match tile_type {
        TileType::Wall => 100u8,
        TileType::TallGrass(_) => 50u8,
        TileType::ThickWebs => 50u8,
        TileType::HiveWall => 75u8,
        _ => 0u8,
    }
}

/// Returns the opacity of a tile in percent.
pub fn get_tile_transparency(tile_type: TileType) -> (r: u8)
    ensures
        r == spec_tile_transparency(tile_type),
{
    match tile_type {
        TileType::Wall => 100,
        TileType::TallGrass(_) => 50,
        TileType::ThickWebs => 50,
        TileType::HiveWall => 75,
        _ => 0,
    }
}

} // verus!
