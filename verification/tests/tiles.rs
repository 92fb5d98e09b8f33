use cavegen::tile::{
    deep_liquid_variant, get_tile_transparency, is_safe, large_foliage_variant,
    shallow_liquid_variant, small_foliage_variant, TileType,
};

#[test]
fn safe_tiles_are_classified() {
    assert!(!is_safe(TileType::Wall));
    assert!(!is_safe(TileType::HiveWall));
    assert!(!is_safe(TileType::Fire));
    assert!(!is_safe(TileType::DeepLava));
    assert!(!is_safe(TileType::ShallowLava));
    assert!(!is_safe(TileType::Empty));
    assert!(is_safe(TileType::Floor));
    assert!(is_safe(TileType::ShallowWater));
    assert!(is_safe(TileType::DeepWater));
    assert!(is_safe(TileType::ShortGrass(3)));
    assert!(is_safe(TileType::ThickWebs));
    assert!(is_safe(TileType::CampSeat));
}

#[test]
fn foliage_variants_map_both_ways() {
    assert_eq!(large_foliage_variant(TileType::ShortGrass(5)), TileType::TallGrass(0));
    assert_eq!(large_foliage_variant(TileType::TallGrass(2)), TileType::TallGrass(0));
    assert_eq!(large_foliage_variant(TileType::SmallMushroom), TileType::LargeMushroom);
    assert_eq!(small_foliage_variant(TileType::TallGrass(1)), TileType::ShortGrass(0));
    assert_eq!(small_foliage_variant(TileType::LargeMushroom), TileType::SmallMushroom);
}

#[test]
fn liquid_variants_map_both_ways() {
    assert_eq!(deep_liquid_variant(TileType::ShallowWater), TileType::DeepWater);
    assert_eq!(deep_liquid_variant(TileType::DeepLava), TileType::DeepLava);
    assert_eq!(shallow_liquid_variant(TileType::DeepWater), TileType::ShallowWater);
    assert_eq!(shallow_liquid_variant(TileType::ShallowLava), TileType::ShallowLava);
}

#[test]
fn transparency_values() {
    assert_eq!(get_tile_transparency(TileType::Wall), 100);
    assert_eq!(get_tile_transparency(TileType::TallGrass(7)), 50);
    assert_eq!(get_tile_transparency(TileType::ThickWebs), 50);
    assert_eq!(get_tile_transparency(TileType::HiveWall), 75);
    assert_eq!(get_tile_transparency(TileType::Floor), 0);
    assert_eq!(get_tile_transparency(TileType::ShallowWater), 0);
}

#[test]
fn default_tile_is_empty() {
    assert_eq!(TileType::default(), TileType::Empty);
}
