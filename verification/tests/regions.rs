use cavegen::cellular::{
    clean_up_regions, get_all_regions, get_region, is_edge_tile, Region,
};
use cavegen::tile::TileType;

const W: TileType = TileType::Wall;
const F: TileType = TileType::Floor;

fn grid_from(rows: &[&[TileType]]) -> (usize, usize, Vec<TileType>) {
    let height = rows.len();
    let width = rows[0].len();
    let mut tiles = Vec::new();
    for y in 0..height {
        for x in 0..width {
            tiles.push(rows[y][x]);
        }
    }
    (width, height, tiles)
}

#[test]
fn region_collects_the_connected_component() {
    // a 5x5 grid with a 2x2 floor pocket and a lone floor cell
    let (width, height, tiles) = grid_from(&[
        &[W, W, W, W, W],
        &[W, F, F, W, W],
        &[W, F, F, W, W],
        &[W, W, W, F, W],
        &[W, W, W, W, W],
    ]);
    let region = get_region(width, height, (1, 1), &tiles);
    assert_eq!(region.size, 4);
    assert_eq!(region.tiles.len(), 4);
    assert!(region.is_tile_in_region(&(1, 1)));
    assert!(region.is_tile_in_region(&(2, 2)));
    assert!(!region.is_tile_in_region(&(3, 3)));
}

#[test]
fn all_regions_partition_the_tile_type() {
    let (width, height, tiles) = grid_from(&[
        &[W, W, W, W, W],
        &[W, F, F, W, W],
        &[W, F, F, W, W],
        &[W, W, W, F, W],
        &[W, W, W, W, W],
    ]);
    let regions = get_all_regions(width, height, F, &tiles);
    assert_eq!(regions.len(), 2);
    let mut total = 0;
    for r in &regions {
        total += r.size;
    }
    assert_eq!(total, 5);
    assert_eq!(regions[0].id, 0);
    assert_eq!(regions[1].id, 1);
}

#[test]
fn edge_tiles_are_boundary_or_adjacent_to_other_types() {
    let (width, height, tiles) = grid_from(&[
        &[W, W, W, W, W],
        &[W, F, F, F, W],
        &[W, F, F, F, W],
        &[W, F, F, F, W],
        &[W, W, W, W, W],
    ]);
    // the center floor cell touches only floor and sits off the border
    assert!(!is_edge_tile(width, height, 2, 2, &tiles));
    // a floor cell next to the wall ring is an edge tile
    assert!(is_edge_tile(width, height, 1, 2, &tiles));
    // a border cell is an edge tile whatever surrounds it
    assert!(is_edge_tile(width, height, 0, 0, &tiles));
}

#[test]
fn cleanup_removes_small_regions_and_is_idempotent() {
    // one small floor pocket (size 1) and one large one (size 6)
    let (width, height, mut tiles) = grid_from(&[
        &[W, W, W, W, W, W],
        &[W, F, W, F, F, W],
        &[W, W, W, F, F, W],
        &[W, W, W, F, F, W],
        &[W, W, W, W, W, W],
    ]);
    clean_up_regions(width, height, &mut tiles, F, W, 2);
    // the lone floor cell was relabeled to wall
    assert_eq!(tiles[1 + 1 * width], W);
    // the large pocket survived
    assert_eq!(tiles[3 + 1 * width], F);
    assert_eq!(get_all_regions(width, height, F, &tiles).len(), 1);
    // running the cleanup again changes nothing
    let before = tiles.clone();
    clean_up_regions(width, height, &mut tiles, F, W, 2);
    assert_eq!(before, tiles);
}

#[test]
fn no_small_wall_regions_survive_cleanup() {
    // a lone wall fleck inside a floor field
    let (width, height, mut tiles) = grid_from(&[
        &[W, W, W, W, W, W],
        &[W, F, F, F, F, W],
        &[W, F, W, F, F, W],
        &[W, F, F, F, F, W],
        &[W, W, W, W, W, W],
    ]);
    clean_up_regions(width, height, &mut tiles, W, F, 3);
    assert_eq!(tiles[2 + 2 * width], F);
    for r in get_all_regions(width, height, W, &tiles) {
        assert!(r.size > 3);
    }
}

#[test]
fn region_membership_check() {
    let region = Region {
        id: 7,
        tiles: vec![(1, 1), (1, 2)],
        edge_tiles: vec![(1, 1)],
        connected_regions: Vec::new(),
        size: 2,
        is_main_region: false,
        is_connected_to_main_region: false,
    };
    assert!(region.is_tile_in_region(&(1, 2)));
    assert!(!region.is_tile_in_region(&(2, 1)));
}
