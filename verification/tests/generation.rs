use cavegen::cellular::{
    check_safe_connected, connect_floor_regions, get_all_regions, make_lakes, CellularGenerator,
    Region,
};
use cavegen::map::{choose_spawn_and_exit, LevelMap, MapType};
use cavegen::random::RandomStream;
use cavegen::seed::Seed;
use cavegen::tile::{is_safe, TileType};

const W: TileType = TileType::Wall;
const F: TileType = TileType::Floor;

fn rng_for(text: &str) -> RandomStream {
    RandomStream::from_seed(Seed::new(String::from(text)).to_256_bit())
}

fn run_basic(seed: &str) -> Vec<TileType> {
    let width = 20;
    let height = 20;
    let mut tiles = vec![TileType::Empty; width * height];
    let mut rng = rng_for(seed);
    let mut generator = CellularGenerator::new(35, 11, 3, 1);
    generator.set_walls_floors(W, F);
    let outcome = generator.generate(width, height, &mut tiles, &mut rng);
    assert!(outcome.is_ok());
    tiles
}

#[test]
fn minimal_deterministic_regen() {
    let width = 20;
    let height = 20;
    let tiles = run_basic("test");
    // a single connected floor region
    let regions = get_all_regions(width, height, F, &tiles);
    assert_eq!(regions.len(), 1);
    assert!(check_safe_connected(width, height, &tiles));
    // sealed borders: every border cell is wall
    for x in 0..width {
        assert_eq!(tiles[x], W);
        assert_eq!(tiles[x + (height - 1) * width], W);
    }
    for y in 0..height {
        assert_eq!(tiles[y * width], W);
        assert_eq!(tiles[(width - 1) + y * width], W);
    }
    // the same seed reproduces the grid bit for bit
    let again = run_basic("test");
    assert_eq!(tiles, again);
    // another seed gives another grid
    let other = run_basic("test2");
    assert_ne!(tiles, other);
}

#[test]
fn forced_disconnect_resolved() {
    // two large floor pockets separated by a thin wall
    let width = 20;
    let height = 9;
    let mut tiles = vec![W; width * height];
    for y in 2..7 {
        for x in 2..9 {
            tiles[x + y * width] = F;
        }
        for x in 11..18 {
            tiles[x + y * width] = F;
        }
    }
    assert_eq!(get_all_regions(width, height, F, &tiles).len(), 2);
    let rejected = connect_floor_regions(width, height, &mut tiles, F);
    assert!(!rejected);
    // a corridor of floor now links both pockets: flood fill finds one region
    assert_eq!(get_all_regions(width, height, F, &tiles).len(), 1);
}

#[test]
fn lake_rejection_commits_no_lakes() {
    // a minimum lake size larger than the whole grid can ever produce
    let width = 24;
    let height = 24;
    let mut tiles = vec![W; width * height];
    for y in 1..height - 1 {
        for x in 1..width - 1 {
            tiles[x + y * width] = F;
        }
    }
    let mut rng = rng_for("lakes");
    let marked = Vec::new();
    make_lakes(width, height, TileType::ShallowWater, F, &mut tiles, &marked, 100000, 200000, &mut rng);
    for t in &tiles {
        assert!(*t != TileType::ShallowWater && *t != TileType::DeepWater);
    }
}

#[test]
fn lakes_within_bounds_when_committed() {
    let width = 28;
    let height = 28;
    let mut tiles = vec![W; width * height];
    for y in 1..height - 1 {
        for x in 1..width - 1 {
            tiles[x + y * width] = F;
        }
    }
    let mut rng = rng_for("lakes in bounds");
    let marked = Vec::new();
    make_lakes(width, height, TileType::ShallowWater, F, &mut tiles, &marked, 4, 300, &mut rng);
    for r in get_all_regions(width, height, TileType::ShallowWater, &tiles) {
        assert!(r.size >= 4 && r.size <= 300);
    }
}

#[test]
fn spawn_and_exit_are_safe_and_separated() {
    let width = 30;
    let height = 30;
    let mut tiles = vec![W; width * height];
    for y in 1..height - 1 {
        for x in 1..width - 1 {
            tiles[x + y * width] = F;
        }
    }
    let poi = choose_spawn_and_exit(width, height, &tiles, 100);
    let (spawn, exit) = poi.expect("an open grid offers a spawn and an exit");
    assert!(is_safe(tiles[spawn.0 as usize + spawn.1 as usize * width]));
    assert!(is_safe(tiles[exit.0 as usize + exit.1 as usize * width]));
    let dx = (spawn.0 - exit.0) as i64;
    let dy = (spawn.1 - exit.1) as i64;
    assert!(dx * dx + dy * dy > 100);
}

#[test]
fn cavern_map_generates_connected_terrain() {
    let mut map = LevelMap::new(40, 40, String::from("test"), MapType::Cavern);
    let outcome = map.generate();
    assert!(outcome.is_ok());
    assert!(check_safe_connected(map.width, map.height, &map.tiles));
    // the transparency map mirrors the grid
    for i in 0..map.tiles.len() {
        assert_eq!(
            map.transparency_map[i],
            cavegen::tile::get_tile_transparency(map.tiles[i])
        );
    }
    if let (Some(spawn), Some(exit)) = (map.spawn, map.exit) {
        let dx = (spawn.0 - exit.0) as i64;
        let dy = (spawn.1 - exit.1) as i64;
        assert!(dx * dx + dy * dy > 100);
    }
}

#[test]
fn hive_map_generates() {
    let mut map = LevelMap::new(24, 24, String::from("hive"), MapType::Hive);
    let outcome = map.generate();
    assert!(outcome.is_ok());
    assert!(check_safe_connected(map.width, map.height, &map.tiles));
    for x in 0..map.width {
        assert_eq!(map.tiles[x], TileType::HiveWall);
    }
}

#[test]
fn lakes_keep_out_of_marked_regions() {
    let width = 28;
    let height = 28;
    let mut tiles = vec![W; width * height];
    for y in 1..height - 1 {
        for x in 1..width - 1 {
            tiles[x + y * width] = F;
        }
    }
    // reserve a block of cells as a feature region
    let mut reserved = Vec::new();
    for y in 4..12 {
        for x in 4..12 {
            reserved.push((x as i32, y as i32));
        }
    }
    let size = reserved.len();
    let marked = vec![Region {
        id: 0,
        tiles: reserved.clone(),
        edge_tiles: Vec::new(),
        connected_regions: Vec::new(),
        size,
        is_main_region: false,
        is_connected_to_main_region: false,
    }];
    let mut rng = rng_for("intrusion");
    make_lakes(width, height, TileType::ShallowWater, F, &mut tiles, &marked, 1, 10000, &mut rng);
    // no reserved cell is a lake shore: where a reserved cell is water, all
    // four of its cardinal neighbors are water too and it is off the border
    for (x, y) in reserved {
        let (x, y) = (x as usize, y as usize);
        if tiles[x + y * width] == TileType::ShallowWater {
            assert!(x > 0 && y > 0 && x < width - 1 && y < height - 1);
            assert_eq!(tiles[(x - 1) + y * width], TileType::ShallowWater);
            assert_eq!(tiles[(x + 1) + y * width], TileType::ShallowWater);
            assert_eq!(tiles[x + (y - 1) * width], TileType::ShallowWater);
            assert_eq!(tiles[x + (y + 1) * width], TileType::ShallowWater);
        }
    }
}

#[test]
fn cavern_maps_still_form_lakes() {
    // with the nest reservations in place, ordinary caverns still commit
    // lakes for at least one of a handful of seeds
    let mut any_water = false;
    for seed in ["test", "test2", "lakeful", "cavern four"] {
        let mut map = LevelMap::new(48, 48, String::from(seed), MapType::Cavern);
        if map.generate().is_ok() {
            if map.tiles.iter().any(|t| {
                *t == TileType::ShallowWater || *t == TileType::DeepWater
            }) {
                any_water = true;
            }
        }
    }
    assert!(any_water);
}
