use cavegen::cellular::{
    add_lake_depth, add_map_edges, dig_circle, grow, perform_generation, plant, random_fill,
    remove_unseen_walls, smooth, walk_line,
};
use cavegen::features::{make_camp, make_spider_nest};
use cavegen::grid::{get_surrounding_neighbor_count, get_surrounding_other_count, isqrt};
use cavegen::random::RandomStream;
use cavegen::seed::Seed;
use cavegen::tile::TileType;

const W: TileType = TileType::Wall;
const F: TileType = TileType::Floor;

fn rng_for(text: &str) -> RandomStream {
    RandomStream::from_seed(Seed::new(String::from(text)).to_256_bit())
}

#[test]
fn random_fill_uses_only_the_pair() {
    let mut tiles = vec![TileType::Empty; 12 * 12];
    let mut rng = rng_for("fill");
    random_fill(&mut tiles, &mut rng, W, F, 40);
    for t in &tiles {
        assert!(*t == W || *t == F);
    }
}

#[test]
fn map_edges_seal_the_border() {
    let width = 10;
    let height = 8;
    let mut tiles = vec![F; width * height];
    add_map_edges(width, height, &mut tiles, W);
    for x in 0..width {
        assert_eq!(tiles[x], W);
        assert_eq!(tiles[x + (height - 1) * width], W);
    }
    for y in 0..height {
        assert_eq!(tiles[y * width], W);
        assert_eq!(tiles[(width - 1) + y * width], W);
    }
    // the interior stays floor
    assert_eq!(tiles[3 + 3 * width], F);
}

#[test]
fn generation_rule_births_walls() {
    // a lone floor cell surrounded by walls is born into wall
    let width = 5;
    let height = 5;
    let mut tiles = vec![W; width * height];
    tiles[2 + 2 * width] = F;
    perform_generation(width, height, &mut tiles, W, F);
    assert_eq!(tiles[2 + 2 * width], W);
}

#[test]
fn generation_rule_kills_lonely_walls() {
    // a lone wall cell with no wall neighbors dies to floor
    let width = 7;
    let height = 7;
    let mut tiles = vec![F; width * height];
    tiles[3 + 3 * width] = W;
    perform_generation(width, height, &mut tiles, W, F);
    assert_eq!(tiles[3 + 3 * width], F);
}

#[test]
fn smoothing_keeps_balanced_cells() {
    let width = 5;
    let height = 5;
    let mut tiles = vec![F; width * height];
    // a cell with exactly four wall neighbors stays as it is
    tiles[1 + 1 * width] = W;
    tiles[3 + 1 * width] = W;
    tiles[1 + 3 * width] = W;
    tiles[3 + 3 * width] = W;
    let before = tiles[2 + 2 * width];
    smooth(width, height, &mut tiles, W, F);
    assert_eq!(tiles[2 + 2 * width], before);
}

#[test]
fn neighbor_counts() {
    let width = 5;
    let height = 5;
    let mut tiles = vec![F; width * height];
    tiles[1 + 1 * width] = W;
    tiles[2 + 1 * width] = W;
    assert_eq!(get_surrounding_neighbor_count(width, height, &tiles, W, 2, 2), 2);
    assert_eq!(get_surrounding_neighbor_count(width, height, &tiles, W, 0, 0), 1);
    assert_eq!(get_surrounding_other_count(width, height, &tiles, F, 2, 2), 2);
    // a corner only has three in-bounds neighbors
    assert_eq!(get_surrounding_other_count(width, height, &tiles, W, 0, 0), 2);
}

#[test]
fn dig_circle_digs_floor() {
    let width = 11;
    let height = 11;
    let mut tiles = vec![W; width * height];
    dig_circle(width, height, (5, 5), 2, &mut tiles, F);
    assert_eq!(tiles[5 + 5 * width], F);
    assert_eq!(tiles[4 + 5 * width], F);
    assert_eq!(tiles[5 + 4 * width], F);
    // cells outside the circle stay wall
    assert_eq!(tiles[9 + 9 * width], W);
    // digging at the rim clips to the grid without panicking
    dig_circle(width, height, (0, 0), 2, &mut tiles, F);
    assert_eq!(tiles[0], F);
}

#[test]
fn walk_line_connects_its_endpoints() {
    let path = walk_line((2, 3), (9, 5));
    assert_eq!(path[0], (2, 3));
    assert_eq!(path[path.len() - 1], (9, 5));
    for k in 0..path.len() - 1 {
        let (ax, ay) = path[k];
        let (bx, by) = path[k + 1];
        assert!((ax - bx).abs() <= 1 && (ay - by).abs() <= 1);
        assert!((ax, ay) != (bx, by));
    }
}

#[test]
fn isqrt_is_the_floor_of_the_root() {
    assert_eq!(isqrt(0), 0);
    assert_eq!(isqrt(1), 1);
    assert_eq!(isqrt(3), 1);
    assert_eq!(isqrt(4), 2);
    assert_eq!(isqrt(80), 8);
    assert_eq!(isqrt(81), 9);
    assert_eq!(isqrt(10000), 100);
}

#[test]
fn unseen_walls_become_empty() {
    let width = 7;
    let height = 7;
    let mut tiles = vec![W; width * height];
    // a floor pocket leaves its surrounding walls seen; the far corner
    // walls are fully enclosed and vanish
    tiles[1 + 1 * width] = F;
    remove_unseen_walls(width, height, &mut tiles, W, F);
    assert_eq!(tiles[5 + 5 * width], TileType::Empty);
    assert_eq!(tiles[2 + 2 * width], W);
    assert_eq!(tiles[1 + 1 * width], F);
    // the border ring survives the sweep even where it is fully enclosed
    assert_eq!(tiles[6 + 6 * width], W);
    assert_eq!(tiles[0], W);
}

#[test]
fn planting_places_only_small_flora_on_floor() {
    let width = 16;
    let height = 16;
    let mut tiles = vec![F; width * height];
    add_map_edges(width, height, &mut tiles, W);
    let mut rng = rng_for("plant");
    plant(width, height, &mut tiles, &mut rng, TileType::ShortGrass(0), F, 60);
    let mut grass = 0;
    for t in &tiles {
        assert!(*t == W || *t == F || *t == TileType::ShortGrass(0));
        if *t == TileType::ShortGrass(0) {
            grass += 1;
        }
    }
    assert!(grass > 0);
}

#[test]
fn lake_depth_promotes_enclosed_shallows() {
    let width = 7;
    let height = 7;
    let mut tiles = vec![TileType::ShallowWater; width * height];
    add_lake_depth(width, height, TileType::ShallowWater, &mut tiles);
    // the center is surrounded by liquid on all 8 sides
    assert_eq!(tiles[3 + 3 * width], TileType::DeepWater);
    // a rim cell keeps fewer than 8 liquid neighbors
    assert_eq!(tiles[0], TileType::ShallowWater);
}

#[test]
fn camp_places_fire_and_seats_in_open_ground() {
    let width = 20;
    let height = 20;
    let mut tiles = vec![F; width * height];
    add_map_edges(width, height, &mut tiles, W);
    let region = cavegen::cellular::get_region(width, height, (10, 10), &tiles);
    make_camp(width, height, &mut tiles, &region);
    let mut fire = 0;
    let mut seats = 0;
    for t in &tiles {
        if *t == TileType::Fire {
            fire += 1;
        }
        if *t == TileType::CampSeat {
            seats += 1;
        }
    }
    assert_eq!(fire, 1);
    assert_eq!(seats, 2);
}

#[test]
fn nest_decorates_without_touching_walls() {
    let width = 14;
    let height = 14;
    let mut tiles = vec![F; width * height];
    add_map_edges(width, height, &mut tiles, W);
    let region = cavegen::cellular::get_region(width, height, (7, 7), &tiles);
    let mut rng = rng_for("nest");
    let before_walls: usize = tiles.iter().filter(|t| **t == W).count();
    make_spider_nest(width, height, &mut tiles, &region, &mut rng);
    let after_walls: usize = tiles.iter().filter(|t| **t == W).count();
    assert_eq!(before_walls, after_walls);
    let sacs: usize = tiles.iter().filter(|t| **t == TileType::EggSac).count();
    assert!(sacs >= 1 && sacs <= 4);
}

#[test]
fn grass_by_water_grows_tall_and_carries_its_distance() {
    let width = 5;
    let height = 5;
    let mut tiles = vec![F; width * height];
    add_map_edges(width, height, &mut tiles, W);
    tiles[1 + 2 * width] = TileType::ShallowWater;
    tiles[2 + 2 * width] = TileType::ShortGrass(0);
    grow(width, height, &mut tiles, TileType::ShortGrass(0), F);
    // the lone grass tile beside water is forced tall, tagged with its
    // distance to the water (one step away gives a tag of 2)
    assert_eq!(tiles[2 + 2 * width], TileType::TallGrass(2));
    for t in &tiles {
        assert!(matches!(
            *t,
            TileType::Wall
                | TileType::Floor
                | TileType::ShallowWater
                | TileType::ShortGrass(_)
                | TileType::TallGrass(_)
        ));
    }
}

#[test]
fn lone_mushroom_dies_back() {
    let width = 7;
    let height = 7;
    let mut tiles = vec![F; width * height];
    add_map_edges(width, height, &mut tiles, W);
    tiles[3 + 3 * width] = TileType::SmallMushroom;
    grow(width, height, &mut tiles, TileType::SmallMushroom, F);
    assert_eq!(tiles[3 + 3 * width], F);
}
