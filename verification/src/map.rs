//! The map: archetype selection, the owned tile grid, the derived
//! transparency map, visibility bookkeeping, and the points of interest
//! handed to gameplay.

use vstd::prelude::*;
use crate::cellular::{
    border_walls, empties_enclosed, safe_connected, CellularGenerator, GenerationFailure,
};
use crate::features::FeatureType;
use crate::grid::{grid_index, grid_wf, in_grid, lemma_grid_index_bounds, lemma_mul_bound};
use crate::random::RandomStream;
use crate::seed::Seed;
use crate::tile::{spec_is_safe, spec_tile_transparency, TileType};

verus! {

/// The terrain archetypes a level can be generated from.
#[derive(Copy, Clone, Debug, PartialEq, Eq, Structural)]
pub enum MapType {
    Ruins,
    Cavern,
    MushroomCavern,
    Swamp,
    Hive,
    Hell,
    Empty,
}

/// Which tiles the player currently sees and has ever discovered.
pub struct VisibilityMap {
    pub width: usize,
    pub height: usize,
    pub visible_tiles: Vec<bool>,
    pub discovered_tiles: Vec<bool>,
}

/// A same-length vector filled with one boolean.
fn filled_bools(n: usize, v: bool) -> (r: Vec<bool>)
    ensures
        r@.len() == n,
        forall|i: int| 0 <= i < n ==> r@[i] == v,
{
    let mut r: Vec<bool> = Vec::new();
    while r.len() < n
        invariant
            r@.len() <= n,
            forall|i: int| 0 <= i < r@.len() ==> r@[i] == v,
        decreases n - r@.len(),
    {
        r.push(v);
    }
    r
}

impl VisibilityMap {
    /// Both layers cover the grid.
    pub open spec fn wf(&self) -> bool {
        &&& self.visible_tiles@.len() == self.width * self.height
        &&& self.discovered_tiles@.len() == self.width * self.height
        &&& self.width * self.height < usize::MAX
    }

    /// A visibility map with nothing seen or discovered yet.
    pub fn new(w: usize, h: usize) -> (r: Self)
        requires
            w * h < usize::MAX,
        ensures
            r.wf(),
            r.width == w && r.height == h,
            forall|i: int| 0 <= i < r.visible_tiles@.len() ==> !(#[trigger] r.visible_tiles@[i]),
            forall|i: int|
                0 <= i < r.discovered_tiles@.len() ==> !(#[trigger] r.discovered_tiles@[i]),
    {
        VisibilityMap {
            width: w,
            height: h,
            visible_tiles: filled_bools(w * h, false),
            discovered_tiles: filled_bools(w * h, false),
        }
    }

    /// Marks the given cells as visible and discovered.
    pub fn write(&mut self, pts: Vec<(usize, usize)>)
        requires
            old(self).wf(),
            old(self).width >= 1,
            forall|k: int|
                0 <= k < pts@.len() ==> (#[trigger] pts@[k]).0 < old(self).width && pts@[k].1 < old(
                    self,
                ).height,
        ensures
            final(self).wf(),
            final(self).width == old(self).width && final(self).height == old(self).height,
    {
        let n = pts.len();
        let mut k: usize = 0;
        while k < n
            invariant
                self.wf(),
                self.width == old(self).width && self.height == old(self).height,
                self.width >= 1,
                n == pts@.len(),
                0 <= k <= n,
                forall|j: int|
                    0 <= j < pts@.len() ==> (#[trigger] pts@[j]).0 < self.width && pts@[j].1
                        < self.height,
            decreases n - k,
        {
            let pt = pts[k];
            proof {
                assert(pts@[k as int] == pt);
                assert(pt.1 * self.width + pt.0 < self.width * self.height) by (nonlinear_arith)
                    requires
                        pt.0 < self.width,
                        pt.1 < self.height,
                        self.width >= 1,
                ;
            }
            let idx = pt.0 + pt.1 * self.width;
            self.visible_tiles.set(idx, true);
            self.discovered_tiles.set(idx, true);
            k = k + 1;
        }
    }

    /// Clears the visible layer.
    pub fn reset_visible(&mut self)
        requires
            old(self).wf(),
        ensures
            final(self).wf(),
            final(self).width == old(self).width && final(self).height == old(self).height,
            forall|i: int|
                0 <= i < final(self).visible_tiles@.len() ==> !(
                #[trigger] final(self).visible_tiles@[i]),
    {
        let n = self.width * self.height;
        self.visible_tiles = filled_bools(n, false);
    }

    /// Clears the discovered layer.
    pub fn reset_discovered(&mut self)
        requires
            old(self).wf(),
        ensures
            final(self).wf(),
            final(self).width == old(self).width && final(self).height == old(self).height,
            forall|i: int|
                0 <= i < final(self).discovered_tiles@.len() ==> !(
                #[trigger] final(self).discovered_tiles@[i]),
    {
        let n = self.width * self.height;
        self.discovered_tiles = filled_bools(n, false);
    }
}

/// The minimum squared distance kept between the spawn point and the level
/// exit.
pub const SPAWN_EXIT_MIN_DIST2: i64 = 100;

/// Whether a pair of cells can serve as spawn and exit: both safe, with
/// squared distance beyond the minimum.
pub open spec fn spawn_exit_pair_ok(
    g: Seq<TileType>,
    w: int,
    h: int,
    min_dist2: int,
    x1: int,
    y1: int,
    x2: int,
    y2: int,
) -> bool {
    &&& in_grid(w, h, x1, y1)
    &&& in_grid(w, h, x2, y2)
    &&& spec_is_safe(g[grid_index(w, x1, y1)])
    &&& spec_is_safe(g[grid_index(w, x2, y2)])
    &&& crate::cellular::dist2(x1, y1, x2, y2) > min_dist2
}

/// Picks a player spawn and a level exit among the safe tiles: the first
/// pair, in raster order, of safe cells whose squared distance exceeds the
/// given minimum. Returns Some exactly when such a pair exists.
pub fn choose_spawn_and_exit(
    width: usize,
    height: usize,
    tiles: &Vec<TileType>,
    min_dist2: i64,
) -> (r: Option<((i32, i32), (i32, i32))>)
    requires
        grid_wf(width as int, height as int, tiles@),
        0 <= min_dist2,
    ensures
        r.is_some() ==> {
            let (spawn, exit) = r.unwrap();
            spawn_exit_pair_ok(
                tiles@,
                width as int,
                height as int,
                min_dist2 as int,
                spawn.0 as int,
                spawn.1 as int,
                exit.0 as int,
                exit.1 as int,
            )
        },
        r.is_none() ==> forall|x1: int, y1: int, x2: int, y2: int|
            !#[trigger] spawn_exit_pair_ok(
                tiles@,
                width as int,
                height as int,
                min_dist2 as int,
                x1,
                y1,
                x2,
                y2,
            ),
{
    let ghost w = width as int;
    let ghost h = height as int;
    let ghost g = tiles@;
    let ghost m = min_dist2 as int;
    let mut sx: usize = 0;
    while sx < width
        invariant
            grid_wf(w, h, g),
            w == width as int && h == height as int && g == tiles@,
            m == min_dist2 as int && 0 <= min_dist2,
            0 <= sx <= width,
            forall|x1: int, y1: int, x2: int, y2: int|
                x1 < sx ==> !#[trigger] spawn_exit_pair_ok(g, w, h, m, x1, y1, x2, y2),
        decreases width - sx,
    {
        let mut sy: usize = 0;
        while sy < height
            invariant
                grid_wf(w, h, g),
                w == width as int && h == height as int && g == tiles@,
                m == min_dist2 as int && 0 <= min_dist2,
                0 <= sx < width,
                0 <= sy <= height,
                forall|x1: int, y1: int, x2: int, y2: int|
                    x1 < sx ==> !#[trigger] spawn_exit_pair_ok(g, w, h, m, x1, y1, x2, y2),
                forall|x1: int, y1: int, x2: int, y2: int|
                    x1 == sx && y1 < sy ==> !#[trigger] spawn_exit_pair_ok(g, w, h, m, x1, y1, x2, y2),
            decreases height - sy,
        {
            proof {
                lemma_grid_index_bounds(w, h, sx as int, sy as int);
                lemma_mul_bound(sy as int, w);
            }
            if crate::tile::is_safe(tiles[sx + sy * width]) {
                let mut ex: usize = 0;
                while ex < width
                    invariant
                        grid_wf(w, h, g),
                        w == width as int && h == height as int && g == tiles@,
                        m == min_dist2 as int && 0 <= min_dist2,
                        0 <= sx < width,
                        0 <= sy < height,
                        0 <= ex <= width,
                        spec_is_safe(g[grid_index(w, sx as int, sy as int)]),
                        forall|x2: int, y2: int|
                            x2 < ex ==> !#[trigger] spawn_exit_pair_ok(
                                g,
                                w,
                                h,
                                m,
                                sx as int,
                                sy as int,
                                x2,
                                y2,
                            ),
                    decreases width - ex,
                {
                    let mut ey: usize = 0;
                    while ey < height
                        invariant
                            grid_wf(w, h, g),
                            w == width as int && h == height as int && g == tiles@,
                            m == min_dist2 as int && 0 <= min_dist2,
                            0 <= sx < width,
                            0 <= sy < height,
                            0 <= ex < width,
                            0 <= ey <= height,
                            spec_is_safe(g[grid_index(w, sx as int, sy as int)]),
                            forall|x2: int, y2: int|
                                x2 < ex ==> !#[trigger] spawn_exit_pair_ok(
                                    g,
                                    w,
                                    h,
                                    m,
                                    sx as int,
                                    sy as int,
                                    x2,
                                    y2,
                                ),
                            forall|y2: int|
                                y2 < ey ==> !#[trigger] spawn_exit_pair_ok(
                                    g,
                                    w,
                                    h,
                                    m,
                                    sx as int,
                                    sy as int,
                                    ex as int,
                                    y2,
                                ),
                        decreases height - ey,
                    {
                        proof {
                            lemma_grid_index_bounds(w, h, ex as int, ey as int);
                            lemma_mul_bound(ey as int, w);
                        }
                        if crate::tile::is_safe(tiles[ex + ey * width]) {
                            let dx = sx as i64 - ex as i64;
                            let dy = sy as i64 - ey as i64;
                            proof {
                                assert(0 <= dx * dx < 0x40000000 && 0 <= dy * dy < 0x40000000)
                                    by (nonlinear_arith)
                                    requires
                                        -0x8000 < dx && dx < 0x8000,
                                        -0x8000 < dy && dy < 0x8000,
                                ;
                                assert((dx * dx + dy * dy) as int == crate::cellular::dist2(
                                    sx as int,
                                    sy as int,
                                    ex as int,
                                    ey as int,
                                ));
                            }
                            if dx * dx + dy * dy > min_dist2 {
                                proof {
                                    assert(spawn_exit_pair_ok(
                                        g,
                                        w,
                                        h,
                                        m,
                                        sx as int,
                                        sy as int,
                                        ex as int,
                                        ey as int,
                                    ));
                                }
                                return Some(((sx as i32, sy as i32), (ex as i32, ey as i32)));
                            }
                            proof {
                                assert(!spawn_exit_pair_ok(g, w, h, m, sx as int, sy as int,
                                    ex as int, ey as int));
                            }
                        } else {
                            proof {
                                assert(!spawn_exit_pair_ok(g, w, h, m, sx as int, sy as int,
                                    ex as int, ey as int));
                            }
                        }
                        ey = ey + 1;
                    }
                    ex = ex + 1;
                }
            }
            proof {
                assert forall|x1: int, y1: int, x2: int, y2: int|
                    x1 == sx && y1 < sy + 1 implies !#[trigger] spawn_exit_pair_ok(
                    g,
                    w,
                    h,
                    m,
                    x1,
                    y1,
                    x2,
                    y2,
                ) by {
                    if y1 == sy as int && spawn_exit_pair_ok(g, w, h, m, x1, y1, x2, y2) {
                        assert(spec_is_safe(g[grid_index(w, sx as int, sy as int)]));
                        assert(!spawn_exit_pair_ok(g, w, h, m, sx as int, sy as int, x2, y2));
                    }
                }
            }
            sy = sy + 1;
        }
        sx = sx + 1;
    }
    None
}

/// A generated level: the committed tile grid, its derived transparency
/// map, the seeded random stream, and the chosen points of interest.
pub struct LevelMap {
    pub width: usize,
    pub height: usize,
    pub map_type: MapType,
    pub hashed_seed: Seed,
    pub rng: RandomStream,
    pub tiles: Vec<TileType>,
    pub transparency_map: Vec<u8>,
    pub spawn: Option<(i32, i32)>,
    pub exit: Option<(i32, i32)>,
}

impl LevelMap {
    /// A structurally sound map value.
    pub open spec fn wf(&self) -> bool {
        &&& grid_wf(self.width as int, self.height as int, self.tiles@)
        &&& self.transparency_map@.len() == self.tiles@.len()
    }

    /// An empty, ungenerated map for the given dimensions and archetype,
    /// with its random stream seeded from the seed string.
    pub fn new(width: usize, height: usize, raw_seed: String, map_type: MapType) -> (r: Self)
        requires
            3 <= width < 0x8000,
            3 <= height < 0x8000,
        ensures
            r.wf(),
            r.width == width && r.height == height,
            r.map_type == map_type,
            r.hashed_seed.spec_hash() == crate::seed::sha256_str(raw_seed@),
            forall|i: int| 0 <= i < r.tiles@.len() ==> #[trigger] r.tiles@[i] == TileType::Empty,
    {
        let hashed_seed = Seed::new(raw_seed);
        let rng = RandomStream::from_seed(hashed_seed.to_256_bit());
        proof {
            lemma_mul_bound(width as int, height as int);
        }
        let n = width * height;
        let mut tiles: Vec<TileType> = Vec::new();
        while tiles.len() < n
            invariant
                tiles@.len() <= n,
                forall|i: int| 0 <= i < tiles@.len() ==> #[trigger] tiles@[i] == TileType::Empty,
            decreases n - tiles@.len(),
        {
            tiles.push(TileType::Empty);
        }
        let mut transparency_map: Vec<u8> = Vec::new();
        while transparency_map.len() < n
            invariant
                transparency_map@.len() <= n,
            decreases n - transparency_map@.len(),
        {
            transparency_map.push(0);
        }
        LevelMap {
            width,
            height,
            map_type,
            hashed_seed,
            rng,
            tiles,
            transparency_map,
            spawn: None,
            exit: None,
        }
    }

    /// Generates the level for this map's archetype and derives the
    /// transparency map and the points of interest. On success the grid is
    /// enclosed, empties are sealed off, the safe tiles form one connected
    /// component, and spawn and exit (when both exist) keep the minimum
    /// separation.
    pub fn generate(&mut self) -> (result: Result<(), GenerationFailure>)
        requires
            old(self).wf(),
            forall|i: int|
                0 <= i < old(self).tiles@.len() ==> #[trigger] old(self).tiles@[i]
                    == TileType::Empty,
        ensures
            final(self).wf(),
            final(self).width == old(self).width && final(self).height == old(self).height,
            result.is_ok() ==> safe_connected(
                final(self).tiles@,
                final(self).width as int,
                final(self).height as int,
            ),
            result.is_ok() && (final(self).map_type == MapType::Cavern || final(self).map_type
                == MapType::MushroomCavern) ==> border_walls(
                final(self).tiles@,
                final(self).width as int,
                final(self).height as int,
                TileType::Wall,
            ) && empties_enclosed(
                final(self).tiles@,
                final(self).width as int,
                final(self).height as int,
                TileType::Wall,
            ),
            result.is_ok() && (final(self).map_type == MapType::Hive || final(self).map_type
                == MapType::Empty) ==> border_walls(
                final(self).tiles@,
                final(self).width as int,
                final(self).height as int,
                TileType::HiveWall,
            ) && empties_enclosed(
                final(self).tiles@,
                final(self).width as int,
                final(self).height as int,
                TileType::HiveWall,
            ),
            result.is_ok() ==> forall|i: int|
                0 <= i < final(self).transparency_map@.len()
                    ==> #[trigger] final(self).transparency_map@[i] == spec_tile_transparency(
                    final(self).tiles@[i],
                ),
            result.is_ok() ==> match (final(self).spawn, final(self).exit) {
                (Some(spawn), Some(exit)) => {
                    &&& spec_is_safe(
                        final(self).tiles@[grid_index(
                            final(self).width as int,
                            spawn.0 as int,
                            spawn.1 as int,
                        )],
                    )
                    &&& spec_is_safe(
                        final(self).tiles@[grid_index(
                            final(self).width as int,
                            exit.0 as int,
                            exit.1 as int,
                        )],
                    )
                    &&& (spawn.0 - exit.0) * (spawn.0 - exit.0) + (spawn.1 - exit.1) * (spawn.1
                        - exit.1) > SPAWN_EXIT_MIN_DIST2
                },
                (None, None) => true,
                _ => false,
            },
            result.is_ok() && final(self).spawn.is_none() ==> forall|
                x1: int,
                y1: int,
                x2: int,
                y2: int,
            |
                !#[trigger] spawn_exit_pair_ok(
                    final(self).tiles@,
                    final(self).width as int,
                    final(self).height as int,
                    SPAWN_EXIT_MIN_DIST2 as int,
                    x1,
                    y1,
                    x2,
                    y2,
                ),
    {
        let ghost w = self.width as int;
        let ghost h = self.height as int;
        let mut outcome: Result<(), GenerationFailure> = Ok(());
        if self.map_type == MapType::Cavern {
            let mut generator = CellularGenerator::new(35, 11, 3, 1);
            generator.set_flora(TileType::ShortGrass(0), 32);
            generator.set_liquid(TileType::ShallowWater, 20, 400);
            generator.set_walls_floors(TileType::Wall, TileType::Floor);
            generator.set_features(FeatureType::CavernFeatures);
            outcome = generator.generate(self.width, self.height, &mut self.tiles, &mut self.rng);
        } else if self.map_type == MapType::Hive {
            let mut generator = CellularGenerator::new(40, 1, 2, 0);
            generator.set_walls_floors(TileType::HiveWall, TileType::HiveFloor);
            outcome = generator.generate(self.width, self.height, &mut self.tiles, &mut self.rng);
        } else if self.map_type == MapType::MushroomCavern {
            let mut generator = CellularGenerator::new(35, 11, 3, 1);
            generator.set_flora(TileType::SmallMushroom, 35);
            generator.set_liquid(TileType::ShallowLava, 40, 350);
            generator.set_walls_floors(TileType::Wall, TileType::Floor);
            generator.set_features(FeatureType::CavernFeatures);
            outcome = generator.generate(self.width, self.height, &mut self.tiles, &mut self.rng);
        } else if self.map_type == MapType::Empty {
            let mut generator = CellularGenerator::new(0, 0, 0, 0);
            generator.set_walls_floors(TileType::HiveWall, TileType::HiveFloor);
            outcome = generator.generate(self.width, self.height, &mut self.tiles, &mut self.rng);
        } else {
            // unimplemented archetypes leave the empty grid as it is; with
            // no safe tiles at all its safe component is trivially single
            proof {
                assert forall|x1: int, y1: int, x2: int, y2: int|
                    1 <= x1 < w && 1 <= y1 < h && 1 <= x2 < w && 1 <= y2 < h && spec_is_safe(
                        #[trigger] self.tiles@[grid_index(w, x1, y1)],
                    ) && spec_is_safe(#[trigger] self.tiles@[grid_index(w, x2, y2)]) implies
                    crate::reach::reachable(
                    self.tiles@,
                    w,
                    h,
                    crate::reach::TileClass::Safe,
                    x1,
                    y1,
                    x2,
                    y2,
                ) by {
                    lemma_grid_index_bounds(w, h, x1, y1);
                }
            }
        }
        if outcome.is_err() {
            self.spawn = None;
            self.exit = None;
            return outcome;
        }
        // derive the transparency map from the final grid
        let n = self.tiles.len();
        let mut transparency: Vec<u8> = Vec::new();
        let mut i: usize = 0;
        while i < n
            invariant
                n == self.tiles@.len(),
                0 <= i <= n,
                transparency@.len() == i,
                forall|j: int|
                    0 <= j < i ==> #[trigger] transparency@[j] == spec_tile_transparency(
                        self.tiles@[j],
                    ),
            decreases n - i,
        {
            let t = crate::tile::get_tile_transparency(self.tiles[i]);
            transparency.push(t);
            i = i + 1;
        }
        self.transparency_map = transparency;
        // pick the points of interest
        match choose_spawn_and_exit(self.width, self.height, &self.tiles, SPAWN_EXIT_MIN_DIST2) {
            Some((spawn, exit)) => {
                self.spawn = Some(spawn);
                self.exit = Some(exit);
            },
            None => {
                self.spawn = None;
                self.exit = None;
            },
        }
        outcome
    }
}

} // verus!
