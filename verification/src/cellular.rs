//! The cellular-automaton engine: random fill, generation and smoothing
//! rules, edge sealing, and the in-place passes that carve caves out of
//! noise.

use vstd::prelude::*;
use crate::grid::{
    grid_index, grid_wf, in_grid, lemma_grid_index_bounds, on_border, surrounding_count,
    get_surrounding_neighbor_count,
};
use crate::features::FeatureType;
use crate::random::RandomStream;
use crate::reach::{reachable, region_scan, seq_has_coord, TileClass};
use crate::tile::TileType;

verus! {

/// A maximal set of same-type tiles connected under 4-adjacency: an
/// ephemeral analysis artifact, recomputed fresh whenever a pass needs it.
///
/// The identifier is a counter assigned in discovery order, so region
/// identity is deterministic for a fixed grid.
#[derive(Clone)]
pub struct Region {
    pub id: u64,
    pub tiles: Vec<(i32, i32)>,
    pub edge_tiles: Vec<(i32, i32)>,
    pub connected_regions: Vec<u64>,
    pub size: usize,
    pub is_main_region: bool,
    pub is_connected_to_main_region: bool,
}

impl Region {
    /// Returns true if the given coordinates belong to this region.
    pub fn is_tile_in_region(&self, other_tile: &(i32, i32)) -> (r: bool)
        ensures
            r == self.tiles@.contains(*other_tile),
    {
        let n = self.tiles.len();
        for k in 0..n
            invariant
                n == self.tiles@.len(),
                forall|j: int| 0 <= j < k ==> self.tiles@[j] != *other_tile,
        {
            if self.tiles[k].0 == other_tile.0 && self.tiles[k].1 == other_tile.1 {
                return true;
            }
        }
        false
    }
}

/// Whether (x, y) lies at the boundary of its region: on the grid border,
/// or with one of its 8 neighbors holding a different tile type.
pub open spec fn is_edge_tile_spec(g: Seq<TileType>, w: int, h: int, x: int, y: int) -> bool {
    on_border(w, h, x, y) || exists|dx: int, dy: int|
        -1 <= dx <= 1 && -1 <= dy <= 1 && #[trigger] in_grid(w, h, x + dx, y + dy) && g[grid_index(
            w,
            x + dx,
            y + dy,
        )] != g[grid_index(w, x, y)]
}

/// Returns true if the given coordinates are of a tile on the edge of a
/// region.
pub fn is_edge_tile(width: usize, height: usize, x: i32, y: i32, tiles: &Vec<TileType>) -> (r:
    bool)
    requires
        grid_wf(width as int, height as int, tiles@),
        in_grid(width as int, height as int, x as int, y as int),
    ensures
        r == is_edge_tile_spec(tiles@, width as int, height as int, x as int, y as int),
{
    let ghost w = width as int;
    let ghost h = height as int;
    let ghost g = tiles@;
    if x == 0 || y == 0 || x as usize == width - 1 || y as usize == height - 1 {
        return true;
    }
    proof {
        lemma_grid_index_bounds(w, h, x as int, y as int);
        crate::grid::lemma_mul_bound(y as int, w);
    }
    let cidx = x as usize + (y as usize) * width;
    let center = tiles[cidx];
    let mut dx: i32 = -1;
    while dx <= 1
        invariant
            grid_wf(w, h, g),
            w == width as int && h == height as int && g == tiles@,
            in_grid(w, h, x as int, y as int),
            !on_border(w, h, x as int, y as int),
            center == g[grid_index(w, x as int, y as int)],
            -1 <= dx <= 2,
            forall|a: int, b: int|
                #![trigger g[grid_index(w, x + a, y + b)]]
                -1 <= a < dx && -1 <= b <= 1 ==> g[grid_index(w, x + a, y + b)] == g[grid_index(
                    w,
                    x as int,
                    y as int,
                )],
        decreases 2 - dx,
    {
        let mut dy: i32 = -1;
        while dy <= 1
            invariant
                grid_wf(w, h, g),
                w == width as int && h == height as int && g == tiles@,
                in_grid(w, h, x as int, y as int),
                !on_border(w, h, x as int, y as int),
                center == g[grid_index(w, x as int, y as int)],
                -1 <= dx <= 1,
                -1 <= dy <= 2,
                forall|a: int, b: int|
                    #![trigger g[grid_index(w, x + a, y + b)]]
                    -1 <= a < dx && -1 <= b <= 1 ==> g[grid_index(w, x + a, y + b)] == g[grid_index(
                        w,
                        x as int,
                        y as int,
                    )],
                forall|b: int|
                    #![trigger g[grid_index(w, x + dx, y + b)]]
                    -1 <= b < dy ==> g[grid_index(w, x + dx, y + b)] == g[grid_index(
                        w,
                        x as int,
                        y as int,
                    )],
            decreases 2 - dy,
        {
            proof {
                lemma_grid_index_bounds(w, h, x + dx, y + dy);
                crate::grid::lemma_mul_bound((y + dy) as int, w);
            }
            let nidx = (x + dx) as usize + ((y + dy) as usize) * width;
            if tiles[nidx] != center {
                proof {
                    assert(in_grid(w, h, x + dx, y + dy) && g[grid_index(w, x + dx, y + dy)]
                        != g[grid_index(w, x as int, y as int)]);
                }
                return true;
            }
            dy = dy + 1;
        }
        dx = dx + 1;
    }
    proof {
        assert forall|dx0: int, dy0: int|
            -1 <= dx0 <= 1 && -1 <= dy0 <= 1 && #[trigger] in_grid(w, h, x + dx0, y + dy0) implies
            g[grid_index(w, x + dx0, y + dy0)] == g[grid_index(w, x as int, y as int)] by {}
    }
    false
}

/// What `get_region` returns: the tile list is exactly the 4-connected
/// component of its first tile among tiles of type t, without duplicates,
/// and the edge list is exactly the subset of boundary tiles.
pub open spec fn region_wf(g: Seq<TileType>, w: int, h: int, t: TileType, r: Region) -> bool {
    &&& r.tiles@.len() > 0
    &&& r.size == r.tiles@.len()
    &&& r.tiles@.no_duplicates()
    &&& forall|k: int|
        0 <= k < r.tiles@.len() ==> in_grid(w, h, (#[trigger] r.tiles@[k]).0 as int, r.tiles@[k].1 as int)
            && reachable(
            g,
            w,
            h,
            TileClass::Exact(t),
            r.tiles@[0].0 as int,
            r.tiles@[0].1 as int,
            r.tiles@[k].0 as int,
            r.tiles@[k].1 as int,
        )
    &&& forall|x: int, y: int|
        reachable(g, w, h, TileClass::Exact(t), r.tiles@[0].0 as int, r.tiles@[0].1 as int, x, y)
            ==> seq_has_coord(r.tiles@, x, y)
    &&& r.edge_tiles@.no_duplicates()
    &&& forall|k: int|
        0 <= k < r.edge_tiles@.len() ==> r.tiles@.contains(#[trigger] r.edge_tiles@[k])
            && is_edge_tile_spec(g, w, h, r.edge_tiles@[k].0 as int, r.edge_tiles@[k].1 as int)
    &&& forall|k: int|
        0 <= k < r.tiles@.len() && is_edge_tile_spec(
            g,
            w,
            h,
            (#[trigger] r.tiles@[k]).0 as int,
            r.tiles@[k].1 as int,
        ) ==> r.edge_tiles@.contains(r.tiles@[k])
}

/// Gets a region using flood fill. The type of the region is the type of
/// the starting tile.
pub fn get_region(
    width: usize,
    height: usize,
    start_tile: (usize, usize),
    tiles: &Vec<TileType>,
) -> (r: Region)
    requires
        grid_wf(width as int, height as int, tiles@),
        in_grid(width as int, height as int, start_tile.0 as int, start_tile.1 as int),
    ensures
        region_wf(
            tiles@,
            width as int,
            height as int,
            tiles@[grid_index(width as int, start_tile.0 as int, start_tile.1 as int)],
            r,
        ),
        r.tiles@[0] == (start_tile.0 as i32, start_tile.1 as i32),
        r.id == 0 && r.connected_regions@.len() == 0 && !r.is_main_region
            && !r.is_connected_to_main_region,
{
    let ghost w = width as int;
    let ghost h = height as int;
    let ghost g = tiles@;
    proof {
        lemma_grid_index_bounds(w, h, start_tile.0 as int, start_tile.1 as int);
        crate::grid::lemma_mul_bound(start_tile.1 as int, w);
    }
    let current_tile_type = tiles[start_tile.0 + start_tile.1 * width];
    let region_tiles = region_scan(
        width,
        height,
        tiles,
        TileClass::Exact(current_tile_type),
        start_tile,
    );
    let n = region_tiles.len();
    let mut edge_tiles: Vec<(i32, i32)> = Vec::new();
    let mut k: usize = 0;
    while k < n
        invariant
            0 <= k <= n,
            grid_wf(w, h, g),
            w == width as int && h == height as int && g == tiles@,
            n == region_tiles@.len(),
            region_tiles@.no_duplicates(),
            forall|j: int|
                0 <= j < n ==> in_grid(
                    w,
                    h,
                    (#[trigger] region_tiles@[j]).0 as int,
                    region_tiles@[j].1 as int,
                ),
            edge_tiles@.no_duplicates(),
            forall|j: int|
                0 <= j < edge_tiles@.len() ==> exists|i: int|
                    0 <= i < k && region_tiles@[i] == #[trigger] edge_tiles@[j],
            forall|j: int|
                0 <= j < edge_tiles@.len() ==> is_edge_tile_spec(
                    g,
                    w,
                    h,
                    (#[trigger] edge_tiles@[j]).0 as int,
                    edge_tiles@[j].1 as int,
                ),
            forall|i: int|
                0 <= i < k && is_edge_tile_spec(
                    g,
                    w,
                    h,
                    (#[trigger] region_tiles@[i]).0 as int,
                    region_tiles@[i].1 as int,
                ) ==> edge_tiles@.contains(region_tiles@[i]),
        decreases n - k,
    {
        let p = region_tiles[k];
        if is_edge_tile(width, height, p.0, p.1, tiles) {
            let ghost edge_old = edge_tiles@;
            proof {
                assert forall|j: int| 0 <= j < edge_tiles@.len() implies edge_tiles@[j] != p by {
                    let i = choose|i: int| 0 <= i < k && region_tiles@[i] == edge_tiles@[j];
                    assert(region_tiles@[i] == edge_tiles@[j]);
                }
            }
            edge_tiles.push(p);
            proof {
                assert(edge_tiles@[edge_tiles@.len() - 1] == region_tiles@[k as int]);
                assert(edge_tiles@.contains(region_tiles@[k as int]));
                assert forall|j: int|
                    0 <= j < edge_tiles@.len() implies exists|i: int|
                    0 <= i < k + 1 && region_tiles@[i] == #[trigger] edge_tiles@[j] by {
                    if j < edge_old.len() {
                        assert(edge_tiles@[j] == edge_old[j]);
                        let i = choose|i: int| 0 <= i < k && region_tiles@[i] == edge_old[j];
                        assert(0 <= i < k + 1 && region_tiles@[i] == edge_tiles@[j]);
                    } else {
                        assert(region_tiles@[k as int] == edge_tiles@[j]);
                    }
                }
                assert forall|i: int|
                    0 <= i < k + 1 && is_edge_tile_spec(
                        g,
                        w,
                        h,
                        (#[trigger] region_tiles@[i]).0 as int,
                        region_tiles@[i].1 as int,
                    ) implies edge_tiles@.contains(region_tiles@[i]) by {
                    if i < k {
                        let j = choose|j: int|
                            0 <= j < edge_old.len() && edge_old[j] == region_tiles@[i];
                        assert(edge_tiles@[j] == region_tiles@[i]);
                    } else {
                        assert(edge_tiles@[edge_tiles@.len() - 1] == region_tiles@[i]);
                    }
                }
            }
        } else {
            proof {
                assert forall|i: int|
                    0 <= i < k + 1 && is_edge_tile_spec(
                        g,
                        w,
                        h,
                        (#[trigger] region_tiles@[i]).0 as int,
                        region_tiles@[i].1 as int,
                    ) implies edge_tiles@.contains(region_tiles@[i]) by {
                    if i < k {
                        let j = choose|j: int|
                            0 <= j < edge_tiles@.len() && edge_tiles@[j] == region_tiles@[i];
                    }
                }
                assert forall|j: int|
                    0 <= j < edge_tiles@.len() implies exists|i: int|
                    0 <= i < k + 1 && region_tiles@[i] == #[trigger] edge_tiles@[j] by {
                    let i = choose|i: int| 0 <= i < k && region_tiles@[i] == edge_tiles@[j];
                    assert(0 <= i < k + 1 && region_tiles@[i] == edge_tiles@[j]);
                }
            }
        }
        k = k + 1;
    }
    let size = region_tiles.len();
    proof {
        assert forall|j: int|
            0 <= j < edge_tiles@.len() implies region_tiles@.contains(
            #[trigger] edge_tiles@[j],
        ) by {
            let i = choose|i: int| 0 <= i < n && region_tiles@[i] == edge_tiles@[j];
        }
    }
    Region {
        id: 0,
        tiles: region_tiles,
        edge_tiles,
        connected_regions: Vec::new(),
        size,
        is_main_region: false,
        is_connected_to_main_region: false,
    }
}

/// What `get_all_regions` returns: well-formed, pairwise disjoint regions
/// of type t.
pub open spec fn regions_wf(
    g: Seq<TileType>,
    w: int,
    h: int,
    t: TileType,
    regions: Seq<Region>,
) -> bool {
    &&& forall|k: int| 0 <= k < regions.len() ==> region_wf(g, w, h, t, #[trigger] regions[k])
    &&& forall|k1: int, k2: int, x: int, y: int|
        0 <= k1 < regions.len() && 0 <= k2 < regions.len() && k1 != k2 && #[trigger] seq_has_coord(
            regions[k1].tiles@,
            x,
            y,
        ) ==> !#[trigger] seq_has_coord(regions[k2].tiles@, x, y)
}

/// Whether cell a precedes cell b in the scan order of region discovery:
/// column by column, and within a column top to bottom.
pub open spec fn scan_before(a: (i32, i32), b: (i32, i32)) -> bool {
    a.0 < b.0 || (a.0 == b.0 && a.1 < b.1)
}

/// Every cell of type t away from row 0 and column 0 is covered by one of
/// the regions.
pub open spec fn regions_cover(
    g: Seq<TileType>,
    w: int,
    h: int,
    t: TileType,
    regions: Seq<Region>,
) -> bool {
    forall|x: int, y: int|
        1 <= x < w && 1 <= y < h && g[grid_index(w, x, y)] == t ==> exists|k: int|
            0 <= k < regions.len() && seq_has_coord(#[trigger] regions[k].tiles@, x, y)
}

/// Returns all maximal regions of the given tile type, discovered in
/// raster-scan order over the interior-anchored cells; region identifiers
/// are assigned from a counter in discovery order.
pub fn get_all_regions(
    width: usize,
    height: usize,
    tile_type: TileType,
    tiles: &Vec<TileType>,
) -> (regions: Vec<Region>)
    requires
        grid_wf(width as int, height as int, tiles@),
    ensures
        regions_wf(tiles@, width as int, height as int, tile_type, regions@),
        regions_cover(tiles@, width as int, height as int, tile_type, regions@),
        forall|k: int| 0 <= k < regions@.len() ==> (#[trigger] regions@[k]).id == k,
        forall|k: int|
            0 <= k < regions@.len() ==> 1 <= ((#[trigger] regions@[k]).tiles@[0].0 as int) && ((
            regions@[k].tiles@[0].0 as int) < width as int) && 1 <= (regions@[k].tiles@[0].1 as int)
                && ((regions@[k].tiles@[0].1 as int) < height as int),
        forall|k1: int, k2: int|
            0 <= k1 < k2 < regions@.len() ==> scan_before(
                (#[trigger] regions@[k1]).tiles@[0],
                (#[trigger] regions@[k2]).tiles@[0],
            ),
{
    let ghost w = width as int;
    let ghost h = height as int;
    let ghost g = tiles@;
    proof {
        crate::grid::lemma_mul_bound(w, h);
    }
    let n_cells = width * height;
    let mut map_flags: Vec<u8> = Vec::new();
    while map_flags.len() < n_cells
        invariant
            map_flags@.len() <= n_cells,
            forall|i: int| 0 <= i < map_flags@.len() ==> map_flags@[i] == 0,
        decreases n_cells - map_flags@.len(),
    {
        map_flags.push(0);
    }
    let mut regions: Vec<Region> = Vec::new();
    proof {
        assert forall|a: int, b: int| in_grid(w, h, a, b) implies map_flags@[grid_index(
            w,
            a,
            b,
        )] == 0 by {
            lemma_grid_index_bounds(w, h, a, b);
        }
    }
    let mut x: usize = 1;
    while x < width
        invariant
            grid_wf(w, h, g),
            w == width as int && h == height as int && g == tiles@,
            1 <= x <= width,
            map_flags@.len() == w * h,
            forall|i: int| 0 <= i < map_flags@.len() ==> map_flags@[i] == 0 || map_flags@[i] == 1,
            forall|a: int, b: int|
                in_grid(w, h, a, b) ==> ((map_flags@[grid_index(w, a, b)] == 1) <==> exists|k: int|
                    0 <= k < regions@.len() && seq_has_coord(#[trigger] regions@[k].tiles@, a, b)),
            regions_wf(g, w, h, tile_type, regions@),
            forall|k: int| 0 <= k < regions@.len() ==> (#[trigger] regions@[k]).id == k,
            forall|k: int|
                0 <= k < regions@.len() ==> 1 <= ((#[trigger] regions@[k]).tiles@[0].0 as int) && ((
                regions@[k].tiles@[0].0 as int) < w) && 1 <= (regions@[k].tiles@[0].1 as int) && ((
                regions@[k].tiles@[0].1 as int) < h),
            forall|k1: int, k2: int|
                0 <= k1 < k2 < regions@.len() ==> scan_before(
                    (#[trigger] regions@[k1]).tiles@[0],
                    (#[trigger] regions@[k2]).tiles@[0],
                ),
            forall|k: int|
                0 <= k < regions@.len() ==> ((#[trigger] regions@[k]).tiles@[0].0 as int) < x,
            forall|a: int, b: int|
                1 <= a < x && 1 <= b < h && g[grid_index(w, a, b)] == tile_type
                    ==> map_flags@[grid_index(w, a, b)] == 1,
        decreases width - x,
    {
        let mut y: usize = 1;
        while y < height
            invariant
                grid_wf(w, h, g),
                w == width as int && h == height as int && g == tiles@,
                1 <= x < width,
                1 <= y <= height,
                map_flags@.len() == w * h,
                forall|i: int|
                    0 <= i < map_flags@.len() ==> map_flags@[i] == 0 || map_flags@[i] == 1,
                forall|a: int, b: int|
                    in_grid(w, h, a, b) ==> ((map_flags@[grid_index(w, a, b)] == 1) <==> exists|
                        k: int,
                    |
                        0 <= k < regions@.len() && seq_has_coord(
                            #[trigger] regions@[k].tiles@,
                            a,
                            b,
                        )),
                regions_wf(g, w, h, tile_type, regions@),
                forall|k: int| 0 <= k < regions@.len() ==> (#[trigger] regions@[k]).id == k,
                forall|k: int|
                    0 <= k < regions@.len() ==> 1 <= ((#[trigger] regions@[k]).tiles@[0].0 as int)
                        && ((regions@[k].tiles@[0].0 as int) < w) && 1 <= ((regions@[k].tiles@[0].1
                    as int)) && ((regions@[k].tiles@[0].1 as int) < h),
                forall|k1: int, k2: int|
                    0 <= k1 < k2 < regions@.len() ==> scan_before(
                        (#[trigger] regions@[k1]).tiles@[0],
                        (#[trigger] regions@[k2]).tiles@[0],
                    ),
                forall|k: int|
                    0 <= k < regions@.len() ==> ((#[trigger] regions@[k]).tiles@[0].0 as int) < x
                        || (((#[trigger] regions@[k]).tiles@[0].0 as int) == x && ((
                    regions@[k].tiles@[0].1 as int)) < y),
                forall|a: int, b: int|
                    1 <= a < x && 1 <= b < h && g[grid_index(w, a, b)] == tile_type
                        ==> map_flags@[grid_index(w, a, b)] == 1,
                forall|b: int|
                    1 <= b < y && g[grid_index(w, x as int, b)] == tile_type ==> map_flags@[grid_index(
                        w,
                        x as int,
                        b,
                    )] == 1,
            decreases height - y,
        {
            proof {
                lemma_grid_index_bounds(w, h, x as int, y as int);
                crate::grid::lemma_mul_bound(y as int, w);
            }
            let idx = x + y * width;
            if map_flags[idx] == 0 && tiles[idx] == tile_type {
                let mut new_region = get_region(width, height, (x, y), tiles);
                new_region.id = regions.len() as u64;
                proof {
                    // none of the new region's tiles can be marked: a mark
                    // would put the fresh root inside an older region
                    assert forall|j: int| 0 <= j < new_region.tiles@.len() implies map_flags@[grid_index(
                        w,
                        (#[trigger] new_region.tiles@[j]).0 as int,
                        new_region.tiles@[j].1 as int,
                    )] == 0 by {
                        let px = new_region.tiles@[j].0 as int;
                        let py = new_region.tiles@[j].1 as int;
                        lemma_grid_index_bounds(w, h, px, py);
                        if map_flags@[grid_index(w, px, py)] == 1 {
                            let k = choose|k: int|
                                0 <= k < regions@.len() && seq_has_coord(
                                    regions@[k].tiles@,
                                    px,
                                    py,
                                );
                            let r0 = regions@[k];
                            let i = choose|i: int|
                                0 <= i < r0.tiles@.len() && r0.tiles@[i].0 == px && r0.tiles@[i].1
                                    == py;
                            // the old region reaches (px, py); the new root
                            // reaches it too, so the root sits in the old
                            // region and would be marked
                            crate::reach::lemma_reachable_sym(
                                g,
                                w,
                                h,
                                TileClass::Exact(tile_type),
                                x as int,
                                y as int,
                                px,
                                py,
                            );
                            crate::reach::lemma_reachable_trans(
                                g,
                                w,
                                h,
                                TileClass::Exact(tile_type),
                                r0.tiles@[0].0 as int,
                                r0.tiles@[0].1 as int,
                                px,
                                py,
                                x as int,
                                y as int,
                            );
                            assert(seq_has_coord(r0.tiles@, x as int, y as int));
                            assert(map_flags@[grid_index(w, x as int, y as int)] == 1);
                        }
                    }
                }
                let ghost flags_before = map_flags@;
                proof {
                    assert(forall|a: int, b: int|
                        1 <= a < x && 1 <= b < h && g[grid_index(w, a, b)] == tile_type
                            ==> flags_before[grid_index(w, a, b)] == 1);
                    assert(forall|b: int|
                        1 <= b < y && g[grid_index(w, x as int, b)] == tile_type ==> flags_before[grid_index(
                            w,
                            x as int,
                            b,
                        )] == 1);
                }
                let m = new_region.tiles.len();
                let mut j: usize = 0;
                while j < m
                    invariant
                        grid_wf(w, h, g),
                        w == width as int && h == height as int && g == tiles@,
                        m == new_region.tiles@.len(),
                        0 <= j <= m,
                        map_flags@.len() == w * h,
                        flags_before.len() == w * h,
                        forall|i: int|
                            0 <= i < new_region.tiles@.len() ==> in_grid(
                                w,
                                h,
                                (#[trigger] new_region.tiles@[i]).0 as int,
                                new_region.tiles@[i].1 as int,
                            ),
                        forall|i: int|
                            0 <= i < map_flags@.len() ==> map_flags@[i] == 0 || map_flags@[i] == 1,
                        forall|a: int, b: int|
                            in_grid(w, h, a, b) ==> ((map_flags@[grid_index(w, a, b)] == 1) <==> (
                            flags_before[grid_index(w, a, b)] == 1 || exists|i: int|
                                0 <= i < j && (#[trigger] new_region.tiles@[i]).0 == a
                                    && new_region.tiles@[i].1 == b)),
                    decreases m - j,
                {
                    let p = new_region.tiles[j];
                    proof {
                        lemma_grid_index_bounds(w, h, p.0 as int, p.1 as int);
                        crate::grid::lemma_mul_bound(p.1 as int, w);
                    }
                    let ghost flags_mid = map_flags@;
                    map_flags.set(p.0 as usize + (p.1 as usize) * width, 1);
                    proof {
                        assert forall|a: int, b: int| in_grid(w, h, a, b) implies ((map_flags@[grid_index(
                            w,
                            a,
                            b,
                        )] == 1) <==> (flags_before[grid_index(w, a, b)] == 1 || exists|i: int|
                            0 <= i < j + 1 && (#[trigger] new_region.tiles@[i]).0 == a
                                && new_region.tiles@[i].1 == b)) by {
                            lemma_grid_index_bounds(w, h, a, b);
                            crate::grid::lemma_grid_index_injective(
                                w,
                                h,
                                a,
                                b,
                                p.0 as int,
                                p.1 as int,
                            );
                            if a == p.0 as int && b == p.1 as int {
                                assert(new_region.tiles@[j as int].0 == a
                                    && new_region.tiles@[j as int].1 == b);
                            } else {
                                if exists|i: int|
                                    0 <= i < j + 1 && (#[trigger] new_region.tiles@[i]).0 == a
                                        && new_region.tiles@[i].1 == b {
                                    let i = choose|i: int|
                                        0 <= i < j + 1 && (#[trigger] new_region.tiles@[i]).0 == a
                                            && new_region.tiles@[i].1 == b;
                                    assert(i < j);
                                }
                            }
                        }
                    }
                    j = j + 1;
                }
                proof {
                    assert(map_flags@[grid_index(w, x as int, y as int)] == 1) by {
                        assert(new_region.tiles@[0].0 == x as i32 && new_region.tiles@[0].1
                            == y as i32);
                        lemma_grid_index_bounds(w, h, x as int, y as int);
                    }
                    assert forall|a: int, b: int|
                        1 <= a < x && 1 <= b < h && g[grid_index(w, a, b)] == tile_type implies map_flags@[grid_index(
                        w,
                        a,
                        b,
                    )] == 1 by {
                        lemma_grid_index_bounds(w, h, a, b);
                        assert(flags_before[grid_index(w, a, b)] == 1);
                        assert((map_flags@[grid_index(w, a, b)] == 1) <==> (flags_before[grid_index(
                            w,
                            a,
                            b,
                        )] == 1 || exists|i: int|
                            0 <= i < j && (#[trigger] new_region.tiles@[i]).0 == a
                                && new_region.tiles@[i].1 == b));
                    }
                    assert forall|b: int|
                        1 <= b < y && g[grid_index(w, x as int, b)] == tile_type implies map_flags@[grid_index(
                        w,
                        x as int,
                        b,
                    )] == 1 by {
                        lemma_grid_index_bounds(w, h, x as int, b);
                        assert(flags_before[grid_index(w, x as int, b)] == 1);
                        assert((map_flags@[grid_index(w, x as int, b)] == 1) <==> (flags_before[grid_index(
                            w,
                            x as int,
                            b,
                        )] == 1 || exists|i: int|
                            0 <= i < j && (#[trigger] new_region.tiles@[i]).0 == x as i32
                                && new_region.tiles@[i].1 == b));
                    }
                }
                let ghost regions_before = regions@;
                regions.push(new_region);
                proof {
                    let nr = regions@[regions@.len() - 1];
                    assert(nr == new_region);
                    // the flag marks now track the extended region list
                    assert forall|a: int, b: int| in_grid(w, h, a, b) implies ((map_flags@[grid_index(
                        w,
                        a,
                        b,
                    )] == 1) <==> exists|k: int|
                        0 <= k < regions@.len() && seq_has_coord(
                            #[trigger] regions@[k].tiles@,
                            a,
                            b,
                        )) by {
                        lemma_grid_index_bounds(w, h, a, b);
                        if map_flags@[grid_index(w, a, b)] == 1 {
                            if flags_before[grid_index(w, a, b)] == 1 {
                                let k = choose|k: int|
                                    0 <= k < regions_before.len() && seq_has_coord(
                                        regions_before[k].tiles@,
                                        a,
                                        b,
                                    );
                                assert(regions@[k].tiles@ == regions_before[k].tiles@);
                                assert(seq_has_coord(regions@[k].tiles@, a, b));
                            } else {
                                assert(seq_has_coord(nr.tiles@, a, b));
                            }
                        }
                        if exists|k: int|
                            0 <= k < regions@.len() && seq_has_coord(
                                #[trigger] regions@[k].tiles@,
                                a,
                                b,
                            ) {
                            let k = choose|k: int|
                                0 <= k < regions@.len() && seq_has_coord(
                                    #[trigger] regions@[k].tiles@,
                                    a,
                                    b,
                                );
                            if k < regions_before.len() {
                                assert(regions_before[k].tiles@ == regions@[k].tiles@);
                                assert(flags_before[grid_index(w, a, b)] == 1);
                            } else {
                                assert(seq_has_coord(new_region.tiles@, a, b));
                            }
                        }
                    }
                    // older regions were fully marked before, so the new
                    // region (unmarked before) is disjoint from each
                    assert forall|k1: int, k2: int, a: int, b: int|
                        0 <= k1 < regions@.len() && 0 <= k2 < regions@.len() && k1 != k2
                            && #[trigger] seq_has_coord(regions@[k1].tiles@, a, b) implies
                        !#[trigger] seq_has_coord(regions@[k2].tiles@, a, b) by {
                        lemma_grid_index_bounds(w, h, a, b);
                        if k1 < regions_before.len() && k2 < regions_before.len() {
                            assert(regions_before[k1].tiles@ == regions@[k1].tiles@);
                            assert(regions_before[k2].tiles@ == regions@[k2].tiles@);
                        } else if k1 < regions_before.len() {
                            // k2 is the new region: a mark for k1 existed
                            // before, while new-region cells were unmarked
                            assert(regions_before[k1].tiles@ == regions@[k1].tiles@);
                            assert(flags_before[grid_index(w, a, b)] == 1);
                            if seq_has_coord(regions@[k2].tiles@, a, b) {
                                let i = choose|i: int|
                                    0 <= i < new_region.tiles@.len() && new_region.tiles@[i].0 == a
                                        && new_region.tiles@[i].1 == b;
                                assert(flags_before[grid_index(
                                    w,
                                    new_region.tiles@[i].0 as int,
                                    new_region.tiles@[i].1 as int,
                                )] == 0);
                            }
                        } else {
                            assert(seq_has_coord(regions@[k1].tiles@, a, b) ==> seq_has_coord(
                                new_region.tiles@,
                                a,
                                b,
                            ));
                            let i = choose|i: int|
                                0 <= i < new_region.tiles@.len() && new_region.tiles@[i].0 == a
                                    && new_region.tiles@[i].1 == b;
                            assert(flags_before[grid_index(
                                w,
                                new_region.tiles@[i].0 as int,
                                new_region.tiles@[i].1 as int,
                            )] == 0);
                            assert(regions_before[k2].tiles@ == regions@[k2].tiles@);
                            if seq_has_coord(regions@[k2].tiles@, a, b) {
                                assert(flags_before[grid_index(w, a, b)] == 1);
                            }
                        }
                    }
                    assert(regions_wf(g, w, h, tile_type, regions@));
                    assert(nr.tiles@[0] == (x as i32, y as i32));
                    assert forall|k1: int, k2: int|
                        0 <= k1 < k2 < regions@.len() implies scan_before(
                        (#[trigger] regions@[k1]).tiles@[0],
                        (#[trigger] regions@[k2]).tiles@[0],
                    ) by {
                        if k2 < regions_before.len() {
                            assert(regions@[k1] == regions_before[k1]);
                            assert(regions@[k2] == regions_before[k2]);
                        } else {
                            assert(regions@[k1] == regions_before[k1]);
                            assert(regions@[k2] == nr);
                        }
                    }
                    assert forall|k: int|
                        0 <= k < regions@.len() implies ((#[trigger] regions@[k]).tiles@[0].0
                        as int) < x || (((#[trigger] regions@[k]).tiles@[0].0 as int) == x && ((
                    regions@[k].tiles@[0].1 as int)) < y + 1) by {
                        if k < regions_before.len() {
                            assert(regions@[k] == regions_before[k]);
                        } else {
                            assert(regions@[k] == nr);
                        }
                    }
                    assert forall|k: int|
                        0 <= k < regions@.len() implies 1 <= ((#[trigger] regions@[k]).tiles@[0].0
                        as int) && ((regions@[k].tiles@[0].0 as int) < w) && 1 <= ((
                    regions@[k].tiles@[0].1 as int)) && ((regions@[k].tiles@[0].1 as int) < h) by {
                        if k < regions_before.len() {
                            assert(regions@[k] == regions_before[k]);
                        }
                    }
                    // the scanned cell itself is now marked
                    assert(seq_has_coord(new_region.tiles@, x as int, y as int)) by {
                        assert(new_region.tiles@[0] == (x as i32, y as i32));
                    }
                }
            }
            proof {
                assert forall|b: int|
                    1 <= b < y + 1 && g[grid_index(w, x as int, b)] == tile_type implies map_flags@[grid_index(
                    w,
                    x as int,
                    b,
                )] == 1 by {
                    lemma_grid_index_bounds(w, h, x as int, b);
                }
            }
            y = y + 1;
        }
        x = x + 1;
    }
    proof {
        assert forall|a: int, b: int|
            1 <= a < w && 1 <= b < h && g[grid_index(w, a, b)] == tile_type implies exists|k: int|
            0 <= k < regions@.len() && seq_has_coord(#[trigger] regions@[k].tiles@, a, b) by {
            lemma_grid_index_bounds(w, h, a, b);
            assert(map_flags@[grid_index(w, a, b)] == 1);
        }
    }
    regions
}

/// Whether region cleanup relabels a cell: the cell is of the source type,
/// its component touches the scanned interior (rows and columns from 1 on),
/// and that component is no larger than the size threshold.
pub open spec fn cleanup_removes(
    g: Seq<TileType>,
    w: int,
    h: int,
    t: TileType,
    threshold: int,
    x: int,
    y: int,
) -> bool {
    &&& g[grid_index(w, x, y)] == t
    &&& crate::reach::component(g, w, h, TileClass::Exact(t), x, y).len() <= threshold
    &&& exists|a: int, b: int|
        1 <= a < w && 1 <= b < h && #[trigger] reachable(g, w, h, TileClass::Exact(t), x, y, a, b)
}

/// The relation between a grid and the result of one region cleanup on it.
pub open spec fn cleanup_rel(
    g1: Seq<TileType>,
    g2: Seq<TileType>,
    w: int,
    h: int,
    t: TileType,
    r: TileType,
    threshold: int,
) -> bool {
    &&& g1.len() == w * h
    &&& g2.len() == w * h
    &&& forall|x: int, y: int|
        in_grid(w, h, x, y) ==> #[trigger] g2[grid_index(w, x, y)] == (if cleanup_removes(
            g1,
            w,
            h,
            t,
            threshold,
            x,
            y,
        ) {
            r
        } else {
            g1[grid_index(w, x, y)]
        })
}

/// A surviving cell of type t keeps its whole component across a cleanup:
/// only entire small components were relabeled, so the remaining components
/// are untouched.
pub proof fn lemma_cleanup_component_preserved(
    g1: Seq<TileType>,
    g2: Seq<TileType>,
    w: int,
    h: int,
    t: TileType,
    r: TileType,
    threshold: int,
    x: int,
    y: int,
)
    requires
        3 <= w < 0x8000,
        3 <= h < 0x8000,
        t != r,
        cleanup_rel(g1, g2, w, h, t, r, threshold),
        in_grid(w, h, x, y),
        g2[grid_index(w, x, y)] == t,
    ensures
        g1[grid_index(w, x, y)] == t,
        !cleanup_removes(g1, w, h, t, threshold, x, y),
        crate::reach::component(g2, w, h, TileClass::Exact(t), x, y) == crate::reach::component(
            g1,
            w,
            h,
            TileClass::Exact(t),
            x,
            y,
        ),
{
    lemma_grid_index_bounds(w, h, x, y);
    let c = TileClass::Exact(t);
    // the first grid agrees with the second on every cell the survivor
    // reaches: a reached cell in a removed component would drag the
    // survivor into removal too
    assert forall|a: int, b: int|
        in_grid(w, h, a, b) && #[trigger] reachable(g1, w, h, c, x, y, a, b) implies g2[grid_index(
        w,
        a,
        b,
    )] == g1[grid_index(w, a, b)] by {
        lemma_grid_index_bounds(w, h, a, b);
        crate::reach::lemma_reachable_target(g1, w, h, c, x, y, a, b);
        if cleanup_removes(g1, w, h, t, threshold, a, b) {
            crate::reach::lemma_reachable_sym(g1, w, h, c, x, y, a, b);
            crate::reach::lemma_component_same(g1, w, h, c, x, y, a, b);
            let (ia, ib) = choose|ia: int, ib: int|
                1 <= ia < w && 1 <= ib < h && #[trigger] reachable(g1, w, h, c, a, b, ia, ib);
            crate::reach::lemma_reachable_trans(g1, w, h, c, x, y, a, b, ia, ib);
            assert(cleanup_removes(g1, w, h, t, threshold, x, y));
            assert(g2[grid_index(w, x, y)] == r);
            assert(false);
        }
    }
    assert(!cleanup_removes(g1, w, h, t, threshold, x, y)) by {
        if cleanup_removes(g1, w, h, t, threshold, x, y) {
            assert(g2[grid_index(w, x, y)] == r);
        }
    }
    assert forall|p: (int, int)| #[trigger] crate::reach::component(g1, w, h, c, x, y).contains(
        p,
    ) implies crate::reach::component(g2, w, h, c, x, y).contains(p) by {
        let n = choose|n: nat| crate::reach::reachable_in(g1, w, h, c, x, y, p.0, p.1, n);
        crate::reach::lemma_reachable_transfer(g1, g2, w, h, c, x, y, p.0, p.1, n);
    }
    // in the other direction the second grid's t-cells were all kept, so
    // they agree with the first grid as well
    assert forall|a: int, b: int|
        in_grid(w, h, a, b) && #[trigger] reachable(g2, w, h, c, x, y, a, b) implies g1[grid_index(
        w,
        a,
        b,
    )] == g2[grid_index(w, a, b)] by {
        lemma_grid_index_bounds(w, h, a, b);
        crate::reach::lemma_reachable_target(g2, w, h, c, x, y, a, b);
        if cleanup_removes(g1, w, h, t, threshold, a, b) {
            assert(g2[grid_index(w, a, b)] == r);
        }
    }
    assert forall|p: (int, int)| #[trigger] crate::reach::component(g2, w, h, c, x, y).contains(
        p,
    ) implies crate::reach::component(g1, w, h, c, x, y).contains(p) by {
        let n = choose|n: nat| crate::reach::reachable_in(g2, w, h, c, x, y, p.0, p.1, n);
        crate::reach::lemma_reachable_transfer(g2, g1, w, h, c, x, y, p.0, p.1, n);
    }
    assert(crate::reach::component(g2, w, h, c, x, y) =~= crate::reach::component(
        g1,
        w,
        h,
        c,
        x,
        y,
    ));
}

/// After a cleanup no cell would be removed by running the same cleanup
/// again: every surviving component that touches the scanned interior is
/// larger than the threshold.
pub proof fn lemma_cleanup_no_small_regions(
    g1: Seq<TileType>,
    g2: Seq<TileType>,
    w: int,
    h: int,
    t: TileType,
    r: TileType,
    threshold: int,
)
    requires
        3 <= w < 0x8000,
        3 <= h < 0x8000,
        t != r,
        cleanup_rel(g1, g2, w, h, t, r, threshold),
    ensures
        forall|x: int, y: int|
            in_grid(w, h, x, y) ==> !cleanup_removes(g2, w, h, t, threshold, x, y),
{
    let c = TileClass::Exact(t);
    assert forall|x: int, y: int| in_grid(w, h, x, y) implies !cleanup_removes(
        g2,
        w,
        h,
        t,
        threshold,
        x,
        y,
    ) by {
        lemma_grid_index_bounds(w, h, x, y);
        if cleanup_removes(g2, w, h, t, threshold, x, y) {
            lemma_cleanup_component_preserved(g1, g2, w, h, t, r, threshold, x, y);
            let (ia, ib) = choose|ia: int, ib: int|
                1 <= ia < w && 1 <= ib < h && #[trigger] reachable(g2, w, h, c, x, y, ia, ib);
            assert(crate::reach::component(g2, w, h, c, x, y).contains((ia, ib)));
            assert(crate::reach::component(g1, w, h, c, x, y).contains((ia, ib)));
            assert(reachable(g1, w, h, c, x, y, ia, ib));
            assert(crate::reach::component(g1, w, h, c, x, y).len() <= threshold);
            assert(cleanup_removes(g1, w, h, t, threshold, x, y));
            assert(false);
        }
    }
}

/// Region cleanup is idempotent: running it twice with the same arguments
/// gives the same grid as running it once.
pub proof fn lemma_cleanup_idempotent(
    g1: Seq<TileType>,
    g2: Seq<TileType>,
    g3: Seq<TileType>,
    w: int,
    h: int,
    t: TileType,
    r: TileType,
    threshold: int,
)
    requires
        3 <= w < 0x8000,
        3 <= h < 0x8000,
        t != r,
        cleanup_rel(g1, g2, w, h, t, r, threshold),
        cleanup_rel(g2, g3, w, h, t, r, threshold),
    ensures
        g3 == g2,
{
    lemma_cleanup_no_small_regions(g1, g2, w, h, t, r, threshold);
    assert forall|x: int, y: int| in_grid(w, h, x, y) implies g3[grid_index(w, x, y)]
        == g2[grid_index(w, x, y)] by {
        lemma_grid_index_bounds(w, h, x, y);
    }
    crate::grid::lemma_grid_ext_equal(w, h, g3, g2);
}

/// Removes regions of tile type t that do not meet the size requirement,
/// relabeling each of their cells to the replacement type.
pub fn clean_up_regions(
    width: usize,
    height: usize,
    tiles: &mut Vec<TileType>,
    t: TileType,
    r: TileType,
    size_threshold: usize,
)
    requires
        grid_wf(width as int, height as int, old(tiles)@),
        t != r,
    ensures
        final(tiles)@.len() == old(tiles)@.len(),
        forall|x: int, y: int|
            in_grid(width as int, height as int, x, y) ==> final(tiles)@[grid_index(
                width as int,
                x,
                y,
            )] == (if cleanup_removes(
                old(tiles)@,
                width as int,
                height as int,
                t,
                size_threshold as int,
                x,
                y,
            ) {
                r
            } else {
                old(tiles)@[grid_index(width as int, x, y)]
            }),
        cleanup_rel(
            old(tiles)@,
            final(tiles)@,
            width as int,
            height as int,
            t,
            r,
            size_threshold as int,
        ),
        forall|x: int, y: int|
            in_grid(width as int, height as int, x, y) ==> !cleanup_removes(
                final(tiles)@,
                width as int,
                height as int,
                t,
                size_threshold as int,
                x,
                y,
            ),
{
    let ghost w = width as int;
    let ghost h = height as int;
    let ghost g0 = old(tiles)@;
    let regions = get_all_regions(width, height, t, tiles);
    let ghost rs = regions@;
    let n = regions.len();
    let ghost small_cell = |x: int, y: int, upto: int|
        exists|k: int|
            0 <= k < upto && (#[trigger] rs[k]).tiles@.len() <= size_threshold && seq_has_coord(
                rs[k].tiles@,
                x,
                y,
            );
    let mut k: usize = 0;
    while k < n
        invariant
            grid_wf(w, h, g0),
            w == width as int && h == height as int,
            n == rs.len(),
            0 <= k <= n,
            rs == regions@,
            tiles@.len() == g0.len(),
            regions_wf(g0, w, h, t, rs),
            regions_cover(g0, w, h, t, rs),
            forall|j: int|
                0 <= j < rs.len() ==> 1 <= ((#[trigger] rs[j]).tiles@[0].0 as int) && ((
                rs[j].tiles@[0].0 as int) < w) && 1 <= (rs[j].tiles@[0].1 as int) && ((
                rs[j].tiles@[0].1 as int) < h),
            small_cell == (|x: int, y: int, upto: int|
                exists|k: int|
                    0 <= k < upto && (#[trigger] rs[k]).tiles@.len() <= size_threshold
                        && seq_has_coord(rs[k].tiles@, x, y)),
            forall|x: int, y: int|
                in_grid(w, h, x, y) ==> tiles@[grid_index(w, x, y)] == (if small_cell(
                    x,
                    y,
                    k as int,
                ) {
                    r
                } else {
                    g0[grid_index(w, x, y)]
                }),
        decreases n - k,
    {
        let sz = regions[k].tiles.len();
        if sz <= size_threshold {
            let m = regions[k].tiles.len();
            let mut j: usize = 0;
            while j < m
                invariant
                    grid_wf(w, h, g0),
                    w == width as int && h == height as int,
                    n == rs.len(),
                    0 <= k < n,
                    m == rs[k as int].tiles@.len(),
                    m <= size_threshold,
                    0 <= j <= m,
                    rs == regions@,
                    tiles@.len() == g0.len(),
                    regions_wf(g0, w, h, t, rs),
                    forall|x: int, y: int|
                        in_grid(w, h, x, y) ==> tiles@[grid_index(w, x, y)] == (if small_cell(
                            x,
                            y,
                            k as int,
                        ) || (exists|i: int|
                            0 <= i < j && (#[trigger] rs[k as int].tiles@[i]).0 == x && rs[k as int].tiles@[i].1
                                == y) {
                            r
                        } else {
                            g0[grid_index(w, x, y)]
                        }),
                decreases m - j,
            {
                let p = regions[k].tiles[j];
                proof {
                    assert(rs[k as int].tiles@[j as int] == p);
                    lemma_grid_index_bounds(w, h, p.0 as int, p.1 as int);
                    crate::grid::lemma_mul_bound(p.1 as int, w);
                }
                let ghost tiles_mid = tiles@;
                tiles.set(p.0 as usize + (p.1 as usize) * width, r);
                proof {
                    assert forall|x: int, y: int| in_grid(w, h, x, y) implies tiles@[grid_index(
                        w,
                        x,
                        y,
                    )] == (if small_cell(x, y, k as int) || (exists|i: int|
                        0 <= i < j + 1 && (#[trigger] rs[k as int].tiles@[i]).0 == x && rs[k as int].tiles@[i].1
                            == y) {
                        r
                    } else {
                        g0[grid_index(w, x, y)]
                    }) by {
                        lemma_grid_index_bounds(w, h, x, y);
                        crate::grid::lemma_grid_index_injective(w, h, x, y, p.0 as int, p.1 as int);
                        if x == p.0 as int && y == p.1 as int {
                            assert(rs[k as int].tiles@[j as int].0 == x && rs[k as int].tiles@[j as int].1
                                == y);
                        } else {
                            if exists|i: int|
                                0 <= i < j + 1 && (#[trigger] rs[k as int].tiles@[i]).0 == x
                                    && rs[k as int].tiles@[i].1 == y {
                                let i = choose|i: int|
                                    0 <= i < j + 1 && (#[trigger] rs[k as int].tiles@[i]).0 == x
                                        && rs[k as int].tiles@[i].1 == y;
                                assert(i < j);
                            }
                        }
                    }
                }
                j = j + 1;
            }
            proof {
                assert forall|x: int, y: int| in_grid(w, h, x, y) implies tiles@[grid_index(
                    w,
                    x,
                    y,
                )] == (if small_cell(x, y, k as int + 1) {
                    r
                } else {
                    g0[grid_index(w, x, y)]
                }) by {
                    lemma_grid_index_bounds(w, h, x, y);
                    if small_cell(x, y, k as int + 1) {
                        let k0 = choose|k0: int|
                            0 <= k0 < k as int + 1 && (#[trigger] rs[k0]).tiles@.len()
                                <= size_threshold && seq_has_coord(rs[k0].tiles@, x, y);
                        if k0 < k as int {
                            assert(small_cell(x, y, k as int));
                        } else {
                            let i = choose|i: int|
                                0 <= i < rs[k as int].tiles@.len() && rs[k as int].tiles@[i].0 == x
                                    && rs[k as int].tiles@[i].1 == y;
                            assert(0 <= i < m && (rs[k as int].tiles@[i]).0 == x && rs[k as int].tiles@[i].1
                                == y);
                        }
                    } else {
                        if exists|i: int|
                            0 <= i < m && (#[trigger] rs[k as int].tiles@[i]).0 == x && rs[k as int].tiles@[i].1
                                == y {
                            assert(seq_has_coord(rs[k as int].tiles@, x, y));
                            assert(small_cell(x, y, k as int + 1));
                        }
                        if small_cell(x, y, k as int) {
                            let k0 = choose|k0: int|
                                0 <= k0 < k as int && (#[trigger] rs[k0]).tiles@.len()
                                    <= size_threshold && seq_has_coord(rs[k0].tiles@, x, y);
                            assert(small_cell(x, y, k as int + 1));
                        }
                    }
                }
            }
        } else {
            proof {
                assert forall|x: int, y: int| in_grid(w, h, x, y) implies tiles@[grid_index(
                    w,
                    x,
                    y,
                )] == (if small_cell(x, y, k as int + 1) {
                    r
                } else {
                    g0[grid_index(w, x, y)]
                }) by {
                    lemma_grid_index_bounds(w, h, x, y);
                    if small_cell(x, y, k as int + 1) {
                        let k0 = choose|k0: int|
                            0 <= k0 < k as int + 1 && (#[trigger] rs[k0]).tiles@.len()
                                <= size_threshold && seq_has_coord(rs[k0].tiles@, x, y);
                        assert(k0 < k as int);
                        assert(small_cell(x, y, k as int));
                    } else {
                        if small_cell(x, y, k as int) {
                            let k0 = choose|k0: int|
                                0 <= k0 < k as int && (#[trigger] rs[k0]).tiles@.len()
                                    <= size_threshold && seq_has_coord(rs[k0].tiles@, x, y);
                            assert(small_cell(x, y, k as int + 1));
                        }
                    }
                }
            }
        }
        k = k + 1;
    }
    proof {
        assert forall|x: int, y: int| in_grid(w, h, x, y) implies tiles@[grid_index(w, x, y)] == (
        if cleanup_removes(g0, w, h, t, size_threshold as int, x, y) {
            r
        } else {
            g0[grid_index(w, x, y)]
        }) by {
            lemma_grid_index_bounds(w, h, x, y);
            if cleanup_removes(g0, w, h, t, size_threshold as int, x, y) {
                // the cell's component touches the interior, so some region
                // holds the cell, and the size bound carries over
                let (a, b) = choose|a: int, b: int|
                    1 <= a < w && 1 <= b < h && #[trigger] reachable(
                        g0,
                        w,
                        h,
                        TileClass::Exact(t),
                        x,
                        y,
                        a,
                        b,
                    );
                crate::reach::lemma_reachable_target(g0, w, h, TileClass::Exact(t), x, y, a, b);
                let k0 = choose|k0: int|
                    0 <= k0 < rs.len() && seq_has_coord(#[trigger] rs[k0].tiles@, a, b);
                let rt = rs[k0].tiles@;
                let i = choose|i: int| 0 <= i < rt.len() && rt[i].0 == a && rt[i].1 == b;
                crate::reach::lemma_reachable_sym(
                    g0,
                    w,
                    h,
                    TileClass::Exact(t),
                    rt[0].0 as int,
                    rt[0].1 as int,
                    a,
                    b,
                );
                crate::reach::lemma_reachable_trans(
                    g0,
                    w,
                    h,
                    TileClass::Exact(t),
                    x,
                    y,
                    a,
                    b,
                    rt[0].0 as int,
                    rt[0].1 as int,
                );
                crate::reach::lemma_reachable_sym(
                    g0,
                    w,
                    h,
                    TileClass::Exact(t),
                    x,
                    y,
                    rt[0].0 as int,
                    rt[0].1 as int,
                );
                assert(seq_has_coord(rt, x, y));
                crate::reach::lemma_component_card(
                    g0,
                    w,
                    h,
                    TileClass::Exact(t),
                    rt[0].0 as int,
                    rt[0].1 as int,
                    rt,
                );
                crate::reach::lemma_component_same(
                    g0,
                    w,
                    h,
                    TileClass::Exact(t),
                    rt[0].0 as int,
                    rt[0].1 as int,
                    x,
                    y,
                );
                assert(rt.len() <= size_threshold);
                assert(small_cell(x, y, n as int));
            } else {
                if small_cell(x, y, n as int) {
                    let k0 = choose|k0: int|
                        0 <= k0 < n as int && (#[trigger] rs[k0]).tiles@.len() <= size_threshold
                            && seq_has_coord(rs[k0].tiles@, x, y);
                    let rt = rs[k0].tiles@;
                    let i = choose|i: int| 0 <= i < rt.len() && rt[i].0 == x && rt[i].1 == y;
                    crate::reach::lemma_reachable_sym(
                        g0,
                        w,
                        h,
                        TileClass::Exact(t),
                        rt[0].0 as int,
                        rt[0].1 as int,
                        x,
                        y,
                    );
                    crate::reach::lemma_reachable_target(
                        g0,
                        w,
                        h,
                        TileClass::Exact(t),
                        rt[0].0 as int,
                        rt[0].1 as int,
                        x,
                        y,
                    );
                    crate::reach::lemma_component_card(
                        g0,
                        w,
                        h,
                        TileClass::Exact(t),
                        rt[0].0 as int,
                        rt[0].1 as int,
                        rt,
                    );
                    crate::reach::lemma_component_same(
                        g0,
                        w,
                        h,
                        TileClass::Exact(t),
                        rt[0].0 as int,
                        rt[0].1 as int,
                        x,
                        y,
                    );
                    assert(reachable(
                        g0,
                        w,
                        h,
                        TileClass::Exact(t),
                        x,
                        y,
                        rt[0].0 as int,
                        rt[0].1 as int,
                    ));
                    assert(cleanup_removes(g0, w, h, t, size_threshold as int, x, y));
                }
            }
        }
        assert(cleanup_rel(g0, tiles@, w, h, t, r, size_threshold as int));
        lemma_cleanup_no_small_regions(g0, tiles@, w, h, t, r, size_threshold as int);
    }
}

/// Fills every cell with the wall tile with probability
/// `initial_fill_percent` out of 100, else with the floor tile. The draws
/// lie in [0, 100), so a percentage at or below zero fills pure floor and
/// one at or above a hundred pure wall.
pub fn random_fill(
    tiles: &mut Vec<TileType>,
    rng: &mut RandomStream,
    wall: TileType,
    floor: TileType,
    initial_fill_percent: i32,
)
    ensures
        final(tiles)@.len() == old(tiles)@.len(),
        forall|i: int|
            0 <= i < final(tiles)@.len() ==> final(tiles)@[i] == wall || final(tiles)@[i] == floor,
        initial_fill_percent <= 0 ==> forall|i: int|
            0 <= i < final(tiles)@.len() ==> final(tiles)@[i] == floor,
        initial_fill_percent >= 100 ==> forall|i: int|
            0 <= i < final(tiles)@.len() ==> final(tiles)@[i] == wall,
{
    let n = tiles.len();
    for i in 0..n
        invariant
            tiles@.len() == n,
            forall|j: int| 0 <= j < i ==> tiles@[j] == wall || tiles@[j] == floor,
            initial_fill_percent <= 0 ==> forall|j: int| 0 <= j < i ==> tiles@[j] == floor,
            initial_fill_percent >= 100 ==> forall|j: int| 0 <= j < i ==> tiles@[j] == wall,
    {
        if rng.gen_range(0, 100) < initial_fill_percent {
            tiles.set(i, wall);
        } else {
            tiles.set(i, floor);
        }
    }
}

/// Forces every cell on the outer ring of the grid to the wall tile,
/// guaranteeing the map is enclosed; interior cells are untouched.
pub fn add_map_edges(width: usize, height: usize, tiles: &mut Vec<TileType>, wall: TileType)
    requires
        grid_wf(width as int, height as int, old(tiles)@),
    ensures
        final(tiles)@.len() == old(tiles)@.len(),
        forall|x: int, y: int|
            in_grid(width as int, height as int, x, y) ==> final(tiles)@[grid_index(
                width as int,
                x,
                y,
            )] == (if on_border(width as int, height as int, x, y) {
                wall
            } else {
                old(tiles)@[grid_index(width as int, x, y)]
            }),
{
    let ghost w = width as int;
    let ghost h = height as int;
    for x in 0..width
        invariant
            grid_wf(w, h, tiles@),
            w == width as int && h == height as int,
            tiles@.len() == old(tiles)@.len(),
            forall|a: int, b: int|
                in_grid(w, h, a, b) && !(b == 0 || b == h - 1) ==> tiles@[grid_index(w, a, b)]
                    == old(tiles)@[grid_index(w, a, b)],
            forall|a: int, b: int|
                in_grid(w, h, a, b) && a < x && (b == 0 || b == h - 1) ==> tiles@[grid_index(
                    w,
                    a,
                    b,
                )] == wall,
    {
        proof {
            lemma_grid_index_bounds(w, h, x as int, 0);
            lemma_grid_index_bounds(w, h, x as int, h - 1);
            crate::grid::lemma_mul_bound(h - 1, w);
        }
        tiles.set(x, wall);
        tiles.set(x + (height - 1) * width, wall);
        proof {
            assert forall|a: int, b: int|
                in_grid(w, h, a, b) && !(b == 0 || b == h - 1) implies tiles@[grid_index(w, a, b)]
                == old(tiles)@[grid_index(w, a, b)] by {
                lemma_grid_index_bounds(w, h, a, b);
                crate::grid::lemma_grid_index_injective(w, h, a, b, x as int, 0);
                crate::grid::lemma_grid_index_injective(w, h, a, b, x as int, h - 1);
            }
        }
    }
    for y in 0..height
        invariant
            grid_wf(w, h, tiles@),
            w == width as int && h == height as int,
            tiles@.len() == old(tiles)@.len(),
            forall|a: int, b: int|
                in_grid(w, h, a, b) && !(b == 0 || b == h - 1) && !(a == 0 || a == w - 1)
                    ==> tiles@[grid_index(w, a, b)] == old(tiles)@[grid_index(w, a, b)],
            forall|a: int, b: int|
                in_grid(w, h, a, b) && (b == 0 || b == h - 1) ==> tiles@[grid_index(w, a, b)]
                    == wall,
            forall|a: int, b: int|
                in_grid(w, h, a, b) && b < y && (a == 0 || a == w - 1) ==> tiles@[grid_index(
                    w,
                    a,
                    b,
                )] == wall,
    {
        proof {
            lemma_grid_index_bounds(w, h, 0, y as int);
            lemma_grid_index_bounds(w, h, w - 1, y as int);
            crate::grid::lemma_mul_bound(y as int, w);
        }
        tiles.set(y * width, wall);
        tiles.set((width - 1) + y * width, wall);
        proof {
            assert forall|a: int, b: int|
                in_grid(w, h, a, b) && !(b == 0 || b == h - 1) && !(a == 0 || a == w - 1) implies
                tiles@[grid_index(w, a, b)] == old(tiles)@[grid_index(w, a, b)] by {
                lemma_grid_index_bounds(w, h, a, b);
                crate::grid::lemma_grid_index_injective(w, h, a, b, 0, y as int);
                crate::grid::lemma_grid_index_injective(w, h, a, b, w - 1, y as int);
            }
            assert forall|a: int, b: int|
                in_grid(w, h, a, b) && (b == 0 || b == h - 1) implies tiles@[grid_index(w, a, b)]
                == wall by {
                lemma_grid_index_bounds(w, h, a, b);
                crate::grid::lemma_grid_index_injective(w, h, a, b, 0, y as int);
                crate::grid::lemma_grid_index_injective(w, h, a, b, w - 1, y as int);
            }
            assert forall|a: int, b: int|
                in_grid(w, h, a, b) && b < y + 1 && (a == 0 || a == w - 1) implies tiles@[grid_index(
                w,
                a,
                b,
            )] == wall by {
                lemma_grid_index_bounds(w, h, a, b);
                crate::grid::lemma_grid_index_injective(w, h, a, b, 0, y as int);
                crate::grid::lemma_grid_index_injective(w, h, a, b, w - 1, y as int);
                crate::grid::lemma_grid_index_injective(w, h, 0, y as int, w - 1, y as int);
            }
        }
    }
}

/// What a single in-place automaton or feature pass may do to a cell: leave
/// it, or rewrite it while staying inside the stated before/after sets.
pub open spec fn cell_step_ok(
    old_t: TileType,
    new_t: TileType,
    wall: TileType,
    floor: TileType,
) -> bool {
    new_t == old_t || new_t == wall || new_t == floor
}

/// What one automaton visit does to the cell at (x, y): a wall cell dies
/// to floor below 2 wall neighbors, a non-wall cell is born into wall at 5
/// or more, and anything else stays.
pub open spec fn gen_rule(
    g: Seq<TileType>,
    w: int,
    h: int,
    wall: TileType,
    floor: TileType,
    x: int,
    y: int,
) -> TileType {
    let cnt = surrounding_count(g, w, h, wall, x, y);
    let cur = g[grid_index(w, x, y)];
    if cur == wall {
        if cnt < 2 {
            floor
        } else {
            wall
        }
    } else {
        if cnt >= 5 {
            wall
        } else {
            cur
        }
    }
}

/// The grid after the first k interior cells of the generation pass have
/// been visited, in the pass's column-by-column order; each visit reads the
/// partially updated grid, exactly as the in-place pass does.
pub open spec fn generation_pass_upto(
    g0: Seq<TileType>,
    w: int,
    h: int,
    wall: TileType,
    floor: TileType,
    k: nat,
) -> Seq<TileType>
    decreases k,
{
    if k == 0 {
        g0
    } else {
        let prev = generation_pass_upto(g0, w, h, wall, floor, (k - 1) as nat);
        let x = 1 + (k - 1) as int / (h - 2);
        let y = 1 + (k - 1) as int % (h - 2);
        prev.update(grid_index(w, x, y), gen_rule(prev, w, h, wall, floor, x, y))
    }
}

/// The whole generation pass: every interior cell visited once.
pub open spec fn spec_perform_generation(
    g0: Seq<TileType>,
    w: int,
    h: int,
    wall: TileType,
    floor: TileType,
) -> Seq<TileType> {
    generation_pass_upto(g0, w, h, wall, floor, ((w - 2) * (h - 2)) as nat)
}

/// Performs a single generation of the cellular automaton according to the
/// B5678/S45678 rule: a wall cell dies to floor below 2 wall neighbors, a
/// non-wall cell is born into wall at 5 or more. Only interior cells are
/// mutated; the sealed border stays as it is.
pub fn perform_generation(
    width: usize,
    height: usize,
    tiles: &mut Vec<TileType>,
    wall: TileType,
    floor: TileType,
)
    requires
        grid_wf(width as int, height as int, old(tiles)@),
    ensures
        final(tiles)@.len() == old(tiles)@.len(),
        forall|x: int, y: int|
            in_grid(width as int, height as int, x, y) && on_border(width as int, height as int, x, y)
                ==> final(tiles)@[grid_index(width as int, x, y)] == old(tiles)@[grid_index(
                width as int,
                x,
                y,
            )],
        forall|i: int|
            0 <= i < final(tiles)@.len() ==> cell_step_ok(old(tiles)@[i], final(tiles)@[i], wall, floor),
        final(tiles)@ == spec_perform_generation(
            old(tiles)@,
            width as int,
            height as int,
            wall,
            floor,
        ),
{
    let ghost w = width as int;
    let ghost h = height as int;
    proof {
        crate::grid::lemma_mul_bound(w - 2, h - 2);
        assert(generation_pass_upto(old(tiles)@, w, h, wall, floor, 0nat) == old(tiles)@);
        assert(((1 - 1) * (h - 2)) as nat == 0nat);
        assert(tiles@ == generation_pass_upto(
            old(tiles)@,
            w,
            h,
            wall,
            floor,
            ((1 - 1) * (h - 2)) as nat,
        ));
    }
    for x in 1..width - 1
        invariant
            grid_wf(w, h, tiles@),
            w == width as int && h == height as int,
            tiles@.len() == old(tiles)@.len(),
            forall|a: int, b: int|
                in_grid(w, h, a, b) && on_border(w, h, a, b) ==> tiles@[grid_index(w, a, b)] == old(
                    tiles,
                )@[grid_index(w, a, b)],
            forall|i: int| 0 <= i < tiles@.len() ==> cell_step_ok(old(tiles)@[i], tiles@[i], wall, floor),
            tiles@ == generation_pass_upto(
                old(tiles)@,
                w,
                h,
                wall,
                floor,
                ((x - 1) * (h - 2)) as nat,
            ),
    {
        proof {
            crate::grid::lemma_mul_bound(x as int - 1, h - 2);
            crate::grid::lemma_mul_bound(x as int, h - 2);
            assert((x as int) * (h - 2) == (x as int - 1) * (h - 2) + (h - 2)) by (nonlinear_arith);
        }
        for y in 1..height - 1
            invariant
                grid_wf(w, h, tiles@),
                w == width as int && h == height as int,
                1 <= x < width - 1,
                tiles@.len() == old(tiles)@.len(),
                forall|a: int, b: int|
                    in_grid(w, h, a, b) && on_border(w, h, a, b) ==> tiles@[grid_index(w, a, b)]
                        == old(tiles)@[grid_index(w, a, b)],
                forall|i: int|
                    0 <= i < tiles@.len() ==> cell_step_ok(old(tiles)@[i], tiles@[i], wall, floor),
                tiles@ == generation_pass_upto(
                    old(tiles)@,
                    w,
                    h,
                    wall,
                    floor,
                    ((x - 1) * (h - 2) + (y - 1)) as nat,
                ),
        {
            let ghost k: int = (x as int - 1) * (h - 2) + (y as int - 1);
            let ghost pre = tiles@;
            proof {
                crate::grid::lemma_mul_bound(x as int - 1, h - 2);
                vstd::arithmetic::div_mod::lemma_fundamental_div_mod_converse(
                    k,
                    h - 2,
                    x as int - 1,
                    y as int - 1,
                );
                assert(1 + k / (h - 2) == x as int && 1 + k % (h - 2) == y as int);
            }
            let surrounding_wall_count = get_surrounding_neighbor_count(
                width,
                height,
                tiles,
                wall,
                x as i32,
                y as i32,
            );
            proof {
                lemma_grid_index_bounds(w, h, x as int, y as int);
                crate::grid::lemma_mul_bound(y as int, w);
            }
            let idx = x + y * width;
            if tiles[idx] == wall {
                if surrounding_wall_count >= 4 {
                    tiles.set(idx, wall);
                }
                if surrounding_wall_count < 2 {
                    tiles.set(idx, floor);
                }
            } else {
                if surrounding_wall_count >= 5 {
                    tiles.set(idx, wall);
                }
            }
            proof {
                assert forall|a: int, b: int|
                    in_grid(w, h, a, b) && on_border(w, h, a, b) implies tiles@[grid_index(w, a, b)]
                    == old(tiles)@[grid_index(w, a, b)] by {
                    lemma_grid_index_bounds(w, h, a, b);
                    crate::grid::lemma_grid_index_injective(w, h, a, b, x as int, y as int);
                }
                // this visit performed exactly one rule application
                assert(tiles@ =~= pre.update(
                    grid_index(w, x as int, y as int),
                    gen_rule(pre, w, h, wall, floor, x as int, y as int),
                ));
                assert(tiles@ == generation_pass_upto(
                    old(tiles)@,
                    w,
                    h,
                    wall,
                    floor,
                    (k + 1) as nat,
                ));
            }
        }
    }
    proof {
        assert(((width as int - 2) * (h - 2)) as nat == (((width - 1) as int - 1) * (h - 2)) as nat);
    }
}

/// What one smoothing visit does to the cell at (x, y): wall above 4 wall
/// neighbors, floor below 4, unchanged at exactly 4.
pub open spec fn smooth_rule(
    g: Seq<TileType>,
    w: int,
    h: int,
    wall: TileType,
    floor: TileType,
    x: int,
    y: int,
) -> TileType {
    let cnt = surrounding_count(g, w, h, wall, x, y);
    if cnt > 4 {
        wall
    } else if cnt < 4 {
        floor
    } else {
        g[grid_index(w, x, y)]
    }
}

/// The grid after the first k interior cells of the smoothing pass have
/// been visited, in the pass's column-by-column order.
pub open spec fn smooth_pass_upto(
    g0: Seq<TileType>,
    w: int,
    h: int,
    wall: TileType,
    floor: TileType,
    k: nat,
) -> Seq<TileType>
    decreases k,
{
    if k == 0 {
        g0
    } else {
        let prev = smooth_pass_upto(g0, w, h, wall, floor, (k - 1) as nat);
        let x = 1 + (k - 1) as int / (h - 2);
        let y = 1 + (k - 1) as int % (h - 2);
        prev.update(grid_index(w, x, y), smooth_rule(prev, w, h, wall, floor, x, y))
    }
}

/// The whole smoothing pass: every interior cell visited once.
pub open spec fn spec_smooth(
    g0: Seq<TileType>,
    w: int,
    h: int,
    wall: TileType,
    floor: TileType,
) -> Seq<TileType> {
    smooth_pass_upto(g0, w, h, wall, floor, ((w - 2) * (h - 2)) as nat)
}

/// Applies a gentler single-threshold ruleset to smooth out jagged edges:
/// wall above 4 wall neighbors, floor below 4, unchanged at exactly 4.
pub fn smooth(
    width: usize,
    height: usize,
    tiles: &mut Vec<TileType>,
    wall: TileType,
    floor: TileType,
)
    requires
        grid_wf(width as int, height as int, old(tiles)@),
    ensures
        final(tiles)@.len() == old(tiles)@.len(),
        forall|x: int, y: int|
            in_grid(width as int, height as int, x, y) && on_border(width as int, height as int, x, y)
                ==> final(tiles)@[grid_index(width as int, x, y)] == old(tiles)@[grid_index(
                width as int,
                x,
                y,
            )],
        forall|i: int|
            0 <= i < final(tiles)@.len() ==> cell_step_ok(old(tiles)@[i], final(tiles)@[i], wall, floor),
        final(tiles)@ == spec_smooth(old(tiles)@, width as int, height as int, wall, floor),
{
    let ghost w = width as int;
    let ghost h = height as int;
    proof {
        crate::grid::lemma_mul_bound(w - 2, h - 2);
        assert(smooth_pass_upto(old(tiles)@, w, h, wall, floor, 0nat) == old(tiles)@);
        assert(((1 - 1) * (h - 2)) as nat == 0nat);
        assert(tiles@ == smooth_pass_upto(
            old(tiles)@,
            w,
            h,
            wall,
            floor,
            ((1 - 1) * (h - 2)) as nat,
        ));
    }
    for x in 1..width - 1
        invariant
            grid_wf(w, h, tiles@),
            w == width as int && h == height as int,
            tiles@.len() == old(tiles)@.len(),
            forall|a: int, b: int|
                in_grid(w, h, a, b) && on_border(w, h, a, b) ==> tiles@[grid_index(w, a, b)] == old(
                    tiles,
                )@[grid_index(w, a, b)],
            forall|i: int| 0 <= i < tiles@.len() ==> cell_step_ok(old(tiles)@[i], tiles@[i], wall, floor),
            tiles@ == smooth_pass_upto(old(tiles)@, w, h, wall, floor, ((x - 1) * (h - 2)) as nat),
    {
        proof {
            crate::grid::lemma_mul_bound(x as int - 1, h - 2);
            crate::grid::lemma_mul_bound(x as int, h - 2);
            assert((x as int) * (h - 2) == (x as int - 1) * (h - 2) + (h - 2)) by (nonlinear_arith);
        }
        for y in 1..height - 1
            invariant
                grid_wf(w, h, tiles@),
                w == width as int && h == height as int,
                1 <= x < width - 1,
                tiles@.len() == old(tiles)@.len(),
                forall|a: int, b: int|
                    in_grid(w, h, a, b) && on_border(w, h, a, b) ==> tiles@[grid_index(w, a, b)]
                        == old(tiles)@[grid_index(w, a, b)],
                forall|i: int|
                    0 <= i < tiles@.len() ==> cell_step_ok(old(tiles)@[i], tiles@[i], wall, floor),
                tiles@ == smooth_pass_upto(
                    old(tiles)@,
                    w,
                    h,
                    wall,
                    floor,
                    ((x - 1) * (h - 2) + (y - 1)) as nat,
                ),
        {
            let ghost k: int = (x as int - 1) * (h - 2) + (y as int - 1);
            let ghost pre = tiles@;
            proof {
                crate::grid::lemma_mul_bound(x as int - 1, h - 2);
                vstd::arithmetic::div_mod::lemma_fundamental_div_mod_converse(
                    k,
                    h - 2,
                    x as int - 1,
                    y as int - 1,
                );
                assert(1 + k / (h - 2) == x as int && 1 + k % (h - 2) == y as int);
            }
            let surrounding_wall_count = get_surrounding_neighbor_count(
                width,
                height,
                tiles,
                wall,
                x as i32,
                y as i32,
            );
            proof {
                lemma_grid_index_bounds(w, h, x as int, y as int);
                crate::grid::lemma_mul_bound(y as int, w);
            }
            let idx = x + y * width;
            if surrounding_wall_count > 4 {
                tiles.set(idx, wall);
            } else if surrounding_wall_count < 4 {
                tiles.set(idx, floor);
            }
            proof {
                assert forall|a: int, b: int|
                    in_grid(w, h, a, b) && on_border(w, h, a, b) implies tiles@[grid_index(w, a, b)]
                    == old(tiles)@[grid_index(w, a, b)] by {
                    lemma_grid_index_bounds(w, h, a, b);
                    crate::grid::lemma_grid_index_injective(w, h, a, b, x as int, y as int);
                }
                // this visit performed exactly one rule application
                assert(tiles@ =~= pre.update(
                    grid_index(w, x as int, y as int),
                    smooth_rule(pre, w, h, wall, floor, x as int, y as int),
                ));
                assert(tiles@ == smooth_pass_upto(old(tiles)@, w, h, wall, floor, (k + 1) as nat));
            }
        }
    }
    proof {
        assert(((width as int - 2) * (h - 2)) as nat == (((width - 1) as int - 1) * (h - 2)) as nat);
    }
}

/// The set of cells a dig at (cx, cy) with the given radius covers.
pub open spec fn in_dig_disk(cx: int, cy: int, radius: int, x: int, y: int) -> bool {
    &&& cx - radius <= x < cx + radius
    &&& cy - radius <= y < cy + radius
    &&& (x - cx) * (x - cx) + (y - cy) * (y - cy) <= radius * radius
}

/// Digs a circle of floor tiles of a given radius at a point; cells of the
/// circle that fall outside the grid are skipped.
pub fn dig_circle(
    width: usize,
    height: usize,
    tile: (i32, i32),
    radius: i32,
    tiles: &mut Vec<TileType>,
    floor: TileType,
)
    requires
        grid_wf(width as int, height as int, old(tiles)@),
        0 <= radius <= 1024,
    ensures
        final(tiles)@.len() == old(tiles)@.len(),
        forall|x: int, y: int|
            in_grid(width as int, height as int, x, y) ==> final(tiles)@[grid_index(width as int, x, y)]
                == (if in_dig_disk(tile.0 as int, tile.1 as int, radius as int, x, y) {
                floor
            } else {
                old(tiles)@[grid_index(width as int, x, y)]
            }),
{
    let ghost w = width as int;
    let ghost h = height as int;
    let ghost cx = tile.0 as int;
    let ghost cy = tile.1 as int;
    let mut dx: i32 = -radius;
    while dx < radius
        invariant
            grid_wf(w, h, tiles@),
            w == width as int && h == height as int,
            cx == tile.0 as int && cy == tile.1 as int,
            0 <= radius <= 1024,
            -radius <= dx <= radius,
            tiles@.len() == old(tiles)@.len(),
            forall|x: int, y: int|
                in_grid(w, h, x, y) ==> tiles@[grid_index(w, x, y)] == (if in_dig_disk(
                    cx,
                    cy,
                    radius as int,
                    x,
                    y,
                ) && x < cx + dx {
                    floor
                } else {
                    old(tiles)@[grid_index(w, x, y)]
                }),
        decreases radius - dx,
    {
        let mut dy: i32 = -radius;
        while dy < radius
            invariant
                grid_wf(w, h, tiles@),
                w == width as int && h == height as int,
                cx == tile.0 as int && cy == tile.1 as int,
                0 <= radius <= 1024,
                -radius <= dx < radius,
                -radius <= dy <= radius,
                tiles@.len() == old(tiles)@.len(),
                forall|x: int, y: int|
                    in_grid(w, h, x, y) ==> tiles@[grid_index(w, x, y)] == (if in_dig_disk(
                        cx,
                        cy,
                        radius as int,
                        x,
                        y,
                    ) && (x < cx + dx || (x == cx + dx && y < cy + dy)) {
                        floor
                    } else {
                        old(tiles)@[grid_index(w, x, y)]
                    }),
            decreases radius - dy,
        {
            proof {
                assert(0 <= (dx as int) * (dx as int) <= 0x100000 && 0 <= (dy as int) * (dy
                    as int) <= 0x100000 && 0 <= (radius as int) * (radius as int) <= 0x100000)
                    by (nonlinear_arith)
                    requires
                        -1024 <= dx as int <= 1024,
                        -1024 <= dy as int <= 1024,
                        0 <= radius as int <= 1024,
                ;
            }
            if dx * dx + dy * dy <= radius * radius {
                let dig_x: i64 = tile.0 as i64 + dx as i64;
                let dig_y: i64 = tile.1 as i64 + dy as i64;
                if dig_x >= 0 && dig_x < width as i64 && dig_y >= 0 && dig_y < height as i64 {
                    proof {
                        lemma_grid_index_bounds(w, h, dig_x as int, dig_y as int);
                        crate::grid::lemma_mul_bound(dig_y as int, w);
                    }
                    let idx = (dig_x as usize) + (dig_y as usize) * width;
                    tiles.set(idx, floor);
                }
            }
            proof {
                assert forall|x: int, y: int| in_grid(w, h, x, y) implies tiles@[grid_index(w, x, y)]
                    == (if in_dig_disk(cx, cy, radius as int, x, y) && (x < cx + dx || (x == cx + dx
                    && y < cy + dy + 1)) {
                    floor
                } else {
                    old(tiles)@[grid_index(w, x, y)]
                }) by {
                    lemma_grid_index_bounds(w, h, x, y);
                    if in_grid(w, h, cx + dx, cy + dy) {
                        crate::grid::lemma_grid_index_injective(w, h, x, y, cx + dx, cy + dy);
                    }
                }
            }
            dy = dy + 1;
        }
        dx = dx + 1;
    }
}

/// A wall cell all of whose in-bounds neighbors are wall too: the player
/// can never see it.
pub open spec fn wall_enclosed(
    g: Seq<TileType>,
    w: int,
    h: int,
    wall: TileType,
    x: int,
    y: int,
) -> bool {
    g[grid_index(w, x, y)] == wall && crate::grid::surrounding_other_count(g, w, h, wall, x, y) == 0
}

/// An enclosed wall away from the border ring: the only cells the cleanup
/// sweep removes. Border cells are kept, so the map stays enclosed by wall.
pub open spec fn unseen_wall(
    g: Seq<TileType>,
    w: int,
    h: int,
    wall: TileType,
    x: int,
    y: int,
) -> bool {
    !on_border(w, h, x, y) && wall_enclosed(g, w, h, wall, x, y)
}

/// Removes wall tiles that can never be seen: every wall tile off the
/// border ring all of whose neighbors are also wall becomes the empty
/// tile. The border ring is kept, so the enclosure survives the sweep.
pub fn remove_unseen_walls(
    width: usize,
    height: usize,
    tiles: &mut Vec<TileType>,
    wall: TileType,
    floor: TileType,
)
    requires
        grid_wf(width as int, height as int, old(tiles)@),
    ensures
        final(tiles)@.len() == old(tiles)@.len(),
        forall|x: int, y: int|
            in_grid(width as int, height as int, x, y) ==> final(tiles)@[grid_index(
                width as int,
                x,
                y,
            )] == (if unseen_wall(old(tiles)@, width as int, height as int, wall, x, y) {
                TileType::Empty
            } else {
                old(tiles)@[grid_index(width as int, x, y)]
            }),
{
    let ghost w = width as int;
    let ghost h = height as int;
    let ghost g0 = old(tiles)@;
    let mut flagged_points: Vec<(usize, usize)> = Vec::new();
    let mut x: usize = 0;
    while x < width
        invariant
            grid_wf(w, h, g0),
            w == width as int && h == height as int && g0 == tiles@,
            0 <= x <= width,
            forall|k: int|
                0 <= k < flagged_points@.len() ==> in_grid(
                    w,
                    h,
                    (#[trigger] flagged_points@[k]).0 as int,
                    flagged_points@[k].1 as int,
                ) && unseen_wall(g0, w, h, wall, flagged_points@[k].0 as int, flagged_points@[k].1 as int),
            forall|a: int, b: int|
                0 <= a < x && 0 <= b < h && unseen_wall(g0, w, h, wall, a, b) ==> exists|k: int|
                    0 <= k < flagged_points@.len() && (#[trigger] flagged_points@[k]).0 == a
                        && flagged_points@[k].1 == b,
        decreases width - x,
    {
        let mut y: usize = 0;
        while y < height
            invariant
                grid_wf(w, h, g0),
                w == width as int && h == height as int && g0 == tiles@,
                0 <= x < width,
                0 <= y <= height,
                forall|k: int|
                    0 <= k < flagged_points@.len() ==> in_grid(
                        w,
                        h,
                        (#[trigger] flagged_points@[k]).0 as int,
                        flagged_points@[k].1 as int,
                    ) && unseen_wall(g0, w, h, wall, flagged_points@[k].0 as int, flagged_points@[k].1 as int),
                forall|a: int, b: int|
                    0 <= a < x && 0 <= b < h && unseen_wall(g0, w, h, wall, a, b) ==> exists|k: int|
                        0 <= k < flagged_points@.len() && (#[trigger] flagged_points@[k]).0 == a
                            && flagged_points@[k].1 == b,
                forall|b: int|
                    0 <= b < y && unseen_wall(g0, w, h, wall, x as int, b) ==> exists|k: int|
                        0 <= k < flagged_points@.len() && (#[trigger] flagged_points@[k]).0
                            == x as int && flagged_points@[k].1 == b,
            decreases height - y,
        {
            proof {
                lemma_grid_index_bounds(w, h, x as int, y as int);
                crate::grid::lemma_mul_bound(y as int, w);
            }
            let idx = x + y * width;
            let ghost fp_old = flagged_points@;
            if x > 0 && y > 0 && x + 1 < width && y + 1 < height && tiles[idx] == wall
                && crate::grid::get_surrounding_other_count(
                width,
                height,
                tiles,
                wall,
                x as i32,
                y as i32,
            ) == 0 {
                flagged_points.push((x, y));
                proof {
                    assert(flagged_points@[flagged_points@.len() - 1] == (x, y));
                    assert forall|a: int, b: int|
                        0 <= a < x && 0 <= b < h && unseen_wall(g0, w, h, wall, a, b) implies exists|k: int|
                        0 <= k < flagged_points@.len() && (#[trigger] flagged_points@[k]).0 == a
                            && flagged_points@[k].1 == b by {
                        let k = choose|k: int|
                            0 <= k < fp_old.len() && (#[trigger] fp_old[k]).0 == a && fp_old[k].1
                                == b;
                        assert(flagged_points@[k] == fp_old[k]);
                    }
                    assert forall|b: int|
                        0 <= b < y + 1 && unseen_wall(g0, w, h, wall, x as int, b) implies exists|k: int|
                        0 <= k < flagged_points@.len() && (#[trigger] flagged_points@[k]).0
                            == x as int && flagged_points@[k].1 == b by {
                        if b < y {
                            let k = choose|k: int|
                                0 <= k < fp_old.len() && (#[trigger] fp_old[k]).0 == x as int
                                    && fp_old[k].1 == b;
                            assert(flagged_points@[k] == fp_old[k]);
                        } else {
                            assert(flagged_points@[flagged_points@.len() - 1].0 == x as int
                                && flagged_points@[flagged_points@.len() - 1].1 == b);
                        }
                    }
                }
            }
            y = y + 1;
        }
        x = x + 1;
    }
    let n = flagged_points.len();
    let mut j: usize = 0;
    while j < n
        invariant
            grid_wf(w, h, g0),
            w == width as int && h == height as int,
            n == flagged_points@.len(),
            0 <= j <= n,
            tiles@.len() == g0.len(),
            forall|k: int|
                0 <= k < flagged_points@.len() ==> in_grid(
                    w,
                    h,
                    (#[trigger] flagged_points@[k]).0 as int,
                    flagged_points@[k].1 as int,
                ) && unseen_wall(g0, w, h, wall, flagged_points@[k].0 as int, flagged_points@[k].1 as int),
            forall|a: int, b: int|
                in_grid(w, h, a, b) && unseen_wall(g0, w, h, wall, a, b) ==> exists|k: int|
                    0 <= k < flagged_points@.len() && (#[trigger] flagged_points@[k]).0 == a
                        && flagged_points@[k].1 == b,
            forall|a: int, b: int|
                in_grid(w, h, a, b) ==> tiles@[grid_index(w, a, b)] == (if unseen_wall(g0, w, h, wall, a, b) && (
                exists|k: int|
                    0 <= k < j && (#[trigger] flagged_points@[k]).0 == a && flagged_points@[k].1
                        == b) {
                    TileType::Empty
                } else {
                    g0[grid_index(w, a, b)]
                }),
        decreases n - j,
    {
        let p = flagged_points[j];
        proof {
            lemma_grid_index_bounds(w, h, p.0 as int, p.1 as int);
            crate::grid::lemma_mul_bound(p.1 as int, w);
            assert(flagged_points@[j as int] == p);
        }
        tiles.set(p.0 + p.1 * width, TileType::Empty);
        proof {
            assert forall|a: int, b: int| in_grid(w, h, a, b) implies tiles@[grid_index(w, a, b)]
                == (if unseen_wall(g0, w, h, wall, a, b) && (exists|k: int|
                0 <= k < j + 1 && (#[trigger] flagged_points@[k]).0 == a && flagged_points@[k].1
                    == b) {
                TileType::Empty
            } else {
                g0[grid_index(w, a, b)]
            }) by {
                lemma_grid_index_bounds(w, h, a, b);
                crate::grid::lemma_grid_index_injective(w, h, a, b, p.0 as int, p.1 as int);
                if a == p.0 as int && b == p.1 as int {
                    assert(flagged_points@[j as int].0 == a && flagged_points@[j as int].1 == b);
                    assert(unseen_wall(g0, w, h, wall, a, b));
                } else {
                    if exists|k: int|
                        0 <= k < j + 1 && (#[trigger] flagged_points@[k]).0 == a
                            && flagged_points@[k].1 == b {
                        let k = choose|k: int|
                            0 <= k < j + 1 && (#[trigger] flagged_points@[k]).0 == a
                                && flagged_points@[k].1 == b;
                        assert(k < j);
                    }
                }
            }
        }
        j = j + 1;
    }
    proof {
        assert forall|x: int, y: int| in_grid(w, h, x, y) implies tiles@[grid_index(w, x, y)] == (
        if unseen_wall(g0, w, h, wall, x, y) {
            TileType::Empty
        } else {
            g0[grid_index(w, x, y)]
        }) by {
            lemma_grid_index_bounds(w, h, x, y);
        }
    }
}

/// Whether (x, y) lies strictly inside the border ring: the only cells the
/// planting pass visits.
pub open spec fn in_interior(w: int, h: int, x: int, y: int) -> bool {
    1 <= x < w - 1 && 1 <= y < h - 1
}

/// Like `random_fill`, but places the small variant of a foliage type on
/// floor cells according to the given density. The draws lie in [0, 100),
/// so a density at or below zero plants nothing and one at or above a
/// hundred converts every interior floor cell; the border ring is never
/// touched.
pub fn plant(
    width: usize,
    height: usize,
    tiles: &mut Vec<TileType>,
    number_generator: &mut RandomStream,
    flora_type: TileType,
    floor: TileType,
    density: i32,
)
    requires
        grid_wf(width as int, height as int, old(tiles)@),
        crate::tile::spec_is_foliage(flora_type),
    ensures
        final(tiles)@.len() == old(tiles)@.len(),
        forall|x: int, y: int|
            in_grid(width as int, height as int, x, y) && !in_interior(
                width as int,
                height as int,
                x,
                y,
            ) ==> final(tiles)@[grid_index(width as int, x, y)] == old(tiles)@[grid_index(
                width as int,
                x,
                y,
            )],
        forall|i: int|
            0 <= i < final(tiles)@.len() ==> final(tiles)@[i] == old(tiles)@[i] || (old(tiles)@[i]
                == floor && final(tiles)@[i] == crate::tile::spec_small_foliage_variant(
                flora_type,
            )),
        density <= 0 ==> final(tiles)@ == old(tiles)@,
        density >= 100 ==> forall|x: int, y: int|
            in_interior(width as int, height as int, x, y) && old(tiles)@[grid_index(
                width as int,
                x,
                y,
            )] == floor ==> final(tiles)@[grid_index(width as int, x, y)]
                == crate::tile::spec_small_foliage_variant(flora_type),
{
    let ghost w = width as int;
    let ghost h = height as int;
    let small_variant = crate::tile::small_foliage_variant(flora_type);
    let mut x: usize = 1;
    while x < width - 1
        invariant
            grid_wf(w, h, tiles@),
            w == width as int && h == height as int,
            small_variant == crate::tile::spec_small_foliage_variant(flora_type),
            1 <= x <= width - 1,
            tiles@.len() == old(tiles)@.len(),
            forall|i: int|
                0 <= i < tiles@.len() ==> tiles@[i] == old(tiles)@[i] || (old(tiles)@[i] == floor
                    && tiles@[i] == crate::tile::spec_small_foliage_variant(flora_type)),
            forall|a: int, b: int|
                in_grid(w, h, a, b) && !(in_interior(w, h, a, b) && a < x) ==> tiles@[grid_index(
                    w,
                    a,
                    b,
                )] == old(tiles)@[grid_index(w, a, b)],
            density <= 0 ==> tiles@ == old(tiles)@,
            density >= 100 ==> forall|a: int, b: int|
                in_interior(w, h, a, b) && a < x && old(tiles)@[grid_index(w, a, b)] == floor
                    ==> tiles@[grid_index(w, a, b)] == crate::tile::spec_small_foliage_variant(
                    flora_type,
                ),
        decreases width - x,
    {
        let mut y: usize = 1;
        while y < height - 1
            invariant
                grid_wf(w, h, tiles@),
                w == width as int && h == height as int,
                small_variant == crate::tile::spec_small_foliage_variant(flora_type),
                1 <= x < width - 1,
                1 <= y <= height - 1,
                tiles@.len() == old(tiles)@.len(),
                forall|i: int|
                    0 <= i < tiles@.len() ==> tiles@[i] == old(tiles)@[i] || (old(tiles)@[i]
                        == floor && tiles@[i] == crate::tile::spec_small_foliage_variant(
                        flora_type,
                    )),
                forall|a: int, b: int|
                    in_grid(w, h, a, b) && !(in_interior(w, h, a, b) && (a < x || (a == x && b < y)))
                        ==> tiles@[grid_index(w, a, b)] == old(tiles)@[grid_index(w, a, b)],
                density <= 0 ==> tiles@ == old(tiles)@,
                density >= 100 ==> forall|a: int, b: int|
                    in_interior(w, h, a, b) && (a < x || (a == x && b < y)) && old(tiles)@[grid_index(
                        w,
                        a,
                        b,
                    )] == floor ==> tiles@[grid_index(w, a, b)]
                        == crate::tile::spec_small_foliage_variant(flora_type),
            decreases height - y,
        {
            proof {
                lemma_grid_index_bounds(w, h, x as int, y as int);
                crate::grid::lemma_mul_bound(y as int, w);
            }
            let idx = x + y * width;
            let ghost pre = tiles@;
            if tiles[idx] == floor {
                let chance = number_generator.gen_range(0, 100);
                if chance < density {
                    proof {
                        // this cell has not been visited yet, so it still
                        // holds its starting value
                        assert(tiles@[grid_index(w, x as int, y as int)] == old(tiles)@[grid_index(
                            w,
                            x as int,
                            y as int,
                        )]);
                    }
                    tiles.set(idx, small_variant);
                }
            }
            proof {
                assert forall|a: int, b: int|
                    in_grid(w, h, a, b) && !(in_interior(w, h, a, b) && (a < x || (a == x && b < y
                        + 1))) implies tiles@[grid_index(w, a, b)] == old(tiles)@[grid_index(
                    w,
                    a,
                    b,
                )] by {
                    lemma_grid_index_bounds(w, h, a, b);
                    crate::grid::lemma_grid_index_injective(w, h, a, b, x as int, y as int);
                    assert(pre[grid_index(w, a, b)] == old(tiles)@[grid_index(w, a, b)]);
                }
                if density >= 100 {
                    assert forall|a: int, b: int|
                        in_interior(w, h, a, b) && (a < x || (a == x && b < y + 1)) && old(
                            tiles,
                        )@[grid_index(w, a, b)] == floor implies tiles@[grid_index(w, a, b)]
                        == crate::tile::spec_small_foliage_variant(flora_type) by {
                        lemma_grid_index_bounds(w, h, a, b);
                        crate::grid::lemma_grid_index_injective(w, h, a, b, x as int, y as int);
                        if a == x as int && b == y as int {
                            assert(pre[grid_index(w, x as int, y as int)] == old(tiles)@[grid_index(
                                w,
                                x as int,
                                y as int,
                            )]);
                        }
                    }
                }
            }
            y = y + 1;
        }
        x = x + 1;
    }
    proof {
        assert forall|a: int, b: int|
            in_grid(w, h, a, b) && !in_interior(w, h, a, b) implies tiles@[grid_index(w, a, b)]
            == old(tiles)@[grid_index(w, a, b)] by {
            lemma_grid_index_bounds(w, h, a, b);
        }
        if density <= 0 {
            assert(tiles@ =~= old(tiles)@);
        }
    }
}

/// What one deepening visit does to the cell at (x, y): a shallow cell
/// all 8 of whose neighbors are shallow or deep liquid becomes the deep
/// variant, anything else stays.
pub open spec fn lake_depth_rule(
    g: Seq<TileType>,
    w: int,
    h: int,
    liquid_type: TileType,
    x: int,
    y: int,
) -> TileType {
    let shallow = crate::tile::spec_shallow_liquid_variant(liquid_type);
    let deep = crate::tile::spec_deep_liquid_variant(liquid_type);
    let cnt = surrounding_count(g, w, h, shallow, x, y) + surrounding_count(g, w, h, deep, x, y);
    if g[grid_index(w, x, y)] == shallow && cnt == 8 {
        deep
    } else {
        g[grid_index(w, x, y)]
    }
}

/// The grid after the first k cells of the deepening pass (which walks the
/// cells with both coordinates from 1 on, column by column) have been
/// visited; each visit reads the partially updated grid, exactly as the
/// in-place pass does.
pub open spec fn lake_depth_pass_upto(
    g0: Seq<TileType>,
    w: int,
    h: int,
    liquid_type: TileType,
    k: nat,
) -> Seq<TileType>
    decreases k,
{
    if k == 0 {
        g0
    } else {
        let prev = lake_depth_pass_upto(g0, w, h, liquid_type, (k - 1) as nat);
        let x = 1 + (k - 1) as int / (h - 1);
        let y = 1 + (k - 1) as int % (h - 1);
        prev.update(grid_index(w, x, y), lake_depth_rule(prev, w, h, liquid_type, x, y))
    }
}

/// The whole deepening pass.
pub open spec fn spec_add_lake_depth(
    g0: Seq<TileType>,
    w: int,
    h: int,
    liquid_type: TileType,
) -> Seq<TileType> {
    lake_depth_pass_upto(g0, w, h, liquid_type, ((w - 1) * (h - 1)) as nat)
}

/// Deepens committed lakes: every shallow liquid cell all 8 of whose
/// neighbors are liquid (shallow or deep) becomes the deep variant.
pub fn add_lake_depth(width: usize, height: usize, liquid_type: TileType, tiles: &mut Vec<TileType>)
    requires
        grid_wf(width as int, height as int, old(tiles)@),
        crate::tile::spec_is_liquid(liquid_type),
    ensures
        final(tiles)@.len() == old(tiles)@.len(),
        forall|i: int|
            0 <= i < final(tiles)@.len() ==> final(tiles)@[i] == old(tiles)@[i] || (old(tiles)@[i]
                == crate::tile::spec_shallow_liquid_variant(liquid_type) && final(tiles)@[i]
                == crate::tile::spec_deep_liquid_variant(liquid_type)),
        final(tiles)@ == spec_add_lake_depth(old(tiles)@, width as int, height as int, liquid_type),
{
    let ghost w = width as int;
    let ghost h = height as int;
    let shallow_variant = crate::tile::shallow_liquid_variant(liquid_type);
    let deep_variant = crate::tile::deep_liquid_variant(liquid_type);
    proof {
        crate::grid::lemma_mul_bound(w - 1, h - 1);
        assert(lake_depth_pass_upto(old(tiles)@, w, h, liquid_type, 0nat) == old(tiles)@);
        assert(((1 - 1) * (h - 1)) as nat == 0nat);
        assert(tiles@ == lake_depth_pass_upto(
            old(tiles)@,
            w,
            h,
            liquid_type,
            ((1 - 1) * (h - 1)) as nat,
        ));
    }
    let mut x: usize = 1;
    while x < width
        invariant
            grid_wf(w, h, tiles@),
            w == width as int && h == height as int,
            shallow_variant == crate::tile::spec_shallow_liquid_variant(liquid_type),
            deep_variant == crate::tile::spec_deep_liquid_variant(liquid_type),
            1 <= x <= width,
            tiles@.len() == old(tiles)@.len(),
            forall|i: int|
                0 <= i < tiles@.len() ==> tiles@[i] == old(tiles)@[i] || (old(tiles)@[i]
                    == crate::tile::spec_shallow_liquid_variant(liquid_type) && tiles@[i]
                    == crate::tile::spec_deep_liquid_variant(liquid_type)),
            tiles@ == lake_depth_pass_upto(
                old(tiles)@,
                w,
                h,
                liquid_type,
                ((x - 1) * (h - 1)) as nat,
            ),
        decreases width - x,
    {
        proof {
            crate::grid::lemma_mul_bound(x as int - 1, h - 1);
            crate::grid::lemma_mul_bound(x as int, h - 1);
            assert((x as int) * (h - 1) == (x as int - 1) * (h - 1) + (h - 1)) by (nonlinear_arith);
        }
        let mut y: usize = 1;
        while y < height
            invariant
                grid_wf(w, h, tiles@),
                w == width as int && h == height as int,
                shallow_variant == crate::tile::spec_shallow_liquid_variant(liquid_type),
                deep_variant == crate::tile::spec_deep_liquid_variant(liquid_type),
                1 <= x < width,
                1 <= y <= height,
                tiles@.len() == old(tiles)@.len(),
                forall|i: int|
                    0 <= i < tiles@.len() ==> tiles@[i] == old(tiles)@[i] || (old(tiles)@[i]
                        == crate::tile::spec_shallow_liquid_variant(liquid_type) && tiles@[i]
                        == crate::tile::spec_deep_liquid_variant(liquid_type)),
                tiles@ == lake_depth_pass_upto(
                    old(tiles)@,
                    w,
                    h,
                    liquid_type,
                    ((x - 1) * (h - 1) + (y - 1)) as nat,
                ),
            decreases height - y,
        {
            let ghost k: int = (x as int - 1) * (h - 1) + (y as int - 1);
            let ghost pre = tiles@;
            proof {
                crate::grid::lemma_mul_bound(x as int - 1, h - 1);
                vstd::arithmetic::div_mod::lemma_fundamental_div_mod_converse(
                    k,
                    h - 1,
                    x as int - 1,
                    y as int - 1,
                );
                assert(1 + k / (h - 1) == x as int && 1 + k % (h - 1) == y as int);
            }
            let amount_of_shallow = get_surrounding_neighbor_count(
                width,
                height,
                tiles,
                shallow_variant,
                x as i32,
                y as i32,
            );
            let amount_of_deep = get_surrounding_neighbor_count(
                width,
                height,
                tiles,
                deep_variant,
                x as i32,
                y as i32,
            );
            proof {
                lemma_grid_index_bounds(w, h, x as int, y as int);
                crate::grid::lemma_mul_bound(y as int, w);
            }
            let idx = x + y * width;
            if amount_of_shallow + amount_of_deep == 8 && tiles[idx] == shallow_variant {
                tiles.set(idx, deep_variant);
            }
            proof {
                // this visit performed exactly one rule application
                assert(tiles@ =~= pre.update(
                    grid_index(w, x as int, y as int),
                    lake_depth_rule(pre, w, h, liquid_type, x as int, y as int),
                ));
                assert(tiles@ == lake_depth_pass_upto(old(tiles)@, w, h, liquid_type, (k + 1) as nat));
            }
            y = y + 1;
        }
        x = x + 1;
    }
    proof {
        assert(((width as int - 1) * (h - 1)) as nat == (((width - 1) as int) * (h - 1)) as nat);
    }
}

/// What the growth pass may do to a cell: leave it, or move it between
/// floor and foliage.
pub open spec fn grow_cell_ok(old_t: TileType, new_t: TileType, floor: TileType) -> bool {
    new_t == old_t || ((old_t == floor || crate::tile::spec_is_foliage(old_t)) && (new_t == floor
        || crate::tile::spec_is_foliage(new_t)))
}

/// What one growth visit does to the cell at (x, y), reading the partially
/// updated grid: grass thrives beside water and other grass, mushrooms
/// cluster, lonely plants die back to floor, and floor sprouts beside
/// established growth.
pub open spec fn grow_rule(
    g: Seq<TileType>,
    w: int,
    h: int,
    flora_type: TileType,
    floor: TileType,
    x: int,
    y: int,
) -> TileType {
    let small = crate::tile::spec_small_foliage_variant(flora_type);
    let large = crate::tile::spec_large_foliage_variant(flora_type);
    let cs = surrounding_count(g, w, h, small, x, y);
    let cl = surrounding_count(g, w, h, large, x, y);
    let cur = g[grid_index(w, x, y)];
    if small == TileType::ShortGrass(0) {
        let cw = surrounding_count(g, w, h, TileType::ShallowWater, x, y);
        let after_grass = if cur == TileType::ShortGrass(0) {
            if cw > 0 {
                TileType::TallGrass(0)
            } else if cs + cl < 4 {
                floor
            } else {
                TileType::TallGrass(0)
            }
        } else {
            cur
        };
        if after_grass == floor {
            if cl >= 1 || cs >= 4 || (cs > 0 && cw > 0) {
                TileType::ShortGrass(0)
            } else {
                floor
            }
        } else {
            after_grass
        }
    } else if small == TileType::SmallMushroom {
        let after_shroom = if cur == TileType::SmallMushroom {
            if cs + cl > 3 {
                TileType::LargeMushroom
            } else if cs + cl < 3 {
                floor
            } else {
                TileType::SmallMushroom
            }
        } else {
            cur
        };
        if after_shroom == floor {
            if cl >= 1 {
                TileType::SmallMushroom
            } else {
                floor
            }
        } else {
            after_shroom
        }
    } else {
        cur
    }
}

/// The grid after the first k interior cells of the growth pass have been
/// visited, in the pass's column-by-column order.
pub open spec fn grow_pass_upto(
    g0: Seq<TileType>,
    w: int,
    h: int,
    flora_type: TileType,
    floor: TileType,
    k: nat,
) -> Seq<TileType>
    decreases k,
{
    if k == 0 {
        g0
    } else {
        let prev = grow_pass_upto(g0, w, h, flora_type, floor, (k - 1) as nat);
        let x = 1 + (k - 1) as int / (h - 2);
        let y = 1 + (k - 1) as int % (h - 2);
        prev.update(grid_index(w, x, y), grow_rule(prev, w, h, flora_type, floor, x, y))
    }
}

/// The squared distance between two cells.
pub open spec fn dist2(a: int, b: int, x: int, y: int) -> int {
    (a - x) * (a - x) + (b - y) * (b - y)
}

/// Whether the grid holds any shallow water at all.
pub open spec fn has_water(g: Seq<TileType>, w: int, h: int) -> bool {
    exists|a: int, b: int|
        #[trigger] in_grid(w, h, a, b) && g[grid_index(w, a, b)] == TileType::ShallowWater
}

/// m is the minimum squared distance from (x, y) to a shallow-water cell.
pub open spec fn water_min_dist2(g: Seq<TileType>, w: int, h: int, x: int, y: int, m: int) -> bool {
    &&& exists|a: int, b: int|
        #[trigger] in_grid(w, h, a, b) && g[grid_index(w, a, b)] == TileType::ShallowWater && dist2(
            a,
            b,
            x,
            y,
        ) == m
    &&& forall|a: int, b: int|
        #[trigger] in_grid(w, h, a, b) && g[grid_index(w, a, b)] == TileType::ShallowWater ==> dist2(
            a,
            b,
            x,
            y,
        ) >= m
}

/// r is the integer square root of n.
pub open spec fn is_floor_sqrt(r: int, n: int) -> bool {
    0 <= r && r * r <= n && n < (r + 1) * (r + 1)
}

/// The distance tag written onto a grass cell whose nearest shallow water
/// lies at squared distance m: one more than the rounded-down root.
pub open spec fn water_tag(m: int) -> int {
    (choose|r: int| is_floor_sqrt(r, m)) + 1
}

/// The minimum distance is unique.
pub proof fn lemma_water_min_unique(
    g: Seq<TileType>,
    w: int,
    h: int,
    x: int,
    y: int,
    m1: int,
    m2: int,
)
    requires
        water_min_dist2(g, w, h, x, y, m1),
        water_min_dist2(g, w, h, x, y, m2),
    ensures
        m1 == m2,
{
}

/// The rounded-down square root is unique.
pub proof fn lemma_floor_sqrt_unique(r1: int, r2: int, n: int)
    requires
        is_floor_sqrt(r1, n),
        is_floor_sqrt(r2, n),
    ensures
        r1 == r2,
{
    assert(r1 == r2) by (nonlinear_arith)
        requires
            0 <= r1 && r1 * r1 <= n && n < (r1 + 1) * (r1 + 1),
            0 <= r2 && r2 * r2 <= n && n < (r2 + 1) * (r2 + 1),
    ;
}

/// What the shore-distance tagging does to the cell at (x, y) of the grid
/// left by the growth visits: untagged grass within the cosmetic cutoff of
/// shallow water picks up its distance to the nearest water cell.
pub open spec fn tag_cell(g: Seq<TileType>, w: int, h: int, x: int, y: int) -> TileType {
    let cur = g[grid_index(w, x, y)];
    if (cur == TileType::ShortGrass(0) || cur == TileType::TallGrass(0)) && has_water(g, w, h) {
        let m = choose|m: int| water_min_dist2(g, w, h, x, y, m);
        if 0 <= m <= 80 {
            if cur == TileType::ShortGrass(0) {
                TileType::ShortGrass(water_tag(m) as i32)
            } else {
                TileType::TallGrass(water_tag(m) as i32)
            }
        } else {
            cur
        }
    } else {
        cur
    }
}

/// The whole tagging pass: a pointwise map over the cells with both
/// coordinates from 1 on.
pub open spec fn spec_tag_pass(g: Seq<TileType>, w: int, h: int) -> Seq<TileType> {
    Seq::new(g.len(), |i: int| if i % w >= 1 && i / w >= 1 {
        tag_cell(g, w, h, i % w, i / w)
    } else {
        g[i]
    })
}

/// The whole growth pass: every interior cell visited once by the growth
/// rule, then, for the grass family, the shore-distance tagging.
pub open spec fn spec_grow(
    g0: Seq<TileType>,
    w: int,
    h: int,
    flora_type: TileType,
    floor: TileType,
) -> Seq<TileType> {
    let mid = grow_pass_upto(g0, w, h, flora_type, floor, ((w - 2) * (h - 2)) as nat);
    if crate::tile::spec_small_foliage_variant(flora_type) == TileType::ShortGrass(0) {
        spec_tag_pass(mid, w, h)
    } else {
        mid
    }
}

/// Performs a cellular growth pass on a foliage type: small plants grow
/// large or die back depending on their neighbors, water favours growth,
/// and grass tiles near shallow water are tagged with their distance to it.
#[verifier::spinoff_prover]
#[verifier::rlimit(60)]
pub fn grow(width: usize, height: usize, tiles: &mut Vec<TileType>, flora_type: TileType, floor: TileType)
    requires
        grid_wf(width as int, height as int, old(tiles)@),
        crate::tile::spec_is_foliage(flora_type),
    ensures
        final(tiles)@.len() == old(tiles)@.len(),
        forall|i: int|
            0 <= i < final(tiles)@.len() ==> grow_cell_ok(old(tiles)@[i], final(tiles)@[i], floor),
        final(tiles)@ == spec_grow(old(tiles)@, width as int, height as int, flora_type, floor),
{
    let ghost w = width as int;
    let ghost h = height as int;
    let large_variant = crate::tile::large_foliage_variant(flora_type);
    let small_variant = crate::tile::small_foliage_variant(flora_type);
    proof {
        crate::grid::lemma_mul_bound(w - 2, h - 2);
        assert(grow_pass_upto(old(tiles)@, w, h, flora_type, floor, 0nat) == old(tiles)@);
        assert(((1 - 1) * (h - 2)) as nat == 0nat);
        assert(tiles@ == grow_pass_upto(
            old(tiles)@,
            w,
            h,
            flora_type,
            floor,
            ((1 - 1) * (h - 2)) as nat,
        ));
    }
    let mut x: usize = 1;
    while x < width - 1
        invariant
            grid_wf(w, h, tiles@),
            w == width as int && h == height as int,
            1 <= x <= width - 1,
            tiles@.len() == old(tiles)@.len(),
            small_variant == crate::tile::spec_small_foliage_variant(flora_type),
            large_variant == crate::tile::spec_large_foliage_variant(flora_type),
            forall|i: int| 0 <= i < tiles@.len() ==> grow_cell_ok(old(tiles)@[i], tiles@[i], floor),
            tiles@ == grow_pass_upto(
                old(tiles)@,
                w,
                h,
                flora_type,
                floor,
                ((x - 1) * (h - 2)) as nat,
            ),
        decreases width - x,
    {
        proof {
            crate::grid::lemma_mul_bound(x as int - 1, h - 2);
            crate::grid::lemma_mul_bound(x as int, h - 2);
            assert((x as int) * (h - 2) == (x as int - 1) * (h - 2) + (h - 2)) by (nonlinear_arith);
        }
        let mut y: usize = 1;
        while y < height - 1
            invariant
                grid_wf(w, h, tiles@),
                w == width as int && h == height as int,
                1 <= x < width - 1,
                1 <= y <= height - 1,
                tiles@.len() == old(tiles)@.len(),
                small_variant == crate::tile::spec_small_foliage_variant(flora_type),
                large_variant == crate::tile::spec_large_foliage_variant(flora_type),
                forall|i: int|
                    0 <= i < tiles@.len() ==> grow_cell_ok(old(tiles)@[i], tiles@[i], floor),
                tiles@ == grow_pass_upto(
                    old(tiles)@,
                    w,
                    h,
                    flora_type,
                    floor,
                    ((x - 1) * (h - 2) + (y - 1)) as nat,
                ),
            decreases height - y,
        {
            let ghost k: int = (x as int - 1) * (h - 2) + (y as int - 1);
            let ghost pre = tiles@;
            proof {
                crate::grid::lemma_mul_bound(x as int - 1, h - 2);
                vstd::arithmetic::div_mod::lemma_fundamental_div_mod_converse(
                    k,
                    h - 2,
                    x as int - 1,
                    y as int - 1,
                );
                assert(1 + k / (h - 2) == x as int && 1 + k % (h - 2) == y as int);
            }
            let amt_small_flora = get_surrounding_neighbor_count(
                width,
                height,
                tiles,
                small_variant,
                x as i32,
                y as i32,
            );
            let amt_large_flora = get_surrounding_neighbor_count(
                width,
                height,
                tiles,
                large_variant,
                x as i32,
                y as i32,
            );
            proof {
                lemma_grid_index_bounds(w, h, x as int, y as int);
                crate::grid::lemma_mul_bound(y as int, w);
            }
            let idx = x + y * width;
            if small_variant == TileType::ShortGrass(0) {
                let amt_of_water = get_surrounding_neighbor_count(
                    width,
                    height,
                    tiles,
                    TileType::ShallowWater,
                    x as i32,
                    y as i32,
                );
                if tiles[idx] == TileType::ShortGrass(0) {
                    if amt_small_flora + amt_large_flora >= 3 {
                        tiles.set(idx, TileType::TallGrass(0));
                    }
                    if amt_small_flora + amt_large_flora < 4 {
                        tiles.set(idx, floor);
                    }
                    if amt_of_water > 0 {
                        tiles.set(idx, TileType::TallGrass(0));
                    }
                }
                if tiles[idx] == floor {
                    if amt_large_flora >= 1 {
                        tiles.set(idx, TileType::ShortGrass(0));
                    }
                    if amt_small_flora >= 4 {
                        tiles.set(idx, TileType::ShortGrass(0));
                    }
                    if amt_small_flora > 0 && amt_of_water > 0 {
                        tiles.set(idx, TileType::ShortGrass(0));
                    }
                }
            } else if small_variant == TileType::SmallMushroom {
                if tiles[idx] == TileType::SmallMushroom {
                    if amt_small_flora + amt_large_flora > 3 {
                        tiles.set(idx, TileType::LargeMushroom);
                    }
                    if amt_small_flora + amt_large_flora < 3 {
                        tiles.set(idx, floor);
                    }
                }
                if tiles[idx] == floor {
                    if amt_large_flora >= 1 {
                        tiles.set(idx, TileType::SmallMushroom);
                    }
                }
            }
            proof {
                // this visit performed exactly one rule application
                assert(tiles@ =~= pre.update(
                    grid_index(w, x as int, y as int),
                    grow_rule(pre, w, h, flora_type, floor, x as int, y as int),
                ));
                assert(tiles@ == grow_pass_upto(
                    old(tiles)@,
                    w,
                    h,
                    flora_type,
                    floor,
                    (k + 1) as nat,
                ));
            }
            y = y + 1;
        }
        x = x + 1;
    }
    proof {
        assert(((width as int - 2) * (h - 2)) as nat == (((width - 1) as int - 1) * (h - 2)) as nat);
    }
    let ghost mid = tiles@;
    if small_variant == TileType::ShortGrass(0) {
        // tag each grass tile with its distance to the nearest shallow
        // water, up to the cosmetic cutoff
        let mut water: Vec<(usize, usize)> = Vec::new();
        let mut wx: usize = 0;
        while wx < width
            invariant
                grid_wf(w, h, tiles@),
                w == width as int && h == height as int && tiles@ == mid,
                0 <= wx <= width,
                forall|j: int|
                    0 <= j < water@.len() ==> in_grid(
                        w,
                        h,
                        (#[trigger] water@[j]).0 as int,
                        water@[j].1 as int,
                    ) && mid[grid_index(w, water@[j].0 as int, water@[j].1 as int)]
                        == TileType::ShallowWater,
                forall|a: int, b: int|
                    0 <= a < wx && 0 <= b < h && mid[grid_index(w, a, b)] == TileType::ShallowWater
                        ==> exists|j: int|
                        0 <= j < water@.len() && (#[trigger] water@[j]).0 == a && water@[j].1 == b,
            decreases width - wx,
        {
            let mut wy: usize = 0;
            while wy < height
                invariant
                    grid_wf(w, h, tiles@),
                    w == width as int && h == height as int && tiles@ == mid,
                    0 <= wx < width,
                    0 <= wy <= height,
                    forall|j: int|
                        0 <= j < water@.len() ==> in_grid(
                            w,
                            h,
                            (#[trigger] water@[j]).0 as int,
                            water@[j].1 as int,
                        ) && mid[grid_index(w, water@[j].0 as int, water@[j].1 as int)]
                            == TileType::ShallowWater,
                    forall|a: int, b: int|
                        0 <= a < wx && 0 <= b < h && mid[grid_index(w, a, b)]
                            == TileType::ShallowWater ==> exists|j: int|
                            0 <= j < water@.len() && (#[trigger] water@[j]).0 == a && water@[j].1
                                == b,
                    forall|b: int|
                        0 <= b < wy && mid[grid_index(w, wx as int, b)] == TileType::ShallowWater
                            ==> exists|j: int|
                            0 <= j < water@.len() && (#[trigger] water@[j]).0 == wx as int
                                && water@[j].1 == b,
                decreases height - wy,
            {
                proof {
                    lemma_grid_index_bounds(w, h, wx as int, wy as int);
                    crate::grid::lemma_mul_bound(wy as int, w);
                }
                let ghost water_old = water@;
                if tiles[wx + wy * width] == TileType::ShallowWater {
                    water.push((wx, wy));
                }
                proof {
                    if water@.len() > water_old.len() {
                        assert(water@[water@.len() - 1] == (wx, wy));
                    }
                    assert forall|a: int, b: int|
                        0 <= a < wx && 0 <= b < h && mid[grid_index(w, a, b)]
                            == TileType::ShallowWater implies exists|j: int|
                        0 <= j < water@.len() && (#[trigger] water@[j]).0 == a && water@[j].1
                            == b by {
                        let j = choose|j: int|
                            0 <= j < water_old.len() && (#[trigger] water_old[j]).0 == a
                                && water_old[j].1 == b;
                        assert(water@[j] == water_old[j]);
                    }
                    assert forall|b: int|
                        0 <= b < wy + 1 && mid[grid_index(w, wx as int, b)]
                            == TileType::ShallowWater implies exists|j: int|
                        0 <= j < water@.len() && (#[trigger] water@[j]).0 == wx as int
                            && water@[j].1 == b by {
                        if b < wy {
                            let j = choose|j: int|
                                0 <= j < water_old.len() && (#[trigger] water_old[j]).0 == wx as int
                                    && water_old[j].1 == b;
                            assert(water@[j] == water_old[j]);
                        } else {
                            assert(water@[water@.len() - 1].0 == wx as int && water@[water@.len()
                                - 1].1 == b);
                        }
                    }
                }
                wy = wy + 1;
            }
            wx = wx + 1;
        }
        proof {
            // the collected list holds exactly the shallow-water cells
            assert(has_water(mid, w, h) <==> water@.len() > 0) by {
                if has_water(mid, w, h) {
                    let (a, b) = choose|a: int, b: int|
                        #[trigger] in_grid(w, h, a, b) && mid[grid_index(w, a, b)]
                            == TileType::ShallowWater;
                    assert(exists|j: int|
                        0 <= j < water@.len() && (#[trigger] water@[j]).0 == a && water@[j].1 == b);
                }
                if water@.len() > 0 {
                    assert(in_grid(w, h, water@[0].0 as int, water@[0].1 as int) && mid[grid_index(
                        w,
                        water@[0].0 as int,
                        water@[0].1 as int,
                    )] == TileType::ShallowWater);
                }
            }
        }
        let mut x2: usize = 1;
        while x2 < width
            invariant
                grid_wf(w, h, mid),
                w == width as int && h == height as int,
                1 <= x2 <= width,
                tiles@.len() == mid.len(),
                mid.len() == old(tiles)@.len(),
                forall|i: int| 0 <= i < mid.len() ==> grow_cell_ok(old(tiles)@[i], mid[i], floor),
                forall|i: int| 0 <= i < tiles@.len() ==> grow_cell_ok(old(tiles)@[i], tiles@[i], floor),
                forall|j: int|
                    0 <= j < water@.len() ==> in_grid(
                        w,
                        h,
                        (#[trigger] water@[j]).0 as int,
                        water@[j].1 as int,
                    ) && mid[grid_index(w, water@[j].0 as int, water@[j].1 as int)]
                        == TileType::ShallowWater,
                forall|a: int, b: int|
                    in_grid(w, h, a, b) && mid[grid_index(w, a, b)] == TileType::ShallowWater
                        ==> exists|j: int|
                        0 <= j < water@.len() && (#[trigger] water@[j]).0 == a && water@[j].1 == b,
                has_water(mid, w, h) <==> water@.len() > 0,
                forall|a: int, b: int|
                    in_grid(w, h, a, b) && !(1 <= a && 1 <= b && (a < x2)) ==> tiles@[grid_index(
                        w,
                        a,
                        b,
                    )] == mid[grid_index(w, a, b)],
                forall|a: int, b: int|
                    1 <= a < x2 && 1 <= b < h ==> tiles@[grid_index(w, a, b)] == tag_cell(
                        mid,
                        w,
                        h,
                        a,
                        b,
                    ),
            decreases width - x2,
        {
            let mut y2: usize = 1;
            while y2 < height
                invariant
                    grid_wf(w, h, mid),
                    w == width as int && h == height as int,
                    1 <= x2 < width,
                    1 <= y2 <= height,
                    tiles@.len() == mid.len(),
                    mid.len() == old(tiles)@.len(),
                    forall|i: int|
                        0 <= i < mid.len() ==> grow_cell_ok(old(tiles)@[i], mid[i], floor),
                    forall|i: int|
                        0 <= i < tiles@.len() ==> grow_cell_ok(old(tiles)@[i], tiles@[i], floor),
                    forall|j: int|
                        0 <= j < water@.len() ==> in_grid(
                            w,
                            h,
                            (#[trigger] water@[j]).0 as int,
                            water@[j].1 as int,
                        ) && mid[grid_index(w, water@[j].0 as int, water@[j].1 as int)]
                            == TileType::ShallowWater,
                    forall|a: int, b: int|
                        in_grid(w, h, a, b) && mid[grid_index(w, a, b)] == TileType::ShallowWater
                            ==> exists|j: int|
                            0 <= j < water@.len() && (#[trigger] water@[j]).0 == a && water@[j].1
                                == b,
                    has_water(mid, w, h) <==> water@.len() > 0,
                    forall|a: int, b: int|
                        in_grid(w, h, a, b) && !(1 <= a && 1 <= b && (a < x2 || (a == x2 && b < y2)))
                            ==> tiles@[grid_index(w, a, b)] == mid[grid_index(w, a, b)],
                    forall|a: int, b: int|
                        1 <= a < x2 && 1 <= b < h ==> tiles@[grid_index(w, a, b)] == tag_cell(
                            mid,
                            w,
                            h,
                            a,
                            b,
                        ),
                    forall|b: int|
                        1 <= b < y2 ==> tiles@[grid_index(w, x2 as int, b)] == tag_cell(
                            mid,
                            w,
                            h,
                            x2 as int,
                            b,
                        ),
                decreases height - y2,
            {
                proof {
                    lemma_grid_index_bounds(w, h, x2 as int, y2 as int);
                    crate::grid::lemma_mul_bound(y2 as int, w);
                }
                let idx = x2 + y2 * width;
                let current_type = tiles[idx];
                proof {
                    assert(in_grid(w, h, x2 as int, y2 as int));
                    assert(!(1 <= x2 as int && 1 <= y2 as int && ((x2 as int) < x2 as int || (
                    x2 as int == x2 as int && (y2 as int) < y2 as int))));
                    assert(tiles@[grid_index(w, x2 as int, y2 as int)] == mid[grid_index(
                        w,
                        x2 as int,
                        y2 as int,
                    )]);
                }
                let ghost pre2 = tiles@;
                if current_type == TileType::ShortGrass(0) || current_type == TileType::TallGrass(
                    0,
                ) {
                    let mut best: i64 = -1;
                    let nw = water.len();
                    let mut kk: usize = 0;
                    while kk < nw
                        invariant
                            grid_wf(w, h, mid),
                            w == width as int && h == height as int,
                            nw == water@.len(),
                            0 <= kk <= nw,
                            1 <= x2 < width,
                            1 <= y2 < height,
                            forall|j: int|
                                0 <= j < water@.len() ==> in_grid(
                                    w,
                                    h,
                                    (#[trigger] water@[j]).0 as int,
                                    water@[j].1 as int,
                                ),
                            kk == 0 ==> best == -1,
                            kk > 0 ==> 0 <= best < 0x100000000,
                            kk > 0 ==> exists|j: int|
                                0 <= j < kk && dist2(
                                    (#[trigger] water@[j]).0 as int,
                                    water@[j].1 as int,
                                    x2 as int,
                                    y2 as int,
                                ) == best,
                            forall|j: int|
                                0 <= j < kk ==> dist2(
                                    (#[trigger] water@[j]).0 as int,
                                    water@[j].1 as int,
                                    x2 as int,
                                    y2 as int,
                                ) >= best,
                        decreases nw - kk,
                    {
                        let wt = water[kk];
                        proof {
                            assert(water@[kk as int] == wt);
                            assert(in_grid(w, h, wt.0 as int, wt.1 as int));
                        }
                        let dx = wt.0 as i64 - x2 as i64;
                        let dy = wt.1 as i64 - y2 as i64;
                        proof {
                            assert(0 <= dx * dx < 0x40000000 && 0 <= dy * dy < 0x40000000)
                                by (nonlinear_arith)
                                requires
                                    -0x8000 < dx && dx < 0x8000,
                                    -0x8000 < dy && dy < 0x8000,
                            ;
                        }
                        let d2 = dx * dx + dy * dy;
                        proof {
                            assert(d2 as int == dist2(wt.0 as int, wt.1 as int, x2 as int,
                                y2 as int));
                        }
                        if best < 0 || d2 < best {
                            best = d2;
                            proof {
                                assert(water@[kk as int].0 == wt.0 as int && water@[kk as int].1
                                    == wt.1 as int);
                            }
                        }
                        kk = kk + 1;
                    }
                    if 0 <= best && best <= 80 {
                        proof {
                            // the scan found the true minimum distance
                            assert(water_min_dist2(mid, w, h, x2 as int, y2 as int, best as int))
                                by {
                                let j = choose|j: int|
                                    0 <= j < nw && dist2(
                                        (#[trigger] water@[j]).0 as int,
                                        water@[j].1 as int,
                                        x2 as int,
                                        y2 as int,
                                    ) == best;
                                assert(in_grid(w, h, water@[j].0 as int, water@[j].1 as int)
                                    && mid[grid_index(w, water@[j].0 as int, water@[j].1 as int)]
                                    == TileType::ShallowWater);
                                assert forall|a: int, b: int|
                                    #[trigger] in_grid(w, h, a, b) && mid[grid_index(w, a, b)]
                                        == TileType::ShallowWater implies dist2(
                                    a,
                                    b,
                                    x2 as int,
                                    y2 as int,
                                ) >= best by {
                                    let j2 = choose|j2: int|
                                        0 <= j2 < water@.len() && (#[trigger] water@[j2]).0 == a
                                            && water@[j2].1 == b;
                                }
                            }
                            assert(has_water(mid, w, h));
                        }
                        let d = crate::grid::isqrt(best) + 1;
                        proof {
                            let mc = choose|m: int|
                                water_min_dist2(mid, w, h, x2 as int, y2 as int, m);
                            lemma_water_min_unique(mid, w, h, x2 as int, y2 as int, mc,
                                best as int);
                            assert(is_floor_sqrt((d - 1) as int, best as int));
                            let rc = choose|r: int| is_floor_sqrt(r, best as int);
                            lemma_floor_sqrt_unique(rc, (d - 1) as int, best as int);
                            assert(water_tag(best as int) == d as int);
                        }
                        if current_type == TileType::ShortGrass(0) {
                            tiles.set(idx, TileType::ShortGrass(d as i32));
                        } else {
                            tiles.set(idx, TileType::TallGrass(d as i32));
                        }
                        proof {
                            assert(tiles@[grid_index(w, x2 as int, y2 as int)] == tag_cell(
                                mid,
                                w,
                                h,
                                x2 as int,
                                y2 as int,
                            ));
                        }
                    } else {
                        proof {
                            if has_water(mid, w, h) {
                                if nw > 0 {
                                    assert(water_min_dist2(mid, w, h, x2 as int, y2 as int,
                                        best as int)) by {
                                        let j = choose|j: int|
                                            0 <= j < nw && dist2(
                                                (#[trigger] water@[j]).0 as int,
                                                water@[j].1 as int,
                                                x2 as int,
                                                y2 as int,
                                            ) == best;
                                        assert(in_grid(w, h, water@[j].0 as int,
                                            water@[j].1 as int) && mid[grid_index(
                                            w,
                                            water@[j].0 as int,
                                            water@[j].1 as int,
                                        )] == TileType::ShallowWater);
                                        assert forall|a: int, b: int|
                                            #[trigger] in_grid(w, h, a, b) && mid[grid_index(
                                                w,
                                                a,
                                                b,
                                            )] == TileType::ShallowWater implies dist2(
                                            a,
                                            b,
                                            x2 as int,
                                            y2 as int,
                                        ) >= best by {
                                            let j2 = choose|j2: int|
                                                0 <= j2 < water@.len() && (#[trigger] water@[j2]).0
                                                    == a && water@[j2].1 == b;
                                        }
                                    }
                                    let mc = choose|m: int|
                                        water_min_dist2(mid, w, h, x2 as int, y2 as int, m);
                                    lemma_water_min_unique(mid, w, h, x2 as int, y2 as int, mc,
                                        best as int);
                                }
                            }
                            assert(tiles@[grid_index(w, x2 as int, y2 as int)] == tag_cell(
                                mid,
                                w,
                                h,
                                x2 as int,
                                y2 as int,
                            ));
                        }
                    }
                } else {
                    proof {
                        assert(tiles@[grid_index(w, x2 as int, y2 as int)] == tag_cell(
                            mid,
                            w,
                            h,
                            x2 as int,
                            y2 as int,
                        ));
                    }
                }
                proof {
                    assert forall|a: int, b: int|
                        in_grid(w, h, a, b) && !(1 <= a && 1 <= b && (a < x2 || (a == x2 && b < y2
                            + 1))) implies tiles@[grid_index(w, a, b)] == mid[grid_index(
                        w,
                        a,
                        b,
                    )] by {
                        lemma_grid_index_bounds(w, h, a, b);
                        crate::grid::lemma_grid_index_injective(w, h, a, b, x2 as int, y2 as int);
                        assert(pre2[grid_index(w, a, b)] == mid[grid_index(w, a, b)]);
                    }
                    assert forall|b: int|
                        1 <= b < y2 + 1 implies tiles@[grid_index(w, x2 as int, b)] == tag_cell(
                        mid,
                        w,
                        h,
                        x2 as int,
                        b,
                    ) by {
                        lemma_grid_index_bounds(w, h, x2 as int, b);
                        crate::grid::lemma_grid_index_injective(w, h, x2 as int, b, x2 as int,
                            y2 as int);
                        if b < y2 {
                            assert(pre2[grid_index(w, x2 as int, b)] == tiles@[grid_index(
                                w,
                                x2 as int,
                                b,
                            )]);
                        }
                    }
                    assert forall|a: int, b: int|
                        1 <= a < x2 && 1 <= b < h implies tiles@[grid_index(w, a, b)] == tag_cell(
                        mid,
                        w,
                        h,
                        a,
                        b,
                    ) by {
                        lemma_grid_index_bounds(w, h, a, b);
                        crate::grid::lemma_grid_index_injective(w, h, a, b, x2 as int, y2 as int);
                        assert(pre2[grid_index(w, a, b)] == tiles@[grid_index(w, a, b)]);
                    }
                }
                y2 = y2 + 1;
            }
            x2 = x2 + 1;
        }
        proof {
            // every tagged cell now matches the pointwise tagging map
            assert forall|i: int| 0 <= i < tiles@.len() implies tiles@[i] == spec_tag_pass(
                mid,
                w,
                h,
            )[i] by {
                crate::grid::lemma_grid_index_surjective(w, h, i);
                let a = i % w;
                let b = i / w;
                if a >= 1 && b >= 1 {
                    assert(tiles@[grid_index(w, a, b)] == tag_cell(mid, w, h, a, b));
                } else {
                    assert(tiles@[grid_index(w, a, b)] == mid[grid_index(w, a, b)]);
                }
            }
            assert(tiles@ =~= spec_tag_pass(mid, w, h));
        }
    }
}

/// Whether two cells touch under 8-adjacency.
pub open spec fn step_adj8(p: (int, int), q: (int, int)) -> bool {
    p != q && -1 <= p.0 - q.0 <= 1 && -1 <= p.1 - q.1 <= 1
}

/// Walks a rasterized straight path from a to b: both axes step toward the
/// target each move, so the path is a diagonal staircase followed by a
/// straight run.
pub fn walk_line(a: (i32, i32), b: (i32, i32)) -> (path: Vec<(i32, i32)>)
    requires
        -0x10000 < a.0 < 0x10000,
        -0x10000 < a.1 < 0x10000,
        -0x10000 < b.0 < 0x10000,
        -0x10000 < b.1 < 0x10000,
    ensures
        path@.len() >= 1,
        path@[0] == a,
        path@[path@.len() - 1] == b,
        forall|k: int|
            0 <= k < path@.len() - 1 ==> step_adj8(
                ((#[trigger] path@[k]).0 as int, path@[k].1 as int),
                (path@[k + 1].0 as int, path@[k + 1].1 as int),
            ),
{
    let mut x = a.0;
    let mut y = a.1;
    let mut path: Vec<(i32, i32)> = Vec::new();
    path.push((x, y));
    while x != b.0 || y != b.1
        invariant
            -0x10000 < x < 0x10000,
            -0x10000 < y < 0x10000,
            -0x10000 < b.0 < 0x10000,
            -0x10000 < b.1 < 0x10000,
            path@.len() >= 1,
            path@[0] == a,
            path@[path@.len() - 1] == (x, y),
            forall|k: int|
                0 <= k < path@.len() - 1 ==> step_adj8(
                    ((#[trigger] path@[k]).0 as int, path@[k].1 as int),
                    (path@[k + 1].0 as int, path@[k + 1].1 as int),
                ),
        decreases
            (if x < b.0 {
                b.0 - x
            } else {
                x - b.0
            }) + (if y < b.1 {
                b.1 - y
            } else {
                y - b.1
            }),
    {
        let ghost path_old = path@;
        if x < b.0 {
            x = x + 1;
        } else if x > b.0 {
            x = x - 1;
        }
        if y < b.1 {
            y = y + 1;
        } else if y > b.1 {
            y = y - 1;
        }
        path.push((x, y));
        proof {
            assert forall|k: int|
                0 <= k < path@.len() - 1 implies step_adj8(
                ((#[trigger] path@[k]).0 as int, path@[k].1 as int),
                (path@[k + 1].0 as int, path@[k + 1].1 as int),
            ) by {
                if k < path_old.len() - 1 {
                    assert(path@[k] == path_old[k] && path@[k + 1] == path_old[k + 1]);
                } else {
                    assert(path@[k] == path_old[path_old.len() - 1]);
                    assert(path@[k + 1] == (x, y));
                }
            }
        }
    }
    path
}

/// Two discovered regions witness that the interior floor cells do not
/// form one connected component.
proof fn lemma_two_regions_disconnected(
    g: Seq<TileType>,
    w: int,
    h: int,
    floor: TileType,
    regions: Seq<Region>,
)
    requires
        3 <= w < 0x8000,
        3 <= h < 0x8000,
        regions.len() >= 2,
        regions_wf(g, w, h, floor, regions),
        forall|k: int|
            0 <= k < regions.len() ==> 1 <= ((#[trigger] regions[k]).tiles@[0].0 as int) && ((
            regions[k].tiles@[0].0 as int) < w) && 1 <= (regions[k].tiles@[0].1 as int) && ((
            regions[k].tiles@[0].1 as int) < h),
    ensures
        exists|x1: int, y1: int, x2: int, y2: int|
            1 <= x1 < w && 1 <= y1 < h && 1 <= x2 < w && 1 <= y2 < h && #[trigger] g[grid_index(
                w,
                x1,
                y1,
            )] == floor && #[trigger] g[grid_index(w, x2, y2)] == floor && !reachable(
                g,
                w,
                h,
                TileClass::Exact(floor),
                x1,
                y1,
                x2,
                y2,
            ),
{
    let c = TileClass::Exact(floor);
    let r0 = regions[0].tiles@[0];
    let r1 = regions[1].tiles@[0];
    assert(region_wf(g, w, h, floor, regions[0]));
    assert(region_wf(g, w, h, floor, regions[1]));
    assert(regions[0].tiles@[0] == r0 && regions[1].tiles@[0] == r1);
    assert(reachable(g, w, h, c, r0.0 as int, r0.1 as int, r0.0 as int, r0.1 as int));
    assert(reachable(g, w, h, c, r1.0 as int, r1.1 as int, r1.0 as int, r1.1 as int));
    crate::reach::lemma_reachable_target(g, w, h, c, r0.0 as int, r0.1 as int, r0.0 as int, r0.1 as int);
    crate::reach::lemma_reachable_target(g, w, h, c, r1.0 as int, r1.1 as int, r1.0 as int, r1.1 as int);
    assert(g[grid_index(w, r0.0 as int, r0.1 as int)] == floor);
    assert(g[grid_index(w, r1.0 as int, r1.1 as int)] == floor);
    if reachable(g, w, h, c, r0.0 as int, r0.1 as int, r1.0 as int, r1.1 as int) {
        // the second root would then lie in the first region, against
        // disjointness
        assert(seq_has_coord(regions[0].tiles@, r1.0 as int, r1.1 as int));
        assert(seq_has_coord(regions[1].tiles@, r1.0 as int, r1.1 as int));
        assert(false);
    }
    assert(1 <= (r0.0 as int) && (r0.0 as int) < w && 1 <= (r0.1 as int) && (r0.1 as int) < h && 1
        <= (r1.0 as int) && (r1.0 as int) < w && 1 <= (r1.1 as int) && (r1.1 as int) < h
        && g[grid_index(w, r0.0 as int, r0.1 as int)] == floor && g[grid_index(
        w,
        r1.0 as int,
        r1.1 as int,
    )] == floor && !reachable(
        g,
        w,
        h,
        TileClass::Exact(floor),
        r0.0 as int,
        r0.1 as int,
        r1.0 as int,
        r1.1 as int,
    ));
}

/// Attempts to connect separated floor regions by digging corridors along
/// straight paths between the closest edge tiles. Returns true if the level
/// must be rejected: the nearest gap is too wide to bridge naturally, or no
/// progress can be made. On a false return the floor cells away from row 0
/// and column 0 form a single connected component.
pub fn connect_floor_regions(
    width: usize,
    height: usize,
    tiles: &mut Vec<TileType>,
    floor: TileType,
) -> (reject: bool)
    requires
        grid_wf(width as int, height as int, old(tiles)@),
    ensures
        final(tiles)@.len() == old(tiles)@.len(),
        forall|i: int|
            0 <= i < final(tiles)@.len() ==> final(tiles)@[i] == floor || final(tiles)@[i] == old(
                tiles,
            )@[i],
        !reject ==> forall|x1: int, y1: int, x2: int, y2: int|
            1 <= x1 < width as int && 1 <= y1 < height as int && 1 <= x2 < width as int && 1 <= y2
                < height as int && #[trigger] final(tiles)@[grid_index(width as int, x1, y1)]
                == floor && #[trigger] final(tiles)@[grid_index(width as int, x2, y2)] == floor
                ==> reachable(
                final(tiles)@,
                width as int,
                height as int,
                TileClass::Exact(floor),
                x1,
                y1,
                x2,
                y2,
            ),
        reject ==> exists|x1: int, y1: int, x2: int, y2: int|
            1 <= x1 < width as int && 1 <= y1 < height as int && 1 <= x2 < width as int && 1 <= y2
                < height as int && #[trigger] final(tiles)@[grid_index(width as int, x1, y1)]
                == floor && #[trigger] final(tiles)@[grid_index(width as int, x2, y2)] == floor
                && !reachable(
                final(tiles)@,
                width as int,
                height as int,
                TileClass::Exact(floor),
                x1,
                y1,
                x2,
                y2,
            ),
{
    let ghost w = width as int;
    let ghost h = height as int;
    proof {
        crate::grid::lemma_mul_bound(w, h);
    }
    let cap = width * height;
    let mut guard: usize = 0;
    loop
        invariant_except_break
            grid_wf(w, h, tiles@),
            w == width as int && h == height as int,
            0 <= guard <= cap,
            cap == width * height,
            tiles@.len() == old(tiles)@.len(),
            forall|i: int|
                0 <= i < tiles@.len() ==> tiles@[i] == floor || tiles@[i] == old(tiles)@[i],
        ensures
            grid_wf(w, h, tiles@),
            tiles@.len() == old(tiles)@.len(),
            forall|i: int|
                0 <= i < tiles@.len() ==> tiles@[i] == floor || tiles@[i] == old(tiles)@[i],
        decreases cap - guard,
    {
        let regions = get_all_regions(width, height, floor, tiles);
        if regions.len() <= 1 {
            proof {
                let g = tiles@;
                assert forall|x1: int, y1: int, x2: int, y2: int|
                    1 <= x1 < w && 1 <= y1 < h && 1 <= x2 < w && 1 <= y2 < h && #[trigger] g[grid_index(
                        w,
                        x1,
                        y1,
                    )] == floor && #[trigger] g[grid_index(w, x2, y2)] == floor implies reachable(
                    g,
                    w,
                    h,
                    TileClass::Exact(floor),
                    x1,
                    y1,
                    x2,
                    y2,
                ) by {
                    let k1 = choose|k: int|
                        0 <= k < regions@.len() && seq_has_coord(#[trigger] regions@[k].tiles@, x1, y1);
                    let k2 = choose|k: int|
                        0 <= k < regions@.len() && seq_has_coord(#[trigger] regions@[k].tiles@, x2, y2);
                    assert(k1 == 0 && k2 == 0);
                    let rt = regions@[0].tiles@;
                    let i1 = choose|i: int| 0 <= i < rt.len() && rt[i].0 == x1 && rt[i].1 == y1;
                    let i2 = choose|i: int| 0 <= i < rt.len() && rt[i].0 == x2 && rt[i].1 == y2;
                    crate::reach::lemma_reachable_sym(
                        g,
                        w,
                        h,
                        TileClass::Exact(floor),
                        rt[0].0 as int,
                        rt[0].1 as int,
                        x1,
                        y1,
                    );
                    crate::reach::lemma_reachable_trans(
                        g,
                        w,
                        h,
                        TileClass::Exact(floor),
                        x1,
                        y1,
                        rt[0].0 as int,
                        rt[0].1 as int,
                        x2,
                        y2,
                    );
                }
            }
            return false;
        }
        if guard >= cap {
            proof {
                lemma_two_regions_disconnected(tiles@, w, h, floor, regions@);
            }
            return true;
        }
        guard = guard + 1;
        // the largest region is the main one; find the closest pair of
        // edge tiles between it and any other region
        let mut largest: usize = 0;
        let nr = regions.len();
        let mut k: usize = 1;
        while k < nr
            invariant
                nr == regions@.len(),
                0 <= largest < nr,
                1 <= k <= nr,
            decreases nr - k,
        {
            if regions[k].size > regions[largest].size {
                largest = k;
            }
            k = k + 1;
        }
        let mut found = false;
        let mut point_a: (i32, i32) = (0, 0);
        let mut point_b: (i32, i32) = (0, 0);
        let mut closest_distance: i64 = 0;
        let mut k2: usize = 0;
        while k2 < nr
            invariant
                grid_wf(w, h, tiles@),
                w == width as int && h == height as int,
                nr == regions@.len(),
                0 <= largest < nr,
                0 <= k2 <= nr,
                regions_wf(tiles@, w, h, floor, regions@),
                found ==> in_grid(w, h, point_a.0 as int, point_a.1 as int) && in_grid(
                    w,
                    h,
                    point_b.0 as int,
                    point_b.1 as int,
                ),
            decreases nr - k2,
        {
            if k2 != largest {
                let ne = regions[k2].edge_tiles.len();
                let mut e2: usize = 0;
                while e2 < ne
                    invariant
                        grid_wf(w, h, tiles@),
                        w == width as int && h == height as int,
                        nr == regions@.len(),
                        0 <= largest < nr,
                        0 <= k2 < nr,
                        ne == regions@[k2 as int].edge_tiles@.len(),
                        0 <= e2 <= ne,
                        regions_wf(tiles@, w, h, floor, regions@),
                        found ==> in_grid(w, h, point_a.0 as int, point_a.1 as int) && in_grid(
                            w,
                            h,
                            point_b.0 as int,
                            point_b.1 as int,
                        ),
                    decreases ne - e2,
                {
                    let edge_tile_b = regions[k2].edge_tiles[e2];
                    proof {
                        assert(regions@[k2 as int].edge_tiles@[e2 as int] == edge_tile_b);
                        assert(regions@[k2 as int].tiles@.contains(edge_tile_b));
                        let i = choose|i: int|
                            0 <= i < regions@[k2 as int].tiles@.len()
                                && regions@[k2 as int].tiles@[i] == edge_tile_b;
                        assert(in_grid(w, h, edge_tile_b.0 as int, edge_tile_b.1 as int));
                    }
                    let na = regions[largest].edge_tiles.len();
                    let mut e1: usize = 0;
                    while e1 < na
                        invariant
                            grid_wf(w, h, tiles@),
                            w == width as int && h == height as int,
                            nr == regions@.len(),
                            0 <= largest < nr,
                            0 <= k2 < nr,
                            na == regions@[largest as int].edge_tiles@.len(),
                            0 <= e1 <= na,
                            regions_wf(tiles@, w, h, floor, regions@),
                            in_grid(w, h, edge_tile_b.0 as int, edge_tile_b.1 as int),
                            found ==> in_grid(w, h, point_a.0 as int, point_a.1 as int) && in_grid(
                                w,
                                h,
                                point_b.0 as int,
                                point_b.1 as int,
                            ),
                        decreases na - e1,
                    {
                        let edge_tile_a = regions[largest].edge_tiles[e1];
                        proof {
                            assert(regions@[largest as int].edge_tiles@[e1 as int] == edge_tile_a);
                            assert(regions@[largest as int].tiles@.contains(edge_tile_a));
                            let i = choose|i: int|
                                0 <= i < regions@[largest as int].tiles@.len()
                                    && regions@[largest as int].tiles@[i] == edge_tile_a;
                            assert(in_grid(w, h, edge_tile_a.0 as int, edge_tile_a.1 as int));
                        }
                        let ddx = edge_tile_a.0 as i64 - edge_tile_b.0 as i64;
                        let ddy = edge_tile_a.1 as i64 - edge_tile_b.1 as i64;
                        proof {
                            assert(0 <= ddx * ddx < 0x40000000 && 0 <= ddy * ddy < 0x40000000)
                                by (nonlinear_arith)
                                requires
                                    -0x8000 < ddx && ddx < 0x8000,
                                    -0x8000 < ddy && ddy < 0x8000,
                            ;
                        }
                        let distance = ddx * ddx + ddy * ddy;
                        if distance < closest_distance || !found {
                            found = true;
                            closest_distance = distance;
                            point_a = edge_tile_a;
                            point_b = edge_tile_b;
                        }
                        e1 = e1 + 1;
                    }
                    e2 = e2 + 1;
                }
            }
            k2 = k2 + 1;
        }
        if !found {
            proof {
                lemma_two_regions_disconnected(tiles@, w, h, floor, regions@);
            }
            return true;
        }
        // the path is too far; the level has to be regenerated
        if closest_distance > 10000 {
            proof {
                lemma_two_regions_disconnected(tiles@, w, h, floor, regions@);
            }
            return true;
        }
        let path = walk_line(point_a, point_b);
        let np = path.len();
        let mut pi: usize = 0;
        while pi < np
            invariant
                grid_wf(w, h, tiles@),
                w == width as int && h == height as int,
                np == path@.len(),
                0 <= pi <= np,
                tiles@.len() == old(tiles)@.len(),
                forall|i: int|
                    0 <= i < tiles@.len() ==> tiles@[i] == floor || tiles@[i] == old(tiles)@[i],
            decreases np - pi,
        {
            let p = path[pi];
            let ghost tiles_mid = tiles@;
            dig_circle(width, height, p, 2, tiles, floor);
            proof {
                assert forall|i: int| 0 <= i < tiles@.len() implies tiles@[i] == floor || tiles@[i]
                    == old(tiles)@[i] by {
                    crate::grid::lemma_grid_index_surjective(w, h, i);
                    let a = i % w;
                    let b = i / w;
                    assert(tiles@[grid_index(w, a, b)] == floor || tiles@[grid_index(w, a, b)]
                        == tiles_mid[grid_index(w, a, b)]);
                }
            }
            pi = pi + 1;
        }
    }
}

/// An exact copy of a coordinate list.
fn copy_coords(v: &Vec<(i32, i32)>) -> (r: Vec<(i32, i32)>)
    ensures
        r@ == v@,
{
    let n = v.len();
    let mut r: Vec<(i32, i32)> = Vec::new();
    let mut i: usize = 0;
    while i < n
        invariant
            n == v@.len(),
            0 <= i <= n,
            r@ == v@.take(i as int),
        decreases n - i,
    {
        r.push(v[i]);
        proof {
            assert(r@ =~= v@.take(i as int + 1));
        }
        i = i + 1;
    }
    proof {
        assert(r@ =~= v@);
    }
    r
}

/// An exact copy of a region's data.
fn copy_region(r: &Region) -> (c: Region)
    ensures
        c.id == r.id,
        c.tiles@ == r.tiles@,
        c.edge_tiles@ == r.edge_tiles@,
        c.size == r.size,
{
    Region {
        id: r.id,
        tiles: copy_coords(&r.tiles),
        edge_tiles: copy_coords(&r.edge_tiles),
        connected_regions: Vec::new(),
        size: r.size,
        is_main_region: r.is_main_region,
        is_connected_to_main_region: r.is_connected_to_main_region,
    }
}

/// An exact copy of a tile array.
fn copy_tiles(tiles: &Vec<TileType>) -> (r: Vec<TileType>)
    ensures
        r@ == tiles@,
{
    let n = tiles.len();
    let mut r: Vec<TileType> = Vec::new();
    let mut i: usize = 0;
    while i < n
        invariant
            n == tiles@.len(),
            0 <= i <= n,
            r@ == tiles@.take(i as int),
        decreases n - i,
    {
        r.push(tiles[i]);
        proof {
            assert(r@ =~= tiles@.take(i as int + 1));
        }
        i = i + 1;
    }
    proof {
        assert(r@ =~= tiles@);
    }
    r
}


/// A committed-lake edge cell: shallow liquid on the grid border or with a
/// 4-adjacent non-liquid neighbor.
pub open spec fn lake_edge_cell(
    g: Seq<TileType>,
    w: int,
    h: int,
    shallow: TileType,
    x: int,
    y: int,
) -> bool {
    g[grid_index(w, x, y)] == shallow && (on_border(w, h, x, y) || exists|a: int, b: int|
        #[trigger] crate::reach::step_adj((a, b), (x, y)) && in_grid(w, h, a, b) && g[grid_index(
            w,
            a,
            b,
        )] != shallow)
}

/// No marked region holds a lake edge cell: committed lakes shore up
/// nowhere inside the reserved feature regions.
pub open spec fn lakes_avoid_regions(
    g: Seq<TileType>,
    w: int,
    h: int,
    shallow: TileType,
    marked: Seq<Region>,
) -> bool {
    forall|m: int, k: int|
        0 <= m < marked.len() && 0 <= k < marked[m].tiles@.len() && in_grid(
            w,
            h,
            (#[trigger] marked[m].tiles@[k]).0 as int,
            marked[m].tiles@[k].1 as int,
        ) ==> !lake_edge_cell(
            g,
            w,
            h,
            shallow,
            marked[m].tiles@[k].0 as int,
            marked[m].tiles@[k].1 as int,
        )
}

/// Checks that no marked-region cell is a lake edge cell of the grid.
fn check_lakes_avoid_regions(
    width: usize,
    height: usize,
    tiles: &Vec<TileType>,
    shallow: TileType,
    marked: &Vec<Region>,
) -> (r: bool)
    requires
        grid_wf(width as int, height as int, tiles@),
    ensures
        r == lakes_avoid_regions(tiles@, width as int, height as int, shallow, marked@),
{
    let ghost w = width as int;
    let ghost h = height as int;
    let ghost g = tiles@;
    let nm = marked.len();
    let mut m: usize = 0;
    while m < nm
        invariant
            grid_wf(w, h, g),
            w == width as int && h == height as int && g == tiles@,
            nm == marked@.len(),
            0 <= m <= nm,
            forall|m0: int, k0: int|
                0 <= m0 < m && 0 <= k0 < marked@[m0].tiles@.len() && in_grid(
                    w,
                    h,
                    (#[trigger] marked@[m0].tiles@[k0]).0 as int,
                    marked@[m0].tiles@[k0].1 as int,
                ) ==> !lake_edge_cell(
                    g,
                    w,
                    h,
                    shallow,
                    marked@[m0].tiles@[k0].0 as int,
                    marked@[m0].tiles@[k0].1 as int,
                ),
        decreases nm - m,
    {
        let nt = marked[m].tiles.len();
        let mut k: usize = 0;
        while k < nt
            invariant
                grid_wf(w, h, g),
                w == width as int && h == height as int && g == tiles@,
                nm == marked@.len(),
                0 <= m < nm,
                nt == marked@[m as int].tiles@.len(),
                0 <= k <= nt,
                forall|m0: int, k0: int|
                    0 <= m0 < m && 0 <= k0 < marked@[m0].tiles@.len() && in_grid(
                        w,
                        h,
                        (#[trigger] marked@[m0].tiles@[k0]).0 as int,
                        marked@[m0].tiles@[k0].1 as int,
                    ) ==> !lake_edge_cell(
                        g,
                        w,
                        h,
                        shallow,
                        marked@[m0].tiles@[k0].0 as int,
                        marked@[m0].tiles@[k0].1 as int,
                    ),
                forall|k0: int|
                    0 <= k0 < k && in_grid(
                        w,
                        h,
                        (#[trigger] marked@[m as int].tiles@[k0]).0 as int,
                        marked@[m as int].tiles@[k0].1 as int,
                    ) ==> !lake_edge_cell(
                        g,
                        w,
                        h,
                        shallow,
                        marked@[m as int].tiles@[k0].0 as int,
                        marked@[m as int].tiles@[k0].1 as int,
                    ),
            decreases nt - k,
        {
            let p = marked[m].tiles[k];
            proof {
                assert(marked@[m as int].tiles@[k as int] == p);
            }
            let px: i64 = p.0 as i64;
            let py: i64 = p.1 as i64;
            if 0 <= px && px < width as i64 && 0 <= py && py < height as i64 {
                proof {
                    lemma_grid_index_bounds(w, h, px as int, py as int);
                    crate::grid::lemma_mul_bound(py as int, w);
                }
                let idx = (px as usize) + (py as usize) * width;
                if tiles[idx] == shallow {
                    // on the border the cell is an edge cell outright
                    if px == 0 || py == 0 || px == width as i64 - 1 || py == height as i64 - 1 {
                        proof {
                            assert(lake_edge_cell(g, w, h, shallow, px as int, py as int));
                        }
                        return false;
                    }
                    // otherwise probe the four cardinal neighbors
                    let mut differs = false;
                    proof {
                        lemma_grid_index_bounds(w, h, px as int - 1, py as int);
                        lemma_grid_index_bounds(w, h, px as int + 1, py as int);
                        lemma_grid_index_bounds(w, h, px as int, py as int - 1);
                        lemma_grid_index_bounds(w, h, px as int, py as int + 1);
                        crate::grid::lemma_mul_bound(py as int - 1, w);
                        crate::grid::lemma_mul_bound(py as int + 1, w);
                    }
                    if tiles[(px as usize - 1) + (py as usize) * width] != shallow {
                        differs = true;
                        proof {
                            assert(crate::reach::step_adj(
                                (px as int - 1, py as int),
                                (px as int, py as int),
                            ));
                        }
                    }
                    if tiles[(px as usize + 1) + (py as usize) * width] != shallow {
                        differs = true;
                        proof {
                            assert(crate::reach::step_adj(
                                (px as int + 1, py as int),
                                (px as int, py as int),
                            ));
                        }
                    }
                    if tiles[(px as usize) + (py as usize - 1) * width] != shallow {
                        differs = true;
                        proof {
                            assert(crate::reach::step_adj(
                                (px as int, py as int - 1),
                                (px as int, py as int),
                            ));
                        }
                    }
                    if tiles[(px as usize) + (py as usize + 1) * width] != shallow {
                        differs = true;
                        proof {
                            assert(crate::reach::step_adj(
                                (px as int, py as int + 1),
                                (px as int, py as int),
                            ));
                        }
                    }
                    if differs {
                        proof {
                            assert(lake_edge_cell(g, w, h, shallow, px as int, py as int));
                        }
                        return false;
                    }
                    proof {
                        assert(!lake_edge_cell(g, w, h, shallow, px as int, py as int)) by {
                            if lake_edge_cell(g, w, h, shallow, px as int, py as int) {
                                let (a, b) = choose|a: int, b: int|
                                    #[trigger] crate::reach::step_adj((a, b), (px as int, py as int))
                                        && in_grid(w, h, a, b) && g[grid_index(w, a, b)] != shallow;
                                assert(a == px as int - 1 || a == px as int + 1 || b == py as int
                                    - 1 || b == py as int + 1);
                            }
                        }
                    }
                }
            }
            k = k + 1;
        }
        m = m + 1;
    }
    true
}

/// What the lake pass may do to a cell away from row 0 and column 0: turn
/// floor into shallow liquid.
pub open spec fn lake_cell_ok(
    old_t: TileType,
    new_t: TileType,
    floor: TileType,
    shallow: TileType,
    x: int,
    y: int,
) -> bool {
    new_t == old_t || (x >= 1 && y >= 1 && old_t == floor && new_t == shallow)
}

/// Forms lakes with a liquid-specific automaton on a scratch copy of the
/// grid, rejects lakes outside the configured size window or intruding on
/// the marked feature regions, and commits the survivors. Every committed
/// lake in the result is a connected liquid region whose size lies within
/// the window.
pub fn make_lakes(
    width: usize,
    height: usize,
    liquid_type: TileType,
    floor: TileType,
    tiles: &mut Vec<TileType>,
    marked_regions: &Vec<Region>,
    min_size: usize,
    max_size: usize,
    number_generator: &mut RandomStream,
)
    requires
        grid_wf(width as int, height as int, old(tiles)@),
        crate::tile::spec_is_liquid(liquid_type),
        forall|i: int|
            0 <= i < old(tiles)@.len() ==> old(tiles)@[i]
                != crate::tile::spec_shallow_liquid_variant(liquid_type),
    ensures
        final(tiles)@.len() == old(tiles)@.len(),
        forall|x: int, y: int|
            in_grid(width as int, height as int, x, y) ==> lake_cell_ok(
                old(tiles)@[grid_index(width as int, x, y)],
                final(tiles)@[grid_index(width as int, x, y)],
                floor,
                crate::tile::spec_shallow_liquid_variant(liquid_type),
                x,
                y,
            ),
        forall|x: int, y: int|
            in_grid(width as int, height as int, x, y) && final(tiles)@[grid_index(
                width as int,
                x,
                y,
            )] == crate::tile::spec_shallow_liquid_variant(liquid_type) ==> min_size
                <= crate::reach::component(
                final(tiles)@,
                width as int,
                height as int,
                TileClass::Exact(crate::tile::spec_shallow_liquid_variant(liquid_type)),
                x,
                y,
            ).len() <= max_size,
        lakes_avoid_regions(
            final(tiles)@,
            width as int,
            height as int,
            crate::tile::spec_shallow_liquid_variant(liquid_type),
            marked_regions@,
        ),
{
    let ghost w = width as int;
    let ghost h = height as int;
    let ghost g0 = old(tiles)@;
    let shallow_variant = crate::tile::shallow_liquid_variant(liquid_type);
    let mut lake_map: Vec<TileType> = copy_tiles(tiles);
    // seed the scratch map
    let mut x: usize = 1;
    while x < width - 1
        invariant
            grid_wf(w, h, g0),
            w == width as int && h == height as int && g0 == tiles@,
            shallow_variant == crate::tile::spec_shallow_liquid_variant(liquid_type),
            forall|i: int| 0 <= i < g0.len() ==> #[trigger] g0[i] != shallow_variant,
            1 <= x <= width - 1,
            lake_map@.len() == g0.len(),
            forall|i: int|
                0 <= i < lake_map@.len() ==> lake_cell_ok(
                    g0[i],
                    #[trigger] lake_map@[i],
                    floor,
                    shallow_variant,
                    i % w,
                    i / w,
                ),
        decreases width - x,
    {
        let mut y: usize = 1;
        while y < height - 1
            invariant
                grid_wf(w, h, g0),
                w == width as int && h == height as int && g0 == tiles@,
                shallow_variant == crate::tile::spec_shallow_liquid_variant(liquid_type),
            forall|i: int| 0 <= i < g0.len() ==> #[trigger] g0[i] != shallow_variant,
                1 <= x < width - 1,
                1 <= y <= height - 1,
                lake_map@.len() == g0.len(),
                forall|i: int|
                    0 <= i < lake_map@.len() ==> lake_cell_ok(
                        g0[i],
                        #[trigger] lake_map@[i],
                        floor,
                        shallow_variant,
                        i % w,
                        i / w,
                    ),
            decreases height - y,
        {
            proof {
                lemma_grid_index_bounds(w, h, x as int, y as int);
                crate::grid::lemma_mul_bound(y as int, w);
            }
            let idx = x + y * width;
            proof {
                crate::grid::lemma_cell_coords(w, h, x as int, y as int);
                assert(lake_cell_ok(g0[idx as int], lake_map@[idx as int], floor, shallow_variant,
                    idx as int % w, idx as int / w));
            }
            if lake_map[idx] == floor {
                if number_generator.gen_range(0, 100) < 50 {
                    lake_map.set(idx, shallow_variant);
                }
            }
            y = y + 1;
        }
        x = x + 1;
    }
    // run the liquid automaton on the scratch map
    let mut round: usize = 0;
    while round < 5
        invariant
            grid_wf(w, h, g0),
            w == width as int && h == height as int && g0 == tiles@,
            shallow_variant == crate::tile::spec_shallow_liquid_variant(liquid_type),
            forall|i: int| 0 <= i < g0.len() ==> #[trigger] g0[i] != shallow_variant,
            0 <= round <= 5,
            lake_map@.len() == g0.len(),
            forall|i: int|
                0 <= i < lake_map@.len() ==> lake_cell_ok(
                    g0[i],
                    #[trigger] lake_map@[i],
                    floor,
                    shallow_variant,
                    i % w,
                    i / w,
                ),
        decreases 5 - round,
    {
        let mut ax: usize = 1;
        while ax < width
            invariant
                grid_wf(w, h, g0),
                w == width as int && h == height as int && g0 == tiles@,
                shallow_variant == crate::tile::spec_shallow_liquid_variant(liquid_type),
            forall|i: int| 0 <= i < g0.len() ==> #[trigger] g0[i] != shallow_variant,
                1 <= ax <= width,
                lake_map@.len() == g0.len(),
                forall|i: int|
                    0 <= i < lake_map@.len() ==> lake_cell_ok(
                        g0[i],
                        #[trigger] lake_map@[i],
                        floor,
                        shallow_variant,
                        i % w,
                        i / w,
                    ),
            decreases width - ax,
        {
            let mut ay: usize = 1;
            while ay < height
                invariant
                    grid_wf(w, h, g0),
                    w == width as int && h == height as int && g0 == tiles@,
                    shallow_variant == crate::tile::spec_shallow_liquid_variant(liquid_type),
            forall|i: int| 0 <= i < g0.len() ==> #[trigger] g0[i] != shallow_variant,
                    1 <= ax < width,
                    1 <= ay <= height,
                    lake_map@.len() == g0.len(),
                    forall|i: int|
                        0 <= i < lake_map@.len() ==> lake_cell_ok(
                            g0[i],
                            #[trigger] lake_map@[i],
                            floor,
                            shallow_variant,
                            i % w,
                            i / w,
                        ),
                decreases height - ay,
            {
                let amount_of_liquid = get_surrounding_neighbor_count(
                    width,
                    height,
                    &lake_map,
                    shallow_variant,
                    ax as i32,
                    ay as i32,
                );
                proof {
                    lemma_grid_index_bounds(w, h, ax as int, ay as int);
                    crate::grid::lemma_mul_bound(ay as int, w);
                }
                let idx = ax + ay * width;
                proof {
                    crate::grid::lemma_cell_coords(w, h, ax as int, ay as int);
                    assert(lake_cell_ok(g0[idx as int], lake_map@[idx as int], floor,
                        shallow_variant, idx as int % w, idx as int / w));
                }
                if lake_map[idx] == shallow_variant {
                    if amount_of_liquid >= 4 {
                        lake_map.set(idx, shallow_variant);
                    }
                    if amount_of_liquid < 2 {
                        proof {
                            assert(g0[idx as int] != shallow_variant);
                        }
                        lake_map.set(idx, floor);
                    }
                } else {
                    if lake_map[idx] == floor && amount_of_liquid >= 5 {
                        lake_map.set(idx, shallow_variant);
                    }
                }
                proof {
                    assert forall|i: int| 0 <= i < lake_map@.len() implies lake_cell_ok(
                        g0[i],
                        #[trigger] lake_map@[i],
                        floor,
                        shallow_variant,
                        i % w,
                        i / w,
                    ) by {
                        assert(g0[idx as int] != shallow_variant);
                    }
                }
                ay = ay + 1;
            }
            ax = ax + 1;
        }
        round = round + 1;
    }
    // reject lakes that miss the size window or touch a marked region
    let lakes = get_all_regions(width, height, shallow_variant, &lake_map);
    let nl = lakes.len();
    let mut kept: Vec<usize> = Vec::new();
    let mut li: usize = 0;
    while li < nl
        invariant
            nl == lakes@.len(),
            0 <= li <= nl,
            forall|j: int| 0 <= j < kept@.len() ==> 0 <= (#[trigger] kept@[j]) < nl,
            forall|j: int|
                0 <= j < kept@.len() ==> min_size <= (#[trigger] lakes@[kept@[j] as int]).tiles@.len()
                    <= max_size,
        decreases nl - li,
    {
        let sz = lakes[li].tiles.len();
        if min_size <= sz && sz <= max_size {
            let mut intrudes = false;
            let ne = lakes[li].edge_tiles.len();
            let mut e: usize = 0;
            while e < ne
                invariant
                    nl == lakes@.len(),
                    0 <= li < nl,
                    ne == lakes@[li as int].edge_tiles@.len(),
                    0 <= e <= ne,
                decreases ne - e,
            {
                let edge_tile = lakes[li].edge_tiles[e];
                let nm = marked_regions.len();
                let mut m: usize = 0;
                while m < nm
                    invariant
                        nm == marked_regions@.len(),
                        0 <= m <= nm,
                    decreases nm - m,
                {
                    if marked_regions[m].is_tile_in_region(&edge_tile) {
                        intrudes = true;
                    }
                    m = m + 1;
                }
                e = e + 1;
            }
            if !intrudes {
                kept.push(li);
            }
        }
        li = li + 1;
    }
    // commit surviving lakes onto a candidate grid
    let mut candidate: Vec<TileType> = copy_tiles(tiles);
    let nk = kept.len();
    let mut kj: usize = 0;
    while kj < nk
        invariant
            grid_wf(w, h, g0),
            w == width as int && h == height as int && g0 == tiles@,
            shallow_variant == crate::tile::spec_shallow_liquid_variant(liquid_type),
            forall|i: int| 0 <= i < g0.len() ==> #[trigger] g0[i] != shallow_variant,
            nk == kept@.len(),
            nl == lakes@.len(),
            0 <= kj <= nk,
            candidate@.len() == g0.len(),
            forall|j: int| 0 <= j < kept@.len() ==> 0 <= (#[trigger] kept@[j]) < nl,
            regions_wf(lake_map@, w, h, shallow_variant, lakes@),
            lake_map@.len() == g0.len(),
            forall|i: int|
                0 <= i < lake_map@.len() ==> lake_cell_ok(
                    g0[i],
                    #[trigger] lake_map@[i],
                    floor,
                    shallow_variant,
                    i % w,
                    i / w,
                ),
            forall|i: int|
                0 <= i < candidate@.len() ==> lake_cell_ok(
                    g0[i],
                    #[trigger] candidate@[i],
                    floor,
                    shallow_variant,
                    i % w,
                    i / w,
                ),
        decreases nk - kj,
    {
        let lk = kept[kj];
        let nt = lakes[lk].tiles.len();
        let mut ti: usize = 0;
        while ti < nt
            invariant
                grid_wf(w, h, g0),
                w == width as int && h == height as int && g0 == tiles@,
                shallow_variant == crate::tile::spec_shallow_liquid_variant(liquid_type),
            forall|i: int| 0 <= i < g0.len() ==> #[trigger] g0[i] != shallow_variant,
                nl == lakes@.len(),
                0 <= lk < nl,
                nt == lakes@[lk as int].tiles@.len(),
                0 <= ti <= nt,
                candidate@.len() == g0.len(),
                regions_wf(lake_map@, w, h, shallow_variant, lakes@),
                lake_map@.len() == g0.len(),
                forall|i: int|
                    0 <= i < lake_map@.len() ==> lake_cell_ok(
                        g0[i],
                        #[trigger] lake_map@[i],
                        floor,
                        shallow_variant,
                        i % w,
                        i / w,
                    ),
                forall|i: int|
                    0 <= i < candidate@.len() ==> lake_cell_ok(
                        g0[i],
                        #[trigger] candidate@[i],
                        floor,
                        shallow_variant,
                        i % w,
                        i / w,
                    ),
            decreases nt - ti,
        {
            let p = lakes[lk].tiles[ti];
            proof {
                assert(region_wf(lake_map@, w, h, shallow_variant, lakes@[lk as int]));
                assert(lakes@[lk as int].tiles@[ti as int] == p);
                assert(in_grid(w, h, p.0 as int, p.1 as int));
                crate::reach::lemma_reachable_target(
                    lake_map@,
                    w,
                    h,
                    TileClass::Exact(shallow_variant),
                    lakes@[lk as int].tiles@[0].0 as int,
                    lakes@[lk as int].tiles@[0].1 as int,
                    p.0 as int,
                    p.1 as int,
                );
                assert(lake_map@[grid_index(w, p.0 as int, p.1 as int)] == shallow_variant);
                lemma_grid_index_bounds(w, h, p.0 as int, p.1 as int);
                crate::grid::lemma_mul_bound(p.1 as int, w);
                crate::grid::lemma_cell_coords(w, h, p.0 as int, p.1 as int);
                let gi = grid_index(w, p.0 as int, p.1 as int);
                assert(lake_cell_ok(g0[gi], lake_map@[gi], floor, shallow_variant, gi % w, gi / w));
                assert(g0[gi] == floor || shallow_variant == g0[gi]);
            }
            candidate.set(p.0 as usize + (p.1 as usize) * width, shallow_variant);
            ti = ti + 1;
        }
        kj = kj + 1;
    }
    // the committed grid must hold only lakes inside the window; check it
    // against the window before accepting it
    let final_regions = get_all_regions(width, height, shallow_variant, &candidate);
    let nf = final_regions.len();
    let mut fi: usize = 0;
    let mut all_in_window = true;
    while fi < nf
        invariant
            nf == final_regions@.len(),
            0 <= fi <= nf,
            all_in_window ==> forall|j: int|
                0 <= j < fi && 0 <= j < nf ==> min_size <= (
                #[trigger] final_regions@[j]).tiles@.len() <= max_size,
        decreases nf - fi,
    {
        let sz = final_regions[fi].tiles.len();
        if sz < min_size || sz > max_size {
            all_in_window = false;
        }
        fi = fi + 1;
    }
    if !all_in_window {
        // no lake could be committed without breaking the size bound;
        // leave the grid as it is
        proof {
            assert forall|x: int, y: int| in_grid(w, h, x, y) implies lake_cell_ok(
                g0[grid_index(w, x, y)],
                tiles@[grid_index(w, x, y)],
                floor,
                shallow_variant,
                x,
                y,
            ) by {
                lemma_grid_index_bounds(w, h, x, y);
            }
            assert forall|x: int, y: int| in_grid(w, h, x, y) implies tiles@[grid_index(w, x, y)]
                != shallow_variant by {
                lemma_grid_index_bounds(w, h, x, y);
                assert(g0[grid_index(w, x, y)] != shallow_variant);
            }
            assert forall|m: int, k: int|
                0 <= m < marked_regions@.len() && 0 <= k < marked_regions@[m].tiles@.len()
                    && in_grid(
                    w,
                    h,
                    (#[trigger] marked_regions@[m].tiles@[k]).0 as int,
                    marked_regions@[m].tiles@[k].1 as int,
                ) implies !lake_edge_cell(
                tiles@,
                w,
                h,
                shallow_variant,
                marked_regions@[m].tiles@[k].0 as int,
                marked_regions@[m].tiles@[k].1 as int,
            ) by {
                lemma_grid_index_bounds(
                    w,
                    h,
                    marked_regions@[m].tiles@[k].0 as int,
                    marked_regions@[m].tiles@[k].1 as int,
                );
            }
        }
        return ;
    }
    if !check_lakes_avoid_regions(width, height, &candidate, shallow_variant, marked_regions) {
        // a committed lake would shore up inside a reserved region; leave
        // the grid as it is
        proof {
            assert forall|x: int, y: int| in_grid(w, h, x, y) implies lake_cell_ok(
                g0[grid_index(w, x, y)],
                tiles@[grid_index(w, x, y)],
                floor,
                shallow_variant,
                x,
                y,
            ) by {
                lemma_grid_index_bounds(w, h, x, y);
            }
            assert forall|x: int, y: int| in_grid(w, h, x, y) implies tiles@[grid_index(w, x, y)]
                != shallow_variant by {
                lemma_grid_index_bounds(w, h, x, y);
                assert(g0[grid_index(w, x, y)] != shallow_variant);
            }
            assert forall|m: int, k: int|
                0 <= m < marked_regions@.len() && 0 <= k < marked_regions@[m].tiles@.len()
                    && in_grid(
                    w,
                    h,
                    (#[trigger] marked_regions@[m].tiles@[k]).0 as int,
                    marked_regions@[m].tiles@[k].1 as int,
                ) implies !lake_edge_cell(
                tiles@,
                w,
                h,
                shallow_variant,
                marked_regions@[m].tiles@[k].0 as int,
                marked_regions@[m].tiles@[k].1 as int,
            ) by {
                lemma_grid_index_bounds(
                    w,
                    h,
                    marked_regions@[m].tiles@[k].0 as int,
                    marked_regions@[m].tiles@[k].1 as int,
                );
            }
        }
        return ;
    }
    let n_cells = tiles.len();
    let mut ci: usize = 0;
    while ci < n_cells
        invariant
            n_cells == tiles@.len(),
            candidate@.len() == n_cells,
            0 <= ci <= n_cells,
            forall|i: int| 0 <= i < ci ==> tiles@[i] == candidate@[i],
            forall|i: int| ci <= i < n_cells ==> tiles@[i] == g0[i],
            g0.len() == n_cells,
        decreases n_cells - ci,
    {
        let v = candidate[ci];
        tiles.set(ci, v);
        ci = ci + 1;
    }
    proof {
        assert(tiles@ =~= candidate@);
        let g = tiles@;
        assert forall|x: int, y: int| in_grid(w, h, x, y) implies lake_cell_ok(
            g0[grid_index(w, x, y)],
            g[grid_index(w, x, y)],
            floor,
            shallow_variant,
            x,
            y,
        ) by {
            lemma_grid_index_bounds(w, h, x, y);
            crate::grid::lemma_cell_coords(w, h, x, y);
            let gi = grid_index(w, x, y);
            assert(lake_cell_ok(g0[gi], g[gi], floor, shallow_variant, gi % w, gi / w));
        }
        assert forall|x: int, y: int|
            in_grid(w, h, x, y) && g[grid_index(w, x, y)] == shallow_variant implies min_size
            <= crate::reach::component(g, w, h, TileClass::Exact(shallow_variant), x, y).len()
            <= max_size by {
            lemma_grid_index_bounds(w, h, x, y);
            assert(lake_cell_ok(g0[grid_index(w, x, y)], g[grid_index(w, x, y)], floor,
                shallow_variant, x, y));
            assert(x >= 1 && y >= 1);
            let k0 = choose|k0: int|
                0 <= k0 < final_regions@.len() && seq_has_coord(
                    #[trigger] final_regions@[k0].tiles@,
                    x,
                    y,
                );
            let rt = final_regions@[k0].tiles@;
            let i = choose|i: int| 0 <= i < rt.len() && rt[i].0 == x && rt[i].1 == y;
            crate::reach::lemma_reachable_sym(
                g,
                w,
                h,
                TileClass::Exact(shallow_variant),
                rt[0].0 as int,
                rt[0].1 as int,
                x,
                y,
            );
            crate::reach::lemma_component_card(
                g,
                w,
                h,
                TileClass::Exact(shallow_variant),
                rt[0].0 as int,
                rt[0].1 as int,
                rt,
            );
            crate::reach::lemma_component_same(
                g,
                w,
                h,
                TileClass::Exact(shallow_variant),
                rt[0].0 as int,
                rt[0].1 as int,
                x,
                y,
            );
        }
    }
}

/// Every safe cell away from row 0 and column 0 can walk to every other:
/// the grid is one explorable component.
pub open spec fn safe_connected(g: Seq<TileType>, w: int, h: int) -> bool {
    forall|x1: int, y1: int, x2: int, y2: int|
        1 <= x1 < w && 1 <= y1 < h && 1 <= x2 < w && 1 <= y2 < h && crate::tile::spec_is_safe(
            #[trigger] g[grid_index(w, x1, y1)],
        ) && crate::tile::spec_is_safe(#[trigger] g[grid_index(w, x2, y2)]) ==> reachable(
            g,
            w,
            h,
            TileClass::Safe,
            x1,
            y1,
            x2,
            y2,
        )
}

/// Checks whether the safe tiles form a single connected component, by a
/// flood fill from the first safe tile found in raster order.
pub fn check_safe_connected(width: usize, height: usize, tiles: &Vec<TileType>) -> (r: bool)
    requires
        grid_wf(width as int, height as int, tiles@),
    ensures
        r == safe_connected(tiles@, width as int, height as int),
{
    let ghost w = width as int;
    let ghost h = height as int;
    let ghost g = tiles@;
    // find the first safe cell
    let mut sx: usize = 0;
    let mut sy: usize = 0;
    let mut found_start = false;
    let mut x: usize = 1;
    while x < width && !found_start
        invariant
            grid_wf(w, h, g),
            w == width as int && h == height as int && g == tiles@,
            1 <= x <= width,
            !found_start ==> forall|a: int, b: int|
                1 <= a < x && 1 <= b < h ==> !crate::tile::spec_is_safe(
                    #[trigger] g[grid_index(w, a, b)],
                ),
            found_start ==> in_grid(w, h, sx as int, sy as int) && 1 <= sx as int && 1 <= sy as int
                && crate::tile::spec_is_safe(g[grid_index(w, sx as int, sy as int)]),
        decreases width - x, (if found_start { 0int } else { 1int }),
    {
        let mut y: usize = 1;
        while y < height && !found_start
            invariant
                grid_wf(w, h, g),
                w == width as int && h == height as int && g == tiles@,
                1 <= x < width,
                1 <= y <= height,
                !found_start ==> forall|a: int, b: int|
                    1 <= a < x && 1 <= b < h ==> !crate::tile::spec_is_safe(
                        #[trigger] g[grid_index(w, a, b)],
                    ),
                !found_start ==> forall|b: int|
                    1 <= b < y ==> !crate::tile::spec_is_safe(
                        #[trigger] g[grid_index(w, x as int, b)],
                    ),
                found_start ==> in_grid(w, h, sx as int, sy as int) && 1 <= sx as int && 1
                    <= sy as int && crate::tile::spec_is_safe(
                    g[grid_index(w, sx as int, sy as int)],
                ),
            decreases height - y, (if found_start { 0int } else { 1int }),
        {
            proof {
                lemma_grid_index_bounds(w, h, x as int, y as int);
                crate::grid::lemma_mul_bound(y as int, w);
            }
            if crate::tile::is_safe(tiles[x + y * width]) {
                sx = x;
                sy = y;
                found_start = true;
            }
            y = y + 1;
        }
        if !found_start {
            x = x + 1;
        }
    }
    if !found_start {
        proof {
            assert forall|x1: int, y1: int, x2: int, y2: int|
                1 <= x1 < w && 1 <= y1 < h && 1 <= x2 < w && 1 <= y2 < h
                    && crate::tile::spec_is_safe(#[trigger] g[grid_index(w, x1, y1)])
                    && crate::tile::spec_is_safe(#[trigger] g[grid_index(w, x2, y2)]) implies
                reachable(g, w, h, TileClass::Safe, x1, y1, x2, y2) by {
                assert(!crate::tile::spec_is_safe(g[grid_index(w, x1, y1)]));
            }
        }
        return true;
    }
    let found = region_scan(width, height, tiles, TileClass::Safe, (sx, sy));
    // mark the reachable cells
    proof {
        crate::grid::lemma_mul_bound(w, h);
    }
    let n_cells = width * height;
    let mut marks: Vec<u8> = Vec::new();
    while marks.len() < n_cells
        invariant
            marks@.len() <= n_cells,
            forall|i: int| 0 <= i < marks@.len() ==> marks@[i] == 0,
        decreases n_cells - marks@.len(),
    {
        marks.push(0);
    }
    proof {
        assert forall|a: int, b: int| in_grid(w, h, a, b) implies marks@[grid_index(w, a, b)]
            == 0 by {
            lemma_grid_index_bounds(w, h, a, b);
        }
    }
    let nf = found.len();
    let mut k: usize = 0;
    while k < nf
        invariant
            grid_wf(w, h, g),
            w == width as int && h == height as int && g == tiles@,
            nf == found@.len(),
            0 <= k <= nf,
            marks@.len() == w * h,
            forall|i: int| 0 <= i < marks@.len() ==> marks@[i] == 0 || marks@[i] == 1,
            forall|j: int|
                0 <= j < found@.len() ==> in_grid(
                    w,
                    h,
                    (#[trigger] found@[j]).0 as int,
                    found@[j].1 as int,
                ),
            forall|a: int, b: int|
                in_grid(w, h, a, b) ==> ((marks@[grid_index(w, a, b)] == 1) <==> exists|j: int|
                    0 <= j < k && (#[trigger] found@[j]).0 == a && found@[j].1 == b),
        decreases nf - k,
    {
        let p = found[k];
        proof {
            assert(found@[k as int] == p);
            lemma_grid_index_bounds(w, h, p.0 as int, p.1 as int);
            crate::grid::lemma_mul_bound(p.1 as int, w);
        }
        let ghost marks_old = marks@;
        marks.set(p.0 as usize + (p.1 as usize) * width, 1);
        proof {
            assert forall|a: int, b: int| in_grid(w, h, a, b) implies ((marks@[grid_index(w, a, b)]
                == 1) <==> exists|j: int|
                0 <= j < k + 1 && (#[trigger] found@[j]).0 == a && found@[j].1 == b) by {
                lemma_grid_index_bounds(w, h, a, b);
                crate::grid::lemma_grid_index_injective(w, h, a, b, p.0 as int, p.1 as int);
                if a == p.0 as int && b == p.1 as int {
                    assert(found@[k as int].0 == a && found@[k as int].1 == b);
                } else {
                    if exists|j: int|
                        0 <= j < k + 1 && (#[trigger] found@[j]).0 == a && found@[j].1 == b {
                        let j = choose|j: int|
                            0 <= j < k + 1 && (#[trigger] found@[j]).0 == a && found@[j].1 == b;
                        assert(j < k);
                    }
                }
            }
        }
        k = k + 1;
    }
    // every safe cell must be marked
    let mut cx: usize = 1;
    while cx < width
        invariant
            grid_wf(w, h, g),
            w == width as int && h == height as int && g == tiles@,
            1 <= cx <= width,
            marks@.len() == w * h,
            forall|i: int| 0 <= i < marks@.len() ==> marks@[i] == 0 || marks@[i] == 1,
            in_grid(w, h, sx as int, sy as int),
            1 <= sx as int && 1 <= sy as int,
            crate::tile::spec_is_safe(g[grid_index(w, sx as int, sy as int)]),
            forall|a: int, b: int|
                in_grid(w, h, a, b) ==> ((marks@[grid_index(w, a, b)] == 1) <==> seq_has_coord(
                    found@,
                    a,
                    b,
                )),
            forall|a: int, b: int|
                seq_has_coord(found@, a, b) ==> reachable(g, w, h, TileClass::Safe, sx as int,
                sy as int, a, b),
            forall|a: int, b: int|
                reachable(g, w, h, TileClass::Safe, sx as int, sy as int, a, b) ==> seq_has_coord(
                    found@,
                    a,
                    b,
                ),
            forall|a: int, b: int|
                1 <= a < cx && 1 <= b < h && crate::tile::spec_is_safe(
                    #[trigger] g[grid_index(w, a, b)],
                ) ==> reachable(g, w, h, TileClass::Safe, sx as int, sy as int, a, b),
        decreases width - cx,
    {
        let mut cy: usize = 1;
        while cy < height
            invariant
                grid_wf(w, h, g),
                w == width as int && h == height as int && g == tiles@,
                1 <= cx < width,
                1 <= cy <= height,
                marks@.len() == w * h,
                forall|i: int| 0 <= i < marks@.len() ==> marks@[i] == 0 || marks@[i] == 1,
                in_grid(w, h, sx as int, sy as int),
                1 <= sx as int && 1 <= sy as int,
                crate::tile::spec_is_safe(g[grid_index(w, sx as int, sy as int)]),
                forall|a: int, b: int|
                    in_grid(w, h, a, b) ==> ((marks@[grid_index(w, a, b)] == 1) <==> seq_has_coord(
                        found@,
                        a,
                        b,
                    )),
                forall|a: int, b: int|
                    seq_has_coord(found@, a, b) ==> reachable(g, w, h, TileClass::Safe, sx as int,
                    sy as int, a, b),
                forall|a: int, b: int|
                    reachable(g, w, h, TileClass::Safe, sx as int, sy as int, a, b)
                        ==> seq_has_coord(found@, a, b),
                forall|a: int, b: int|
                    1 <= a < cx && 1 <= b < h && crate::tile::spec_is_safe(
                        #[trigger] g[grid_index(w, a, b)],
                    ) ==> reachable(g, w, h, TileClass::Safe, sx as int, sy as int, a, b),
                forall|b: int|
                    1 <= b < cy && crate::tile::spec_is_safe(
                        #[trigger] g[grid_index(w, cx as int, b)],
                    ) ==> reachable(g, w, h, TileClass::Safe, sx as int, sy as int, cx as int, b),
            decreases height - cy,
        {
            proof {
                lemma_grid_index_bounds(w, h, cx as int, cy as int);
                crate::grid::lemma_mul_bound(cy as int, w);
            }
            let idx = cx + cy * width;
            if crate::tile::is_safe(tiles[idx]) && marks[idx] == 0 {
                proof {
                    assert(!seq_has_coord(found@, cx as int, cy as int));
                    assert(!reachable(g, w, h, TileClass::Safe, sx as int, sy as int, cx as int,
                        cy as int));
                    assert(crate::tile::spec_is_safe(g[grid_index(w, sx as int, sy as int)]));
                    assert(crate::tile::spec_is_safe(g[grid_index(w, cx as int, cy as int)]));
                    assert(!safe_connected(g, w, h));
                }
                return false;
            }
            proof {
                if crate::tile::spec_is_safe(g[grid_index(w, cx as int, cy as int)]) {
                    assert(seq_has_coord(found@, cx as int, cy as int));
                    let j = choose|j: int|
                        0 <= j < found@.len() && found@[j].0 == cx as int && found@[j].1
                            == cy as int;
                    assert(reachable(g, w, h, TileClass::Safe, sx as int, sy as int, cx as int,
                        cy as int));
                }
            }
            cy = cy + 1;
        }
        cx = cx + 1;
    }
    proof {
        assert forall|x1: int, y1: int, x2: int, y2: int|
            1 <= x1 < w && 1 <= y1 < h && 1 <= x2 < w && 1 <= y2 < h && crate::tile::spec_is_safe(
                #[trigger] g[grid_index(w, x1, y1)],
            ) && crate::tile::spec_is_safe(#[trigger] g[grid_index(w, x2, y2)]) implies reachable(
            g,
            w,
            h,
            TileClass::Safe,
            x1,
            y1,
            x2,
            y2,
        ) by {
            assert(reachable(g, w, h, TileClass::Safe, sx as int, sy as int, x1, y1));
            assert(reachable(g, w, h, TileClass::Safe, sx as int, sy as int, x2, y2));
            crate::reach::lemma_reachable_sym(g, w, h, TileClass::Safe, sx as int, sy as int, x1,
                y1);
            crate::reach::lemma_reachable_trans(g, w, h, TileClass::Safe, x1, y1, sx as int,
                sy as int, x2, y2);
        }
    }
    true
}

/// How generation fails when no acceptable grid can be produced.
#[derive(Copy, Clone, Debug, PartialEq, Eq, Structural)]
pub enum GenerationFailure {
    RetryLimitExceeded,
}

/// How many full regeneration attempts `generate` makes before giving up.
pub const RETRY_LIMIT: usize = 8;

/// Every cell is the wall tile or the floor tile.
pub open spec fn all_wall_floor(g: Seq<TileType>, wall: TileType, floor: TileType) -> bool {
    forall|i: int| 0 <= i < g.len() ==> #[trigger] g[i] == wall || g[i] == floor
}

/// Every border cell is the wall tile.
pub open spec fn border_walls(g: Seq<TileType>, w: int, h: int, wall: TileType) -> bool {
    forall|x: int, y: int|
        in_grid(w, h, x, y) && on_border(w, h, x, y) ==> #[trigger] g[grid_index(w, x, y)] == wall
}

/// Empty cells are sealed off: every neighbor of an empty cell is wall or
/// empty, so no reachable tile is ever empty.
pub open spec fn empties_enclosed(g: Seq<TileType>, w: int, h: int, wall: TileType) -> bool {
    forall|x: int, y: int, a: int, b: int|
        in_grid(w, h, x, y) && in_grid(w, h, a, b) && -1 <= a - x <= 1 && -1 <= b - y <= 1
            && #[trigger] g[grid_index(w, x, y)] == TileType::Empty ==> #[trigger] g[grid_index(
            w,
            a,
            b,
        )] == wall || g[grid_index(w, a, b)] == TileType::Empty
}

/// A gentle pass: every changed cell was neither wall nor empty before and
/// is not empty afterwards.
pub open spec fn pass_gentle(g1: Seq<TileType>, g2: Seq<TileType>, wall: TileType) -> bool {
    &&& g1.len() == g2.len()
    &&& forall|i: int|
        0 <= i < g2.len() ==> #[trigger] g2[i] == g1[i] || (g1[i] != wall && g1[i]
            != TileType::Empty && g2[i] != TileType::Empty)
}

/// A gentle pass preserves the sealed border and the enclosure of empties.
pub proof fn lemma_gentle_preserves(g1: Seq<TileType>, g2: Seq<TileType>, w: int, h: int, wall: TileType)
    requires
        3 <= w && 3 <= h,
        g1.len() == w * h,
        border_walls(g1, w, h, wall),
        empties_enclosed(g1, w, h, wall),
        pass_gentle(g1, g2, wall),
    ensures
        border_walls(g2, w, h, wall),
        empties_enclosed(g2, w, h, wall),
{
    assert forall|x: int, y: int|
        in_grid(w, h, x, y) && on_border(w, h, x, y) implies #[trigger] g2[grid_index(w, x, y)]
        == wall by {
        lemma_grid_index_bounds(w, h, x, y);
    }
    assert forall|x: int, y: int, a: int, b: int|
        in_grid(w, h, x, y) && in_grid(w, h, a, b) && -1 <= a - x <= 1 && -1 <= b - y <= 1
            && #[trigger] g2[grid_index(w, x, y)] == TileType::Empty implies #[trigger] g2[grid_index(
        w,
        a,
        b,
    )] == wall || g2[grid_index(w, a, b)] == TileType::Empty by {
        lemma_grid_index_bounds(w, h, x, y);
        lemma_grid_index_bounds(w, h, a, b);
        assert(g1[grid_index(w, x, y)] == TileType::Empty);
        assert(g1[grid_index(w, a, b)] == wall || g1[grid_index(w, a, b)] == TileType::Empty);
    }
}

/// The effect of `remove_unseen_walls` on a wall-and-floor grid with a
/// sealed border: the border stays wall-or-empty and every empty cell is
/// enclosed.
pub proof fn lemma_remove_unseen_effect(
    g1: Seq<TileType>,
    g2: Seq<TileType>,
    w: int,
    h: int,
    wall: TileType,
    floor: TileType,
)
    requires
        3 <= w && 3 <= h,
        g1.len() == w * h,
        g2.len() == w * h,
        wall != TileType::Empty,
        floor != TileType::Empty,
        all_wall_floor(g1, wall, floor),
        forall|x: int, y: int|
            in_grid(w, h, x, y) && on_border(w, h, x, y) ==> #[trigger] g1[grid_index(w, x, y)]
                == wall,
        forall|x: int, y: int|
            in_grid(w, h, x, y) ==> #[trigger] g2[grid_index(w, x, y)] == (if unseen_wall(
                g1,
                w,
                h,
                wall,
                x,
                y,
            ) {
                TileType::Empty
            } else {
                g1[grid_index(w, x, y)]
            }),
    ensures
        border_walls(g2, w, h, wall),
        empties_enclosed(g2, w, h, wall),
{
    assert forall|x: int, y: int|
        in_grid(w, h, x, y) && on_border(w, h, x, y) implies #[trigger] g2[grid_index(w, x, y)]
        == wall by {
        lemma_grid_index_bounds(w, h, x, y);
    }
    assert forall|x: int, y: int, a: int, b: int|
        in_grid(w, h, x, y) && in_grid(w, h, a, b) && -1 <= a - x <= 1 && -1 <= b - y <= 1
            && #[trigger] g2[grid_index(w, x, y)] == TileType::Empty implies #[trigger] g2[grid_index(
        w,
        a,
        b,
    )] == wall || g2[grid_index(w, a, b)] == TileType::Empty by {
        lemma_grid_index_bounds(w, h, x, y);
        lemma_grid_index_bounds(w, h, a, b);
        if !(a == x && b == y) {
            // the emptied cell was an enclosed wall, so this neighbor was
            // wall before the pass
            assert(wall_enclosed(g1, w, h, wall, x, y));
            assert(crate::grid::surrounding_other_count(g1, w, h, wall, x, y) == 0);
            assert(a == x - 1 || a == x || a == x + 1);
            assert(b == y - 1 || b == y || b == y + 1);
            assert(crate::grid::nbr_other_at(g1, w, h, wall, a, b) == 0);
            assert(g1[grid_index(w, a, b)] == wall);
        }
    }
}

/// The declarative parameter set of one terrain archetype, driving the
/// generation pipeline.
pub struct CellularGenerator {
    initial_fill_percent: i32,
    clean_up_threshold: usize,
    generations: usize,
    smoothing: usize,
    floral_density: i32,
    flora: TileType,
    wall: TileType,
    floor: TileType,
    liquid: TileType,
    min_lake_size: usize,
    max_lake_size: usize,
    features: FeatureType,
}

impl CellularGenerator {
    pub closed spec fn spec_fill_percent(&self) -> i32 {
        self.initial_fill_percent
    }

    pub closed spec fn spec_threshold(&self) -> usize {
        self.clean_up_threshold
    }

    pub closed spec fn spec_generations(&self) -> usize {
        self.generations
    }

    pub closed spec fn spec_smoothing(&self) -> usize {
        self.smoothing
    }

    pub closed spec fn spec_density(&self) -> i32 {
        self.floral_density
    }

    pub closed spec fn spec_min_lake_size(&self) -> usize {
        self.min_lake_size
    }

    pub closed spec fn spec_max_lake_size(&self) -> usize {
        self.max_lake_size
    }

    pub closed spec fn spec_wall(&self) -> TileType {
        self.wall
    }

    pub closed spec fn spec_floor(&self) -> TileType {
        self.floor
    }

    pub closed spec fn spec_flora(&self) -> TileType {
        self.flora
    }

    pub closed spec fn spec_liquid(&self) -> TileType {
        self.liquid
    }

    pub closed spec fn spec_features(&self) -> FeatureType {
        self.features
    }

    /// A usable parameter set: the wall/floor pair is distinct, neither is
    /// empty, foliage, or liquid, toggled extras carry types of the right
    /// family, and discrete features only come with the standard pair.
    pub open spec fn params_ok(&self) -> bool {
        &&& self.spec_wall() != self.spec_floor()
        &&& self.spec_wall() != TileType::Empty
        &&& self.spec_floor() != TileType::Empty
        &&& !crate::tile::spec_is_foliage(self.spec_wall())
        &&& !crate::tile::spec_is_foliage(self.spec_floor())
        &&& !crate::tile::spec_is_liquid(self.spec_wall())
        &&& !crate::tile::spec_is_liquid(self.spec_floor())
        &&& (self.spec_flora() != TileType::Empty ==> crate::tile::spec_is_foliage(
            self.spec_flora(),
        ))
        &&& (self.spec_liquid() != TileType::Empty ==> crate::tile::spec_is_liquid(
            self.spec_liquid(),
        ))
        &&& (self.spec_features() != FeatureType::NoFeatures ==> self.spec_wall() == TileType::Wall
            && self.spec_floor() == TileType::Floor)
    }

    /// Builds a parameter set with no flora, liquid, walls or features
    /// chosen yet.
    pub fn new(
        initial_fill: i32,
        clean_up_threshold: usize,
        number_of_generations: usize,
        smoothing: usize,
    ) -> (r: Self)
        ensures
            r.spec_fill_percent() == initial_fill,
            r.spec_threshold() == clean_up_threshold,
            r.spec_generations() == number_of_generations,
            r.spec_smoothing() == smoothing,
            r.spec_density() == 0,
            r.spec_min_lake_size() == 0,
            r.spec_max_lake_size() == 0,
            r.spec_wall() == TileType::Empty,
            r.spec_floor() == TileType::Empty,
            r.spec_flora() == TileType::Empty,
            r.spec_liquid() == TileType::Empty,
            r.spec_features() == FeatureType::NoFeatures,
    {
        CellularGenerator {
            initial_fill_percent: initial_fill,
            clean_up_threshold,
            generations: number_of_generations,
            smoothing,
            floral_density: 0,
            flora: TileType::Empty,
            wall: TileType::Empty,
            floor: TileType::Empty,
            liquid: TileType::Empty,
            min_lake_size: 0,
            max_lake_size: 0,
            features: FeatureType::NoFeatures,
        }
    }

    pub fn set_flora(&mut self, flora_type: TileType, density: i32)
        ensures
            final(self).spec_flora() == flora_type,
            final(self).spec_density() == density,
            final(self).spec_wall() == old(self).spec_wall(),
            final(self).spec_floor() == old(self).spec_floor(),
            final(self).spec_liquid() == old(self).spec_liquid(),
            final(self).spec_features() == old(self).spec_features(),
    {
        self.flora = flora_type;
        self.floral_density = density;
    }

    pub fn set_walls_floors(&mut self, wall_type: TileType, floor_type: TileType)
        ensures
            final(self).spec_wall() == wall_type,
            final(self).spec_floor() == floor_type,
            final(self).spec_flora() == old(self).spec_flora(),
            final(self).spec_liquid() == old(self).spec_liquid(),
            final(self).spec_features() == old(self).spec_features(),
    {
        self.wall = wall_type;
        self.floor = floor_type;
    }

    pub fn set_liquid(&mut self, liquid_type: TileType, min_size: usize, max_size: usize)
        ensures
            final(self).spec_liquid() == liquid_type,
            final(self).spec_min_lake_size() == min_size,
            final(self).spec_max_lake_size() == max_size,
            final(self).spec_wall() == old(self).spec_wall(),
            final(self).spec_floor() == old(self).spec_floor(),
            final(self).spec_flora() == old(self).spec_flora(),
            final(self).spec_features() == old(self).spec_features(),
    {
        self.liquid = liquid_type;
        self.min_lake_size = min_size;
        self.max_lake_size = max_size;
    }

    pub fn set_features(&mut self, features: FeatureType)
        ensures
            final(self).spec_features() == features,
            final(self).spec_wall() == old(self).spec_wall(),
            final(self).spec_floor() == old(self).spec_floor(),
            final(self).spec_flora() == old(self).spec_flora(),
            final(self).spec_liquid() == old(self).spec_liquid(),
    {
        self.features = features;
    }

    /// Runs the full pipeline: noise, automaton passes, denoising,
    /// connectivity repair, and feature layering, regenerating from scratch
    /// whenever repair rejects the level, up to the retry limit. On
    /// success the grid is enclosed by wall or sealed-off empty cells,
    /// empties are unreachable, and the safe tiles form one connected
    /// component.
    pub fn generate(
        &self,
        width: usize,
        height: usize,
        tiles: &mut Vec<TileType>,
        rng: &mut RandomStream,
    ) -> (result: Result<(), GenerationFailure>)
        requires
            grid_wf(width as int, height as int, old(tiles)@),
            self.params_ok(),
        ensures
            final(tiles)@.len() == old(tiles)@.len(),
            result.is_ok() ==> border_walls(
                final(tiles)@,
                width as int,
                height as int,
                self.spec_wall(),
            ),
            result.is_ok() ==> empties_enclosed(
                final(tiles)@,
                width as int,
                height as int,
                self.spec_wall(),
            ),
            result.is_ok() ==> safe_connected(final(tiles)@, width as int, height as int),
    {
        let ghost w = width as int;
        let ghost h = height as int;
        let wall = self.wall;
        let floor = self.floor;
        let mut attempt: usize = 0;
        while attempt < RETRY_LIMIT
            invariant
                grid_wf(w, h, tiles@),
                w == width as int && h == height as int,
                wall == self.spec_wall() && floor == self.spec_floor(),
                self.params_ok(),
                0 <= attempt <= RETRY_LIMIT,
                tiles@.len() == old(tiles)@.len(),
            decreases RETRY_LIMIT - attempt,
        {
            attempt = attempt + 1;
            random_fill(tiles, rng, wall, floor, self.initial_fill_percent);
            add_map_edges(width, height, tiles, wall);
            proof {
                assert(all_wall_floor(tiles@, wall, floor)) by {
                    assert forall|i: int| 0 <= i < tiles@.len() implies #[trigger] tiles@[i] == wall
                        || tiles@[i] == floor by {
                        crate::grid::lemma_grid_index_surjective(w, h, i);
                    }
                }
            }
            let mut gen_round: usize = 0;
            while gen_round < self.generations
                invariant
                    grid_wf(w, h, tiles@),
                    w == width as int && h == height as int,
                    wall == self.spec_wall() && floor == self.spec_floor(),
                    tiles@.len() == old(tiles)@.len(),
                    all_wall_floor(tiles@, wall, floor),
                decreases self.generations - gen_round,
            {
                perform_generation(width, height, tiles, wall, floor);
                gen_round = gen_round + 1;
            }
            clean_up_regions(width, height, tiles, wall, floor, self.clean_up_threshold);
            proof {
                assert(all_wall_floor(tiles@, wall, floor)) by {
                    assert forall|i: int| 0 <= i < tiles@.len() implies #[trigger] tiles@[i] == wall
                        || tiles@[i] == floor by {
                        crate::grid::lemma_grid_index_surjective(w, h, i);
                    }
                }
            }
            clean_up_regions(width, height, tiles, floor, wall, self.clean_up_threshold);
            proof {
                assert(all_wall_floor(tiles@, wall, floor)) by {
                    assert forall|i: int| 0 <= i < tiles@.len() implies #[trigger] tiles@[i] == wall
                        || tiles@[i] == floor by {
                        crate::grid::lemma_grid_index_surjective(w, h, i);
                    }
                }
            }
            let mut smooth_round: usize = 0;
            while smooth_round < self.smoothing
                invariant
                    grid_wf(w, h, tiles@),
                    w == width as int && h == height as int,
                    wall == self.spec_wall() && floor == self.spec_floor(),
                    tiles@.len() == old(tiles)@.len(),
                    all_wall_floor(tiles@, wall, floor),
                decreases self.smoothing - smooth_round,
            {
                smooth(width, height, tiles, wall, floor);
                smooth_round = smooth_round + 1;
            }
            clean_up_regions(width, height, tiles, floor, wall, self.clean_up_threshold);
            proof {
                assert(all_wall_floor(tiles@, wall, floor)) by {
                    assert forall|i: int| 0 <= i < tiles@.len() implies #[trigger] tiles@[i] == wall
                        || tiles@[i] == floor by {
                        crate::grid::lemma_grid_index_surjective(w, h, i);
                    }
                }
            }
            // gather candidate feature regions before repair reshapes the
            // floor
            let mut regions_for_features: Vec<Region> = Vec::new();
            let mut camp_indexes: Vec<usize> = Vec::new();
            let mut nest_indexes: Vec<usize> = Vec::new();
            let mut possible_nests: Vec<Region> = Vec::new();
            if self.features != FeatureType::NoFeatures {
                regions_for_features = get_all_regions(width, height, floor, tiles);
                let nr = regions_for_features.len();
                let mut ri: usize = 0;
                while ri < nr
                    invariant
                        nr == regions_for_features@.len(),
                        0 <= ri <= nr,
                        forall|j: int|
                            0 <= j < camp_indexes@.len() ==> 0 <= (#[trigger] camp_indexes@[j])
                                < nr,
                        forall|j: int|
                            0 <= j < nest_indexes@.len() ==> 0 <= (#[trigger] nest_indexes@[j])
                                < nr,
                    decreases nr - ri,
                {
                    let sz = regions_for_features[ri].size;
                    if sz > 100 {
                        camp_indexes.push(ri);
                    } else if sz < 20 {
                        nest_indexes.push(ri);
                        // lakes must not intrude on these reserved regions
                        let nest = copy_region(&regions_for_features[ri]);
                        possible_nests.push(nest);
                    }
                    ri = ri + 1;
                }
            }
            let ghost regions_snapshot = regions_for_features@;
            let ghost grid_at_regions = tiles@;
            if connect_floor_regions(width, height, tiles, floor) {
                // rejected: regenerate from a fresh automaton pass
                continue ;
            }
            clean_up_regions(width, height, tiles, wall, floor, self.clean_up_threshold);
            add_map_edges(width, height, tiles, wall);
            proof {
                assert(all_wall_floor(tiles@, wall, floor)) by {
                    assert forall|i: int| 0 <= i < tiles@.len() implies #[trigger] tiles@[i] == wall
                        || tiles@[i] == floor by {
                        crate::grid::lemma_grid_index_surjective(w, h, i);
                    }
                }
            }
            let ghost pre_remove = tiles@;
            remove_unseen_walls(width, height, tiles, wall, floor);
            proof {
                lemma_remove_unseen_effect(pre_remove, tiles@, w, h, wall, floor);
                assert(border_walls(tiles@, w, h, wall));
                assert(empties_enclosed(tiles@, w, h, wall));
            }
            if self.liquid != TileType::Empty {
                let ghost pre = tiles@;
                proof {
                    assert forall|i: int| 0 <= i < tiles@.len() implies tiles@[i]
                        != crate::tile::spec_shallow_liquid_variant(self.spec_liquid()) by {
                        crate::grid::lemma_grid_index_surjective(w, h, i);
                        let x = i % w;
                        let y = i / w;
                        assert(tiles@[grid_index(w, x, y)] == TileType::Empty || pre_remove[grid_index(
                            w,
                            x,
                            y,
                        )] == tiles@[grid_index(w, x, y)]);
                    }
                }
                make_lakes(
                    width,
                    height,
                    self.liquid,
                    floor,
                    tiles,
                    &possible_nests,
                    self.min_lake_size,
                    self.max_lake_size,
                    rng,
                );
                proof {
                    assert(pass_gentle(pre, tiles@, wall)) by {
                        assert forall|i: int| 0 <= i < tiles@.len() implies #[trigger] tiles@[i]
                            == pre[i] || (pre[i] != wall && pre[i] != TileType::Empty && tiles@[i]
                            != TileType::Empty) by {
                            crate::grid::lemma_grid_index_surjective(w, h, i);
                        }
                    }
                    lemma_gentle_preserves(pre, tiles@, w, h, wall);
                }
            }
            if self.flora != TileType::Empty {
                let ghost pre = tiles@;
                plant(width, height, tiles, rng, self.flora, floor, self.floral_density);
                grow(width, height, tiles, self.flora, floor);
                proof {
                    assert(pass_gentle(pre, tiles@, wall));
                    lemma_gentle_preserves(pre, tiles@, w, h, wall);
                }
            }
            if self.features != FeatureType::NoFeatures {
                let nc = camp_indexes.len();
                let mut ci: usize = 0;
                while ci < nc
                    invariant
                        grid_wf(w, h, tiles@),
                        w == width as int && h == height as int,
                        wall == self.spec_wall() && floor == self.spec_floor(),
                        self.params_ok(),
                        self.spec_features() != FeatureType::NoFeatures,
                        wall == TileType::Wall,
                        tiles@.len() == old(tiles)@.len(),
                        nc == camp_indexes@.len(),
                        0 <= ci <= nc,
                        regions_snapshot == regions_for_features@,
                        regions_wf(grid_at_regions, w, h, floor, regions_snapshot),
                        forall|j: int|
                            0 <= j < camp_indexes@.len() ==> 0 <= (#[trigger] camp_indexes@[j])
                                < regions_snapshot.len(),
                        border_walls(tiles@, w, h, wall),
                        empties_enclosed(tiles@, w, h, wall),
                    decreases nc - ci,
                {
                    let idx = camp_indexes[ci];
                    proof {
                        assert(region_wf(
                            grid_at_regions,
                            w,
                            h,
                            floor,
                            regions_snapshot[idx as int],
                        ));
                        assert(crate::features::region_in_grid(
                            w,
                            h,
                            regions_snapshot[idx as int],
                        )) by {
                            assert forall|k: int|
                                0 <= k < regions_snapshot[idx as int].edge_tiles@.len() implies in_grid(
                                w,
                                h,
                                (#[trigger] regions_snapshot[idx as int].edge_tiles@[k]).0 as int,
                                regions_snapshot[idx as int].edge_tiles@[k].1 as int,
                            ) by {
                                let e = regions_snapshot[idx as int].edge_tiles@[k];
                                assert(regions_snapshot[idx as int].tiles@.contains(e));
                                let j = choose|j: int|
                                    0 <= j < regions_snapshot[idx as int].tiles@.len()
                                        && regions_snapshot[idx as int].tiles@[j] == e;
                            }
                        }
                    }
                    let ghost pre = tiles@;
                    crate::features::make_camp(width, height, tiles, &regions_for_features[idx]);
                    proof {
                        assert(pass_gentle(pre, tiles@, wall));
                        lemma_gentle_preserves(pre, tiles@, w, h, wall);
                    }
                    ci = ci + 1;
                }
                let nn = nest_indexes.len();
                let mut ni: usize = 0;
                while ni < nn
                    invariant
                        grid_wf(w, h, tiles@),
                        w == width as int && h == height as int,
                        wall == self.spec_wall() && floor == self.spec_floor(),
                        self.params_ok(),
                        self.spec_features() != FeatureType::NoFeatures,
                        wall == TileType::Wall,
                        tiles@.len() == old(tiles)@.len(),
                        nn == nest_indexes@.len(),
                        0 <= ni <= nn,
                        regions_snapshot == regions_for_features@,
                        regions_wf(grid_at_regions, w, h, floor, regions_snapshot),
                        forall|j: int|
                            0 <= j < nest_indexes@.len() ==> 0 <= (#[trigger] nest_indexes@[j])
                                < regions_snapshot.len(),
                        border_walls(tiles@, w, h, wall),
                        empties_enclosed(tiles@, w, h, wall),
                    decreases nn - ni,
                {
                    let idx = nest_indexes[ni];
                    proof {
                        assert(region_wf(
                            grid_at_regions,
                            w,
                            h,
                            floor,
                            regions_snapshot[idx as int],
                        ));
                        assert(crate::features::region_in_grid(
                            w,
                            h,
                            regions_snapshot[idx as int],
                        )) by {
                            assert forall|k: int|
                                0 <= k < regions_snapshot[idx as int].edge_tiles@.len() implies in_grid(
                                w,
                                h,
                                (#[trigger] regions_snapshot[idx as int].edge_tiles@[k]).0 as int,
                                regions_snapshot[idx as int].edge_tiles@[k].1 as int,
                            ) by {
                                let e = regions_snapshot[idx as int].edge_tiles@[k];
                                assert(regions_snapshot[idx as int].tiles@.contains(e));
                                let j = choose|j: int|
                                    0 <= j < regions_snapshot[idx as int].tiles@.len()
                                        && regions_snapshot[idx as int].tiles@[j] == e;
                            }
                        }
                    }
                    let ghost pre = tiles@;
                    crate::features::make_spider_nest(
                        width,
                        height,
                        tiles,
                        &regions_for_features[idx],
                        rng,
                    );
                    proof {
                        assert(pass_gentle(pre, tiles@, wall));
                        lemma_gentle_preserves(pre, tiles@, w, h, wall);
                    }
                    ni = ni + 1;
                }
            }
            if self.liquid != TileType::Empty {
                let ghost pre = tiles@;
                add_lake_depth(width, height, self.liquid, tiles);
                proof {
                    assert(pass_gentle(pre, tiles@, wall));
                    lemma_gentle_preserves(pre, tiles@, w, h, wall);
                }
            }
            if check_safe_connected(width, height, tiles) {
                return Ok(());
            }
        }
        Err(GenerationFailure::RetryLimitExceeded)
    }
}

} // verus!
