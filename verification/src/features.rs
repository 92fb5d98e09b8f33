//! Discrete structure placement: camps with a fire pit and seating carved
//! into large regions, and spider nests decorating small ones.

use vstd::prelude::*;
use crate::cellular::Region;
use crate::grid::{grid_index, grid_wf, in_grid, lemma_grid_index_bounds, lemma_mul_bound};
use crate::random::RandomStream;
use crate::tile::TileType;

verus! {

/// Which discrete structures a map archetype places.
#[derive(Copy, Clone, Debug, PartialEq, Eq, Structural)]
pub enum FeatureType {
    CavernFeatures,
    NoFeatures,
}

/// What a structure pass may do to a cell: leave it, or replace a cell that
/// is neither wall nor empty by a non-empty decoration.
pub open spec fn feature_cell_ok(old_t: TileType, new_t: TileType) -> bool {
    new_t == old_t || (old_t != TileType::Wall && old_t != TileType::Empty && new_t
        != TileType::Empty)
}

/// A region whose coordinate lists all lie inside the grid.
pub open spec fn region_in_grid(w: int, h: int, region: Region) -> bool {
    &&& forall|k: int|
        0 <= k < region.tiles@.len() ==> in_grid(
            w,
            h,
            (#[trigger] region.tiles@[k]).0 as int,
            region.tiles@[k].1 as int,
        )
    &&& forall|k: int|
        0 <= k < region.edge_tiles@.len() ==> in_grid(
            w,
            h,
            (#[trigger] region.edge_tiles@[k]).0 as int,
            region.edge_tiles@[k].1 as int,
        )
}

/// A valid camp clearing: every cell of the disk of squared radius up to 24
/// around the center is in bounds and neither wall nor empty.
/// The disk a camp clearing covers: squared distance from the center up
/// to 24 (the circle of radius four with truncated rounding).
pub open spec fn in_camp_disk(cx: int, cy: int, x: int, y: int) -> bool {
    cx - 4 <= x <= cx + 4 && cy - 4 <= y <= cy + 4 && (x - cx) * (x - cx) + (y - cy) * (y - cy)
        <= 24
}

/// A valid camp clearing: every cell of the disk around the center is in
/// bounds and neither wall nor empty.
pub open spec fn camp_spot_ok(g: Seq<TileType>, w: int, h: int, cx: int, cy: int) -> bool {
    forall|x: int, y: int|
        in_camp_disk(cx, cy, x, y) ==> #[trigger] in_grid(w, h, x, y) && g[grid_index(w, x, y)]
            != TileType::Wall && g[grid_index(w, x, y)] != TileType::Empty
}

/// What the stamped camp holds at each cell of its disk: the fire pit at
/// the center, the tent above it, seating beside it, and floor elsewhere.
pub open spec fn camp_tile_at(cx: int, cy: int, x: int, y: int) -> TileType {
    if x == cx && y == cy {
        TileType::Fire
    } else if x == cx && y == cy - 4 {
        TileType::TentTopCenter
    } else if x == cx - 1 && y == cy - 4 {
        TileType::TentTopLeft
    } else if x == cx + 1 && y == cy - 4 {
        TileType::TentTopRight
    } else if x == cx && y == cy - 3 {
        TileType::TentBottomCenter
    } else if x == cx - 1 && y == cy - 3 {
        TileType::TentBottomLeft
    } else if x == cx + 1 && y == cy - 3 {
        TileType::TentBottomRight
    } else if (x == cx + 2 || x == cx - 2) && y == cy {
        TileType::CampSeat
    } else {
        TileType::Floor
    }
}

/// The second grid is the first with a camp stamped at (cx, cy): the disk
/// holds the template, everything else is untouched.
pub open spec fn camp_placed(
    g1: Seq<TileType>,
    g2: Seq<TileType>,
    w: int,
    h: int,
    cx: int,
    cy: int,
) -> bool {
    forall|x: int, y: int|
        #![trigger g2[grid_index(w, x, y)]]
        in_grid(w, h, x, y) ==> g2[grid_index(w, x, y)] == (if in_camp_disk(cx, cy, x, y) {
            camp_tile_at(cx, cy, x, y)
        } else {
            g1[grid_index(w, x, y)]
        })
}

/// Checks whether a camp clearing fits at the given center.
#[verifier::spinoff_prover]
#[verifier::rlimit(100)]
fn check_camp_spot(width: usize, height: usize, tiles: &Vec<TileType>, cx: i32, cy: i32) -> (r:
    bool)
    requires
        grid_wf(width as int, height as int, tiles@),
    ensures
        r == camp_spot_ok(tiles@, width as int, height as int, cx as int, cy as int),
{
    let ghost w = width as int;
    let ghost h = height as int;
    let ghost g = tiles@;
    let mut dx: i32 = -4;
    while dx <= 4
        invariant
            grid_wf(w, h, g),
            w == width as int && h == height as int && g == tiles@,
            -4 <= dx <= 5,
            forall|x: int, y: int|
                in_camp_disk(cx as int, cy as int, x, y) && x < cx + dx ==> #[trigger] in_grid(
                    w,
                    h,
                    x,
                    y,
                ),
            forall|x: int, y: int|
                in_camp_disk(cx as int, cy as int, x, y) && x < cx + dx ==> #[trigger] g[grid_index(
                    w,
                    x,
                    y,
                )] != TileType::Wall,
            forall|x: int, y: int|
                in_camp_disk(cx as int, cy as int, x, y) && x < cx + dx ==> #[trigger] g[grid_index(
                    w,
                    x,
                    y,
                )] != TileType::Empty,
        decreases 5 - dx,
    {
        let mut dy: i32 = -4;
        while dy <= 4
            invariant
                grid_wf(w, h, g),
                w == width as int && h == height as int && g == tiles@,
                -4 <= dx <= 4,
                -4 <= dy <= 5,
                forall|x: int, y: int|
                    in_camp_disk(cx as int, cy as int, x, y) && x < cx + dx ==> #[trigger] in_grid(
                        w,
                        h,
                        x,
                        y,
                    ),
                forall|x: int, y: int|
                    in_camp_disk(cx as int, cy as int, x, y) && x < cx + dx ==> #[trigger] g[grid_index(
                        w,
                        x,
                        y,
                    )] != TileType::Wall,
                forall|x: int, y: int|
                    in_camp_disk(cx as int, cy as int, x, y) && x < cx + dx ==> #[trigger] g[grid_index(
                        w,
                        x,
                        y,
                    )] != TileType::Empty,
                forall|x: int, y: int|
                    in_camp_disk(cx as int, cy as int, x, y) && x == cx + dx && y < cy + dy
                        ==> #[trigger] in_grid(w, h, x, y),
                forall|x: int, y: int|
                    in_camp_disk(cx as int, cy as int, x, y) && x == cx + dx && y < cy + dy
                        ==> #[trigger] g[grid_index(w, x, y)] != TileType::Wall,
                forall|x: int, y: int|
                    in_camp_disk(cx as int, cy as int, x, y) && x == cx + dx && y < cy + dy
                        ==> #[trigger] g[grid_index(w, x, y)] != TileType::Empty,
            decreases 5 - dy,
        {
            proof {
                assert(0 <= dx * dx <= 16 && 0 <= dy * dy <= 16) by (nonlinear_arith)
                    requires
                        -4 <= dx <= 4,
                        -4 <= dy <= 4,
                ;
            }
            if dx * dx + dy * dy <= 24 {
                let nx: i64 = cx as i64 + dx as i64;
                let ny: i64 = cy as i64 + dy as i64;
                proof {
                    assert(in_camp_disk(cx as int, cy as int, nx as int, ny as int)) by {
                        assert((nx as int - cx as int) * (nx as int - cx as int) == dx as int
                            * dx as int && (ny as int - cy as int) * (ny as int - cy as int)
                            == dy as int * dy as int) by (nonlinear_arith)
                            requires
                                nx as int == cx as int + dx as int,
                                ny as int == cy as int + dy as int,
                        ;
                    }
                }
                if !(0 <= nx && nx < width as i64 && 0 <= ny && ny < height as i64) {
                    proof {
                        assert(!in_grid(w, h, nx as int, ny as int));
                        assert(!camp_spot_ok(g, w, h, cx as int, cy as int));
                    }
                    return false;
                }
                proof {
                    lemma_grid_index_bounds(w, h, nx as int, ny as int);
                    lemma_mul_bound(ny as int, w);
                }
                let idx = nx as usize + (ny as usize) * width;
                if tiles[idx] == TileType::Wall || tiles[idx] == TileType::Empty {
                    proof {
                        assert(in_grid(w, h, nx as int, ny as int));
                        assert(!camp_spot_ok(g, w, h, cx as int, cy as int));
                    }
                    return false;
                }
                proof {
                    assert(in_grid(w, h, nx as int, ny as int) && g[grid_index(
                        w,
                        nx as int,
                        ny as int,
                    )] != TileType::Wall && g[grid_index(w, nx as int, ny as int)]
                        != TileType::Empty);
                    assert forall|x: int, y: int|
                        in_camp_disk(cx as int, cy as int, x, y) && x == cx + dx && y < cy + dy
                            + 1 implies in_grid(w, h, x, y) by {
                        if y == cy + dy {
                            assert(x == nx as int && y == ny as int);
                        }
                    }
                    assert forall|x: int, y: int|
                        in_camp_disk(cx as int, cy as int, x, y) && x == cx + dx && y < cy + dy
                            + 1 implies g[grid_index(w, x, y)] != TileType::Wall by {
                        if y == cy + dy {
                            assert(x == nx as int && y == ny as int);
                        }
                    }
                    assert forall|x: int, y: int|
                        in_camp_disk(cx as int, cy as int, x, y) && x == cx + dx && y < cy + dy
                            + 1 implies g[grid_index(w, x, y)] != TileType::Empty by {
                        if y == cy + dy {
                            assert(x == nx as int && y == ny as int);
                        }
                    }
                }
            } else {
                proof {
                    assert forall|x: int, y: int|
                        in_camp_disk(cx as int, cy as int, x, y) && x == cx + dx implies y != cy
                        + dy by {
                        if y == cy + dy {
                            assert((x - cx) * (x - cx) == dx * dx && (y - cy) * (y - cy) == dy
                                * dy) by (nonlinear_arith)
                                requires
                                    x == cx + dx,
                                    y == cy + dy,
                            ;
                            assert(dx * dx + dy * dy <= 24);
                        }
                    }
                    assert forall|x: int, y: int|
                        in_camp_disk(cx as int, cy as int, x, y) && x == cx + dx && y < cy + dy
                            + 1 implies in_grid(w, h, x, y) by {
                        assert(y != cy + dy);
                    }
                    assert forall|x: int, y: int|
                        in_camp_disk(cx as int, cy as int, x, y) && x == cx + dx && y < cy + dy
                            + 1 implies g[grid_index(w, x, y)] != TileType::Wall by {
                        assert(y != cy + dy);
                    }
                    assert forall|x: int, y: int|
                        in_camp_disk(cx as int, cy as int, x, y) && x == cx + dx && y < cy + dy
                            + 1 implies g[grid_index(w, x, y)] != TileType::Empty by {
                        assert(y != cy + dy);
                    }
                }
            }
            dy = dy + 1;
        }
        proof {
            assert forall|x: int, y: int|
                in_camp_disk(cx as int, cy as int, x, y) && x < cx + dx + 1 implies in_grid(
                w,
                h,
                x,
                y,
            ) by {}
            assert forall|x: int, y: int|
                in_camp_disk(cx as int, cy as int, x, y) && x < cx + dx + 1 implies g[grid_index(
                w,
                x,
                y,
            )] != TileType::Wall by {}
            assert forall|x: int, y: int|
                in_camp_disk(cx as int, cy as int, x, y) && x < cx + dx + 1 implies g[grid_index(
                w,
                x,
                y,
            )] != TileType::Empty by {}
        }
        dx = dx + 1;
    }
    proof {
        assert forall|x: int, y: int|
            in_camp_disk(cx as int, cy as int, x, y) implies #[trigger] in_grid(w, h, x, y) by {
            assert(x < cx + 5);
        }
        assert forall|x: int, y: int|
            in_camp_disk(cx as int, cy as int, x, y) implies g[grid_index(w, x, y)]
            != TileType::Wall by {
            assert(x < cx + 5);
        }
        assert forall|x: int, y: int|
            in_camp_disk(cx as int, cy as int, x, y) implies g[grid_index(w, x, y)]
            != TileType::Empty by {
            assert(x < cx + 5);
        }
    }
    true
}

/// Writes a decoration at the given cell if it exists and is neither wall
/// nor empty; otherwise leaves the grid alone.
fn stamp_guarded(width: usize, height: usize, tiles: &mut Vec<TileType>, x: i64, y: i64, t: TileType)
    requires
        grid_wf(width as int, height as int, old(tiles)@),
        t != TileType::Empty,
    ensures
        final(tiles)@.len() == old(tiles)@.len(),
        final(tiles)@ == (if in_grid(width as int, height as int, x as int, y as int) && old(
            tiles,
        )@[grid_index(width as int, x as int, y as int)] != TileType::Wall && old(tiles)@[grid_index(
            width as int,
            x as int,
            y as int,
        )] != TileType::Empty {
            old(tiles)@.update(grid_index(width as int, x as int, y as int), t)
        } else {
            old(tiles)@
        }),
{
    let ghost w = width as int;
    let ghost h = height as int;
    if 0 <= x && x < width as i64 && 0 <= y && y < height as i64 {
        proof {
            lemma_grid_index_bounds(w, h, x as int, y as int);
            lemma_mul_bound(y as int, w);
        }
        let idx = x as usize + (y as usize) * width;
        if tiles[idx] != TileType::Wall && tiles[idx] != TileType::Empty {
            tiles.set(idx, t);
        }
    }
}

/// Attempts to carve a camp into the region: at the first region tile that
/// admits a valid clearing, the disk becomes floor with a fire pit at the
/// center, a tent at its top, and seating beside the fire; if no region
/// tile admits one, the grid is left untouched. Walls and empty cells are
/// never overwritten.
#[verifier::spinoff_prover]
#[verifier::rlimit(100)]
pub fn make_camp(width: usize, height: usize, tiles: &mut Vec<TileType>, region: &Region)
    requires
        grid_wf(width as int, height as int, old(tiles)@),
        region_in_grid(width as int, height as int, *region),
    ensures
        final(tiles)@.len() == old(tiles)@.len(),
        forall|i: int|
            0 <= i < final(tiles)@.len() ==> feature_cell_ok(old(tiles)@[i], final(tiles)@[i]),
        (forall|k: int|
            0 <= k < region.tiles@.len() ==> !camp_spot_ok(
                old(tiles)@,
                width as int,
                height as int,
                (#[trigger] region.tiles@[k]).0 as int,
                region.tiles@[k].1 as int,
            )) ==> final(tiles)@ == old(tiles)@,
        forall|k0: int|
            0 <= k0 < region.tiles@.len() && camp_spot_ok(
                old(tiles)@,
                width as int,
                height as int,
                (#[trigger] region.tiles@[k0]).0 as int,
                region.tiles@[k0].1 as int,
            ) && (forall|j: int|
                0 <= j < k0 ==> !camp_spot_ok(
                    old(tiles)@,
                    width as int,
                    height as int,
                    (#[trigger] region.tiles@[j]).0 as int,
                    region.tiles@[j].1 as int,
                )) ==> camp_placed(
                old(tiles)@,
                final(tiles)@,
                width as int,
                height as int,
                region.tiles@[k0].0 as int,
                region.tiles@[k0].1 as int,
            ),
{
    let ghost w = width as int;
    let ghost h = height as int;
    let ghost g0 = old(tiles)@;
    let mut center: (i32, i32) = (0, 0);
    let mut area_found = false;
    let ghost mut found_idx: int = 0;
    let n = region.tiles.len();
    let mut k: usize = 0;
    while k < n && !area_found
        invariant
            grid_wf(w, h, tiles@),
            w == width as int && h == height as int && g0 == tiles@,
            n == region.tiles@.len(),
            0 <= k <= n,
            region_in_grid(w, h, *region),
            forall|j: int|
                0 <= j < k ==> !camp_spot_ok(
                    g0,
                    w,
                    h,
                    (#[trigger] region.tiles@[j]).0 as int,
                    region.tiles@[j].1 as int,
                ),
            area_found ==> 0 <= found_idx < n && k as int == found_idx && center
                == region.tiles@[found_idx] && camp_spot_ok(
                g0,
                w,
                h,
                center.0 as int,
                center.1 as int,
            ),
        decreases n - k, (if area_found { 0int } else { 1int }),
    {
        let tile = region.tiles[k];
        if check_camp_spot(width, height, tiles, tile.0, tile.1) {
            center = tile;
            area_found = true;
            proof {
                found_idx = k as int;
                assert(region.tiles@[k as int] == tile);
            }
        } else {
            k = k + 1;
        }
    }
    if !area_found {
        proof {
            assert forall|k0: int|
                0 <= k0 < region.tiles@.len() && camp_spot_ok(
                    g0,
                    w,
                    h,
                    (#[trigger] region.tiles@[k0]).0 as int,
                    region.tiles@[k0].1 as int,
                ) && (forall|j: int|
                    0 <= j < k0 ==> !camp_spot_ok(
                        g0,
                        w,
                        h,
                        (#[trigger] region.tiles@[j]).0 as int,
                        region.tiles@[j].1 as int,
                    )) implies camp_placed(
                g0,
                tiles@,
                w,
                h,
                region.tiles@[k0].0 as int,
                region.tiles@[k0].1 as int,
            ) by {
                assert(!camp_spot_ok(g0, w, h, region.tiles@[k0].0 as int,
                    region.tiles@[k0].1 as int));
            }
        }
        return ;
    }
    let ghost cxi = center.0 as int;
    let ghost cyi = center.1 as int;
    // carve the clearing
    let mut dx: i32 = -4;
    while dx <= 4
        invariant
            grid_wf(w, h, tiles@),
            w == width as int && h == height as int,
            -4 <= dx <= 5,
            cxi == center.0 as int && cyi == center.1 as int,
            tiles@.len() == g0.len(),
            camp_spot_ok(g0, w, h, cxi, cyi),
            forall|x: int, y: int|
                in_grid(w, h, x, y) ==> tiles@[grid_index(w, x, y)] == (if in_camp_disk(
                    cxi,
                    cyi,
                    x,
                    y,
                ) && x < cxi + dx {
                    TileType::Floor
                } else {
                    g0[grid_index(w, x, y)]
                }),
        decreases 5 - dx,
    {
        let mut dy: i32 = -4;
        while dy <= 4
            invariant
                grid_wf(w, h, tiles@),
                w == width as int && h == height as int,
                -4 <= dx <= 4,
                -4 <= dy <= 5,
                cxi == center.0 as int && cyi == center.1 as int,
                tiles@.len() == g0.len(),
                camp_spot_ok(g0, w, h, cxi, cyi),
                forall|x: int, y: int|
                    in_grid(w, h, x, y) ==> tiles@[grid_index(w, x, y)] == (if in_camp_disk(
                        cxi,
                        cyi,
                        x,
                        y,
                    ) && (x < cxi + dx || (x == cxi + dx && y < cyi + dy)) {
                        TileType::Floor
                    } else {
                        g0[grid_index(w, x, y)]
                    }),
            decreases 5 - dy,
        {
            proof {
                assert(0 <= dx * dx <= 16 && 0 <= dy * dy <= 16) by (nonlinear_arith)
                    requires
                        -4 <= dx <= 4,
                        -4 <= dy <= 4,
                ;
            }
            if dx * dx + dy * dy <= 24 {
                let dig_x: i64 = center.0 as i64 + dx as i64;
                let dig_y: i64 = center.1 as i64 + dy as i64;
                proof {
                    assert(in_camp_disk(cxi, cyi, dig_x as int, dig_y as int)) by {
                        assert((dig_x as int - cxi) * (dig_x as int - cxi) == dx as int
                            * dx as int && (dig_y as int - cyi) * (dig_y as int - cyi) == dy as int
                            * dy as int) by (nonlinear_arith)
                            requires
                                dig_x as int == cxi + dx as int,
                                dig_y as int == cyi + dy as int,
                        ;
                    }
                    assert(in_grid(w, h, dig_x as int, dig_y as int));
                    lemma_grid_index_bounds(w, h, dig_x as int, dig_y as int);
                    lemma_mul_bound(dig_y as int, w);
                }
                let idx = (dig_x as usize) + (dig_y as usize) * width;
                tiles.set(idx, TileType::Floor);
            }
            proof {
                assert forall|x: int, y: int| in_grid(w, h, x, y) implies tiles@[grid_index(
                    w,
                    x,
                    y,
                )] == (if in_camp_disk(cxi, cyi, x, y) && (x < cxi + dx || (x == cxi + dx && y
                    < cyi + dy + 1)) {
                    TileType::Floor
                } else {
                    g0[grid_index(w, x, y)]
                }) by {
                    lemma_grid_index_bounds(w, h, x, y);
                    if in_grid(w, h, cxi + dx, cyi + dy) {
                        crate::grid::lemma_grid_index_injective(w, h, x, y, cxi + dx, cyi + dy);
                    }
                    if x == cxi + dx && y == cyi + dy {
                        assert((x - cxi) * (x - cxi) == (dx as int) * (dx as int) && (y - cyi) * (y
                            - cyi) == (dy as int) * (dy as int)) by (nonlinear_arith)
                            requires
                                x == cxi + dx as int,
                                y == cyi + dy as int,
                        ;
                    }
                }
            }
            dy = dy + 1;
        }
        proof {
            assert forall|x: int, y: int| in_grid(w, h, x, y) implies tiles@[grid_index(w, x, y)]
                == (if in_camp_disk(cxi, cyi, x, y) && x < cxi + dx + 1 {
                TileType::Floor
            } else {
                g0[grid_index(w, x, y)]
            }) by {
                if in_camp_disk(cxi, cyi, x, y) && x == cxi + dx {
                    assert(y <= cyi + 4);
                }
            }
        }
        dx = dx + 1;
    }
    proof {
        assert forall|x: int, y: int| in_grid(w, h, x, y) implies tiles@[grid_index(w, x, y)] == (
        if in_camp_disk(cxi, cyi, x, y) {
            TileType::Floor
        } else {
            g0[grid_index(w, x, y)]
        }) by {
            if in_camp_disk(cxi, cyi, x, y) {
                assert(x < cxi + 5);
            }
        }
    }
    let ghost carved = tiles@;
    proof {
        assert(in_camp_disk(cxi, cyi, cxi, cyi)) by (nonlinear_arith);
        assert(in_camp_disk(cxi, cyi, cxi, cyi - 4)) by (nonlinear_arith);
        assert(in_camp_disk(cxi, cyi, cxi - 1, cyi - 4)) by (nonlinear_arith);
        assert(in_camp_disk(cxi, cyi, cxi + 1, cyi - 4)) by (nonlinear_arith);
        assert(in_camp_disk(cxi, cyi, cxi, cyi - 3)) by (nonlinear_arith);
        assert(in_camp_disk(cxi, cyi, cxi - 1, cyi - 3)) by (nonlinear_arith);
        assert(in_camp_disk(cxi, cyi, cxi + 1, cyi - 3)) by (nonlinear_arith);
        assert(in_camp_disk(cxi, cyi, cxi + 2, cyi)) by (nonlinear_arith);
        assert(in_camp_disk(cxi, cyi, cxi - 2, cyi)) by (nonlinear_arith);
        lemma_grid_index_bounds(w, h, cxi, cyi);
        lemma_grid_index_bounds(w, h, cxi, cyi - 4);
        lemma_grid_index_bounds(w, h, cxi - 1, cyi - 4);
        lemma_grid_index_bounds(w, h, cxi + 1, cyi - 4);
        lemma_grid_index_bounds(w, h, cxi, cyi - 3);
        lemma_grid_index_bounds(w, h, cxi - 1, cyi - 3);
        lemma_grid_index_bounds(w, h, cxi + 1, cyi - 3);
        lemma_grid_index_bounds(w, h, cxi + 2, cyi);
        lemma_grid_index_bounds(w, h, cxi - 2, cyi);
    }
    // the fire pit, the tent, and the seating
    let cx: i64 = center.0 as i64;
    let cy: i64 = center.1 as i64;
    stamp_guarded(width, height, tiles, cx, cy, TileType::Fire);
    let ghost s1 = tiles@;
    proof {
        assert(s1 == carved.update(grid_index(w, cxi, cyi), TileType::Fire));
    }
    stamp_guarded(width, height, tiles, cx, cy - 4, TileType::TentTopCenter);
    let ghost s2 = tiles@;
    proof {
        crate::grid::lemma_grid_index_injective(w, h, cxi, cyi - 4, cxi, cyi);
        assert(s1[grid_index(w, cxi, cyi - 4)] == TileType::Floor);
        assert(s2 == s1.update(grid_index(w, cxi, cyi - 4), TileType::TentTopCenter));
    }
    stamp_guarded(width, height, tiles, cx - 1, cy - 4, TileType::TentTopLeft);
    let ghost s3 = tiles@;
    proof {
        crate::grid::lemma_grid_index_injective(w, h, cxi - 1, cyi - 4, cxi, cyi);
        crate::grid::lemma_grid_index_injective(w, h, cxi - 1, cyi - 4, cxi, cyi - 4);
        assert(s2[grid_index(w, cxi - 1, cyi - 4)] == TileType::Floor);
        assert(s3 == s2.update(grid_index(w, cxi - 1, cyi - 4), TileType::TentTopLeft));
    }
    stamp_guarded(width, height, tiles, cx + 1, cy - 4, TileType::TentTopRight);
    let ghost s4 = tiles@;
    proof {
        crate::grid::lemma_grid_index_injective(w, h, cxi + 1, cyi - 4, cxi, cyi);
        crate::grid::lemma_grid_index_injective(w, h, cxi + 1, cyi - 4, cxi, cyi - 4);
        crate::grid::lemma_grid_index_injective(w, h, cxi + 1, cyi - 4, cxi - 1, cyi - 4);
        assert(s3[grid_index(w, cxi + 1, cyi - 4)] == TileType::Floor);
        assert(s4 == s3.update(grid_index(w, cxi + 1, cyi - 4), TileType::TentTopRight));
    }
    stamp_guarded(width, height, tiles, cx, cy - 3, TileType::TentBottomCenter);
    let ghost s5 = tiles@;
    proof {
        crate::grid::lemma_grid_index_injective(w, h, cxi, cyi - 3, cxi, cyi);
        crate::grid::lemma_grid_index_injective(w, h, cxi, cyi - 3, cxi, cyi - 4);
        crate::grid::lemma_grid_index_injective(w, h, cxi, cyi - 3, cxi - 1, cyi - 4);
        crate::grid::lemma_grid_index_injective(w, h, cxi, cyi - 3, cxi + 1, cyi - 4);
        assert(s4[grid_index(w, cxi, cyi - 3)] == TileType::Floor);
        assert(s5 == s4.update(grid_index(w, cxi, cyi - 3), TileType::TentBottomCenter));
    }
    stamp_guarded(width, height, tiles, cx - 1, cy - 3, TileType::TentBottomLeft);
    let ghost s6 = tiles@;
    proof {
        crate::grid::lemma_grid_index_injective(w, h, cxi - 1, cyi - 3, cxi, cyi);
        crate::grid::lemma_grid_index_injective(w, h, cxi - 1, cyi - 3, cxi, cyi - 4);
        crate::grid::lemma_grid_index_injective(w, h, cxi - 1, cyi - 3, cxi - 1, cyi - 4);
        crate::grid::lemma_grid_index_injective(w, h, cxi - 1, cyi - 3, cxi + 1, cyi - 4);
        crate::grid::lemma_grid_index_injective(w, h, cxi - 1, cyi - 3, cxi, cyi - 3);
        assert(s5[grid_index(w, cxi - 1, cyi - 3)] == TileType::Floor);
        assert(s6 == s5.update(grid_index(w, cxi - 1, cyi - 3), TileType::TentBottomLeft));
    }
    stamp_guarded(width, height, tiles, cx + 1, cy - 3, TileType::TentBottomRight);
    let ghost s7 = tiles@;
    proof {
        crate::grid::lemma_grid_index_injective(w, h, cxi + 1, cyi - 3, cxi, cyi);
        crate::grid::lemma_grid_index_injective(w, h, cxi + 1, cyi - 3, cxi, cyi - 4);
        crate::grid::lemma_grid_index_injective(w, h, cxi + 1, cyi - 3, cxi - 1, cyi - 4);
        crate::grid::lemma_grid_index_injective(w, h, cxi + 1, cyi - 3, cxi + 1, cyi - 4);
        crate::grid::lemma_grid_index_injective(w, h, cxi + 1, cyi - 3, cxi, cyi - 3);
        crate::grid::lemma_grid_index_injective(w, h, cxi + 1, cyi - 3, cxi - 1, cyi - 3);
        assert(s6[grid_index(w, cxi + 1, cyi - 3)] == TileType::Floor);
        assert(s7 == s6.update(grid_index(w, cxi + 1, cyi - 3), TileType::TentBottomRight));
    }
    stamp_guarded(width, height, tiles, cx + 2, cy, TileType::CampSeat);
    let ghost s8 = tiles@;
    proof {
        crate::grid::lemma_grid_index_injective(w, h, cxi + 2, cyi, cxi, cyi);
        crate::grid::lemma_grid_index_injective(w, h, cxi + 2, cyi, cxi, cyi - 4);
        crate::grid::lemma_grid_index_injective(w, h, cxi + 2, cyi, cxi - 1, cyi - 4);
        crate::grid::lemma_grid_index_injective(w, h, cxi + 2, cyi, cxi + 1, cyi - 4);
        crate::grid::lemma_grid_index_injective(w, h, cxi + 2, cyi, cxi, cyi - 3);
        crate::grid::lemma_grid_index_injective(w, h, cxi + 2, cyi, cxi - 1, cyi - 3);
        crate::grid::lemma_grid_index_injective(w, h, cxi + 2, cyi, cxi + 1, cyi - 3);
        assert(s7[grid_index(w, cxi + 2, cyi)] == TileType::Floor);
        assert(s8 == s7.update(grid_index(w, cxi + 2, cyi), TileType::CampSeat));
    }
    stamp_guarded(width, height, tiles, cx - 2, cy, TileType::CampSeat);
    proof {
        crate::grid::lemma_grid_index_injective(w, h, cxi - 2, cyi, cxi, cyi);
        crate::grid::lemma_grid_index_injective(w, h, cxi - 2, cyi, cxi, cyi - 4);
        crate::grid::lemma_grid_index_injective(w, h, cxi - 2, cyi, cxi - 1, cyi - 4);
        crate::grid::lemma_grid_index_injective(w, h, cxi - 2, cyi, cxi + 1, cyi - 4);
        crate::grid::lemma_grid_index_injective(w, h, cxi - 2, cyi, cxi, cyi - 3);
        crate::grid::lemma_grid_index_injective(w, h, cxi - 2, cyi, cxi - 1, cyi - 3);
        crate::grid::lemma_grid_index_injective(w, h, cxi - 2, cyi, cxi + 1, cyi - 3);
        crate::grid::lemma_grid_index_injective(w, h, cxi - 2, cyi, cxi + 2, cyi);
        assert(s8[grid_index(w, cxi - 2, cyi)] == TileType::Floor);
        assert(tiles@ == s8.update(grid_index(w, cxi - 2, cyi), TileType::CampSeat));
    }
    proof {
        // the stamped grid is the carved floor plus the template
        assert(camp_placed(g0, tiles@, w, h, cxi, cyi)) by {
            assert forall|x: int, y: int|
                in_grid(w, h, x, y) implies #[trigger] tiles@[grid_index(w, x, y)] == (
            if in_camp_disk(cxi, cyi, x, y) {
                camp_tile_at(cxi, cyi, x, y)
            } else {
                g0[grid_index(w, x, y)]
            }) by {
                lemma_grid_index_bounds(w, h, x, y);
                assert(carved[grid_index(w, x, y)] == (if in_camp_disk(cxi, cyi, x, y) {
                    TileType::Floor
                } else {
                    g0[grid_index(w, x, y)]
                }));
                crate::grid::lemma_grid_index_injective(w, h, x, y, cxi, cyi);
                crate::grid::lemma_grid_index_injective(w, h, x, y, cxi, cyi - 4);
                crate::grid::lemma_grid_index_injective(w, h, x, y, cxi - 1, cyi - 4);
                crate::grid::lemma_grid_index_injective(w, h, x, y, cxi + 1, cyi - 4);
                crate::grid::lemma_grid_index_injective(w, h, x, y, cxi, cyi - 3);
                crate::grid::lemma_grid_index_injective(w, h, x, y, cxi - 1, cyi - 3);
                crate::grid::lemma_grid_index_injective(w, h, x, y, cxi + 1, cyi - 3);
                crate::grid::lemma_grid_index_injective(w, h, x, y, cxi + 2, cyi);
                crate::grid::lemma_grid_index_injective(w, h, x, y, cxi - 2, cyi);
            }
        }
        // the found index is the first admitting one, so the placement
        // clause follows for it and the untouched clause is vacuous
        assert forall|k0: int|
            0 <= k0 < region.tiles@.len() && camp_spot_ok(
                g0,
                w,
                h,
                (#[trigger] region.tiles@[k0]).0 as int,
                region.tiles@[k0].1 as int,
            ) && (forall|j: int|
                0 <= j < k0 ==> !camp_spot_ok(
                    g0,
                    w,
                    h,
                    (#[trigger] region.tiles@[j]).0 as int,
                    region.tiles@[j].1 as int,
                )) implies camp_placed(
            g0,
            tiles@,
            w,
            h,
            region.tiles@[k0].0 as int,
            region.tiles@[k0].1 as int,
        ) by {
            if k0 < found_idx {
                assert(!camp_spot_ok(g0, w, h, region.tiles@[k0].0 as int,
                    region.tiles@[k0].1 as int));
            } else if found_idx < k0 {
                assert(!camp_spot_ok(g0, w, h, region.tiles@[found_idx].0 as int,
                    region.tiles@[found_idx].1 as int));
            } else {
                assert(region.tiles@[k0] == center);
            }
        }
        assert(camp_spot_ok(g0, w, h, region.tiles@[found_idx].0 as int,
            region.tiles@[found_idx].1 as int));
        assert forall|i: int| 0 <= i < tiles@.len() implies feature_cell_ok(g0[i], tiles@[i]) by {
            crate::grid::lemma_grid_index_surjective(w, h, i);
            let x = i % w;
            let y = i / w;
            assert(tiles@[grid_index(w, x, y)] == (if in_camp_disk(cxi, cyi, x, y) {
                camp_tile_at(cxi, cyi, x, y)
            } else {
                g0[grid_index(w, x, y)]
            }));
            if in_camp_disk(cxi, cyi, x, y) {
                assert(g0[grid_index(w, x, y)] != TileType::Wall && g0[grid_index(w, x, y)]
                    != TileType::Empty);
                assert(camp_tile_at(cxi, cyi, x, y) != TileType::Empty);
            }
        }
    }
}

/// Whether (x, y) appears in the region's tile or edge lists.
pub open spec fn in_region_lists(region: Region, x: int, y: int) -> bool {
    crate::reach::seq_has_coord(region.tiles@, x, y) || crate::reach::seq_has_coord(
        region.edge_tiles@,
        x,
        y,
    )
}

/// A nest decoration tile.
pub open spec fn is_nest_tile(t: TileType) -> bool {
    t == TileType::ThinWebs || t == TileType::ThickWebs || t == TileType::EggSac
}

/// Decorates a small region as a spider nest: thin webs along its edge,
/// thick webs inside, and a few egg sacs on remaining floor. Walls and
/// empty cells are never touched, changes stay inside the region's own
/// cells, and when the region still holds floor at least one of its cells
/// is decorated (the first remaining floor cell always takes an egg sac).
pub fn make_spider_nest(
    width: usize,
    height: usize,
    tiles: &mut Vec<TileType>,
    region: &Region,
    rng: &mut RandomStream,
)
    requires
        grid_wf(width as int, height as int, old(tiles)@),
        region_in_grid(width as int, height as int, *region),
        forall|k: int|
            0 <= k < region.edge_tiles@.len() ==> region.tiles@.contains(
                #[trigger] region.edge_tiles@[k],
            ),
    ensures
        final(tiles)@.len() == old(tiles)@.len(),
        forall|i: int|
            0 <= i < final(tiles)@.len() ==> feature_cell_ok(old(tiles)@[i], final(tiles)@[i]),
        forall|x: int, y: int|
            #![trigger old(tiles)@[grid_index(width as int, x, y)]]
            in_grid(width as int, height as int, x, y) && final(tiles)@[grid_index(
                width as int,
                x,
                y,
            )] != old(tiles)@[grid_index(width as int, x, y)] ==> in_region_lists(*region, x, y)
                && is_nest_tile(final(tiles)@[grid_index(width as int, x, y)]),
        (exists|k: int|
            0 <= k < region.tiles@.len() && old(tiles)@[grid_index(
                width as int,
                (#[trigger] region.tiles@[k]).0 as int,
                region.tiles@[k].1 as int,
            )] == TileType::Floor) ==> exists|x: int, y: int|
            crate::reach::seq_has_coord(region.tiles@, x, y) && #[trigger] in_grid(
                width as int,
                height as int,
                x,
                y,
            ) && final(tiles)@[grid_index(width as int, x, y)] != old(tiles)@[grid_index(
                width as int,
                x,
                y,
            )],
{
    let ghost w = width as int;
    let ghost h = height as int;
    let ghost g0 = old(tiles)@;
    // thin webs along the edge
    let ne = region.edge_tiles.len();
    let mut k: usize = 0;
    while k < ne
        invariant
            grid_wf(w, h, tiles@),
            w == width as int && h == height as int && g0 == old(tiles)@,
            ne == region.edge_tiles@.len(),
            0 <= k <= ne,
            region_in_grid(w, h, *region),
            forall|j: int|
                0 <= j < region.edge_tiles@.len() ==> region.tiles@.contains(
                    #[trigger] region.edge_tiles@[j],
                ),
            tiles@.len() == g0.len(),
            forall|i: int| 0 <= i < tiles@.len() ==> feature_cell_ok(g0[i], tiles@[i]),
            forall|x: int, y: int|
                #![trigger g0[grid_index(w, x, y)]]
                in_grid(w, h, x, y) && tiles@[grid_index(w, x, y)] != g0[grid_index(w, x, y)]
                    ==> in_region_lists(*region, x, y) && is_nest_tile(
                    tiles@[grid_index(w, x, y)],
                ),
        decreases ne - k,
    {
        let edge_tile = region.edge_tiles[k];
        let ghost pre = tiles@;
        let ghost et = (edge_tile.0 as int, edge_tile.1 as int);
        proof {
            assert(region.edge_tiles@[k as int] == edge_tile);
            lemma_grid_index_bounds(w, h, edge_tile.0 as int, edge_tile.1 as int);
            lemma_mul_bound(edge_tile.1 as int, w);
        }
        let chance = rng.gen_range(0, 100);
        if chance < 40 {
            let idx = edge_tile.0 as usize + (edge_tile.1 as usize) * width;
            if tiles[idx] != TileType::Wall && tiles[idx] != TileType::Empty {
                tiles.set(idx, TileType::ThinWebs);
            }
        }
        proof {
            assert forall|x: int, y: int|
                in_grid(w, h, x, y) && tiles@[grid_index(w, x, y)] != g0[grid_index(w, x, y)] implies
                in_region_lists(*region, x, y) && is_nest_tile(tiles@[grid_index(w, x, y)]) by {
                lemma_grid_index_bounds(w, h, x, y);
                crate::grid::lemma_grid_index_injective(w, h, x, y, et.0, et.1);
                if x == et.0 && y == et.1 {
                    if tiles@[grid_index(w, x, y)] != pre[grid_index(w, x, y)] {
                        assert(region.tiles@.contains(region.edge_tiles@[k as int]));
                        let j0 = choose|j0: int|
                            0 <= j0 < region.tiles@.len() && region.tiles@[j0] == edge_tile;
                        assert(region.tiles@[j0].0 == x && region.tiles@[j0].1 == y);
                        assert(tiles@[grid_index(w, x, y)] == TileType::ThinWebs);
                    } else {
                        assert(feature_cell_ok(g0[grid_index(w, x, y)], pre[grid_index(w, x, y)]));
                        assert(pre[grid_index(w, x, y)] != g0[grid_index(w, x, y)]
                            ==> in_region_lists(*region, x, y) && is_nest_tile(pre[grid_index(
                            w,
                            x,
                            y,
                        )]));
                    }
                } else {
                    assert(tiles@[grid_index(w, x, y)] == pre[grid_index(w, x, y)]);
                }
            }
        }
        k = k + 1;
    }
    // thick webs inside
    let nt = region.tiles.len();
    let mut j: usize = 0;
    while j < nt
        invariant
            grid_wf(w, h, tiles@),
            w == width as int && h == height as int && g0 == old(tiles)@,
            nt == region.tiles@.len(),
            0 <= j <= nt,
            region_in_grid(w, h, *region),
            tiles@.len() == g0.len(),
            forall|i: int| 0 <= i < tiles@.len() ==> feature_cell_ok(g0[i], tiles@[i]),
            forall|x: int, y: int|
                #![trigger g0[grid_index(w, x, y)]]
                in_grid(w, h, x, y) && tiles@[grid_index(w, x, y)] != g0[grid_index(w, x, y)]
                    ==> in_region_lists(*region, x, y) && is_nest_tile(
                    tiles@[grid_index(w, x, y)],
                ),
        decreases nt - j,
    {
        let tile = region.tiles[j];
        let ghost pre = tiles@;
        let ghost et = (tile.0 as int, tile.1 as int);
        proof {
            assert(region.tiles@[j as int] == tile);
            lemma_grid_index_bounds(w, h, tile.0 as int, tile.1 as int);
            lemma_mul_bound(tile.1 as int, w);
        }
        let chance = rng.gen_range(0, 100);
        if chance < 20 {
            let idx = tile.0 as usize + (tile.1 as usize) * width;
            if tiles[idx] != TileType::Wall && tiles[idx] != TileType::Empty {
                tiles.set(idx, TileType::ThickWebs);
            }
        }
        proof {
            assert forall|x: int, y: int|
                in_grid(w, h, x, y) && tiles@[grid_index(w, x, y)] != g0[grid_index(w, x, y)] implies
                in_region_lists(*region, x, y) && is_nest_tile(tiles@[grid_index(w, x, y)]) by {
                lemma_grid_index_bounds(w, h, x, y);
                crate::grid::lemma_grid_index_injective(w, h, x, y, et.0, et.1);
                if x == et.0 && y == et.1 {
                    if tiles@[grid_index(w, x, y)] != pre[grid_index(w, x, y)] {
                        assert(region.tiles@[j as int].0 == x && region.tiles@[j as int].1 == y);
                        assert(tiles@[grid_index(w, x, y)] == TileType::ThickWebs);
                    } else {
                        assert(feature_cell_ok(g0[grid_index(w, x, y)], pre[grid_index(w, x, y)]));
                        assert(pre[grid_index(w, x, y)] != g0[grid_index(w, x, y)]
                            ==> in_region_lists(*region, x, y) && is_nest_tile(pre[grid_index(
                            w,
                            x,
                            y,
                        )]));
                    }
                } else {
                    assert(tiles@[grid_index(w, x, y)] == pre[grid_index(w, x, y)]);
                }
            }
        }
        j = j + 1;
    }
    // a few egg sacs on remaining floor
    let mut amount_remaining = rng.gen_range(1, 5);
    let mut j2: usize = 0;
    loop
        invariant_except_break
            1 <= amount_remaining,
            grid_wf(w, h, tiles@),
            w == width as int && h == height as int && g0 == old(tiles)@,
            nt == region.tiles@.len(),
            0 <= j2 <= nt,
            region_in_grid(w, h, *region),
            tiles@.len() == g0.len(),
            forall|i: int| 0 <= i < tiles@.len() ==> feature_cell_ok(g0[i], tiles@[i]),
            forall|x: int, y: int|
                #![trigger g0[grid_index(w, x, y)]]
                in_grid(w, h, x, y) && tiles@[grid_index(w, x, y)] != g0[grid_index(w, x, y)]
                    ==> in_region_lists(*region, x, y) && is_nest_tile(
                    tiles@[grid_index(w, x, y)],
                ),
            (exists|x: int, y: int|
                crate::reach::seq_has_coord(region.tiles@, x, y) && #[trigger] in_grid(w, h, x, y)
                    && tiles@[grid_index(w, x, y)] != g0[grid_index(w, x, y)]) || (forall|jj: int|
                0 <= jj < j2 ==> g0[grid_index(
                    w,
                    (#[trigger] region.tiles@[jj]).0 as int,
                    region.tiles@[jj].1 as int,
                )] != TileType::Floor),
        ensures
            grid_wf(w, h, tiles@),
            tiles@.len() == g0.len(),
            forall|i: int| 0 <= i < tiles@.len() ==> feature_cell_ok(g0[i], tiles@[i]),
            forall|x: int, y: int|
                #![trigger g0[grid_index(w, x, y)]]
                in_grid(w, h, x, y) && tiles@[grid_index(w, x, y)] != g0[grid_index(w, x, y)]
                    ==> in_region_lists(*region, x, y) && is_nest_tile(
                    tiles@[grid_index(w, x, y)],
                ),
            (exists|x: int, y: int|
                crate::reach::seq_has_coord(region.tiles@, x, y) && #[trigger] in_grid(w, h, x, y)
                    && tiles@[grid_index(w, x, y)] != g0[grid_index(w, x, y)]) || (forall|jj: int|
                0 <= jj < region.tiles@.len() ==> g0[grid_index(
                    w,
                    (#[trigger] region.tiles@[jj]).0 as int,
                    region.tiles@[jj].1 as int,
                )] != TileType::Floor),
        decreases nt - j2,
    {
        if !(j2 < nt) {
            break ;
        }
        let tile = region.tiles[j2];
        proof {
            assert(region.tiles@[j2 as int] == tile);
            lemma_grid_index_bounds(w, h, tile.0 as int, tile.1 as int);
            lemma_mul_bound(tile.1 as int, w);
        }
        let idx = tile.0 as usize + (tile.1 as usize) * width;
        let ghost pre = tiles@;
        if tiles[idx] == TileType::Floor {
            proof {
                // floor is no decoration, so this cell still holds its
                // starting value
                let et = (tile.0 as int, tile.1 as int);
                assert(!is_nest_tile(pre[grid_index(w, et.0, et.1)]));
                assert(pre[grid_index(w, et.0, et.1)] == g0[grid_index(w, et.0, et.1)]);
            }
            tiles.set(idx, TileType::EggSac);
            proof {
                let et = (tile.0 as int, tile.1 as int);
                assert forall|x: int, y: int|
                    in_grid(w, h, x, y) && tiles@[grid_index(w, x, y)] != g0[grid_index(w, x, y)] implies
                    in_region_lists(*region, x, y) && is_nest_tile(tiles@[grid_index(w, x, y)]) by {
                    lemma_grid_index_bounds(w, h, x, y);
                    crate::grid::lemma_grid_index_injective(w, h, x, y, et.0, et.1);
                    if x == et.0 && y == et.1 {
                        assert(region.tiles@[j2 as int].0 == x && region.tiles@[j2 as int].1 == y);
                    }
                }
                assert(tiles@[grid_index(w, et.0, et.1)] == TileType::EggSac);
                assert(tiles@[grid_index(w, et.0, et.1)] != g0[grid_index(w, et.0, et.1)]);
                assert(region.tiles@[j2 as int].0 == et.0 && region.tiles@[j2 as int].1 == et.1);
                assert(crate::reach::seq_has_coord(region.tiles@, et.0, et.1));
            }
            amount_remaining = amount_remaining - 1;
            if amount_remaining <= 0 {
                break ;
            }
        } else {
            proof {
                let et = (tile.0 as int, tile.1 as int);
                // this tile holds no floor now; either it was decorated,
                // which settles the claim, or it never held floor
                if tiles@[grid_index(w, et.0, et.1)] != g0[grid_index(w, et.0, et.1)] {
                    assert(region.tiles@[j2 as int].0 == et.0 && region.tiles@[j2 as int].1
                        == et.1);
                    assert(crate::reach::seq_has_coord(region.tiles@, et.0, et.1));
                    assert(in_grid(w, h, et.0, et.1));
                } else {
                    assert(g0[grid_index(w, et.0, et.1)] != TileType::Floor);
                }
            }
        }
        j2 = j2 + 1;
    }
    proof {
        if exists|kk: int|
            0 <= kk < region.tiles@.len() && g0[grid_index(
                w,
                (#[trigger] region.tiles@[kk]).0 as int,
                region.tiles@[kk].1 as int,
            )] == TileType::Floor {
            let kk = choose|kk: int|
                0 <= kk < region.tiles@.len() && g0[grid_index(
                    w,
                    (#[trigger] region.tiles@[kk]).0 as int,
                    region.tiles@[kk].1 as int,
                )] == TileType::Floor;
            assert(exists|x: int, y: int|
                crate::reach::seq_has_coord(region.tiles@, x, y) && #[trigger] in_grid(w, h, x, y)
                    && tiles@[grid_index(w, x, y)] != g0[grid_index(w, x, y)]);
        }
    }
}

} // verus!
