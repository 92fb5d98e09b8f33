//! The flat row-major grid model: index arithmetic, bounds, borders, and
//! neighbor counting shared by every generation pass.

use vstd::prelude::*;
use crate::tile::TileType;

verus! {

/// Index of cell (x, y) in a row-major grid of the given width.
pub open spec fn grid_index(width: int, x: int, y: int) -> int {
    x + y * width
}

/// Whether (x, y) lies inside a width x height grid.
pub open spec fn in_grid(width: int, height: int, x: int, y: int) -> bool {
    0 <= x < width && 0 <= y < height
}

/// Whether (x, y) lies on the outer ring of the grid.
pub open spec fn on_border(width: int, height: int, x: int, y: int) -> bool {
    x == 0 || y == 0 || x == width - 1 || y == height - 1
}

/// A well-formed grid: the tile array covers width x height cells, both
/// dimensions leave room for an interior, and each dimension is small enough
/// that index arithmetic stays inside the machine integers used here.
pub open spec fn grid_wf(width: int, height: int, tiles: Seq<TileType>) -> bool {
    &&& tiles.len() == width * height
    &&& 3 <= width < 0x8000
    &&& 3 <= height < 0x8000
}

pub proof fn lemma_grid_index_bounds(width: int, height: int, x: int, y: int)
    requires
        in_grid(width, height, x, y),
    ensures
        0 <= grid_index(width, x, y) < width * height,
        grid_index(width, x, y) >= x,
        grid_index(width, x, y) >= y,
{
    assert(0 <= x + y * width < width * height && x + y * width >= y) by (nonlinear_arith)
        requires
            0 <= x < width,
            0 <= y < height,
    ;
}

/// Products of two in-range dimensions stay far below the machine limits.
pub proof fn lemma_mul_bound(a: int, b: int)
    requires
        0 <= a < 0x8000,
        0 <= b < 0x8000,
    ensures
        0 <= a * b < 0x40000000,
{
    assert(0 <= a * b < 0x40000000) by (nonlinear_arith)
        requires
            0 <= a < 0x8000,
            0 <= b < 0x8000,
    ;
}

/// Two in-bounds cells share an index exactly when they are the same cell.
pub proof fn lemma_grid_index_injective(width: int, height: int, x1: int, y1: int, x2: int, y2: int)
    requires
        in_grid(width, height, x1, y1),
        in_grid(width, height, x2, y2),
    ensures
        (grid_index(width, x1, y1) == grid_index(width, x2, y2)) <==> (x1 == x2 && y1 == y2),
{
    assert((x1 + y1 * width == x2 + y2 * width) <==> (x1 == x2 && y1 == y2)) by (nonlinear_arith)
        requires
            0 <= x1 < width,
            0 <= x2 < width,
            0 <= y1 < height,
            0 <= y2 < height,
    ;
}

/// Every index is the index of exactly one cell: index i names the cell
/// (i % width, i / width).
pub proof fn lemma_grid_index_surjective(width: int, height: int, i: int)
    requires
        width > 0,
        0 <= i < width * height,
    ensures
        in_grid(width, height, i % width, i / width),
        grid_index(width, i % width, i / width) == i,
{
    vstd::arithmetic::div_mod::lemma_fundamental_div_mod(i, width);
    vstd::arithmetic::div_mod::lemma_mod_bound(i, width);
    assert(i / width < height) by (nonlinear_arith)
        requires
            width > 0,
            i < width * height,
            i == width * (i / width) + i % width,
            i % width >= 0,
    ;
    assert(i / width >= 0) by (nonlinear_arith)
        requires
            width > 0,
            i >= 0,
            i == width * (i / width) + i % width,
            i % width < width,
    ;
    assert(grid_index(width, i % width, i / width) == i % width + (i / width) * width);
    assert(i % width + (i / width) * width == i) by (nonlinear_arith)
        requires
            i == width * (i / width) + i % width,
    ;
}

/// A cell's coordinates can be read back from its index.
pub proof fn lemma_cell_coords(width: int, height: int, x: int, y: int)
    requires
        in_grid(width, height, x, y),
    ensures
        grid_index(width, x, y) % width == x,
        grid_index(width, x, y) / width == y,
{
    assert(x + y * width == y * width + x) by (nonlinear_arith);
    vstd::arithmetic::div_mod::lemma_fundamental_div_mod_converse(x + y * width, width, y, x);
}

/// Two same-size grids that agree on every cell are equal.
pub proof fn lemma_grid_ext_equal(width: int, height: int, a: Seq<TileType>, b: Seq<TileType>)
    requires
        width > 0,
        height > 0,
        a.len() == width * height,
        b.len() == width * height,
        forall|x: int, y: int|
            in_grid(width, height, x, y) ==> a[grid_index(width, x, y)] == b[grid_index(
                width,
                x,
                y,
            )],
    ensures
        a == b,
{
    assert forall|i: int| 0 <= i < a.len() implies a[i] == b[i] by {
        lemma_grid_index_surjective(width, height, i);
    }
    assert(a =~= b);
}

/// The set of all cells of a width x height grid.
pub open spec fn grid_cells(width: int, height: int) -> Set<(int, int)> {
    Set::new(|p: (int, int)| in_grid(width, height, p.0, p.1))
}

pub proof fn lemma_grid_cells_finite(width: int, height: int)
    requires
        width > 0,
        height > 0,
    ensures
        grid_cells(width, height).finite(),
        grid_cells(width, height).len() <= width * height,
{
    let f = |i: int| (i % width, i / width);
    let dom = vstd::set_lib::set_int_range(0, width * height);
    vstd::set_lib::lemma_int_range(0, width * height);
    assert forall|p: (int, int)| #[trigger] grid_cells(width, height).contains(p) implies dom.map(
        f,
    ).contains(p) by {
        lemma_grid_index_bounds(width, height, p.0, p.1);
        let i = grid_index(width, p.0, p.1);
        vstd::arithmetic::div_mod::lemma_fundamental_div_mod_converse(i, width, p.1, p.0);
        assert(dom.contains(i) && f(i) == p);
    }
    assert forall|p: (int, int)| #[trigger] dom.map(f).contains(p) implies grid_cells(
        width,
        height,
    ).contains(p) by {
        let i = choose|i: int| dom.contains(i) && f(i) == p;
        lemma_grid_index_surjective(width, height, i);
    }
    assert(dom.map(f) =~= grid_cells(width, height));
    dom.lemma_map_finite(f);
    vstd::set_lib::lemma_map_size_bound(dom, grid_cells(width, height), f);
}

/// 1 when the cell at (x, y) exists and matches t, else 0.
pub open spec fn nbr_at(
    tiles: Seq<TileType>,
    width: int,
    height: int,
    t: TileType,
    x: int,
    y: int,
) -> int {
    if in_grid(width, height, x, y) && tiles[grid_index(width, x, y)] == t {
        1
    } else {
        0
    }
}

/// How many of the 8 neighbors of (x, y) are of type t. Counting never
/// wraps: neighbors outside the grid count as no match.
pub open spec fn surrounding_count(
    tiles: Seq<TileType>,
    width: int,
    height: int,
    t: TileType,
    x: int,
    y: int,
) -> int {
    nbr_at(tiles, width, height, t, x - 1, y - 1) + nbr_at(tiles, width, height, t, x, y - 1)
        + nbr_at(tiles, width, height, t, x + 1, y - 1) + nbr_at(tiles, width, height, t, x - 1, y)
        + nbr_at(tiles, width, height, t, x + 1, y) + nbr_at(tiles, width, height, t, x - 1, y + 1)
        + nbr_at(tiles, width, height, t, x, y + 1) + nbr_at(tiles, width, height, t, x + 1, y + 1)
}

/// 1 when the cell at (x, y) exists and differs from t, else 0.
pub open spec fn nbr_other_at(
    tiles: Seq<TileType>,
    width: int,
    height: int,
    t: TileType,
    x: int,
    y: int,
) -> int {
    if in_grid(width, height, x, y) && tiles[grid_index(width, x, y)] != t {
        1
    } else {
        0
    }
}

/// How many of the 8 neighbors of (x, y) exist and are not of type t.
/// Zero means the cell is completely enclosed by type t.
pub open spec fn surrounding_other_count(
    tiles: Seq<TileType>,
    width: int,
    height: int,
    t: TileType,
    x: int,
    y: int,
) -> int {
    nbr_other_at(tiles, width, height, t, x - 1, y - 1) + nbr_other_at(
        tiles,
        width,
        height,
        t,
        x,
        y - 1,
    ) + nbr_other_at(tiles, width, height, t, x + 1, y - 1) + nbr_other_at(
        tiles,
        width,
        height,
        t,
        x - 1,
        y,
    ) + nbr_other_at(tiles, width, height, t, x + 1, y) + nbr_other_at(
        tiles,
        width,
        height,
        t,
        x - 1,
        y + 1,
    ) + nbr_other_at(tiles, width, height, t, x, y + 1) + nbr_other_at(
        tiles,
        width,
        height,
        t,
        x + 1,
        y + 1,
    )
}

/// True when the cell at (x, y) exists and is not of type t.
fn tile_differs(
    tiles: &Vec<TileType>,
    width: usize,
    height: usize,
    t: TileType,
    x: i64,
    y: i64,
) -> (r: bool)
    requires
        grid_wf(width as int, height as int, tiles@),
    ensures
        r == (nbr_other_at(tiles@, width as int, height as int, t, x as int, y as int) == 1),
{
    if 0 <= x && x < width as i64 && 0 <= y && y < height as i64 {
        proof {
            lemma_grid_index_bounds(width as int, height as int, x as int, y as int);
            lemma_mul_bound(y as int, width as int);
        }
        let idx: usize = (x as usize) + (y as usize) * width;
        tiles[idx] != t
    } else {
        false
    }
}

/// Returns the number of in-bounds neighbors of (x, y) whose type differs
/// from the given type, out of its 8 surrounding cells.
pub fn get_surrounding_other_count(
    width: usize,
    height: usize,
    tiles: &Vec<TileType>,
    t: TileType,
    x: i32,
    y: i32,
) -> (count: i32)
    requires
        grid_wf(width as int, height as int, tiles@),
    ensures
        count == surrounding_other_count(tiles@, width as int, height as int, t, x as int, y as int),
        0 <= count <= 8,
{
    let xl: i64 = x as i64;
    let yl: i64 = y as i64;
    let mut count: i32 = 0;
    if tile_differs(tiles, width, height, t, xl - 1, yl - 1) {
        count += 1;
    }
    if tile_differs(tiles, width, height, t, xl, yl - 1) {
        count += 1;
    }
    if tile_differs(tiles, width, height, t, xl + 1, yl - 1) {
        count += 1;
    }
    if tile_differs(tiles, width, height, t, xl - 1, yl) {
        count += 1;
    }
    if tile_differs(tiles, width, height, t, xl + 1, yl) {
        count += 1;
    }
    if tile_differs(tiles, width, height, t, xl - 1, yl + 1) {
        count += 1;
    }
    if tile_differs(tiles, width, height, t, xl, yl + 1) {
        count += 1;
    }
    if tile_differs(tiles, width, height, t, xl + 1, yl + 1) {
        count += 1;
    }
    count
}

/// The integer square root: the largest r with r * r <= n.
pub fn isqrt(n: i64) -> (r: i64)
    requires
        0 <= n < 0x100000000,
    ensures
        0 <= r <= 0x10000,
        r * r <= n,
        n < (r + 1) * (r + 1),
{
    let mut r: i64 = 0;
    loop
        invariant_except_break
            0 <= r <= 0x10000,
            r * r <= n,
            n < 0x100000000,
        ensures
            0 <= r <= 0x10000,
            r * r <= n,
            n < (r + 1) * (r + 1),
        decreases n - r * r,
    {
        proof {
            assert(0 <= (r + 1) * (r + 1) <= 0x100020001) by (nonlinear_arith)
                requires
                    0 <= r <= 0x10000,
            ;
            assert(r * r < (r + 1) * (r + 1)) by (nonlinear_arith)
                requires
                    0 <= r,
            ;
            assert((r + 1) * (r + 1) <= n ==> r + 1 <= 0x10000) by (nonlinear_arith)
                requires
                    0 <= r,
                    n < 0x100000000,
            ;
        }
        let next = r + 1;
        if next * next > n {
            break;
        }
        r = next;
    }
    r
}

/// True when the cell at (x, y) exists and matches t; (x, y) may lie
/// anywhere, including outside the grid.
fn tile_matches(
    tiles: &Vec<TileType>,
    width: usize,
    height: usize,
    t: TileType,
    x: i64,
    y: i64,
) -> (r: bool)
    requires
        grid_wf(width as int, height as int, tiles@),
    ensures
        r == (nbr_at(tiles@, width as int, height as int, t, x as int, y as int) == 1),
{
    if 0 <= x && x < width as i64 && 0 <= y && y < height as i64 {
        proof {
            lemma_grid_index_bounds(width as int, height as int, x as int, y as int);
            assert((width as int) * (height as int) < 0x40000000) by (nonlinear_arith)
                requires
                    0 <= (width as int) < 0x8000,
                    0 <= (height as int) < 0x8000,
            ;
        }
        let idx: usize = (x as usize) + (y as usize) * width;
        tiles[idx] == t
    } else {
        false
    }
}

/// Returns the number of neighbors of (x, y) that match a given type, out
/// of its 8 surrounding cells.
pub fn get_surrounding_neighbor_count(
    width: usize,
    height: usize,
    tiles: &Vec<TileType>,
    neighbor_type: TileType,
    x: i32,
    y: i32,
) -> (count: i32)
    requires
        grid_wf(width as int, height as int, tiles@),
    ensures
        count == surrounding_count(
            tiles@,
            width as int,
            height as int,
            neighbor_type,
            x as int,
            y as int,
        ),
        0 <= count <= 8,
{
    let xl: i64 = x as i64;
    let yl: i64 = y as i64;
    let mut count: i32 = 0;
    if tile_matches(tiles, width, height, neighbor_type, xl - 1, yl - 1) {
        count += 1;
    }
    if tile_matches(tiles, width, height, neighbor_type, xl, yl - 1) {
        count += 1;
    }
    if tile_matches(tiles, width, height, neighbor_type, xl + 1, yl - 1) {
        count += 1;
    }
    if tile_matches(tiles, width, height, neighbor_type, xl - 1, yl) {
        count += 1;
    }
    if tile_matches(tiles, width, height, neighbor_type, xl + 1, yl) {
        count += 1;
    }
    if tile_matches(tiles, width, height, neighbor_type, xl - 1, yl + 1) {
        count += 1;
    }
    if tile_matches(tiles, width, height, neighbor_type, xl, yl + 1) {
        count += 1;
    }
    if tile_matches(tiles, width, height, neighbor_type, xl + 1, yl + 1) {
        count += 1;
    }
    count
}

} // verus!
