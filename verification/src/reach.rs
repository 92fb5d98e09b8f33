//! Flood-fill reachability: the mathematical definition of a connected
//! region, the lemmas that characterise it, and the breadth-first scan that
//! provably collects exactly the reachable cells.

use std::collections::VecDeque;
use vstd::prelude::*;
use vstd::set_lib::lemma_len_subset;
use crate::grid::{
    grid_cells, grid_index, grid_wf, in_grid, lemma_grid_cells_finite, lemma_grid_index_bounds,
    lemma_grid_index_injective,
};
use crate::tile::{spec_is_safe, TileType};

verus! {

/// Which cells a flood fill walks through: cells of one exact tile type, or
/// every tile that is safe to path through.
#[derive(Copy, Clone, Debug, PartialEq, Eq, Structural)]
pub enum TileClass {
    Exact(TileType),
    Safe,
}

/// Whether a tile belongs to the class.
pub open spec fn class_match(class: TileClass, t: TileType) -> bool {
    match class {
        TileClass::Exact(tt) => t == tt,
        TileClass::Safe => spec_is_safe(t),
    }
}

/// Executable form of `class_match`.
pub fn tile_class_match(class: TileClass, t: TileType) -> (r: bool)
    ensures
        r == class_match(class, t),
{
    match class {
        TileClass::Exact(tt) => t == tt,
        TileClass::Safe => crate::tile::is_safe(t),
    }
}

/// Whether two cells are 4-connected neighbors (cardinal, not diagonal).
pub open spec fn step_adj(p: (int, int), q: (int, int)) -> bool {
    ||| (p.0 == q.0 && (p.1 == q.1 + 1 || p.1 == q.1 - 1))
    ||| (p.1 == q.1 && (p.0 == q.0 + 1 || p.0 == q.0 - 1))
}

/// (x, y) can be reached from (sx, sy) in at most n steps, walking only on
/// in-bounds cells of the class.
pub open spec fn reachable_in(
    g: Seq<TileType>,
    w: int,
    h: int,
    class: TileClass,
    sx: int,
    sy: int,
    x: int,
    y: int,
    n: nat,
) -> bool
    decreases n,
{
    &&& in_grid(w, h, x, y)
    &&& class_match(class, g[grid_index(w, x, y)])
    &&& ((x == sx && y == sy) || (n > 0 && exists|p: (int, int)|
        step_adj(p, (x, y)) && reachable_in(g, w, h, class, sx, sy, p.0, p.1, (n - 1) as nat)))
}

/// (x, y) lies in the same connected component of the class as (sx, sy).
pub open spec fn reachable(
    g: Seq<TileType>,
    w: int,
    h: int,
    class: TileClass,
    sx: int,
    sy: int,
    x: int,
    y: int,
) -> bool {
    exists|n: nat| reachable_in(g, w, h, class, sx, sy, x, y, n)
}

/// A matching start cell reaches itself.
pub proof fn lemma_reachable_here(
    g: Seq<TileType>,
    w: int,
    h: int,
    class: TileClass,
    sx: int,
    sy: int,
)
    requires
        in_grid(w, h, sx, sy),
        class_match(class, g[grid_index(w, sx, sy)]),
    ensures
        reachable(g, w, h, class, sx, sy, sx, sy),
{
    assert(reachable_in(g, w, h, class, sx, sy, sx, sy, 0));
}

/// Reachability extends across one step to an in-bounds matching neighbor.
pub proof fn lemma_reachable_step(
    g: Seq<TileType>,
    w: int,
    h: int,
    class: TileClass,
    sx: int,
    sy: int,
    px: int,
    py: int,
    x: int,
    y: int,
)
    requires
        reachable(g, w, h, class, sx, sy, px, py),
        step_adj((px, py), (x, y)),
        in_grid(w, h, x, y),
        class_match(class, g[grid_index(w, x, y)]),
    ensures
        reachable(g, w, h, class, sx, sy, x, y),
{
    let n = choose|n: nat| reachable_in(g, w, h, class, sx, sy, px, py, n);
    assert(step_adj((px, py), (x, y)) && reachable_in(g, w, h, class, sx, sy, px, py, n));
    assert(reachable_in(g, w, h, class, sx, sy, x, y, n + 1));
}

/// Any set that contains the start and is closed under eligible steps
/// contains every reachable cell.
pub proof fn lemma_reachable_closed(
    g: Seq<TileType>,
    w: int,
    h: int,
    class: TileClass,
    sx: int,
    sy: int,
    s: Set<(int, int)>,
    x: int,
    y: int,
    n: nat,
)
    requires
        s.contains((sx, sy)),
        forall|p: (int, int), q: (int, int)|
            s.contains(p) && #[trigger] step_adj(p, q) && in_grid(w, h, q.0, q.1) && class_match(
                class,
                g[grid_index(w, q.0, q.1)],
            ) ==> s.contains(q),
        reachable_in(g, w, h, class, sx, sy, x, y, n),
    ensures
        s.contains((x, y)),
    decreases n,
{
    if !(x == sx && y == sy) {
        let p = choose|p: (int, int)|
            step_adj(p, (x, y)) && reachable_in(g, w, h, class, sx, sy, p.0, p.1, (n - 1) as nat);
        lemma_reachable_closed(g, w, h, class, sx, sy, s, p.0, p.1, (n - 1) as nat);
    }
}

/// Reachability is transitive.
pub proof fn lemma_reachable_trans(
    g: Seq<TileType>,
    w: int,
    h: int,
    class: TileClass,
    ax: int,
    ay: int,
    bx: int,
    by: int,
    cx: int,
    cy: int,
)
    requires
        reachable(g, w, h, class, ax, ay, bx, by),
        reachable(g, w, h, class, bx, by, cx, cy),
    ensures
        reachable(g, w, h, class, ax, ay, cx, cy),
{
    let n = choose|n: nat| reachable_in(g, w, h, class, bx, by, cx, cy, n);
    lemma_reachable_trans_helper(g, w, h, class, ax, ay, bx, by, cx, cy, n);
}

proof fn lemma_reachable_trans_helper(
    g: Seq<TileType>,
    w: int,
    h: int,
    class: TileClass,
    ax: int,
    ay: int,
    bx: int,
    by: int,
    cx: int,
    cy: int,
    n: nat,
)
    requires
        reachable(g, w, h, class, ax, ay, bx, by),
        reachable_in(g, w, h, class, bx, by, cx, cy, n),
    ensures
        reachable(g, w, h, class, ax, ay, cx, cy),
    decreases n,
{
    if cx == bx && cy == by {
    } else {
        let p = choose|p: (int, int)|
            step_adj(p, (cx, cy)) && reachable_in(g, w, h, class, bx, by, p.0, p.1, (n - 1) as nat);
        lemma_reachable_trans_helper(g, w, h, class, ax, ay, bx, by, p.0, p.1, (n - 1) as nat);
        lemma_reachable_step(g, w, h, class, ax, ay, p.0, p.1, cx, cy);
    }
}

/// Reachability is symmetric.
pub proof fn lemma_reachable_sym(
    g: Seq<TileType>,
    w: int,
    h: int,
    class: TileClass,
    sx: int,
    sy: int,
    x: int,
    y: int,
)
    requires
        reachable(g, w, h, class, sx, sy, x, y),
    ensures
        reachable(g, w, h, class, x, y, sx, sy),
{
    let n = choose|n: nat| reachable_in(g, w, h, class, sx, sy, x, y, n);
    lemma_reachable_sym_helper(g, w, h, class, sx, sy, x, y, n);
}

proof fn lemma_reachable_sym_helper(
    g: Seq<TileType>,
    w: int,
    h: int,
    class: TileClass,
    sx: int,
    sy: int,
    x: int,
    y: int,
    n: nat,
)
    requires
        reachable_in(g, w, h, class, sx, sy, x, y, n),
    ensures
        reachable(g, w, h, class, x, y, sx, sy),
    decreases n,
{
    if x == sx && y == sy {
        lemma_reachable_here(g, w, h, class, sx, sy);
    } else {
        let p = choose|p: (int, int)|
            step_adj(p, (x, y)) && reachable_in(g, w, h, class, sx, sy, p.0, p.1, (n - 1) as nat);
        lemma_reachable_sym_helper(g, w, h, class, sx, sy, p.0, p.1, (n - 1) as nat);
        lemma_reachable_here(g, w, h, class, x, y);
        lemma_reachable_step(g, w, h, class, x, y, x, y, p.0, p.1);
        lemma_reachable_trans(g, w, h, class, x, y, p.0, p.1, sx, sy);
    }
}

/// The connected component of (x, y): all cells of the class reachable
/// from it.
pub open spec fn component(
    g: Seq<TileType>,
    w: int,
    h: int,
    class: TileClass,
    x: int,
    y: int,
) -> Set<(int, int)> {
    Set::new(|p: (int, int)| reachable(g, w, h, class, x, y, p.0, p.1))
}

/// Two cells of one component have the same component.
pub proof fn lemma_component_same(
    g: Seq<TileType>,
    w: int,
    h: int,
    class: TileClass,
    ax: int,
    ay: int,
    bx: int,
    by: int,
)
    requires
        reachable(g, w, h, class, ax, ay, bx, by),
    ensures
        component(g, w, h, class, ax, ay) == component(g, w, h, class, bx, by),
{
    lemma_reachable_sym(g, w, h, class, ax, ay, bx, by);
    assert forall|p: (int, int)| #[trigger] component(g, w, h, class, ax, ay).contains(p) implies
        component(g, w, h, class, bx, by).contains(p) by {
        lemma_reachable_trans(g, w, h, class, bx, by, ax, ay, p.0, p.1);
    }
    assert forall|p: (int, int)| #[trigger] component(g, w, h, class, bx, by).contains(p) implies
        component(g, w, h, class, ax, ay).contains(p) by {
        lemma_reachable_trans(g, w, h, class, ax, ay, bx, by, p.0, p.1);
    }
    assert(component(g, w, h, class, ax, ay) =~= component(g, w, h, class, bx, by));
}

/// A duplicate-free list that holds exactly the cells of a component
/// measures that component's size.
pub proof fn lemma_component_card(
    g: Seq<TileType>,
    w: int,
    h: int,
    class: TileClass,
    x: int,
    y: int,
    v: Seq<(i32, i32)>,
)
    requires
        v.no_duplicates(),
        forall|k: int|
            0 <= k < v.len() ==> reachable(g, w, h, class, x, y, (#[trigger] v[k]).0 as int, v[k].1 as int),
        forall|a: int, b: int| reachable(g, w, h, class, x, y, a, b) ==> seq_has_coord(v, a, b),
    ensures
        component(g, w, h, class, x, y).finite(),
        component(g, w, h, class, x, y).len() == v.len(),
{
    let f = |e: (i32, i32)| (e.0 as int, e.1 as int);
    let s = component(g, w, h, class, x, y);
    v.unique_seq_to_set();
    assert forall|p: (int, int)| #[trigger] s.contains(p) implies v.to_set().map(f).contains(p) by {
        assert(reachable(g, w, h, class, x, y, p.0, p.1));
        assert(seq_has_coord(v, p.0, p.1));
        let k = choose|k: int| 0 <= k < v.len() && v[k].0 == p.0 && v[k].1 == p.1;
        assert(0 <= k < v.len());
        assert(v.contains(v[k]));
        assert(v.to_set().contains(v[k]));
        assert(f(v[k]) == p);
    }
    assert forall|p: (int, int)| #[trigger] v.to_set().map(f).contains(p) implies s.contains(p) by {
        let e = choose|e: (i32, i32)| v.to_set().contains(e) && f(e) == p;
        let k = choose|k: int| 0 <= k < v.len() && v[k] == e;
    }
    assert(v.to_set().map(f) =~= s);
    assert(vstd::relations::injective_on(f, v.to_set()));
    vstd::set_lib::lemma_map_size(v.to_set(), s, f);
}

/// The cells a flag array marks.
pub open spec fn flag_set(flags: Seq<u8>, w: int, h: int) -> Set<(int, int)> {
    Set::new(|p: (int, int)| in_grid(w, h, p.0, p.1) && flags[grid_index(w, p.0, p.1)] == 1)
}

/// Whether a coordinate list holds the cell (x, y).
pub open spec fn seq_has_coord(v: Seq<(i32, i32)>, x: int, y: int) -> bool {
    exists|k: int| 0 <= k < v.len() && v[k].0 == x && v[k].1 == y
}

/// The core invariant of the breadth-first scan: the flags mark exactly
/// the collected and queued cells, every marked cell is reachable from the
/// start, and nothing is collected or queued twice.
pub open spec fn scan_core(
    g: Seq<TileType>,
    w: int,
    h: int,
    class: TileClass,
    sx: int,
    sy: int,
    region: Seq<(i32, i32)>,
    flags: Seq<u8>,
    queue: Seq<(i32, i32)>,
) -> bool {
    &&& flags.len() == w * h
    &&& (forall|i: int| 0 <= i < flags.len() ==> flags[i] == 0 || flags[i] == 1)
    &&& in_grid(w, h, sx, sy)
    &&& flags[grid_index(w, sx, sy)] == 1
    &&& forall|x: int, y: int|
        in_grid(w, h, x, y) ==> ((flags[grid_index(w, x, y)] == 1) <==> (seq_has_coord(region, x, y)
            || seq_has_coord(queue, x, y)))
    &&& forall|k: int|
        0 <= k < region.len() ==> in_grid(w, h, (#[trigger] region[k]).0 as int, region[k].1 as int)
            && reachable(g, w, h, class, sx, sy, region[k].0 as int, region[k].1 as int)
    &&& forall|k: int|
        0 <= k < queue.len() ==> in_grid(w, h, (#[trigger] queue[k]).0 as int, queue[k].1 as int)
            && reachable(g, w, h, class, sx, sy, queue[k].0 as int, queue[k].1 as int)
    &&& region.no_duplicates()
    &&& queue.no_duplicates()
    &&& forall|k1: int, k2: int|
        0 <= k1 < region.len() && 0 <= k2 < queue.len() ==> (#[trigger] region[k1]) != (
        #[trigger] queue[k2])
}

/// Every eligible neighbor of a collected cell is marked.
pub open spec fn region_closed(
    g: Seq<TileType>,
    w: int,
    h: int,
    class: TileClass,
    region: Seq<(i32, i32)>,
    flags: Seq<u8>,
) -> bool {
    forall|k: int, q: (int, int)|
        0 <= k < region.len() && #[trigger] step_adj(
            ((#[trigger] region[k]).0 as int, region[k].1 as int),
            q,
        ) && in_grid(w, h, q.0, q.1) && class_match(class, g[grid_index(w, q.0, q.1)]) ==> flags[grid_index(
            w,
            q.0,
            q.1,
        )] == 1
}

/// Visits one neighbor candidate of a just-collected cell: if it is an
/// in-bounds, unvisited, matching cell it is marked and queued; otherwise
/// nothing changes.
fn try_visit(
    width: usize,
    height: usize,
    tiles: &Vec<TileType>,
    class: TileClass,
    region_tiles: &Vec<(i32, i32)>,
    map_flags: &mut Vec<u8>,
    queue: &mut VecDeque<(i32, i32)>,
    nx: i32,
    ny: i32,
    start: Ghost<(int, int)>,
)
    requires
        grid_wf(width as int, height as int, tiles@),
        scan_core(
            tiles@,
            width as int,
            height as int,
            class,
            start@.0,
            start@.1,
            region_tiles@,
            old(map_flags)@,
            old(queue)@,
        ),
        in_grid(width as int, height as int, nx as int, ny as int) && class_match(
            class,
            tiles@[grid_index(width as int, nx as int, ny as int)],
        ) ==> reachable(
            tiles@,
            width as int,
            height as int,
            class,
            start@.0,
            start@.1,
            nx as int,
            ny as int,
        ),
    ensures
        scan_core(
            tiles@,
            width as int,
            height as int,
            class,
            start@.0,
            start@.1,
            region_tiles@,
            final(map_flags)@,
            final(queue)@,
        ),
        flag_set(final(map_flags)@, width as int, height as int) == (if in_grid(
            width as int,
            height as int,
            nx as int,
            ny as int,
        ) && class_match(class, tiles@[grid_index(width as int, nx as int, ny as int)]) {
            flag_set(old(map_flags)@, width as int, height as int).insert((nx as int, ny as int))
        } else {
            flag_set(old(map_flags)@, width as int, height as int)
        }),
        final(queue)@ == (if in_grid(width as int, height as int, nx as int, ny as int)
            && class_match(class, tiles@[grid_index(width as int, nx as int, ny as int)])
            && !flag_set(old(map_flags)@, width as int, height as int).contains(
            (nx as int, ny as int),
        ) {
            old(queue)@.push((nx, ny))
        } else {
            old(queue)@
        }),
{
    let ghost w = width as int;
    let ghost h = height as int;
    let ghost g = tiles@;
    let ghost flags0 = map_flags@;
    let ghost queue0 = queue@;
    if 0 <= nx && (nx as usize) < width && 0 <= ny && (ny as usize) < height {
        proof {
            lemma_grid_index_bounds(w, h, nx as int, ny as int);
            crate::grid::lemma_mul_bound(ny as int, w);
        }
        let idx = nx as usize + ny as usize * width;
        if map_flags[idx] == 0 && tile_class_match(class, tiles[idx]) {
            map_flags.set(idx, 1);
            queue.push_back((nx, ny));
            proof {
                let p = (nx as int, ny as int);
                lemma_grid_index_bounds(w, h, start@.0, start@.1);
                assert(seq_has_coord(queue@, nx as int, ny as int)) by {
                    assert(queue@[queue@.len() - 1] == (nx, ny));
                }
                assert forall|x: int, y: int| in_grid(w, h, x, y) implies ((map_flags@[grid_index(
                    w,
                    x,
                    y,
                )] == 1) <==> (seq_has_coord(region_tiles@, x, y) || seq_has_coord(
                    queue@,
                    x,
                    y,
                ))) by {
                    lemma_grid_index_bounds(w, h, x, y);
                    lemma_grid_index_injective(w, h, x, y, nx as int, ny as int);
                    if x == nx as int && y == ny as int {
                    } else {
                        assert(seq_has_coord(queue@, x, y) ==> seq_has_coord(queue0, x, y)) by {
                            if seq_has_coord(queue@, x, y) {
                                let k = choose|k: int|
                                    0 <= k < queue@.len() && queue@[k].0 == x && queue@[k].1 == y;
                                assert(k < queue0.len() && queue0[k] == queue@[k]);
                            }
                        }
                        assert(seq_has_coord(queue0, x, y) ==> seq_has_coord(queue@, x, y)) by {
                            if seq_has_coord(queue0, x, y) {
                                let k = choose|k: int|
                                    0 <= k < queue0.len() && queue0[k].0 == x && queue0[k].1 == y;
                                assert(queue@[k] == queue0[k]);
                            }
                        }
                    }
                }
                // the new cell was unmarked, so it sits in neither list
                assert(!seq_has_coord(region_tiles@, nx as int, ny as int));
                assert(!seq_has_coord(queue0, nx as int, ny as int));
                assert(queue@.no_duplicates()) by {
                    assert forall|k1: int, k2: int|
                        0 <= k1 < queue@.len() && 0 <= k2 < queue@.len() && k1 != k2 implies queue@[k1]
                        != queue@[k2] by {
                        if k2 == queue@.len() - 1 {
                            assert(queue@[k1] == queue0[k1]);
                        } else if k1 == queue@.len() - 1 {
                            assert(queue@[k2] == queue0[k2]);
                        } else {
                            assert(queue@[k1] == queue0[k1] && queue@[k2] == queue0[k2]);
                        }
                    }
                }
                assert(flag_set(map_flags@, w, h) =~= flag_set(flags0, w, h).insert(p)) by {
                    assert forall|q: (int, int)| #[trigger] flag_set(map_flags@, w, h).contains(q)
                        <==> flag_set(flags0, w, h).insert(p).contains(q) by {
                        if in_grid(w, h, q.0, q.1) {
                            lemma_grid_index_bounds(w, h, q.0, q.1);
                            lemma_grid_index_injective(w, h, q.0, q.1, nx as int, ny as int);
                        }
                    }
                }
            }
        } else {
            proof {
                let p = (nx as int, ny as int);
                if class_match(class, g[grid_index(w, nx as int, ny as int)]) {
                    assert(flag_set(flags0, w, h).contains(p));
                    assert(flag_set(flags0, w, h).insert(p) =~= flag_set(flags0, w, h));
                }
            }
        }
    }
}

/// A reachable cell is an in-bounds cell of the class.
pub proof fn lemma_reachable_target(
    g: Seq<TileType>,
    w: int,
    h: int,
    class: TileClass,
    sx: int,
    sy: int,
    x: int,
    y: int,
)
    requires
        reachable(g, w, h, class, sx, sy, x, y),
    ensures
        in_grid(w, h, x, y),
        class_match(class, g[grid_index(w, x, y)]),
{
    let n = choose|n: nat| reachable_in(g, w, h, class, sx, sy, x, y, n);
    assert(reachable_in(g, w, h, class, sx, sy, x, y, n));
}

/// Collects, by a breadth-first flood fill, exactly the cells of the given
/// class that are 4-connected to the start cell: every listed cell is
/// reachable, every reachable cell is listed, and none is listed twice.
#[verifier::rlimit(100)]
pub fn region_scan(
    width: usize,
    height: usize,
    tiles: &Vec<TileType>,
    class: TileClass,
    start: (usize, usize),
) -> (found: Vec<(i32, i32)>)
    requires
        grid_wf(width as int, height as int, tiles@),
        in_grid(width as int, height as int, start.0 as int, start.1 as int),
        class_match(class, tiles@[grid_index(width as int, start.0 as int, start.1 as int)]),
    ensures
        found@.no_duplicates(),
        forall|k: int|
            0 <= k < found@.len() ==> in_grid(
                width as int,
                height as int,
                (#[trigger] found@[k]).0 as int,
                found@[k].1 as int,
            ) && reachable(
                tiles@,
                width as int,
                height as int,
                class,
                start.0 as int,
                start.1 as int,
                found@[k].0 as int,
                found@[k].1 as int,
            ),
        forall|x: int, y: int|
            reachable(tiles@, width as int, height as int, class, start.0 as int, start.1 as int, x, y)
                ==> seq_has_coord(found@, x, y),
        found@.len() > 0,
        found@[0] == (start.0 as i32, start.1 as i32),
{
    let ghost w = width as int;
    let ghost h = height as int;
    let ghost g = tiles@;
    let ghost sx = start.0 as int;
    let ghost sy = start.1 as int;
    proof {
        crate::grid::lemma_mul_bound(w, h);
    }
    let n_cells = width * height;
    let mut map_flags: Vec<u8> = Vec::new();
    while map_flags.len() < n_cells
        invariant
            map_flags@.len() <= n_cells,
            forall|i: int| 0 <= i < map_flags@.len() ==> map_flags@[i] == 0,
        decreases n_cells - map_flags@.len(),
    {
        map_flags.push(0);
    }
    let mut region_tiles: Vec<(i32, i32)> = Vec::new();
    let mut queue: VecDeque<(i32, i32)> = VecDeque::new();
    proof {
        lemma_grid_index_bounds(w, h, sx, sy);
        crate::grid::lemma_mul_bound(sy, w);
    }
    let sidx = start.0 + start.1 * width;
    map_flags.set(sidx, 1);
    queue.push_back((start.0 as i32, start.1 as i32));
    proof {
        lemma_reachable_here(g, w, h, class, sx, sy);
        assert forall|x: int, y: int| in_grid(w, h, x, y) implies ((map_flags@[grid_index(w, x, y)]
            == 1) <==> (seq_has_coord(region_tiles@, x, y) || seq_has_coord(queue@, x, y))) by {
            lemma_grid_index_bounds(w, h, x, y);
            lemma_grid_index_injective(w, h, x, y, sx, sy);
            if x == sx && y == sy {
                assert(queue@[0].0 == x && queue@[0].1 == y);
            } else {
                if seq_has_coord(queue@, x, y) {
                    let k = choose|k: int|
                        0 <= k < queue@.len() && queue@[k].0 == x && queue@[k].1 == y;
                    assert(k == 0);
                }
            }
        }
        assert(scan_core(g, w, h, class, sx, sy, region_tiles@, map_flags@, queue@));
        assert(region_closed(g, w, h, class, region_tiles@, map_flags@));
        lemma_grid_cells_finite(w, h);
        assert(flag_set(map_flags@, w, h).subset_of(grid_cells(w, h)));
        lemma_len_subset(flag_set(map_flags@, w, h), grid_cells(w, h));
    }
    while queue.len() > 0
        invariant
            grid_wf(w, h, g),
            w == width as int && h == height as int && g == tiles@,
            sx == start.0 as int && sy == start.1 as int,
            scan_core(g, w, h, class, sx, sy, region_tiles@, map_flags@, queue@),
            region_closed(g, w, h, class, region_tiles@, map_flags@),
            flag_set(map_flags@, w, h).len() <= grid_cells(w, h).len(),
            grid_cells(w, h).finite(),
            region_tiles@.len() == 0 ==> queue@.len() > 0 && queue@[0] == (
                start.0 as i32,
                start.1 as i32,
            ),
            region_tiles@.len() > 0 ==> region_tiles@[0] == (start.0 as i32, start.1 as i32),
        decreases grid_cells(w, h).len() - flag_set(map_flags@, w, h).len(), queue@.len(),
    {
        let ghost flags_entry = map_flags@;
        let ghost queue_entry = queue@;
        let ghost region_entry = region_tiles@;
        let tile = queue.pop_front().unwrap();
        let ghost tx = tile.0 as int;
        let ghost ty = tile.1 as int;
        let ghost queue_popped = queue@;
        proof {
            assert(queue_entry[0] == tile);
            assert(in_grid(w, h, tx, ty) && reachable(g, w, h, class, sx, sy, tx, ty));
        }
        region_tiles.push(tile);
        proof {
            // the popped cell moves from the queue to the collected list;
            // the marked set is untouched
            assert forall|x: int, y: int|
                in_grid(w, h, x, y) && map_flags@[grid_index(w, x, y)] == 1 implies (seq_has_coord(
                region_tiles@,
                x,
                y,
            ) || seq_has_coord(queue@, x, y)) by {
                lemma_grid_index_bounds(w, h, x, y);
                assert(seq_has_coord(region_entry, x, y) || seq_has_coord(queue_entry, x, y));
                if seq_has_coord(region_entry, x, y) {
                    let k = choose|k: int|
                        0 <= k < region_entry.len() && region_entry[k].0 == x && region_entry[k].1
                            == y;
                    assert(region_tiles@[k].0 == x && region_tiles@[k].1 == y);
                    assert(seq_has_coord(region_tiles@, x, y));
                } else {
                    let k = choose|k: int|
                        0 <= k < queue_entry.len() && queue_entry[k].0 == x && queue_entry[k].1
                            == y;
                    if k == 0 {
                        assert(region_tiles@[region_entry.len() as int].0 == x && region_tiles@[
                            region_entry.len() as int
                        ].1 == y);
                        assert(seq_has_coord(region_tiles@, x, y));
                    } else {
                        assert(queue@[k - 1].0 == x && queue@[k - 1].1 == y);
                        assert(seq_has_coord(queue@, x, y));
                    }
                }
            }
            assert forall|x: int, y: int|
                in_grid(w, h, x, y) && (seq_has_coord(region_tiles@, x, y) || seq_has_coord(
                    queue@,
                    x,
                    y,
                )) implies map_flags@[grid_index(w, x, y)] == 1 by {
                lemma_grid_index_bounds(w, h, x, y);
                if seq_has_coord(region_tiles@, x, y) {
                    let k = choose|k: int|
                        0 <= k < region_tiles@.len() && region_tiles@[k].0 == x
                            && region_tiles@[k].1 == y;
                    if k < region_entry.len() {
                        assert(region_entry[k].0 == x && region_entry[k].1 == y);
                        assert(seq_has_coord(region_entry, x, y));
                    } else {
                        assert(queue_entry[0].0 == x && queue_entry[0].1 == y);
                        assert(seq_has_coord(queue_entry, x, y));
                    }
                } else {
                    let k = choose|k: int|
                        0 <= k < queue@.len() && queue@[k].0 == x && queue@[k].1 == y;
                    assert(queue_entry[k + 1].0 == x && queue_entry[k + 1].1 == y);
                    assert(seq_has_coord(queue_entry, x, y));
                }
            }
            // distinctness carries over
            assert(region_tiles@.no_duplicates()) by {
                assert forall|k1: int, k2: int|
                    0 <= k1 < region_tiles@.len() && 0 <= k2 < region_tiles@.len() && k1 != k2 implies
                    region_tiles@[k1] != region_tiles@[k2] by {
                    if k1 < region_entry.len() && k2 < region_entry.len() {
                        assert(region_entry[k1] == region_tiles@[k1]);
                        assert(region_entry[k2] == region_tiles@[k2]);
                    } else if k1 < region_entry.len() {
                        assert(region_tiles@[k2] == queue_entry[0]);
                        assert(region_entry[k1] == region_tiles@[k1]);
                    } else {
                        assert(region_tiles@[k1] == queue_entry[0]);
                        assert(region_entry[k2] == region_tiles@[k2]);
                    }
                }
            }
            assert(queue@.no_duplicates()) by {
                assert forall|k1: int, k2: int|
                    0 <= k1 < queue@.len() && 0 <= k2 < queue@.len() && k1 != k2 implies queue@[k1]
                    != queue@[k2] by {
                    assert(queue@[k1] == queue_entry[k1 + 1]);
                    assert(queue@[k2] == queue_entry[k2 + 1]);
                }
            }
            assert forall|k1: int, k2: int|
                0 <= k1 < region_tiles@.len() && 0 <= k2 < queue@.len() implies region_tiles@[k1]
                != queue@[k2] by {
                assert(queue@[k2] == queue_entry[k2 + 1]);
                if k1 < region_entry.len() {
                    assert(region_tiles@[k1] == region_entry[k1]);
                } else {
                    assert(region_tiles@[k1] == queue_entry[0]);
                }
            }
            assert(scan_core(g, w, h, class, sx, sy, region_tiles@, map_flags@, queue@));
        }
        let ghost s0 = flag_set(map_flags@, w, h);
        proof {
            if in_grid(w, h, tx - 1, ty) && class_match(class, g[grid_index(w, tx - 1, ty)]) {
                lemma_reachable_step(g, w, h, class, sx, sy, tx, ty, tx - 1, ty);
            }
        }
        try_visit(
            width,
            height,
            tiles,
            class,
            &region_tiles,
            &mut map_flags,
            &mut queue,
            tile.0 - 1,
            tile.1,
            Ghost((sx, sy)),
        );
        let ghost s1 = flag_set(map_flags@, w, h);
        proof {
            if in_grid(w, h, tx + 1, ty) && class_match(class, g[grid_index(w, tx + 1, ty)]) {
                lemma_reachable_step(g, w, h, class, sx, sy, tx, ty, tx + 1, ty);
            }
        }
        try_visit(
            width,
            height,
            tiles,
            class,
            &region_tiles,
            &mut map_flags,
            &mut queue,
            tile.0 + 1,
            tile.1,
            Ghost((sx, sy)),
        );
        let ghost s2 = flag_set(map_flags@, w, h);
        proof {
            if in_grid(w, h, tx, ty - 1) && class_match(class, g[grid_index(w, tx, ty - 1)]) {
                lemma_reachable_step(g, w, h, class, sx, sy, tx, ty, tx, ty - 1);
            }
        }
        try_visit(
            width,
            height,
            tiles,
            class,
            &region_tiles,
            &mut map_flags,
            &mut queue,
            tile.0,
            tile.1 - 1,
            Ghost((sx, sy)),
        );
        let ghost s3 = flag_set(map_flags@, w, h);
        proof {
            if in_grid(w, h, tx, ty + 1) && class_match(class, g[grid_index(w, tx, ty + 1)]) {
                lemma_reachable_step(g, w, h, class, sx, sy, tx, ty, tx, ty + 1);
            }
        }
        try_visit(
            width,
            height,
            tiles,
            class,
            &region_tiles,
            &mut map_flags,
            &mut queue,
            tile.0,
            tile.1 + 1,
            Ghost((sx, sy)),
        );
        let ghost s4 = flag_set(map_flags@, w, h);
        proof {
            assert(s0.subset_of(s4) && s1.subset_of(s4) && s2.subset_of(s4) && s3.subset_of(s4));
            // the collected list stays closed: old members by monotonicity,
            // the popped cell because each of its 4 neighbors was visited
            assert forall|k: int, q: (int, int)|
                0 <= k < region_tiles@.len() && #[trigger] step_adj(
                    ((#[trigger] region_tiles@[k]).0 as int, region_tiles@[k].1 as int),
                    q,
                ) && in_grid(w, h, q.0, q.1) && class_match(class, g[grid_index(w, q.0, q.1)]) implies
                map_flags@[grid_index(w, q.0, q.1)] == 1 by {
                lemma_grid_index_bounds(w, h, q.0, q.1);
                if k < region_entry.len() {
                    assert(region_entry[k] == region_tiles@[k]);
                    assert(flags_entry[grid_index(w, q.0, q.1)] == 1);
                    assert(s0.contains(q));
                    assert(s4.contains(q));
                } else {
                    assert(region_tiles@[k] == tile);
                    if q == (tx - 1, ty) {
                        assert(s1.contains(q));
                    } else if q == (tx + 1, ty) {
                        assert(s2.contains(q));
                    } else if q == (tx, ty - 1) {
                        assert(s3.contains(q));
                    } else {
                        assert(q == (tx, ty + 1));
                        assert(s4.contains(q));
                    }
                }
                assert(s4.contains(q));
            }
            // termination: either a new cell was marked, or the queue got
            // shorter
            assert(flag_set(map_flags@, w, h).subset_of(grid_cells(w, h)));
            lemma_len_subset(flag_set(map_flags@, w, h), grid_cells(w, h));
            if s4 =~= s0 {
                assert(s1 =~= s0 && s2 =~= s0 && s3 =~= s0) by {
                    assert(s0.subset_of(s1) && s1.subset_of(s2) && s2.subset_of(s3)
                        && s3.subset_of(s4));
                }
                assert(queue@ == queue_popped);
                assert(queue@.len() < queue_entry.len());
                assert(flag_set(map_flags@, w, h) == flag_set(flags_entry, w, h));
            } else {
                let e = choose|e: (int, int)| s4.contains(e) && !s0.contains(e);
                assert(s4.contains(e) && !s0.contains(e)) by {
                    if forall|e: (int, int)| #[trigger] s4.contains(e) ==> s0.contains(e) {
                        assert(s4 =~= s0);
                    }
                }
                vstd::set_lib::lemma_set_subset_finite(grid_cells(w, h), s4);
                s0.lemma_subset_not_in_lt(s4, e);
                assert(flag_set(flags_entry, w, h) == s0);
                assert(flag_set(flags_entry, w, h).len() < flag_set(map_flags@, w, h).len());
            }
        }
    }
    proof {
        // with the queue drained, the marked set is the collected list and
        // is closed, so it holds every reachable cell
        assert forall|x: int, y: int| reachable(g, w, h, class, sx, sy, x, y) implies seq_has_coord(
            region_tiles@,
            x,
            y,
        ) by {
            let s = flag_set(map_flags@, w, h);
            assert(s.contains((sx, sy)));
            assert forall|p: (int, int), q: (int, int)|
                s.contains(p) && #[trigger] step_adj(p, q) && in_grid(w, h, q.0, q.1) && class_match(
                    class,
                    g[grid_index(w, q.0, q.1)],
                ) implies s.contains(q) by {
                lemma_grid_index_bounds(w, h, p.0, p.1);
                lemma_grid_index_bounds(w, h, q.0, q.1);
                assert(seq_has_coord(region_tiles@, p.0, p.1));
                let k = choose|k: int|
                    0 <= k < region_tiles@.len() && region_tiles@[k].0 == p.0 && region_tiles@[k].1
                        == p.1;
                assert(step_adj((region_tiles@[k].0 as int, region_tiles@[k].1 as int), q));
                assert(map_flags@[grid_index(w, q.0, q.1)] == 1);
            }
            let n = choose|n: nat| reachable_in(g, w, h, class, sx, sy, x, y, n);
            lemma_reachable_closed(g, w, h, class, sx, sy, s, x, y, n);
            lemma_grid_index_bounds(w, h, x, y);
        }
    }
    region_tiles
}

/// Reachability transfers to a second grid that agrees with the first on
/// every cell reachable from the start.
pub proof fn lemma_reachable_transfer(
    g1: Seq<TileType>,
    g2: Seq<TileType>,
    w: int,
    h: int,
    class: TileClass,
    sx: int,
    sy: int,
    x: int,
    y: int,
    n: nat,
)
    requires
        forall|a: int, b: int|
            in_grid(w, h, a, b) && #[trigger] reachable(g1, w, h, class, sx, sy, a, b)
                ==> g2[grid_index(w, a, b)] == g1[grid_index(w, a, b)],
        reachable_in(g1, w, h, class, sx, sy, x, y, n),
    ensures
        reachable(g2, w, h, class, sx, sy, x, y),
    decreases n,
{
    assert(reachable(g1, w, h, class, sx, sy, x, y));
    assert(g2[grid_index(w, x, y)] == g1[grid_index(w, x, y)]);
    if x == sx && y == sy {
        lemma_reachable_here(g2, w, h, class, sx, sy);
    } else {
        let p = choose|p: (int, int)|
            step_adj(p, (x, y)) && reachable_in(g1, w, h, class, sx, sy, p.0, p.1, (n - 1) as nat);
        lemma_reachable_transfer(g1, g2, w, h, class, sx, sy, p.0, p.1, (n - 1) as nat);
        lemma_reachable_step(g2, w, h, class, sx, sy, p.0, p.1, x, y);
    }
}

} // verus!
