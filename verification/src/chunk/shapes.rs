//! What the mesher and the visibility graph make of grids of a simple
//! shape: a grid without solid blocks, a grid of solid blocks alone, and a
//! grid that one solid layer cuts in two.

use crate::chunk::block::Block;
use crate::chunk::mesher::{
    all_vertices, coord, exposed, exposed_faces, facing, first_growth_axis, greedy_from, holds,
    merged_quads, mesh_vertices, quad_at, quad_vertices, row_full, row_run, second_growth_axis,
    shift, strip_run, QuadView,
};
use crate::chunk::visibility::{
    adjacent, connected, is_open, lemma_connected_ends, lemma_connected_self,
    lemma_connected_step, linked, touches_side, Side,
};
use crate::chunk::{
    lemma_cell_index, lemma_index_cell, solid_at, uniform, Cell, EncodedVertex, CHUNK_SIZE,
    CHUNK_VOLUME,
};
use vstd::prelude::*;

verus! {

/// No cell of the chunk holds a solid block.
pub open spec fn all_open(grid: Map<Cell, Block>) -> bool {
    forall|c: Cell| c.in_bounds() ==> !#[trigger] solid_at(grid, c)
}

/// Every cell of the chunk holds a solid block.
pub open spec fn all_solid(grid: Map<Cell, Block>) -> bool {
    forall|c: Cell| c.in_bounds() ==> #[trigger] solid_at(grid, c)
}

/// The greedy merge makes no quad of a map without keys.
pub proof fn lemma_greedy_of_nothing(axis: int, from: int)
    ensures
        greedy_from(Map::<Cell, Block>::empty(), axis, from) == Seq::<QuadView>::empty(),
    decreases CHUNK_VOLUME - from,
{
    if 0 <= from < CHUNK_VOLUME {
        lemma_greedy_of_nothing(axis, from + 1);
    }
}

/// A grid without solid blocks has no quads: its mesh is empty in every
/// direction.
pub proof fn lemma_open_grid_has_no_mesh(grid: Map<Cell, Block>, axis: int)
    requires
        all_open(grid),
    ensures
        exposed_faces(grid, axis) == Map::<Cell, Block>::empty(),
        merged_quads(exposed_faces(grid, axis), axis).len() == 0,
        mesh_vertices(grid, axis) == Seq::<EncodedVertex>::empty(),
{
    assert forall|c: Cell| !exposed(grid, c, axis) by {
        if c.in_bounds() {
            assert(!solid_at(grid, c));
        }
    }
    assert(exposed_faces(grid, axis) =~= Map::<Cell, Block>::empty());
    lemma_greedy_of_nothing(axis, 0);
}

/// In a grid of solid blocks alone no side reaches another: nothing is
/// linked, and a visibility graph holds each side with itself alone.
pub proof fn lemma_solid_grid_links_nothing(grid: Map<Cell, Block>, s: Side, t: Side)
    requires
        all_solid(grid),
    ensures
        !linked(grid, s, t),
{
    if linked(grid, s, t) {
        let (a, b) = choose|a: Cell, b: Cell|
            touches_side(a, s) && touches_side(b, t) && #[trigger] connected(grid, a, b);
        lemma_connected_ends(grid, a, b);
        assert(solid_at(grid, a));
    }
}

/// The cell lies in the box between `lo` and `hi`.
pub open spec fn in_box(c: Cell, lo: Cell, hi: Cell) -> bool {
    lo.x <= c.x <= hi.x && lo.y <= c.y <= hi.y && lo.z <= c.z <= hi.z
}

/// Every cell of the box between `lo` and `hi` is open.
pub open spec fn open_box(grid: Map<Cell, Block>, lo: Cell, hi: Cell) -> bool {
    forall|c: Cell| in_box(c, lo, hi) ==> #[trigger] is_open(grid, c)
}

/// The number of steps between two cells.
pub open spec fn distance(a: Cell, b: Cell) -> int {
    (if a.x <= b.x {
        b.x - a.x
    } else {
        a.x - b.x
    }) + (if a.y <= b.y {
        b.y - a.y
    } else {
        a.y - b.y
    }) + (if a.z <= b.z {
        b.z - a.z
    } else {
        a.z - b.z
    })
}

/// Any two cells of a box of open cells are connected.
pub proof fn lemma_open_box_connected(grid: Map<Cell, Block>, lo: Cell, hi: Cell, a: Cell, b: Cell)
    requires
        open_box(grid, lo, hi),
        in_box(a, lo, hi),
        in_box(b, lo, hi),
    ensures
        connected(grid, a, b),
    decreases distance(a, b),
{
    assert(is_open(grid, a));
    assert(is_open(grid, b));
    if a == b {
        lemma_connected_self(grid, a);
    } else {
        // The cell before `b` on a way from `a`.
        let p = if b.x > a.x {
            Cell { x: b.x - 1, y: b.y, z: b.z }
        } else if b.x < a.x {
            Cell { x: b.x + 1, y: b.y, z: b.z }
        } else if b.y > a.y {
            Cell { x: b.x, y: b.y - 1, z: b.z }
        } else if b.y < a.y {
            Cell { x: b.x, y: b.y + 1, z: b.z }
        } else if b.z > a.z {
            Cell { x: b.x, y: b.y, z: b.z - 1 }
        } else {
            Cell { x: b.x, y: b.y, z: b.z + 1 }
        };
        assert(in_box(p, lo, hi));
        lemma_open_box_connected(grid, lo, hi, a, p);
        assert(adjacent(p, b));
        lemma_connected_step(grid, a, p, b);
    }
}

/// Some cell of the chunk that lies on the side `s` and has every other
/// coordinate 0.
pub open spec fn cell_on(s: Side) -> Cell {
    match s {
        Side::RIGHT => Cell { x: 0, y: 0, z: 0 },
        Side::LEFT => Cell { x: CHUNK_SIZE - 1, y: 0, z: 0 },
        Side::BOTTOM => Cell { x: 0, y: 0, z: 0 },
        Side::TOP => Cell { x: 0, y: CHUNK_SIZE - 1, z: 0 },
        Side::FRONT => Cell { x: 0, y: 0, z: 0 },
        Side::BACK => Cell { x: 0, y: 0, z: CHUNK_SIZE - 1 },
    }
}

/// In a grid without solid blocks every side reaches every side.
pub proof fn lemma_open_grid_links_all(grid: Map<Cell, Block>, s: Side, t: Side)
    requires
        all_open(grid),
    ensures
        linked(grid, s, t),
{
    let lo = Cell { x: 0, y: 0, z: 0 };
    let hi = Cell { x: CHUNK_SIZE - 1, y: CHUNK_SIZE - 1, z: CHUNK_SIZE - 1 };
    assert forall|c: Cell| in_box(c, lo, hi) implies #[trigger] is_open(grid, c) by {
        assert(c.in_bounds());
        assert(!solid_at(grid, c));
    }
    let a = cell_on(s);
    let b = cell_on(t);
    lemma_open_box_connected(grid, lo, hi, a, b);
    assert(touches_side(a, s) && touches_side(b, t) && connected(grid, a, b));
}


/// The axis that the side lies across: 0 is x, 1 is y and 2 is z.
pub open spec fn side_axis(s: Side) -> int {
    match s {
        Side::RIGHT | Side::LEFT => 0,
        Side::BOTTOM | Side::TOP => 1,
        Side::FRONT | Side::BACK => 2,
    }
}

/// The side lies at the upper end of its axis.
pub open spec fn at_upper_end(s: Side) -> bool {
    s == Side::LEFT || s == Side::TOP || s == Side::BACK
}

/// The solid blocks of the grid are those of the layer with the coordinate
/// `k` along the axis `ax`.
pub open spec fn split_by_layer(grid: Map<Cell, Block>, ax: int, k: int) -> bool {
    forall|c: Cell| c.in_bounds() ==> (#[trigger] solid_at(grid, c) <==> coord(c, ax) == k)
}

/// A walk that starts on one side of a solid layer stays on that side.
proof fn lemma_walk_stays(grid: Map<Cell, Block>, ax: int, k: int, p: Seq<Cell>, i: int)
    requires
        split_by_layer(grid, ax, k),
        crate::chunk::visibility::is_path(grid, p),
        0 <= i < p.len(),
    ensures
        coord(p[0], ax) < k ==> coord(p[i], ax) < k,
        coord(p[0], ax) > k ==> coord(p[i], ax) > k,
    decreases i,
{
    assert(is_open(grid, p[i]));
    if i > 0 {
        lemma_walk_stays(grid, ax, k, p, i - 1);
        assert(adjacent(p[i - 1], p[i - 1 + 1]));
    }
}

/// A cell on the side `s` in the half of the chunk below the layer, or in
/// the half above it if `upper`.
pub open spec fn cell_in_half(s: Side, ax: int, upper: bool) -> Cell {
    let end = if at_upper_end(s) {
        CHUNK_SIZE - 1
    } else {
        0
    };
    let half = if upper {
        CHUNK_SIZE - 1
    } else {
        0
    };
    let base = shift(Cell { x: 0, y: 0, z: 0 }, ax, half);
    if side_axis(s) == ax {
        base
    } else {
        shift(base, side_axis(s), end)
    }
}

/// A solid layer across an axis, with open cells alone on both sides of
/// it, parts the two sides of the chunk that lie across this axis from each
/// other, and parts no other two sides.
pub proof fn lemma_layer_splits(grid: Map<Cell, Block>, ax: int, k: int, s: Side, t: Side)
    requires
        0 <= ax < 3,
        0 < k < CHUNK_SIZE - 1,
        split_by_layer(grid, ax, k),
    ensures
        linked(grid, s, t) <==> !(side_axis(s) == ax && side_axis(t) == ax && s != t),
{
    if side_axis(s) == ax && side_axis(t) == ax && s != t {
        if linked(grid, s, t) {
            let (a, b) = choose|a: Cell, b: Cell|
                touches_side(a, s) && touches_side(b, t) && #[trigger] connected(grid, a, b);
            let p = choose|p: Seq<Cell>|
                crate::chunk::visibility::is_path(grid, p) && p[0] == a && p.last() == b;
            lemma_walk_stays(grid, ax, k, p, p.len() - 1);
        }
    } else {
        let upper = if side_axis(s) == ax {
            at_upper_end(s)
        } else if side_axis(t) == ax {
            at_upper_end(t)
        } else {
            false
        };
        let origin = Cell { x: 0, y: 0, z: 0 };
        let far = Cell { x: CHUNK_SIZE - 1, y: CHUNK_SIZE - 1, z: CHUNK_SIZE - 1 };
        let lo = if upper {
            shift(origin, ax, k + 1)
        } else {
            origin
        };
        let hi = if upper {
            far
        } else {
            shift(far, ax, k - (CHUNK_SIZE - 1) - 1)
        };
        assert forall|c: Cell| in_box(c, lo, hi) implies #[trigger] is_open(grid, c) by {
            assert(c.in_bounds());
            assert(solid_at(grid, c) <==> coord(c, ax) == k);
        }
        let a = cell_in_half(s, ax, upper);
        let b = cell_in_half(t, ax, upper);
        lemma_open_box_connected(grid, lo, hi, a, b);
        assert(touches_side(a, s) && touches_side(b, t) && connected(grid, a, b));
    }
}


/// The greedy merge passes over the cells that are no keys.
proof fn lemma_greedy_skips(m: Map<Cell, Block>, axis: int, from: int, to: int)
    requires
        0 <= from <= to <= CHUNK_VOLUME,
        forall|i: int| from <= i < to ==> !m.contains_key(#[trigger] Cell::at(i)),
    ensures
        greedy_from(m, axis, from) == greedy_from(m, axis, to),
    decreases to - from,
{
    if from < to {
        assert(!m.contains_key(Cell::at(from)));
        lemma_greedy_skips(m, axis, from + 1, to);
    }
}

/// A strip grows over the cells that hold its block up to the first cell
/// that does not.
proof fn lemma_strip_run_is(m: Map<Cell, Block>, c: Cell, ax: int, b: Block, n: int)
    requires
        0 <= n,
        c.in_bounds(),
        forall|t: int| 1 <= t <= n ==> holds(m, #[trigger] shift(c, ax, t), b),
        !holds(m, shift(c, ax, n + 1), b),
    ensures
        strip_run(m, c, ax, true, b) == n,
    decreases n,
{
    let next = shift(c, ax, 1);
    if n > 0 {
        assert(holds(m, shift(c, ax, 1), b));
        assert forall|t: int| 1 <= t <= n - 1 implies holds(m, #[trigger] shift(next, ax, t), b) by {
            assert(shift(next, ax, t) == shift(c, ax, t + 1));
        }
        assert(shift(next, ax, n) == shift(c, ax, n + 1));
        lemma_strip_run_is(m, next, ax, b, n - 1);
    }
}

/// A strip grows by the rows that are full of its block up to the first
/// row that is not.
proof fn lemma_row_run_is(
    m: Map<Cell, Block>,
    c: Cell,
    ai: int,
    len: int,
    aj: int,
    b: Block,
    n: int,
)
    requires
        0 <= n,
        c.in_bounds(),
        forall|r: int|
            1 <= r <= n ==> (#[trigger] shift(c, aj, r)).in_bounds() && row_full(
                m,
                shift(c, aj, r),
                ai,
                len,
                b,
            ),
        !(shift(c, aj, n + 1).in_bounds() && row_full(m, shift(c, aj, n + 1), ai, len, b)),
    ensures
        row_run(m, c, ai, len, aj, true, b) == n,
    decreases n,
{
    let next = shift(c, aj, 1);
    if n > 0 {
        assert(shift(c, aj, 1).in_bounds() && row_full(m, shift(c, aj, 1), ai, len, b));
        assert forall|r: int| 1 <= r <= n - 1 implies (#[trigger] shift(next, aj, r)).in_bounds()
            && row_full(m, shift(next, aj, r), ai, len, b) by {
            assert(shift(next, aj, r) == shift(c, aj, r + 1));
        }
        assert(shift(next, aj, n) == shift(c, aj, n + 1));
        lemma_row_run_is(m, next, ai, len, aj, b, n - 1);
    }
}

/// The quad of the block type `b` that covers the whole side of the chunk
/// which the direction `axis` looks out of.
pub open spec fn side_quad(b: Block, axis: int) -> QuadView {
    let last = CHUNK_SIZE - 1;
    let origin = Cell { x: 0, y: 0, z: 0 };
    let far = Cell { x: last, y: last, z: last };
    if axis == 0 {
        QuadView { lo: origin, hi: Cell { x: last, y: last, z: 0 }, block: b, axis }
    } else if axis == 1 {
        QuadView { lo: Cell { x: 0, y: last, z: 0 }, hi: far, block: b, axis }
    } else if axis == 2 {
        QuadView { lo: Cell { x: last, y: 0, z: 0 }, hi: far, block: b, axis }
    } else if axis == 3 {
        QuadView { lo: Cell { x: 0, y: 0, z: last }, hi: far, block: b, axis }
    } else if axis == 4 {
        QuadView { lo: origin, hi: Cell { x: last, y: 0, z: last }, block: b, axis }
    } else {
        QuadView { lo: origin, hi: Cell { x: 0, y: last, z: last }, block: b, axis }
    }
}

/// The faces of a chunk full of one solid block type that show in a
/// direction are those of the side which the direction looks out of.
proof fn lemma_full_grid_faces(b: Block, axis: int)
    requires
        b.solid(),
        0 <= axis < 6,
    ensures
        forall|c: Cell|
            #[trigger] exposed_faces(uniform(b), axis).contains_key(c) <==> c.in_bounds()
                && side_quad(b, axis).contains(c),
        forall|c: Cell|
            exposed_faces(uniform(b), axis).contains_key(c) ==> #[trigger] exposed_faces(
                uniform(b),
                axis,
            )[c] == b,
{
    let grid = uniform(b);
    let m = exposed_faces(grid, axis);
    assert forall|c: Cell| #[trigger]
        m.contains_key(c) <==> c.in_bounds() && side_quad(b, axis).contains(c) by {
        let n = facing(c, axis);
        if c.in_bounds() {
            assert(solid_at(grid, c));
            if n.in_bounds() {
                assert(solid_at(grid, n));
            }
        }
    }
}

/// A chunk full of one solid block type has one quad in each direction,
/// which covers the whole side of the chunk.
pub proof fn lemma_full_grid_has_one_quad(b: Block, axis: int)
    requires
        b.solid(),
        0 <= axis < 6,
    ensures
        merged_quads(exposed_faces(uniform(b), axis), axis) == seq![side_quad(b, axis)],
        mesh_vertices(uniform(b), axis) == quad_vertices(
            axis,
            side_quad(b, axis).lo,
            side_quad(b, axis).hi,
        ),
{
    let grid = uniform(b);
    let m = exposed_faces(grid, axis);
    let q = side_quad(b, axis);
    let seed = q.lo;
    let ai = first_growth_axis(axis);
    let aj = second_growth_axis(axis);
    let last = CHUNK_SIZE - 1;
    lemma_full_grid_faces(b, axis);
    lemma_cell_index(seed);

    // No face comes before the first cell of the side.
    assert forall|i: int| 0 <= i < seed.index() implies !m.contains_key(#[trigger] Cell::at(i)) by {
        lemma_index_cell(i);
        let c = Cell::at(i);
        if m.contains_key(c) {
            assert(q.contains(c));
        }
    }
    lemma_greedy_skips(m, axis, 0, seed.index());

    // The quad grows from that cell over the whole side.
    assert(m.contains_key(seed));
    assert(m[seed] == b);
    assert forall|t: int| 1 <= t <= last implies holds(m, #[trigger] shift(seed, ai, t), b) by {
        let c = shift(seed, ai, t);
        assert(m.contains_key(c));
        assert(m[c] == b);
    }
    lemma_strip_run_is(m, seed, ai, b, last);
    assert(strip_run(m, seed, ai, false, b) == 0);
    let len = last + 1;
    assert forall|r: int| 1 <= r <= last implies (#[trigger] shift(seed, aj, r)).in_bounds()
        && row_full(m, shift(seed, aj, r), ai, len, b) by {
        let row = shift(seed, aj, r);
        assert forall|t: int| 0 <= t < len implies holds(m, #[trigger] shift(row, ai, t), b) by {
            let c = shift(row, ai, t);
            assert(m.contains_key(c));
            assert(m[c] == b);
        }
    }
    lemma_row_run_is(m, seed, ai, len, aj, b, last);
    assert(shift(seed, ai, 0) == seed);
    assert(row_run(m, seed, ai, len, aj, false, b) == 0);
    assert(quad_at(m, seed, axis) == q);

    // Nothing is left behind it.
    let left = m.remove_keys(q.cells());
    assert(left =~= Map::<Cell, Block>::empty());
    lemma_greedy_of_nothing(axis, seed.index() + 1);
    lemma_index_cell(seed.index());
    assert(Cell::at(seed.index()) == seed);
    assert(greedy_from(m, axis, seed.index()) == seq![q] + greedy_from(
        left,
        axis,
        seed.index() + 1,
    ));
    assert(seq![q] + Seq::<QuadView>::empty() =~= seq![q]);
    assert(merged_quads(m, axis) == seq![q]);
    assert(seq![q].drop_last() =~= Seq::<QuadView>::empty());
    assert(all_vertices(seq![q]) =~= quad_vertices(axis, q.lo, q.hi)) by {
        reveal_with_fuel(all_vertices, 2);
    }
}

} // verus!
