//! Which outer sides of a chunk see each other through its empty space.
//!
//! The empty cells of a chunk fall into pockets: sets of cells that are
//! joined by steps between cells with a common face. Two sides see each
//! other if some pocket touches both. [`VisibilityGraph::from_chunk`] finds
//! the pockets by flood fill from the empty cells on the border.

use crate::chunk::block::Block;
use crate::chunk::{solid_at, Cell, Chunk, LocalBlockPos, CHUNK_SIZE, CHUNK_VOLUME};
use vstd::prelude::*;

verus! {

/// An outer side of a chunk.
#[allow(non_camel_case_types)]
#[derive(Clone, Copy, PartialEq, Eq, PartialOrd, Structural, Debug)]
pub enum Side {
    FRONT,
    BACK,
    TOP,
    BOTTOM,
    LEFT,
    RIGHT,
}

/// The side with the number `k`, counted from `FRONT` as 0 to `RIGHT` as 5.
pub open spec fn side_at(k: int) -> Side {
    if k == 0 {
        Side::FRONT
    } else if k == 1 {
        Side::BACK
    } else if k == 2 {
        Side::TOP
    } else if k == 3 {
        Side::BOTTOM
    } else if k == 4 {
        Side::LEFT
    } else {
        Side::RIGHT
    }
}

impl Side {
    /// The number of the side, from `FRONT` as 0 to `RIGHT` as 5.
    pub open spec fn number(self) -> int {
        match self {
            Side::FRONT => 0,
            Side::BACK => 1,
            Side::TOP => 2,
            Side::BOTTOM => 3,
            Side::LEFT => 4,
            Side::RIGHT => 5,
        }
    }

    /// The side across the chunk.
    pub open spec fn across(self) -> Side {
        match self {
            Side::FRONT => Side::BACK,
            Side::BACK => Side::FRONT,
            Side::TOP => Side::BOTTOM,
            Side::BOTTOM => Side::TOP,
            Side::LEFT => Side::RIGHT,
            Side::RIGHT => Side::LEFT,
        }
    }

    /// The direction that the side looks in: one step along one axis, and
    /// the opposite step for the side across.
    pub open spec fn step(self) -> (i32, i32, i32) {
        match self {
            Side::FRONT => (0i32, 0i32, 1i32),
            Side::BACK => (0i32, 0i32, -1i32),
            Side::TOP => (0i32, 1i32, 0i32),
            Side::BOTTOM => (0i32, -1i32, 0i32),
            Side::LEFT => (-1i32, 0i32, 0i32),
            Side::RIGHT => (1i32, 0i32, 0i32),
        }
    }

    /// The number of the side, from `FRONT` as 0 to `RIGHT` as 5.
    pub fn index(self) -> (k: usize)
        ensures
            k == self.number(),
            k < 6,
    {
        match self {
            Side::FRONT => 0,
            Side::BACK => 1,
            Side::TOP => 2,
            Side::BOTTOM => 3,
            Side::LEFT => 4,
            Side::RIGHT => 5,
        }
    }

    /// The side across the chunk.
    pub fn opposite(self) -> (r: Side)
        ensures
            r == self.across(),
            r != self,
            r.across() == self,
    {
        match self {
            Side::FRONT => Side::BACK,
            Side::BACK => Side::FRONT,
            Side::TOP => Side::BOTTOM,
            Side::BOTTOM => Side::TOP,
            Side::LEFT => Side::RIGHT,
            Side::RIGHT => Side::LEFT,
        }
    }

    /// The direction that the side looks in, as a step along one axis.
    pub fn direction(&self) -> (r: (i32, i32, i32))
        ensures
            r == self.step(),
    {
        match self {
            Side::FRONT => (0, 0, 1),
            Side::BACK => (0, 0, -1),
            Side::TOP => (0, 1, 0),
            Side::BOTTOM => (0, -1, 0),
            Side::LEFT => (-1, 0, 0),
            Side::RIGHT => (1, 0, 0),
        }
    }

    /// The six sides in the order of their numbers.
    pub fn iter() -> (sides: Vec<Side>)
        ensures
            sides@.len() == 6,
            forall|k: int| 0 <= k < 6 ==> sides@[k] == side_at(k),
    {
        let mut sides: Vec<Side> = Vec::new();
        sides.push(Side::FRONT);
        sides.push(Side::BACK);
        sides.push(Side::TOP);
        sides.push(Side::BOTTOM);
        sides.push(Side::LEFT);
        sides.push(Side::RIGHT);
        sides
    }
}

/// The cell `c` lies on the side `s` of the chunk.
pub open spec fn touches_side(c: Cell, s: Side) -> bool {
    match s {
        Side::RIGHT => c.x == 0,
        Side::LEFT => c.x == CHUNK_SIZE - 1,
        Side::BOTTOM => c.y == 0,
        Side::TOP => c.y == CHUNK_SIZE - 1,
        Side::FRONT => c.z == 0,
        Side::BACK => c.z == CHUNK_SIZE - 1,
    }
}

/// The cell lies in the chunk and holds no solid block.
pub open spec fn is_open(grid: Map<Cell, Block>, c: Cell) -> bool {
    c.in_bounds() && !solid_at(grid, c)
}

/// The two cells have a face in common.
pub open spec fn adjacent(a: Cell, b: Cell) -> bool {
    ||| a.y == b.y && a.z == b.z && (a.x == b.x + 1 || a.x + 1 == b.x)
    ||| a.x == b.x && a.z == b.z && (a.y == b.y + 1 || a.y + 1 == b.y)
    ||| a.x == b.x && a.y == b.y && (a.z == b.z + 1 || a.z + 1 == b.z)
}

/// `p` is a walk through open cells, each step to a cell with a common
/// face.
pub open spec fn is_path(grid: Map<Cell, Block>, p: Seq<Cell>) -> bool {
    &&& p.len() > 0
    &&& forall|i: int| 0 <= i < p.len() ==> is_open(grid, #[trigger] p[i])
    &&& forall|i: int| 0 <= i < p.len() - 1 ==> adjacent(#[trigger] p[i], p[i + 1])
}

/// Some walk through open cells leads from `a` to `b`.
pub open spec fn connected(grid: Map<Cell, Block>, a: Cell, b: Cell) -> bool {
    exists|p: Seq<Cell>| is_path(grid, p) && p[0] == a && p.last() == b
}

/// Some open cell on the side `s` is connected to some open cell on the
/// side `t`.
pub open spec fn linked(grid: Map<Cell, Block>, s: Side, t: Side) -> bool {
    exists|a: Cell, b: Cell|
        touches_side(a, s) && touches_side(b, t) && #[trigger] connected(grid, a, b)
}

/// An open cell is connected to itself.
pub proof fn lemma_connected_self(grid: Map<Cell, Block>, a: Cell)
    requires
        is_open(grid, a),
    ensures
        connected(grid, a, a),
{
    let p = seq![a];
    assert(is_path(grid, p) && p[0] == a && p.last() == a);
}

/// A walk goes on to an open cell next to its end.
pub proof fn lemma_connected_step(grid: Map<Cell, Block>, a: Cell, b: Cell, c: Cell)
    requires
        connected(grid, a, b),
        adjacent(b, c),
        is_open(grid, c),
    ensures
        connected(grid, a, c),
{
    let p = choose|p: Seq<Cell>| is_path(grid, p) && p[0] == a && p.last() == b;
    let q = p.push(c);
    assert forall|i: int| 0 <= i < q.len() - 1 implies adjacent(#[trigger] q[i], q[i + 1]) by {
        if i < p.len() - 1 {
            assert(adjacent(p[i], p[i + 1]));
        }
    }
    assert(is_path(grid, q) && q[0] == a && q.last() == c);
}

/// A walk can be gone backward.
pub proof fn lemma_connected_back(grid: Map<Cell, Block>, a: Cell, b: Cell)
    requires
        connected(grid, a, b),
    ensures
        connected(grid, b, a),
{
    let p = choose|p: Seq<Cell>| is_path(grid, p) && p[0] == a && p.last() == b;
    let n = p.len() as int;
    let q = Seq::new(p.len(), |i: int| p[n - 1 - i]);
    assert forall|i: int| 0 <= i < q.len() - 1 implies adjacent(#[trigger] q[i], q[i + 1]) by {
        assert(adjacent(p[n - 2 - i], p[n - 2 - i + 1]));
    }
    assert(is_path(grid, q) && q[0] == b && q.last() == a);
}

/// Two walks with a common end make one walk.
pub proof fn lemma_connected_on(grid: Map<Cell, Block>, a: Cell, b: Cell, c: Cell)
    requires
        connected(grid, a, b),
        connected(grid, b, c),
    ensures
        connected(grid, a, c),
{
    let p = choose|p: Seq<Cell>| is_path(grid, p) && p[0] == a && p.last() == b;
    let r = choose|r: Seq<Cell>| is_path(grid, r) && r[0] == b && r.last() == c;
    let q = p + r.drop_first();
    assert forall|i: int| 0 <= i < q.len() implies is_open(grid, #[trigger] q[i]) by {
        if i >= p.len() {
            assert(q[i] == r[i - p.len() + 1]);
        }
    }
    assert forall|i: int| 0 <= i < q.len() - 1 implies adjacent(#[trigger] q[i], q[i + 1]) by {
        if i < p.len() - 1 {
            assert(adjacent(p[i], p[i + 1]));
        } else {
            let k = i - p.len() + 1;
            assert(q[i + 1] == r[k + 1]);
            assert(adjacent(r[k], r[k + 1]));
            if i == p.len() - 1 {
                assert(q[i] == r[0]);
            } else {
                assert(q[i] == r[k]);
            }
        }
    }
    assert(is_path(grid, q) && q[0] == a && q.last() == c);
}

/// The cell lies in the chunk and `v` holds a mark at its index.
pub open spec fn seen(v: Seq<bool>, c: Cell) -> bool {
    c.in_bounds() && v[c.index()]
}

/// No step from a marked open cell leads to an open cell without a mark:
/// the marks cover whole pockets.
pub open spec fn closed(grid: Map<Cell, Block>, v: Seq<bool>) -> bool {
    forall|a: Cell, b: Cell|
        seen(v, a) && is_open(grid, a) && #[trigger] adjacent(a, b) && is_open(grid, b) ==> seen(
            v,
            b,
        )
}

/// Marks that cover whole pockets hold every cell that is connected to a
/// marked open cell.
pub proof fn lemma_closed_holds_pocket(grid: Map<Cell, Block>, v: Seq<bool>, a: Cell, b: Cell)
    requires
        closed(grid, v),
        seen(v, a),
        connected(grid, a, b),
    ensures
        seen(v, b),
{
    let p = choose|p: Seq<Cell>| is_path(grid, p) && p[0] == a && p.last() == b;
    lemma_closed_holds_path(grid, v, p, p.len() - 1);
}

/// Marks that cover whole pockets hold every cell of a walk that starts
/// at a marked cell.
proof fn lemma_closed_holds_path(grid: Map<Cell, Block>, v: Seq<bool>, p: Seq<Cell>, i: int)
    requires
        closed(grid, v),
        is_path(grid, p),
        seen(v, p[0]),
        0 <= i < p.len(),
    ensures
        seen(v, p[i]),
    decreases i,
{
    if i > 0 {
        lemma_closed_holds_path(grid, v, p, i - 1);
        assert(adjacent(p[i - 1], p[i - 1 + 1]));
        assert(is_open(grid, p[i - 1]));
        assert(is_open(grid, p[i]));
    }
}


/// The two ends of a walk are open cells.
pub proof fn lemma_connected_ends(grid: Map<Cell, Block>, a: Cell, b: Cell)
    requires
        connected(grid, a, b),
    ensures
        is_open(grid, a),
        is_open(grid, b),
{
    let p = choose|p: Seq<Cell>| is_path(grid, p) && p[0] == a && p.last() == b;
    assert(is_open(grid, p[0]));
    assert(is_open(grid, p[p.len() - 1]));
}

/// The open cell got its mark between `v0` and `v`.
pub open spec fn fresh(grid: Map<Cell, Block>, v0: Seq<bool>, v: Seq<bool>, c: Cell) -> bool {
    seen(v, c) && !seen(v0, c) && is_open(grid, c)
}

/// Some open cell that got its mark between `v0` and `v` lies on the side
/// `s`.
pub open spec fn fill_touches(grid: Map<Cell, Block>, v0: Seq<bool>, v: Seq<bool>, s: Side) -> bool {
    exists|c: Cell| #[trigger] fresh(grid, v0, v, c) && touches_side(c, s)
}

/// The cell is one of the positions of `stack`.
pub open spec fn on_stack(stack: Seq<LocalBlockPos>, c: Cell) -> bool {
    exists|i: int| 0 <= i < stack.len() && (#[trigger] stack[i])@ == c
}

/// The number of entries of `v` that hold no mark.
pub open spec fn unmarked(v: Seq<bool>) -> nat
    decreases v.len(),
{
    if v.len() == 0 {
        0
    } else {
        unmarked(v.drop_last()) + (if v.last() {
            0nat
        } else {
            1nat
        })
    }
}

/// A new mark leaves one entry less without a mark.
pub proof fn lemma_mark(v: Seq<bool>, i: int)
    requires
        0 <= i < v.len(),
        !v[i],
    ensures
        unmarked(v.update(i, true)) + 1 == unmarked(v),
    decreases v.len(),
{
    if i == v.len() - 1 {
        assert(v.update(i, true).drop_last() =~= v.drop_last());
    } else {
        lemma_mark(v.drop_last(), i);
        assert(v.update(i, true).drop_last() =~= v.drop_last().update(i, true));
    }
}

/// Pushes the positions next to `pos` that the coordinate type holds.
fn push_neighbors(stack: &mut Vec<LocalBlockPos>, pos: &LocalBlockPos)
    requires
        pos@.in_bounds(),
    ensures
        old(stack)@.len() <= final(stack)@.len() <= old(stack)@.len() + 6,
        forall|i: int| 0 <= i < old(stack)@.len() ==> final(stack)@[i] == old(stack)@[i],
        forall|i: int|
            old(stack)@.len() <= i < final(stack)@.len() ==> adjacent(
                pos@,
                (#[trigger] final(stack)@[i])@,
            ),
        forall|b: Cell| #[trigger] adjacent(pos@, b) && b.in_bounds() ==> on_stack(final(stack)@, b),
{
    let ghost n = stack@.len() as int;
    if let Some(np) = LocalBlockPos::safe_add(pos, &LocalBlockPos(1, 0, 0)) {
        stack.push(np);
    }
    assert(stack@[n]@ == Cell { x: pos@.x + 1, y: pos@.y, z: pos@.z });
    let ghost n1 = stack@.len() as int;
    if let Some(np) = LocalBlockPos::safe_sub(pos, &LocalBlockPos(1, 0, 0)) {
        stack.push(np);
    }
    assert(pos@.x > 0 ==> stack@[n1]@ == Cell { x: pos@.x - 1, y: pos@.y, z: pos@.z });
    let ghost n2 = stack@.len() as int;
    if let Some(np) = LocalBlockPos::safe_add(pos, &LocalBlockPos(0, 1, 0)) {
        stack.push(np);
    }
    assert(stack@[n2]@ == Cell { x: pos@.x, y: pos@.y + 1, z: pos@.z });
    let ghost n3 = stack@.len() as int;
    if let Some(np) = LocalBlockPos::safe_sub(pos, &LocalBlockPos(0, 1, 0)) {
        stack.push(np);
    }
    assert(pos@.y > 0 ==> stack@[n3]@ == Cell { x: pos@.x, y: pos@.y - 1, z: pos@.z });
    let ghost n4 = stack@.len() as int;
    if let Some(np) = LocalBlockPos::safe_add(pos, &LocalBlockPos(0, 0, 1)) {
        stack.push(np);
    }
    assert(stack@[n4]@ == Cell { x: pos@.x, y: pos@.y, z: pos@.z + 1 });
    let ghost n5 = stack@.len() as int;
    if let Some(np) = LocalBlockPos::safe_sub(pos, &LocalBlockPos(0, 0, 1)) {
        stack.push(np);
    }
    assert(pos@.z > 0 ==> stack@[n5]@ == Cell { x: pos@.x, y: pos@.y, z: pos@.z - 1 });
    assert forall|b: Cell| #[trigger] adjacent(pos@, b) && b.in_bounds() implies on_stack(
        stack@,
        b,
    ) by {
        if b.x == pos@.x + 1 {
            assert(stack@[n]@ == b);
        } else if b.x + 1 == pos@.x {
            assert(stack@[n1]@ == b);
        } else if b.y == pos@.y + 1 {
            assert(stack@[n2]@ == b);
        } else if b.y + 1 == pos@.y {
            assert(stack@[n3]@ == b);
        } else if b.z == pos@.z + 1 {
            assert(stack@[n4]@ == b);
        } else {
            assert(stack@[n5]@ == b);
        }
    }
}

/// Marks the pocket of `start_pos`, and says which sides of the chunk it
/// touches: the entry `k` of the result stands for the side with the number
/// `k`. The marks of `visited` cover whole pockets before and after. Where
/// `start_pos` is solid, outside the chunk or marked already, no side is
/// touched.
pub fn flood_fill(chunk: &Chunk, start_pos: &LocalBlockPos, visited: &mut Vec<bool>) -> (touched:
    [bool; 6])
    requires
        chunk.wf(),
        old(visited)@.len() == CHUNK_VOLUME,
        closed(chunk@, old(visited)@),
    ensures
        final(visited)@.len() == CHUNK_VOLUME,
        closed(chunk@, final(visited)@),
        forall|c: Cell| seen(old(visited)@, c) ==> seen(final(visited)@, c),
        is_open(chunk@, start_pos@) ==> seen(final(visited)@, start_pos@),
        forall|c: Cell| #[trigger]
            fresh(chunk@, old(visited)@, final(visited)@, c) ==> connected(chunk@, start_pos@, c),
        forall|k: int|
            0 <= k < 6 ==> (touched@[k] <==> fill_touches(
                chunk@,
                old(visited)@,
                final(visited)@,
                side_at(k),
            )),
{
    let ghost grid = chunk@;
    let ghost v0 = visited@;
    let ghost start = start_pos@;
    let mut touched = [false;6];
    let mut stack: Vec<LocalBlockPos> = Vec::new();
    stack.push(*start_pos);
    proof {
        if is_open(grid, start) {
            lemma_connected_self(grid, start);
        }
        assert(stack@[0]@ == start);
    }
    while stack.len() > 0
        invariant
            chunk.wf(),
            grid == chunk@,
            start == start_pos@,
            v0.len() == CHUNK_VOLUME,
            visited@.len() == CHUNK_VOLUME,
            closed(grid, v0),
            forall|c: Cell| seen(v0, c) ==> seen(visited@, c),
            forall|c: Cell| #[trigger] fresh(grid, v0, visited@, c) ==> connected(grid, start, c),
            forall|i: int|
                0 <= i < stack@.len() && is_open(grid, (#[trigger] stack@[i])@) ==> connected(
                    grid,
                    start,
                    stack@[i]@,
                ),
            forall|a: Cell, b: Cell|
                seen(visited@, a) && is_open(grid, a) && #[trigger] adjacent(a, b) && is_open(
                    grid,
                    b,
                ) ==> seen(visited@, b) || on_stack(stack@, b),
            is_open(grid, start) ==> seen(visited@, start) || on_stack(stack@, start),
            forall|k: int|
                0 <= k < 6 ==> (touched@[k] <==> fill_touches(grid, v0, visited@, side_at(k))),
        decreases unmarked(visited@), stack@.len(),
    {
        let ghost old_stack = stack@;
        let ghost old_seen = visited@;
        let ghost old_touched = touched@;
        let pos = stack.pop().unwrap();
        let ghost rest = stack@;
        proof {
            assert forall|b: Cell| on_stack(old_stack, b) implies on_stack(rest, b) || b
                == pos@ by {
                let i = choose|i: int| 0 <= i < old_stack.len() && (#[trigger] old_stack[i])@ == b;
                if i < rest.len() {
                    assert(rest[i]@ == b);
                }
            }
            assert(is_open(grid, old_stack[old_stack.len() - 1]@) ==> connected(grid, start, pos@));
        }
        // A position outside the chunk, or one that was reached before, is
        // dropped.
        if pos.in_bounds() {
            let i = pos.index();
            if !visited[i] {
                visited.set(i, true);
                proof {
                    lemma_mark(old_seen, i as int);
                    assert forall|c: Cell| seen(visited@, c) <==> seen(old_seen, c) || c
                        == pos@ by {
                        if c.in_bounds() && c != pos@ {
                            assert(c.index() != i);
                        }
                    }
                }
                proof {
                    assert(pos == old_stack[old_stack.len() - 1]);
                    assert forall|c: Cell| #[trigger]
                        fresh(grid, v0, visited@, c) implies connected(grid, start, c) by {
                        if c != pos@ {
                            assert(fresh(grid, v0, old_seen, c));
                        }
                    }
                }
                if !chunk.get_block(&pos).is_solid() {
                    if pos.0 == 0 {
                        touched[5] = true;
                    }
                    if pos.0 == CHUNK_SIZE - 1 {
                        touched[4] = true;
                    }
                    if pos.1 == 0 {
                        touched[3] = true;
                    }
                    if pos.1 == CHUNK_SIZE - 1 {
                        touched[2] = true;
                    }
                    if pos.2 == 0 {
                        touched[0] = true;
                    }
                    if pos.2 == CHUNK_SIZE - 1 {
                        touched[1] = true;
                    }
                    push_neighbors(&mut stack, &pos);
                    proof {
                        assert(is_open(grid, pos@));
                        assert(fresh(grid, v0, visited@, pos@));
                        assert forall|j: int|
                            0 <= j < stack@.len() && is_open(
                                grid,
                                (#[trigger] stack@[j])@,
                            ) implies connected(grid, start, stack@[j]@) by {
                            if j < rest.len() {
                                assert(stack@[j] == rest[j]);
                                assert(rest[j] == old_stack[j]);
                            } else {
                                lemma_connected_step(grid, start, pos@, stack@[j]@);
                            }
                        }
                        assert forall|b: Cell| on_stack(rest, b) implies on_stack(stack@, b) by {
                            let j = choose|j: int| 0 <= j < rest.len() && (#[trigger] rest[j])@ == b;
                            assert(stack@[j]@ == b);
                        }
                        assert forall|k: int| 0 <= k < 6 implies (touched@[k] <==> fill_touches(
                            grid,
                            v0,
                            visited@,
                            side_at(k),
                        )) by {
                            assert(touched@[k] <==> old_touched[k] || touches_side(
                                pos@,
                                side_at(k),
                            ));
                            if fill_touches(grid, v0, old_seen, side_at(k)) {
                                let c = choose|c: Cell| #[trigger]
                                    fresh(grid, v0, old_seen, c) && touches_side(c, side_at(k));
                                assert(fresh(grid, v0, visited@, c));
                            }
                            if fill_touches(grid, v0, visited@, side_at(k)) {
                                let c = choose|c: Cell| #[trigger]
                                    fresh(grid, v0, visited@, c) && touches_side(c, side_at(k));
                                if c != pos@ {
                                    assert(fresh(grid, v0, old_seen, c));
                                }
                            }
                        }
                    }
                } else {
                    proof {
                        assert forall|k: int| 0 <= k < 6 implies (touched@[k] <==> fill_touches(
                            grid,
                            v0,
                            visited@,
                            side_at(k),
                        )) by {
                            if fill_touches(grid, v0, old_seen, side_at(k)) {
                                let c = choose|c: Cell| #[trigger]
                                    fresh(grid, v0, old_seen, c) && touches_side(c, side_at(k));
                                assert(fresh(grid, v0, visited@, c));
                            }
                            if fill_touches(grid, v0, visited@, side_at(k)) {
                                let c = choose|c: Cell| #[trigger]
                                    fresh(grid, v0, visited@, c) && touches_side(c, side_at(k));
                                assert(fresh(grid, v0, old_seen, c));
                            }
                        }
                    }
                }
            }
        }
    }
    proof {
        assert forall|a: Cell, b: Cell|
            seen(visited@, a) && is_open(grid, a) && #[trigger] adjacent(a, b) && is_open(
                grid,
                b,
            ) implies seen(visited@, b) by {
            assert(!on_stack(stack@, b));
        }
    }
    touched
}


/// Some marked open cell on the side `s` is connected to some marked open
/// cell on the side `t`.
pub open spec fn joined(grid: Map<Cell, Block>, v: Seq<bool>, s: Side, t: Side) -> bool {
    exists|a: Cell, b: Cell|
        seen(v, a) && seen(v, b) && touches_side(a, s) && touches_side(b, t) && #[trigger] connected(
            grid,
            a,
            b,
        )
}

/// The pairs of `g` are those of a side with itself and those of sides
/// that are joined.
spec fn reaches_joined(g: Set<(Side, Side)>, grid: Map<Cell, Block>, v: Seq<bool>) -> bool {
    forall|s: Side, t: Side| #[trigger] g.contains((s, t)) <==> s == t || joined(grid, v, s, t)
}

/// What one fill adds to the sides that are joined: the pairs of sides that
/// the pocket of `start` touches, and no others.
proof fn lemma_fill_joins(
    grid: Map<Cell, Block>,
    v0: Seq<bool>,
    v: Seq<bool>,
    start: Cell,
    s: Side,
    t: Side,
)
    requires
        closed(grid, v0),
        closed(grid, v),
        forall|c: Cell| seen(v0, c) ==> seen(v, c),
        forall|c: Cell| #[trigger] fresh(grid, v0, v, c) ==> connected(grid, start, c),
    ensures
        joined(grid, v, s, t) <==> joined(grid, v0, s, t) || (fill_touches(grid, v0, v, s)
            && fill_touches(grid, v0, v, t)),
{
    if joined(grid, v0, s, t) {
        let (a, b) = choose|a: Cell, b: Cell|
            seen(v0, a) && seen(v0, b) && touches_side(a, s) && touches_side(b, t)
                && #[trigger] connected(grid, a, b);
        assert(seen(v, a) && seen(v, b) && connected(grid, a, b));
    }
    if fill_touches(grid, v0, v, s) && fill_touches(grid, v0, v, t) {
        let a = choose|c: Cell| #[trigger] fresh(grid, v0, v, c) && touches_side(c, s);
        let b = choose|c: Cell| #[trigger] fresh(grid, v0, v, c) && touches_side(c, t);
        lemma_connected_back(grid, start, a);
        lemma_connected_on(grid, a, start, b);
        assert(seen(v, a) && seen(v, b) && connected(grid, a, b));
    }
    if joined(grid, v, s, t) {
        let (a, b) = choose|a: Cell, b: Cell|
            seen(v, a) && seen(v, b) && touches_side(a, s) && touches_side(b, t)
                && #[trigger] connected(grid, a, b);
        lemma_connected_ends(grid, a, b);
        lemma_connected_back(grid, a, b);
        if seen(v0, a) {
            lemma_closed_holds_pocket(grid, v0, a, b);
            assert(seen(v0, a) && seen(v0, b) && connected(grid, a, b));
        } else if seen(v0, b) {
            lemma_closed_holds_pocket(grid, v0, b, a);
        } else {
            assert(fresh(grid, v0, v, a));
            assert(fresh(grid, v0, v, b));
        }
    }
}

/// The entry of the matrix `m`, kept row by row, in row `a` and column `b`.
spec fn entry(m: Seq<bool>, a: int, b: int) -> bool {
    m[a * 6 + b]
}

/// A 6x6 matrix that says for each pair of sides of a chunk whether one
/// can be entered and the other left through empty space.
#[derive(Debug, Clone, Copy)]
pub struct VisibilityGraph([bool; 36]);

impl View for VisibilityGraph {
    type V = Set<(Side, Side)>;

    /// The pairs of sides that reach each other.
    closed spec fn view(&self) -> Set<(Side, Side)> {
        Set::new(|p: (Side, Side)| self.0@[p.0.number() * 6 + p.1.number()])
    }
}

impl VisibilityGraph {
    /// The graph in which each side reaches itself alone.
    pub fn empty_graph() -> (g: VisibilityGraph)
        ensures
            forall|s: Side, t: Side| #[trigger] g@.contains((s, t)) <==> s == t,
    {
        let mut matrix = [false;36];
        matrix[0] = true;
        matrix[7] = true;
        matrix[14] = true;
        matrix[21] = true;
        matrix[28] = true;
        matrix[35] = true;
        VisibilityGraph(matrix)
    }

    /// Lets the sides that `touched` holds reach each other.
    fn connect(&mut self, touched: &[bool; 6])
        ensures
            forall|s: Side, t: Side|
                final(self)@.contains((s, t)) <==> old(self)@.contains((s, t)) || (
                touched@[s.number()] && touched@[t.number()]),
    {
        let ghost before = self.0@;
        let mut i: usize = 0;
        while i < 6
            invariant
                0 <= i <= 6,
                forall|a: int, b: int|
                    0 <= a < 6 && 0 <= b < 6 ==> (#[trigger] entry(self.0@, a, b) <==> entry(
                        before,
                        a,
                        b,
                    ) || (a < i && touched@[a] && touched@[b])),
            decreases 6 - i,
        {
            let mut j: usize = 0;
            while j < 6
                invariant
                    0 <= i < 6,
                    0 <= j <= 6,
                    forall|a: int, b: int|
                        0 <= a < 6 && 0 <= b < 6 ==> (#[trigger] entry(self.0@, a, b) <==> entry(
                            before,
                            a,
                            b,
                        ) || ((a < i || (a == i && b < j)) && touched@[a] && touched@[b])),
                decreases 6 - j,
            {
                let ghost held = self.0@;
                if touched[i] && touched[j] {
                    self.0[i * 6 + j] = true;
                }
                proof {
                    assert forall|a: int, b: int| 0 <= a < 6 && 0 <= b < 6 implies (#[trigger] entry(
                        self.0@,
                        a,
                        b,
                    ) <==> entry(before, a, b) || ((a < i || (a == i && b < j + 1)) && touched@[a]
                        && touched@[b])) by {
                        assert(entry(held, a, b) <==> entry(before, a, b) || ((a < i || (a == i
                            && b < j)) && touched@[a] && touched@[b]));
                        if a == i && b == j {
                        } else {
                            assert(a * 6 + b != i * 6 + j);
                            assert(entry(self.0@, a, b) == entry(held, a, b));
                        }
                    }
                }
                j += 1;
            }
            i += 1;
        }
        assert forall|s: Side, t: Side|
            self@.contains((s, t)) <==> old(self)@.contains((s, t)) || (touched@[s.number()]
                && touched@[t.number()]) by {
            let a = s.number();
            let b = t.number();
            assert(entry(self.0@, a, b) <==> entry(before, a, b) || (a < 6 && touched@[a]
                && touched@[b]));
        }
    }

    /// The visibility graph of a chunk: two sides reach each other if some
    /// pocket of empty cells touches both, and each side reaches itself.
    pub fn from_chunk(chunk: &Chunk) -> (g: VisibilityGraph)
        requires
            chunk.wf(),
        ensures
            forall|s: Side, t: Side| #[trigger]
                g@.contains((s, t)) <==> s == t || linked(chunk@, s, t),
            forall|s: Side, t: Side| #[trigger] g@.contains((s, t)) <==> g@.contains((t, s)),
    {
        let ghost grid = chunk@;
        let mut output = VisibilityGraph::empty_graph();
        let mut visited: Vec<bool> = Vec::new();
        let mut n: usize = 0;
        while n < CHUNK_VOLUME
            invariant
                0 <= n <= CHUNK_VOLUME,
                visited@.len() == n,
                forall|k: int| 0 <= k < n ==> !visited@[k],
            decreases CHUNK_VOLUME - n,
        {
            visited.push(false);
            n += 1;
        }
        proof {
            assert forall|s: Side, t: Side| !joined(grid, visited@, s, t) by {
                if joined(grid, visited@, s, t) {
                    let (a, b) = choose|a: Cell, b: Cell|
                        seen(visited@, a) && seen(visited@, b) && touches_side(a, s)
                            && touches_side(b, t) && #[trigger] connected(grid, a, b);
                    crate::chunk::lemma_cell_index(a);
                }
            }
            assert forall|a: Cell| !seen(visited@, a) by {
                if a.in_bounds() {
                    crate::chunk::lemma_cell_index(a);
                }
            }
        }
        // Every empty cell on the border starts a fill, unless an earlier
        // fill has reached it.
        let mut i: usize = 0;
        while i < CHUNK_VOLUME
            invariant
                chunk.wf(),
                grid == chunk@,
                0 <= i <= CHUNK_VOLUME,
                visited@.len() == CHUNK_VOLUME,
                closed(grid, visited@),
                forall|c: Cell|
                    is_open(grid, c) && on_border(c) && c.index() < i ==> #[trigger] seen(
                        visited@,
                        c,
                    ),
                reaches_joined(output@, grid, visited@),
            decreases CHUNK_VOLUME - i,
        {
            let pos = LocalBlockPos::from_index(i);
            let on_edge = pos.0 == 0 || pos.0 == CHUNK_SIZE - 1 || pos.1 == 0 || pos.1 == CHUNK_SIZE
                - 1 || pos.2 == 0 || pos.2 == CHUNK_SIZE - 1;
            if on_edge && !visited[i] && !chunk.get_block(&pos).is_solid() {
                let ghost before = visited@;
                let ghost reached = output@;
                let touched = flood_fill(chunk, &pos, &mut visited);
                output.connect(&touched);
                proof {
                    assert forall|s: Side, t: Side|
                        output@.contains((s, t)) <==> s == t || joined(
                            grid,
                            visited@,
                            s,
                            t,
                        ) by {
                        lemma_fill_joins(grid, before, visited@, pos@, s, t);
                        assert(side_at(s.number()) == s);
                        assert(side_at(t.number()) == t);
                        assert(touched@[s.number()] <==> fill_touches(grid, before, visited@, s));
                        assert(touched@[t.number()] <==> fill_touches(grid, before, visited@, t));
                        assert(reached.contains((s, t)) <==> s == t || joined(grid, before, s, t));
                        assert(output@.contains((s, t)) <==> reached.contains((s, t)) || (
                        touched@[s.number()] && touched@[t.number()]));
                    }
                }
                assert(reaches_joined(output@, grid, visited@));
            }
            proof {
                assert forall|c: Cell|
                    is_open(grid, c) && on_border(c) && c.index() < i + 1 implies #[trigger] seen(
                    visited@,
                    c,
                ) by {
                    if c.index() == i {
                        crate::chunk::lemma_cell_index(c);
                        assert(c == pos@);
                    }
                }
            }
            i += 1;
        }
        proof {
            assert forall|s: Side, t: Side|
                output@.contains((s, t)) <==> s == t || linked(grid, s, t) by {
                if joined(grid, visited@, s, t) {
                    let (a, b) = choose|a: Cell, b: Cell|
                        seen(visited@, a) && seen(visited@, b) && touches_side(a, s)
                            && touches_side(b, t) && #[trigger] connected(grid, a, b);
                    assert(touches_side(a, s) && touches_side(b, t) && connected(grid, a, b));
                }
                if linked(grid, s, t) {
                    let (a, b) = choose|a: Cell, b: Cell|
                        touches_side(a, s) && touches_side(b, t) && #[trigger] connected(grid, a, b);
                    lemma_connected_ends(grid, a, b);
                    crate::chunk::lemma_cell_index(a);
                    assert(on_border(a));
                    assert(seen(visited@, a));
                    lemma_closed_holds_pocket(grid, visited@, a, b);
                    assert(seen(visited@, a) && seen(visited@, b) && connected(grid, a, b));
                }
            }
            assert forall|s: Side, t: Side| output@.contains((s, t)) <==> output@.contains((t, s)) by {
                if linked(grid, s, t) {
                    lemma_linked_both_ways(grid, s, t);
                }
                if linked(grid, t, s) {
                    lemma_linked_both_ways(grid, t, s);
                }
            }
        }
        output
    }

    /// Whether `side1` and `side2` reach each other.
    pub fn can_reach_from(&self, side1: Side, side2: Side) -> (r: bool)
        ensures
            r == self@.contains((side1, side2)),
    {
        let x = side1.index();
        let y = side2.index();
        self.0[x * 6 + y]
    }
}

/// The cell lies on some side of the chunk.
pub open spec fn on_border(c: Cell) -> bool {
    ||| c.x == 0
    ||| c.x == CHUNK_SIZE - 1
    ||| c.y == 0
    ||| c.y == CHUNK_SIZE - 1
    ||| c.z == 0
    ||| c.z == CHUNK_SIZE - 1
}

/// Two sides reach each other in one order if they do in the other.
pub proof fn lemma_linked_both_ways(grid: Map<Cell, Block>, s: Side, t: Side)
    requires
        linked(grid, s, t),
    ensures
        linked(grid, t, s),
{
    let (a, b) = choose|a: Cell, b: Cell|
        touches_side(a, s) && touches_side(b, t) && #[trigger] connected(grid, a, b);
    lemma_connected_back(grid, a, b);
    assert(touches_side(b, t) && touches_side(a, s) && connected(grid, b, a));
}

} // verus!
