//! Turns a chunk into quads: the faces that show are found column by
//! column with bit masks, faces of one block type that lie side by side in a
//! plane are merged greedily into rectangles, and the corners of each
//! rectangle are packed into vertices.

use crate::chunk::block::Block;
use crate::chunk::faces::FaceMap;
use crate::chunk::{
    block_at, solid_at, Cell, Chunk, ChunkDimTy, EncodedVertex, LocalBlockPos, CHUNK_SIZE,
    CHUNK_VOLUME, NUM_BITS_IN_POS,
};
use vstd::prelude::*;

verus! {

/// The largest number of vertices that one direction of a mesh holds: six
/// for each block of a chunk.
pub const MAX_MESH_VERTICES: usize = 196608;

/// The largest coordinate that fits one field of an [`EncodedVertex`].
pub const MAX_VERTEX_COORD: ChunkDimTy = 63;

/// The value that packs `x`, `y` and `z` into three fields of 6 bits.
pub open spec fn packed(x: int, y: int, z: int) -> int {
    x * 4096 + y * 64 + z
}

/// The coordinates that the fields of `v` hold.
pub open spec fn unpacked(v: int) -> (int, int, int) {
    ((v / 4096) % 64, (v / 64) % 64, v % 64)
}

/// Encodes a vertex position into a single value. A coordinate that does not
/// fit its field is refused: none of its bits is dropped.
pub fn encode_vertex(x: ChunkDimTy, y: ChunkDimTy, z: ChunkDimTy) -> (r: Option<EncodedVertex>)
    ensures
        r == (if x <= MAX_VERTEX_COORD && y <= MAX_VERTEX_COORD && z <= MAX_VERTEX_COORD {
            Some(EncodedVertex(packed(x as int, y as int, z as int) as u32))
        } else {
            None
        }),
{
    if x > MAX_VERTEX_COORD || y > MAX_VERTEX_COORD || z > MAX_VERTEX_COORD {
        return None;
    }
    let mut output: u32 = 0;
    output |= x;
    output <<= NUM_BITS_IN_POS;
    output |= y;
    output <<= NUM_BITS_IN_POS;
    output |= z;
    assert(output == x * 4096 + y * 64 + z) by (bit_vector)
        requires
            x <= 63 && y <= 63 && z <= 63,
            output == ((((0u32 | x) << 6u32) | y) << 6u32) | z,
    ;
    Some(EncodedVertex(output))
}

/// The coordinates `(x, y, z)` that a vertex holds.
pub fn decode_vertex(v: &EncodedVertex) -> (r: (ChunkDimTy, ChunkDimTy, ChunkDimTy))
    ensures
        (r.0 as int, r.1 as int, r.2 as int) == unpacked(v.0 as int),
{
    let mut t = v.0;
    let z = t & 63;
    t >>= NUM_BITS_IN_POS;
    let y = t & 63;
    t >>= NUM_BITS_IN_POS;
    let x = t & 63;
    let w = v.0;
    assert(w & 63 == w % 64) by (bit_vector);
    assert((w >> 6u32) & 63 == (w / 64) % 64) by (bit_vector);
    assert(((w >> 6u32) >> 6u32) & 63 == (w / 4096) % 64) by (bit_vector);
    (x, y, z)
}

/// Decoding a vertex that was encoded from coordinates which fit their fields
/// gives these coordinates back.
pub proof fn lemma_vertex_round_trip(x: int, y: int, z: int)
    requires
        0 <= x <= MAX_VERTEX_COORD,
        0 <= y <= MAX_VERTEX_COORD,
        0 <= z <= MAX_VERTEX_COORD,
    ensures
        0 <= packed(x, y, z) <= u32::MAX,
        unpacked(packed(x, y, z)) == (x, y, z),
{
}


/// The vertex that holds the coordinates of `c`.
pub open spec fn vertex(x: int, y: int, z: int) -> EncodedVertex {
    EncodedVertex(packed(x, y, z) as u32)
}

/// The smaller of two integers.
pub open spec fn least(a: int, b: int) -> int {
    if a <= b {
        a
    } else {
        b
    }
}

/// The larger of two integers.
pub open spec fn most(a: int, b: int) -> int {
    if a <= b {
        b
    } else {
        a
    }
}

/// The corner of the box of a quad with the smallest coordinates. The quad
/// covers the blocks from `c1` to `c2`, so the box reaches one unit beyond
/// `c2`.
pub open spec fn low_corner(c1: Cell, c2: Cell) -> Cell {
    Cell { x: least(c1.x, c2.x + 1), y: least(c1.y, c2.y + 1), z: least(c1.z, c2.z + 1) }
}

/// The corner of the box of a quad with the largest coordinates.
pub open spec fn high_corner(c1: Cell, c2: Cell) -> Cell {
    Cell { x: most(c1.x, c2.x + 1), y: most(c1.y, c2.y + 1), z: most(c1.z, c2.z + 1) }
}

/// Every coordinate of the two corners of the box fits a field of a vertex.
pub open spec fn corners_fit(c1: Cell, c2: Cell) -> bool {
    &&& c1.x <= MAX_VERTEX_COORD && c2.x + 1 <= MAX_VERTEX_COORD
    &&& c1.y <= MAX_VERTEX_COORD && c2.y + 1 <= MAX_VERTEX_COORD
    &&& c1.z <= MAX_VERTEX_COORD && c2.z + 1 <= MAX_VERTEX_COORD
}

/// The six vertices, two triangles, of the face of the box between `lo` and
/// `hi` that looks in direction `axis`: 0 is -Z, 1 is +Y, 2 is +X, 3 is +Z,
/// 4 is -Y and 5 is -X. Both triangles start at the corner with the smallest
/// coordinates in the plane and turn the same way.
pub open spec fn face_vertices(axis: int, lo: Cell, hi: Cell) -> Seq<EncodedVertex> {
    if axis == 2 || axis == 5 {
        let x = if axis == 2 { hi.x } else { lo.x };
        seq![
            vertex(x, lo.y, lo.z),
            vertex(x, hi.y, lo.z),
            vertex(x, hi.y, hi.z),
            vertex(x, lo.y, lo.z),
            vertex(x, hi.y, hi.z),
            vertex(x, lo.y, hi.z),
        ]
    } else if axis == 1 || axis == 4 {
        let y = if axis == 1 { hi.y } else { lo.y };
        seq![
            vertex(lo.x, y, lo.z),
            vertex(hi.x, y, lo.z),
            vertex(hi.x, y, hi.z),
            vertex(lo.x, y, lo.z),
            vertex(hi.x, y, hi.z),
            vertex(lo.x, y, hi.z),
        ]
    } else {
        let z = if axis == 3 { hi.z } else { lo.z };
        seq![
            vertex(lo.x, lo.y, z),
            vertex(hi.x, lo.y, z),
            vertex(hi.x, hi.y, z),
            vertex(lo.x, lo.y, z),
            vertex(hi.x, hi.y, z),
            vertex(lo.x, hi.y, z),
        ]
    }
}

/// The vertices of the quad that covers the blocks from `c1` to `c2` and
/// looks in direction `axis`.
pub open spec fn quad_vertices(axis: int, c1: Cell, c2: Cell) -> Seq<EncodedVertex> {
    face_vertices(axis, low_corner(c1, c2), high_corner(c1, c2))
}

/// Appends the vertex with the coordinates `(x, y, z)`.
fn push_vertex(out: &mut Vec<EncodedVertex>, x: ChunkDimTy, y: ChunkDimTy, z: ChunkDimTy)
    requires
        x <= MAX_VERTEX_COORD,
        y <= MAX_VERTEX_COORD,
        z <= MAX_VERTEX_COORD,
    ensures
        final(out)@ == old(out)@.push(vertex(x as int, y as int, z as int)),
{
    match encode_vertex(x, y, z) {
        Some(v) => {
            out.push(v);
        },
        None => {},
    }
}

/// Appends the two triangles `a b c` and `a c d` of a face.
fn push_face(
    out: &mut Vec<EncodedVertex>,
    a: (ChunkDimTy, ChunkDimTy, ChunkDimTy),
    b: (ChunkDimTy, ChunkDimTy, ChunkDimTy),
    c: (ChunkDimTy, ChunkDimTy, ChunkDimTy),
    d: (ChunkDimTy, ChunkDimTy, ChunkDimTy),
)
    requires
        a.0 <= MAX_VERTEX_COORD && a.1 <= MAX_VERTEX_COORD && a.2 <= MAX_VERTEX_COORD,
        b.0 <= MAX_VERTEX_COORD && b.1 <= MAX_VERTEX_COORD && b.2 <= MAX_VERTEX_COORD,
        c.0 <= MAX_VERTEX_COORD && c.1 <= MAX_VERTEX_COORD && c.2 <= MAX_VERTEX_COORD,
        d.0 <= MAX_VERTEX_COORD && d.1 <= MAX_VERTEX_COORD && d.2 <= MAX_VERTEX_COORD,
    ensures
        final(out)@ == old(out)@ + seq![
            vertex(a.0 as int, a.1 as int, a.2 as int),
            vertex(b.0 as int, b.1 as int, b.2 as int),
            vertex(c.0 as int, c.1 as int, c.2 as int),
            vertex(a.0 as int, a.1 as int, a.2 as int),
            vertex(c.0 as int, c.1 as int, c.2 as int),
            vertex(d.0 as int, d.1 as int, d.2 as int),
        ],
{
    push_vertex(out, a.0, a.1, a.2);
    push_vertex(out, b.0, b.1, b.2);
    push_vertex(out, c.0, c.1, c.2);
    push_vertex(out, a.0, a.1, a.2);
    push_vertex(out, c.0, c.1, c.2);
    push_vertex(out, d.0, d.1, d.2);
    assert(out@ =~= old(out)@ + seq![
        vertex(a.0 as int, a.1 as int, a.2 as int),
        vertex(b.0 as int, b.1 as int, b.2 as int),
        vertex(c.0 as int, c.1 as int, c.2 as int),
        vertex(a.0 as int, a.1 as int, a.2 as int),
        vertex(c.0 as int, c.1 as int, c.2 as int),
        vertex(d.0 as int, d.1 as int, d.2 as int),
    ]);
}

/// Encodes the vertices of a quad, given by the blocks at two opposite
/// corners of it and by the direction it looks in. A quad with a corner that
/// no vertex can hold is refused.
pub fn create_quad(axis: usize, c1: LocalBlockPos, c2: LocalBlockPos) -> (r: Option<
    Vec<EncodedVertex>,
>)
    requires
        axis < 6,
    ensures
        r is Some <==> corners_fit(c1@, c2@),
        r matches Some(v) ==> v@ == quad_vertices(axis as int, c1@, c2@),
{
    // The positions are 0 to 31, the vertices 0 to 32: the far side of the
    // block at `c2` lies one unit beyond it.
    if c1.0 > MAX_VERTEX_COORD || c1.1 > MAX_VERTEX_COORD || c1.2 > MAX_VERTEX_COORD {
        return None;
    }
    if c2.0 >= MAX_VERTEX_COORD || c2.1 >= MAX_VERTEX_COORD || c2.2 >= MAX_VERTEX_COORD {
        return None;
    }
    let min_x = if c1.0 <= c2.0 + 1 { c1.0 } else { c2.0 + 1 };
    let max_x = if c1.0 <= c2.0 + 1 { c2.0 + 1 } else { c1.0 };
    let min_y = if c1.1 <= c2.1 + 1 { c1.1 } else { c2.1 + 1 };
    let max_y = if c1.1 <= c2.1 + 1 { c2.1 + 1 } else { c1.1 };
    let min_z = if c1.2 <= c2.2 + 1 { c1.2 } else { c2.2 + 1 };
    let max_z = if c1.2 <= c2.2 + 1 { c2.2 + 1 } else { c1.2 };

    let mut out: Vec<EncodedVertex> = Vec::new();
    if axis == 2 {
        push_face(
            &mut out,
            (max_x, min_y, min_z),
            (max_x, max_y, min_z),
            (max_x, max_y, max_z),
            (max_x, min_y, max_z),
        );
    } else if axis == 5 {
        push_face(
            &mut out,
            (min_x, min_y, min_z),
            (min_x, max_y, min_z),
            (min_x, max_y, max_z),
            (min_x, min_y, max_z),
        );
    } else if axis == 1 {
        push_face(
            &mut out,
            (min_x, max_y, min_z),
            (max_x, max_y, min_z),
            (max_x, max_y, max_z),
            (min_x, max_y, max_z),
        );
    } else if axis == 4 {
        push_face(
            &mut out,
            (min_x, min_y, min_z),
            (max_x, min_y, min_z),
            (max_x, min_y, max_z),
            (min_x, min_y, max_z),
        );
    } else if axis == 3 {
        push_face(
            &mut out,
            (min_x, min_y, max_z),
            (max_x, min_y, max_z),
            (max_x, max_y, max_z),
            (min_x, max_y, max_z),
        );
    } else {
        push_face(
            &mut out,
            (min_x, min_y, min_z),
            (max_x, min_y, min_z),
            (max_x, max_y, min_z),
            (min_x, max_y, min_z),
        );
    }
    assert(out@ =~= quad_vertices(axis as int, c1@, c2@));
    Some(out)
}


/// The coordinate of `c` along the axis `ax`: 0 is x, 1 is y, and any other
/// number is z.
pub open spec fn coord(c: Cell, ax: int) -> int {
    if ax == 0 {
        c.x
    } else if ax == 1 {
        c.y
    } else {
        c.z
    }
}

/// The cell `d` steps from `c` along the axis `ax`.
pub open spec fn shift(c: Cell, ax: int, d: int) -> Cell {
    if ax == 0 {
        Cell { x: c.x + d, y: c.y, z: c.z }
    } else if ax == 1 {
        Cell { x: c.x, y: c.y + d, z: c.z }
    } else {
        Cell { x: c.x, y: c.y, z: c.z + d }
    }
}

/// `n` steps forward or backward.
pub open spec fn signed(n: int, forward: bool) -> int {
    if forward {
        n
    } else {
        -n
    }
}

/// One step forward or backward.
pub open spec fn step_of(forward: bool) -> int {
    signed(1, forward)
}

/// The axis along which a quad that looks in direction `axis` grows first:
/// x for the quads that look along z or y, y for those that look along x.
pub open spec fn first_growth_axis(axis: int) -> int {
    if axis % 3 == 2 {
        1
    } else {
        0
    }
}

/// The axis along which a quad that looks in direction `axis` grows by whole
/// rows: y for the quads that look along z, z for the others.
pub open spec fn second_growth_axis(axis: int) -> int {
    if axis % 3 == 0 {
        1
    } else {
        2
    }
}

/// The map has the block `b` at the cell `c` of the chunk.
pub open spec fn holds(m: Map<Cell, Block>, c: Cell, b: Block) -> bool {
    c.in_bounds() && m.contains_key(c) && m[c] == b
}

/// The number of cells in a row behind `c` (before it, if not `forward`)
/// along `ax` that hold `b`, up to the first one that does not.
pub open spec fn strip_run(m: Map<Cell, Block>, c: Cell, ax: int, forward: bool, b: Block) -> nat
    decreases
            (if forward {
                CHUNK_SIZE - coord(c, ax)
            } else {
                coord(c, ax) + 1
            }),
{
    let next = shift(c, ax, step_of(forward));
    if c.in_bounds() && holds(m, next, b) {
        1 + strip_run(m, next, ax, forward, b)
    } else {
        0
    }
}

/// Each of the `len` cells from `c` on along `ax` holds `b`.
pub open spec fn row_full(m: Map<Cell, Block>, c: Cell, ax: int, len: int, b: Block) -> bool {
    forall|t: int| 0 <= t < len ==> holds(m, #[trigger] shift(c, ax, t), b)
}

/// The number of rows behind the row at `c` (before it, if not `forward`)
/// along `aj` that are full of `b`, up to the first one that is not. A row
/// is `len` cells long and runs along `ai`.
pub open spec fn row_run(
    m: Map<Cell, Block>,
    c: Cell,
    ai: int,
    len: int,
    aj: int,
    forward: bool,
    b: Block,
) -> nat
    decreases
            (if forward {
                CHUNK_SIZE - coord(c, aj)
            } else {
                coord(c, aj) + 1
            }),
{
    let next = shift(c, aj, step_of(forward));
    if c.in_bounds() && next.in_bounds() && row_full(m, next, ai, len, b) {
        1 + row_run(m, next, ai, len, aj, forward, b)
    } else {
        0
    }
}

/// A rectangle of faces of one block type.
#[derive(Debug, Clone, Copy, PartialEq, Eq, Structural)]
pub struct Quad {
    /// The block of the rectangle with the smallest coordinates.
    pub c1: LocalBlockPos,
    /// The block of the rectangle with the largest coordinates.
    pub c2: LocalBlockPos,
    /// The block type of every face of it.
    pub block: Block,
    /// The direction that the faces look in, 0 to 5.
    pub axis: usize,
}

/// What a [`Quad`] stands for in specifications.
pub struct QuadView {
    pub lo: Cell,
    pub hi: Cell,
    pub block: Block,
    pub axis: int,
}

impl QuadView {
    /// The cell is one of the rectangle.
    pub open spec fn contains(self, c: Cell) -> bool {
        &&& self.lo.x <= c.x <= self.hi.x
        &&& self.lo.y <= c.y <= self.hi.y
        &&& self.lo.z <= c.z <= self.hi.z
    }

    /// The cells of the rectangle.
    pub open spec fn cells(self) -> Set<Cell> {
        Set::new(|c: Cell| self.contains(c))
    }
}

impl View for Quad {
    type V = QuadView;

    open spec fn view(&self) -> QuadView {
        QuadView { lo: self.c1@, hi: self.c2@, block: self.block, axis: self.axis as int }
    }
}

/// The quad that grows from the key `seed` of `m`. It first grows into a
/// strip, forward and backward along the first growth axis, as far as the
/// next cell holds the block of the seed. The strip then grows by whole
/// rows, backward and forward along the second growth axis, as far as every
/// cell of the next row holds that block.
pub open spec fn quad_at(m: Map<Cell, Block>, seed: Cell, axis: int) -> QuadView {
    let ai = first_growth_axis(axis);
    let aj = second_growth_axis(axis);
    let b = m[seed];
    let fwd = strip_run(m, seed, ai, true, b);
    let back = strip_run(m, seed, ai, false, b);
    let start = shift(seed, ai, -back);
    let end = shift(seed, ai, fwd as int);
    let len = back + fwd + 1;
    let down = row_run(m, start, ai, len as int, aj, false, b);
    let up = row_run(m, start, ai, len as int, aj, true, b);
    QuadView { lo: shift(start, aj, -down), hi: shift(end, aj, up as int), block: b, axis }
}

/// The quads that the greedy merge makes of the keys of `m` from the index
/// `from` on. The cells are walked in lexicographic order; each one that is
/// still a key grows into a quad, and the cells of that quad leave the map.
pub open spec fn greedy_from(m: Map<Cell, Block>, axis: int, from: int) -> Seq<QuadView>
    decreases CHUNK_VOLUME - from,
{
    if from < 0 || from >= CHUNK_VOLUME {
        Seq::empty()
    } else {
        let c = Cell::at(from);
        if m.contains_key(c) {
            let q = quad_at(m, c, axis);
            seq![q] + greedy_from(m.remove_keys(q.cells()), axis, from + 1)
        } else {
            greedy_from(m, axis, from + 1)
        }
    }
}

/// The quads that the greedy merge makes of all the keys of `m`.
pub open spec fn merged_quads(m: Map<Cell, Block>, axis: int) -> Seq<QuadView> {
    greedy_from(m, axis, 0)
}

/// What the quads of `s` stand for.
pub open spec fn quad_views(s: Seq<Quad>) -> Seq<QuadView> {
    Seq::new(s.len(), |i: int| s[i]@)
}

/// The vertices of the quads of `qs`, in the order of the quads.
pub open spec fn all_vertices(qs: Seq<QuadView>) -> Seq<EncodedVertex>
    decreases qs.len(),
{
    if qs.len() == 0 {
        Seq::empty()
    } else {
        all_vertices(qs.drop_last()) + quad_vertices(qs.last().axis, qs.last().lo, qs.last().hi)
    }
}

/// The unit vector along the axis `ax`.
fn unit(ax: usize) -> (u: LocalBlockPos)
    requires
        ax < 3,
    ensures
        u@ == shift(Cell { x: 0, y: 0, z: 0 }, ax as int, 1),
{
    if ax == 0 {
        LocalBlockPos(1, 0, 0)
    } else if ax == 1 {
        LocalBlockPos(0, 1, 0)
    } else {
        LocalBlockPos(0, 0, 1)
    }
}

/// The two axes along which a quad that looks in direction `axis` grows.
fn growth_axes(axis: usize) -> (r: (usize, usize))
    ensures
        r.0 == first_growth_axis(axis as int),
        r.1 == second_growth_axis(axis as int),
        r.0 < 3 && r.1 < 3,
{
    match axis % 3 {
        0 => (0, 1),  // xy-plane
        1 => (0, 2),  // xz-plane
        _ => (1, 2),  // yz-plane
    }
}

/// The position one step from `p` along `ax`, where the coordinate type
/// holds it.
fn step(p: &LocalBlockPos, ax: usize, forward: bool) -> (r: Option<LocalBlockPos>)
    requires
        ax < 3,
    ensures
        match r {
            Some(q) => q@ == shift(p@, ax as int, step_of(forward)),
            None => !shift(p@, ax as int, step_of(forward)).in_bounds(),
        },
{
    let u = unit(ax);
    if forward {
        LocalBlockPos::safe_add(p, &u)
    } else {
        LocalBlockPos::safe_sub(p, &u)
    }
}

/// How far the strip grows from `seed` along `ax`, and where it ends.
fn grow_strip(faces: &FaceMap, seed: &LocalBlockPos, ax: usize, forward: bool, b: Block) -> (r: (
    u32,
    LocalBlockPos,
))
    requires
        faces.wf(),
        ax < 3,
        seed@.in_bounds(),
    ensures
        r.0 == strip_run(faces@, seed@, ax as int, forward, b),
        r.1@ == shift(seed@, ax as int, signed(r.0 as int, forward)),
        r.1@.in_bounds(),
        r.0 < CHUNK_SIZE,
{
    let mut cur = *seed;
    let mut n: u32 = 0;
    let mut growing = true;
    while growing
        invariant
            faces.wf(),
            ax < 3,
            seed@.in_bounds(),
            cur@.in_bounds(),
            cur@ == shift(seed@, ax as int, signed(n as int, forward)),
            growing ==> strip_run(faces@, seed@, ax as int, forward, b) == n + strip_run(
                faces@,
                cur@,
                ax as int,
                forward,
                b,
            ),
            !growing ==> strip_run(faces@, seed@, ax as int, forward, b) == n,
        decreases 2 * (CHUNK_SIZE - n) + (if growing { 1int } else { 0int }),
    {
        growing = false;
        match step(&cur, ax, forward) {
            Some(next) => {
                match faces.get(&next) {
                    Some(found) => {
                        if found == b {
                            proof {
                                faces.lemma_keys_in_bounds();
                            }
                            cur = next;
                            n += 1;
                            growing = true;
                        }
                    },
                    None => {},
                }
            },
            None => {},
        }
    }
    (n, cur)
}

/// The position `d` steps forward from `p` along `ax`.
fn moved(p: &LocalBlockPos, ax: usize, d: u32) -> (r: LocalBlockPos)
    requires
        ax < 3,
        p@.in_bounds(),
        d <= CHUNK_SIZE,
    ensures
        r@ == shift(p@, ax as int, d as int),
{
    if ax == 0 {
        LocalBlockPos(p.0 + d, p.1, p.2)
    } else if ax == 1 {
        LocalBlockPos(p.0, p.1 + d, p.2)
    } else {
        LocalBlockPos(p.0, p.1, p.2 + d)
    }
}

/// Whether each of the `len` cells from `start` on along `ax` holds `b`.
fn row_is_full(faces: &FaceMap, start: &LocalBlockPos, ax: usize, len: u32, b: Block) -> (r: bool)
    requires
        faces.wf(),
        ax < 3,
        start@.in_bounds(),
        len <= CHUNK_SIZE,
    ensures
        r == row_full(faces@, start@, ax as int, len as int, b),
{
    let mut t: u32 = 0;
    while t < len
        invariant
            faces.wf(),
            ax < 3,
            start@.in_bounds(),
            0 <= t <= len <= CHUNK_SIZE,
            forall|s: int| 0 <= s < t ==> holds(faces@, #[trigger] shift(start@, ax as int, s), b),
        decreases len - t,
    {
        let pos = moved(start, ax, t);
        let ok = match faces.get(&pos) {
            Some(found) => found == b,
            None => false,
        };
        proof {
            faces.lemma_keys_in_bounds();
        }
        if !ok {
            assert(!holds(faces@, shift(start@, ax as int, t as int), b));
            return false;
        }
        t += 1;
    }
    true
}

/// By how many rows the strip of `len` cells from `start` on along `ai`
/// grows along `aj`, and where the last of these rows starts.
fn grow_rows(
    faces: &FaceMap,
    start: &LocalBlockPos,
    ai: usize,
    len: u32,
    aj: usize,
    forward: bool,
    b: Block,
) -> (r: (u32, LocalBlockPos))
    requires
        faces.wf(),
        ai < 3,
        aj < 3,
        start@.in_bounds(),
        len <= CHUNK_SIZE,
    ensures
        r.0 == row_run(faces@, start@, ai as int, len as int, aj as int, forward, b),
        r.1@ == shift(start@, aj as int, signed(r.0 as int, forward)),
        r.1@.in_bounds(),
        r.0 < CHUNK_SIZE,
{
    let mut cur = *start;
    let mut n: u32 = 0;
    let mut growing = true;
    while growing
        invariant
            faces.wf(),
            ai < 3,
            aj < 3,
            len <= CHUNK_SIZE,
            start@.in_bounds(),
            cur@.in_bounds(),
            cur@ == shift(start@, aj as int, signed(n as int, forward)),
            growing ==> row_run(faces@, start@, ai as int, len as int, aj as int, forward, b) == n
                + row_run(faces@, cur@, ai as int, len as int, aj as int, forward, b),
            !growing ==> row_run(faces@, start@, ai as int, len as int, aj as int, forward, b)
                == n,
        decreases 2 * (CHUNK_SIZE - n) + (if growing { 1int } else { 0int }),
    {
        growing = false;
        match step(&cur, aj, forward) {
            Some(next) => {
                if next.in_bounds() && row_is_full(faces, &next, ai, len, b) {
                    cur = next;
                    n += 1;
                    growing = true;
                }
            },
            None => {},
        }
    }
    (n, cur)
}

/// The quad that grows from the key `seed` of the map.
pub fn grow_quad(faces: &FaceMap, seed: &LocalBlockPos, axis: usize) -> (q: Quad)
    requires
        faces.wf(),
        faces@.contains_key(seed@),
    ensures
        q@ == quad_at(faces@, seed@, axis as int),
        q.c1@.in_bounds(),
        q.c2@.in_bounds(),
{
    proof {
        faces.lemma_keys_in_bounds();
    }
    let (ai, aj) = growth_axes(axis);
    let b = match faces.get(seed) {
        Some(b) => b,
        None => Block(0),
    };
    let (fwd, end) = grow_strip(faces, seed, ai, true, b);
    let (back, start) = grow_strip(faces, seed, ai, false, b);
    let len = back + fwd + 1;
    let (down, lo) = grow_rows(faces, &start, ai, len, aj, false, b);
    let (up, _) = grow_rows(faces, &start, ai, len, aj, true, b);
    let hi = moved(&end, aj, up);
    Quad { c1: lo, c2: hi, block: b, axis }
}


/// The cell is one of the quad and comes before `(x, y, z)` in lexicographic
/// order.
spec fn before_in_quad(q: QuadView, c: Cell, x: int, y: int, z: int) -> bool {
    q.contains(c) && (c.x < x || (c.x == x && (c.y < y || (c.y == y && c.z < z))))
}

/// Takes the cells of the quad out of the map.
fn remove_quad(faces: &mut FaceMap, q: &Quad)
    requires
        old(faces).wf(),
        q.c1@.in_bounds(),
        q.c2@.in_bounds(),
    ensures
        final(faces).wf(),
        final(faces)@ == old(faces)@.remove_keys(q@.cells()),
{
    let ghost m = faces@;
    let ghost v = q@;
    let mut x = q.c1.0;
    assert(faces@ =~= m.remove_keys(Set::new(|c: Cell| before_in_quad(v, c, x as int, 0, 0))));
    while x <= q.c2.0
        invariant
            faces.wf(),
            v == q@,
            q.c2@.in_bounds(),
            q.c1.0 <= x,
            x <= q.c2.0 + 1 || x == q.c1.0,
            faces@ == m.remove_keys(Set::new(|c: Cell| before_in_quad(v, c, x as int, 0, 0))),
        decreases q.c2.0 + 1 - x,
    {
        let mut y = q.c1.1;
        assert(faces@ =~= m.remove_keys(
            Set::new(|c: Cell| before_in_quad(v, c, x as int, y as int, 0)),
        ));
        while y <= q.c2.1
            invariant
                faces.wf(),
                v == q@,
                q.c2@.in_bounds(),
                q.c1.0 <= x <= q.c2.0,
                q.c1.1 <= y,
                y <= q.c2.1 + 1 || y == q.c1.1,
                faces@ == m.remove_keys(
                    Set::new(|c: Cell| before_in_quad(v, c, x as int, y as int, 0)),
                ),
            decreases q.c2.1 + 1 - y,
        {
            let mut z = q.c1.2;
            assert(faces@ =~= m.remove_keys(
                Set::new(|c: Cell| before_in_quad(v, c, x as int, y as int, z as int)),
            ));
            while z <= q.c2.2
                invariant
                    faces.wf(),
                    v == q@,
                    q.c2@.in_bounds(),
                    q.c1.0 <= x <= q.c2.0,
                    q.c1.1 <= y <= q.c2.1,
                    q.c1.2 <= z,
                    z <= q.c2.2 + 1 || z == q.c1.2,
                    faces@ == m.remove_keys(
                        Set::new(|c: Cell| before_in_quad(v, c, x as int, y as int, z as int)),
                    ),
                decreases q.c2.2 + 1 - z,
            {
                faces.remove(&LocalBlockPos(x, y, z));
                z += 1;
                assert(faces@ =~= m.remove_keys(
                    Set::new(|c: Cell| before_in_quad(v, c, x as int, y as int, z as int)),
                ));
            }
            y += 1;
            assert(faces@ =~= m.remove_keys(
                Set::new(|c: Cell| before_in_quad(v, c, x as int, y as int, 0)),
            ));
        }
        x += 1;
        assert(faces@ =~= m.remove_keys(Set::new(|c: Cell| before_in_quad(v, c, x as int, 0, 0))));
    }
    assert(faces@ =~= m.remove_keys(v.cells()));
}

/// Merges the faces of the map greedily into quads and leaves the map
/// empty. The positions are taken in lexicographic order, so the quads
/// depend on the keys and their blocks alone.
pub fn greedy_quads(faces: &mut FaceMap, axis: usize) -> (quads: Vec<Quad>)
    requires
        old(faces).wf(),
    ensures
        final(faces).wf(),
        final(faces)@ == Map::<Cell, Block>::empty(),
        quad_views(quads@) == merged_quads(old(faces)@, axis as int),
        forall|k: int| 0 <= k < quads.len() ==> quads[k].c1@.in_bounds() && quads[k].c2@.in_bounds(),
{
    let mut quads: Vec<Quad> = Vec::new();
    let mut i: usize = 0;
    proof {
        assert forall|c: Cell| faces@.contains_key(c) implies c.index() >= 0 by {
            faces.lemma_keys_in_bounds();
        }
        assert(quad_views(quads@) + greedy_from(faces@, axis as int, 0) =~= greedy_from(
            faces@,
            axis as int,
            0,
        ));
    }
    while i < CHUNK_VOLUME
        invariant
            faces.wf(),
            0 <= i <= CHUNK_VOLUME,
            forall|c: Cell| faces@.contains_key(c) ==> c.index() >= i,
            merged_quads(old(faces)@, axis as int) == quad_views(quads@) + greedy_from(
                faces@,
                axis as int,
                i as int,
            ),
            forall|k: int|
                0 <= k < quads.len() ==> quads[k].c1@.in_bounds() && quads[k].c2@.in_bounds(),
        decreases CHUNK_VOLUME - i,
    {
        let pos = LocalBlockPos::from_index(i);
        let ghost before = faces@;
        let ghost done = quad_views(quads@);
        if faces.get(&pos).is_some() {
            let q = grow_quad(faces, &pos, axis);
            remove_quad(faces, &q);
            quads.push(q);
            proof {
                assert(quad_views(quads@) =~= done + seq![q@]);
                assert(done + (seq![q@] + greedy_from(faces@, axis as int, i + 1)) =~= (done
                    + seq![q@]) + greedy_from(faces@, axis as int, i + 1));
            }
        }
        proof {
            assert forall|c: Cell| faces@.contains_key(c) implies c.index() >= i + 1 by {
                faces.lemma_keys_in_bounds();
                assert(before.contains_key(c));
                if c.index() == i {
                    crate::chunk::lemma_cell_index(c);
                    assert(c == pos@);
                }
            }
        }
        i += 1;
    }
    proof {
        assert forall|c: Cell| !faces@.contains_key(c) by {
            faces.lemma_keys_in_bounds();
            if c.in_bounds() {
                crate::chunk::lemma_cell_index(c);
            }
        }
        assert(faces@ =~= Map::<Cell, Block>::empty());
        assert(quad_views(quads@) + Seq::<QuadView>::empty() =~= quad_views(quads@));
    }
    quads
}

/// Merges the faces of the map greedily into quads, leaves the map empty,
/// and returns the vertices of the quads. This does not always give the
/// fewest quads.
pub fn greedy_merge(faces: &mut FaceMap, axis: usize) -> (output: Vec<EncodedVertex>)
    requires
        old(faces).wf(),
        axis < 6,
    ensures
        final(faces).wf(),
        final(faces)@ == Map::<Cell, Block>::empty(),
        output@ == all_vertices(merged_quads(old(faces)@, axis as int)),
{
    let quads = greedy_quads(faces, axis);
    let mut output: Vec<EncodedVertex> = Vec::new();
    let mut k: usize = 0;
    proof {
        let views = quad_views(quads@);
        lemma_quads_look_one_way(old(faces)@, axis as int, 0);
        assert forall|j: int| 0 <= j < quads.len() implies quads[j].axis == axis by {
            assert(views[j] == quads[j]@);
        }
        assert(views.take(0) =~= Seq::<QuadView>::empty());
    }
    while k < quads.len()
        invariant
            0 <= k <= quads.len(),
            axis < 6,
            forall|j: int| 0 <= j < quads.len() ==> quads[j].c1@.in_bounds() && quads[j].c2@.in_bounds(),
            forall|j: int| 0 <= j < quads.len() ==> quads[j].axis == axis,
            output@ == all_vertices(quad_views(quads@).take(k as int)),
        decreases quads.len() - k,
    {
        let q = quads[k];
        proof {
            let views = quad_views(quads@);
            assert(views.take(k + 1).drop_last() =~= views.take(k as int));
            assert(views.take(k + 1).last() == q@);
        }
        match create_quad(axis, q.c1, q.c2) {
            Some(mut vertices) => {
                output.append(&mut vertices);
            },
            None => {},
        }
        k += 1;
    }
    proof {
        assert(quad_views(quads@).take(k as int) =~= quad_views(quads@));
    }
    output
}


/// Every quad of the greedy merge looks in the direction that the merge was
/// made for.
pub proof fn lemma_quads_look_one_way(m: Map<Cell, Block>, axis: int, from: int)
    ensures
        forall|k: int|
            0 <= k < greedy_from(m, axis, from).len() ==> (#[trigger] greedy_from(
                m,
                axis,
                from,
            )[k]).axis == axis,
    decreases CHUNK_VOLUME - from,
{
    let g = greedy_from(m, axis, from);
    if 0 <= from < CHUNK_VOLUME {
        let c = Cell::at(from);
        if m.contains_key(c) {
            let q = quad_at(m, c, axis);
            let rest = greedy_from(m.remove_keys(q.cells()), axis, from + 1);
            lemma_quads_look_one_way(m.remove_keys(q.cells()), axis, from + 1);
            assert(g == seq![q] + rest);
            assert forall|k: int| 0 <= k < g.len() implies (#[trigger] g[k]).axis == axis by {
                if k > 0 {
                    assert(g[k] == rest[k - 1]);
                }
            }
        } else {
            lemma_quads_look_one_way(m, axis, from + 1);
            assert(g == greedy_from(m, axis, from + 1));
        }
    }
}


/// The cell that the face of `c` in direction `axis` looks at: 0 is -Z, 1
/// is +Y, 2 is +X, 3 is +Z, 4 is -Y and 5 is -X.
pub open spec fn facing(c: Cell, axis: int) -> Cell {
    if axis == 0 {
        shift(c, 2, -1)
    } else if axis == 1 {
        shift(c, 1, 1)
    } else if axis == 2 {
        shift(c, 0, 1)
    } else if axis == 3 {
        shift(c, 2, 1)
    } else if axis == 4 {
        shift(c, 1, -1)
    } else {
        shift(c, 0, -1)
    }
}

/// The face of the block at `c` in direction `axis` shows: the block is
/// solid and the cell that the face looks at is not, or lies outside the
/// chunk.
pub open spec fn exposed(grid: Map<Cell, Block>, c: Cell, axis: int) -> bool {
    c.in_bounds() && solid_at(grid, c) && !(facing(c, axis).in_bounds() && solid_at(
        grid,
        facing(c, axis),
    ))
}

/// The faces in direction `axis` that show, each with its block.
pub open spec fn exposed_faces(grid: Map<Cell, Block>, axis: int) -> Map<Cell, Block> {
    Map::new(|c: Cell| exposed(grid, c, axis), |c: Cell| block_at(grid, c))
}

/// The vertices of the mesh of `grid` in direction `axis`.
pub open spec fn mesh_vertices(grid: Map<Cell, Block>, axis: int) -> Seq<EncodedVertex> {
    all_vertices(merged_quads(exposed_faces(grid, axis), axis))
}

/// The bit `z` of `mask` is set.
pub open spec fn bit(mask: u32, z: int) -> bool {
    0 <= z < 32 && (mask >> (z as u32)) & 1 == 1
}

/// The bits of `masks` say which blocks of `grid` are solid: the bit `z` of
/// the mask at `x * 32 + y` stands for the block at `(x, y, z)`.
pub open spec fn columns_of(grid: Map<Cell, Block>, masks: Seq<u32>) -> bool {
    &&& masks.len() == 1024
    &&& forall|x: int, y: int, z: int|
        0 <= x < 32 && 0 <= y < 32 && 0 <= z < 32 ==> (#[trigger] bit(masks[x * 32 + y], z)
            <==> solid_at(grid, Cell { x, y, z }))
}

/// The faces that the bits of `faces` stand for in the column at `(x, y)`,
/// each with its block.
pub open spec fn column_faces(grid: Map<Cell, Block>, x: int, y: int, faces: u32) -> Map<
    Cell,
    Block,
> {
    Map::new(|c: Cell| c.x == x && c.y == y && bit(faces, c.z), |c: Cell| block_at(grid, c))
}

/// Setting the bit `z` of a mask changes no other bit.
proof fn lemma_set_bit(mask: u32, z: u32, q: u32)
    by (bit_vector)
    requires
        z < 32,
        q < 32,
    ensures
        ((mask | (1u32 << z)) >> q) & 1 == (if q == z {
            1u32
        } else {
            (mask >> q) & 1
        }),
{
}

/// Taking the set bit `z` off a mask does not underflow, makes the mask
/// smaller and changes no other bit.
proof fn lemma_clear_bit(mask: u32, z: u32, q: u32)
    by (bit_vector)
    requires
        z < 32,
        q < 32,
        (mask >> z) & 1 == 1,
    ensures
        (1u32 << z) <= mask,
        ((mask - (1u32 << z)) as u32) < mask,
        (((mask - (1u32 << z)) as u32) >> q) & 1 == (if q == z {
            0u32
        } else {
            (mask >> q) & 1
        }),
{
}

/// No bit of 0 is set.
proof fn lemma_no_bit(q: u32)
    by (bit_vector)
    requires
        q < 32,
    ensures
        (0u32 >> q) & 1 == 0,
{
}

/// A bit of `a & !b` is set where it is set in `a` and not in `b`.
proof fn lemma_and_not_bit(a: u32, b: u32, q: u32)
    by (bit_vector)
    requires
        q < 32,
    ensures
        ((a & !b) >> q) & 1 == 1 <==> ((a >> q) & 1 == 1 && (b >> q) & 1 != 1),
{
}

/// The bit `q` of a mask shifted up by one is the bit `q - 1` of the mask.
proof fn lemma_shifted_up_bit(a: u32, q: u32)
    by (bit_vector)
    requires
        q < 32,
    ensures
        ((a << 1u32) >> q) & 1 == 1 <==> (q > 0 && (a >> ((q - 1) as u32)) & 1 == 1),
{
}

/// The bit `q` of a mask shifted down by one is the bit `q + 1` of the
/// mask.
proof fn lemma_shifted_down_bit(a: u32, q: u32)
    by (bit_vector)
    requires
        q < 32,
    ensures
        ((a >> 1u32) >> q) & 1 == 1 <==> (q < 31 && (a >> ((q + 1) as u32)) & 1 == 1),
{
}

/// The lowest bit of a number is 1 where it is not 0.
proof fn lemma_odd_bit(a: u32)
    by (bit_vector)
    ensures
        a & 1 != 0 ==> a & 1 == 1,
{
}

/// One mask for each column of the chunk, with a bit set for each solid
/// block of the column.
pub fn solid_columns(chunk: &Chunk) -> (masks: Vec<ChunkDimTy>)
    requires
        chunk.wf(),
    ensures
        columns_of(chunk@, masks@),
{
    let mut masks: Vec<ChunkDimTy> = Vec::new();
    let mut i: usize = 0;
    while i < 1024
        invariant
            chunk.wf(),
            0 <= i <= 1024,
            masks@.len() == i,
            forall|x: int, y: int, z: int|
                0 <= x < 32 && 0 <= y < 32 && 0 <= z < 32 && x * 32 + y < i ==> (#[trigger] bit(
                    masks@[x * 32 + y],
                    z,
                ) <==> solid_at(chunk@, Cell { x, y, z })),
        decreases 1024 - i,
    {
        let x = (i / 32) as u32;
        let y = (i % 32) as u32;
        let mut mask: ChunkDimTy = 0;
        let mut z: u32 = 0;
        proof {
            assert forall|q: int| 0 <= q < 32 implies !bit(mask, q) by {
                lemma_no_bit(q as u32);
            }
        }
        while z < CHUNK_SIZE
            invariant
                chunk.wf(),
                x < 32 && y < 32,
                0 <= z <= CHUNK_SIZE,
                forall|q: int|
                    0 <= q < z ==> (bit(mask, q) <==> solid_at(
                        chunk@,
                        Cell { x: x as int, y: y as int, z: q },
                    )),
                forall|q: int| z <= q < 32 ==> !bit(mask, q),
            decreases CHUNK_SIZE - z,
        {
            if chunk.get_block(&LocalBlockPos(x, y, z)).is_solid() {
                let ghost before = mask;
                mask |= 1 << z;
                proof {
                    assert forall|q: int| 0 <= q < 32 implies (bit(mask, q) <==> (q == z || bit(
                        before,
                        q,
                    ))) by {
                        lemma_set_bit(before, z, q as u32);
                    }
                }
            }
            z += 1;
        }
        let ghost before = masks@;
        masks.push(mask);
        proof {
            assert forall|cx: int, cy: int, cz: int|
                0 <= cx < 32 && 0 <= cy < 32 && 0 <= cz < 32 && cx * 32 + cy < i
                    + 1 implies (#[trigger] bit(masks@[cx * 32 + cy], cz) <==> solid_at(
                chunk@,
                Cell { x: cx, y: cy, z: cz },
            )) by {
                if cx * 32 + cy < i {
                    assert(masks@[cx * 32 + cy] == before[cx * 32 + cy]);
                    assert(bit(before[cx * 32 + cy], cz) <==> solid_at(
                        chunk@,
                        Cell { x: cx, y: cy, z: cz },
                    ));
                } else {
                    assert(cx == x && cy == y);
                }
            }
        }
        i += 1;
    }
    masks
}

/// The faces of the column at `(x, y)` that show in direction `axis`, one
/// bit for each: the solid blocks of the column whose neighbour in that
/// direction is not solid. A neighbour outside the chunk counts as empty.
fn exposed_mask(
    masks: &Vec<ChunkDimTy>,
    x: usize,
    y: usize,
    axis: usize,
    Ghost(grid): Ghost<Map<Cell, Block>>,
) -> (faces: ChunkDimTy)
    requires
        columns_of(grid, masks@),
        x < 32,
        y < 32,
        axis < 6,
    ensures
        forall|z: int|
            0 <= z < 32 ==> (bit(faces, z) <==> exposed(
                grid,
                Cell { x: x as int, y: y as int, z },
                axis as int,
            )),
{
    let column = masks[x * 32 + y];
    let ghost xi = x as int;
    let ghost yi = y as int;
    assert forall|z: int| 0 <= z < 32 implies (bit(column, z) <==> solid_at(
        grid,
        Cell { x: xi, y: yi, z },
    )) by {
        assert(bit(masks@[xi * 32 + yi], z) <==> solid_at(grid, Cell { x: xi, y: yi, z }));
    }
    if axis == 0 || axis == 3 {
        let other = if axis == 0 { column << 1 } else { column >> 1 };
        let faces = column & !other;
        assert forall|z: int| 0 <= z < 32 implies (bit(faces, z) <==> exposed(
            grid,
            Cell { x: xi, y: yi, z },
            axis as int,
        )) by {
            let c = Cell { x: xi, y: yi, z };
            lemma_and_not_bit(column, other, z as u32);
            lemma_shifted_up_bit(column, z as u32);
            lemma_shifted_down_bit(column, z as u32);
            assert(bit(faces, z) <==> bit(column, z) && !bit(other, z));
            assert(bit(column, z) <==> solid_at(grid, c));
            if axis == 0 {
                assert(facing(c, 0) == Cell { x: xi, y: yi, z: z - 1 });
                if z > 0 {
                    assert(bit(column, z - 1) <==> solid_at(grid, Cell { x: xi, y: yi, z: z - 1 }));
                    assert(bit(other, z) <==> bit(column, z - 1));
                } else {
                    assert(!bit(other, z));
                }
            } else {
                assert(facing(c, 3) == Cell { x: xi, y: yi, z: z + 1 });
                if z < 31 {
                    assert(bit(column, z + 1) <==> solid_at(grid, Cell { x: xi, y: yi, z: z + 1 }));
                    assert(bit(other, z) <==> bit(column, z + 1));
                } else {
                    assert(!bit(other, z));
                }
            }
        }
        faces
    } else {
        // The column next to this one in the direction of the faces, empty
        // beyond the edge of the chunk, so that the faces on the edge show.
        let other = if axis == 1 {
            if y + 1 >= 32 {
                0
            } else {
                masks[x * 32 + (y + 1)]
            }
        } else if axis == 4 {
            if y == 0 {
                0
            } else {
                masks[x * 32 + (y - 1)]
            }
        } else if axis == 2 {
            if x + 1 >= 32 {
                0
            } else {
                masks[(x + 1) * 32 + y]
            }
        } else {
            if x == 0 {
                0
            } else {
                masks[(x - 1) * 32 + y]
            }
        };
        let faces = column & !other;
        assert forall|z: int| 0 <= z < 32 implies (bit(faces, z) <==> exposed(
            grid,
            Cell { x: xi, y: yi, z },
            axis as int,
        )) by {
            let c = Cell { x: xi, y: yi, z };
            lemma_and_not_bit(column, other, z as u32);
            lemma_no_bit(z as u32);
            assert(bit(faces, z) <==> bit(column, z) && !bit(other, z));
            assert(bit(column, z) <==> solid_at(grid, c));
            let n = facing(c, axis as int);
            assert(n.z == z);
            if n.in_bounds() {
                assert(bit(masks@[n.x * 32 + n.y], z) <==> solid_at(
                    grid,
                    Cell { x: n.x, y: n.y, z },
                ));
                assert(other == masks@[n.x * 32 + n.y]);
            } else {
                assert(other == 0);
            }
        }
        faces
    }
}

/// Decodes the faces of one column from their bits and adds them to the
/// map, each with the block of the chunk at its position. The highest bit
/// that is left is found and taken off until none is left, which cannot
/// overflow even when every bit is set.
pub fn add_faces(chunk: &Chunk, data: &mut FaceMap, x: usize, y: usize, faces: ChunkDimTy)
    requires
        chunk.wf(),
        old(data).wf(),
        x < CHUNK_SIZE,
        y < CHUNK_SIZE,
    ensures
        final(data).wf(),
        final(data)@ == old(data)@.union_prefer_right(
            column_faces(chunk@, x as int, y as int, faces),
        ),
{
    let mut rest = faces;
    let ghost mut top: int = 32;
    let ghost xi = x as int;
    let ghost yi = y as int;
    proof {
        assert(data@ =~= old(data)@.union_prefer_right(
            Map::new(
                |c: Cell| c.x == xi && c.y == yi && bit(faces, c.z) && c.z >= top,
                |c: Cell| block_at(chunk@, c),
            ),
        ));
    }
    while rest != 0
        invariant
            chunk.wf(),
            data.wf(),
            x < CHUNK_SIZE,
            y < CHUNK_SIZE,
            xi == x,
            yi == y,
            0 <= top <= 32,
            forall|q: int| 0 <= q < 32 ==> (bit(rest, q) <==> q < top && bit(faces, q)),
            data@ == old(data)@.union_prefer_right(
                Map::new(
                    |c: Cell| c.x == xi && c.y == yi && bit(faces, c.z) && c.z >= top,
                    |c: Cell| block_at(chunk@, c),
                ),
            ),
        decreases rest,
    {
        let leading = rest.leading_zeros();
        proof {
            vstd::std_specs::bits::axiom_u32_leading_zeros(rest);
        }
        let z = CHUNK_SIZE - 1 - leading;
        proof {
            lemma_odd_bit(rest >> z);
            assert(bit(rest, z as int));
            lemma_clear_bit(rest, z, z);
        }
        let ghost before = rest;
        let ghost held = data@;
        rest -= 1 << z;
        let pos = LocalBlockPos(x as ChunkDimTy, y as ChunkDimTy, z);
        data.insert(pos, chunk.get_block(&pos));
        proof {
            assert forall|q: int| 0 <= q < 32 implies (bit(rest, q) <==> q < z && bit(
                faces,
                q,
            )) by {
                lemma_clear_bit(before, z, q as u32);
                if q > z {
                    assert((before >> (q as u32)) & 1 == 0);
                }
            }
            top = z as int;
            assert(data@ =~= old(data)@.union_prefer_right(
                Map::new(
                    |c: Cell| c.x == xi && c.y == yi && bit(faces, c.z) && c.z >= top,
                    |c: Cell| block_at(chunk@, c),
                ),
            ));
        }
    }
    proof {
        assert forall|q: int| 0 <= q < 32 implies !bit(rest, q) by {
            lemma_no_bit(q as u32);
        }
        assert(data@ =~= old(data)@.union_prefer_right(column_faces(chunk@, xi, yi, faces)));
    }
}

/// The faces of the chunk that show in direction `axis`, each with its
/// block.
pub fn cull_faces(chunk: &Chunk, masks: &Vec<ChunkDimTy>, axis: usize) -> (data: FaceMap)
    requires
        chunk.wf(),
        columns_of(chunk@, masks@),
        axis < 6,
    ensures
        data.wf(),
        data@ == exposed_faces(chunk@, axis as int),
{
    let mut data = FaceMap::new();
    let mut i: usize = 0;
    proof {
        assert(data@ =~= Map::new(
            |c: Cell| exposed(chunk@, c, axis as int) && c.x * 32 + c.y < i,
            |c: Cell| block_at(chunk@, c),
        ));
    }
    while i < 1024
        invariant
            chunk.wf(),
            data.wf(),
            columns_of(chunk@, masks@),
            axis < 6,
            0 <= i <= 1024,
            data@ == Map::new(
                |c: Cell| exposed(chunk@, c, axis as int) && c.x * 32 + c.y < i,
                |c: Cell| block_at(chunk@, c),
            ),
        decreases 1024 - i,
    {
        let x = i / 32;
        let y = i % 32;
        let faces = exposed_mask(masks, x, y, axis, Ghost(chunk@));
        add_faces(chunk, &mut data, x, y, faces);
        i += 1;
        proof {
            assert(data@ =~= Map::new(
                |c: Cell| exposed(chunk@, c, axis as int) && c.x * 32 + c.y < i,
                |c: Cell| block_at(chunk@, c),
            ));
        }
    }
    proof {
        assert(data@ =~= exposed_faces(chunk@, axis as int));
    }
    data
}

/// Returns the mesh of the chunk, split by the direction of the faces:
/// 0 is -Z, 1 is +Y, 2 is +X, 3 is +Z, 4 is -Y and 5 is -X. For each
/// direction the faces that show are merged greedily into quads, and each
/// quad gives six vertices.
pub fn mesh(chunk: &Chunk) -> (r: [Vec<EncodedVertex>; 6])
    requires
        chunk.wf(),
    ensures
        forall|axis: int| 0 <= axis < 6 ==> (#[trigger] r[axis])@ == mesh_vertices(chunk@, axis),
        forall|axis: int| 0 <= axis < 6 ==> (#[trigger] r[axis])@.len() <= MAX_MESH_VERTICES,
{
    proof {
        lemma_mesh_size(chunk@, 0);
        lemma_mesh_size(chunk@, 1);
        lemma_mesh_size(chunk@, 2);
        lemma_mesh_size(chunk@, 3);
        lemma_mesh_size(chunk@, 4);
        lemma_mesh_size(chunk@, 5);
    }
    // A binary picture of the solid blocks alone, so that the faces which
    // touch no air are culled with a few bit operations per column.
    let masks = solid_columns(chunk);

    let mut faces0 = cull_faces(chunk, &masks, 0);
    let mesh0 = greedy_merge(&mut faces0, 0);
    let mut faces1 = cull_faces(chunk, &masks, 1);
    let mesh1 = greedy_merge(&mut faces1, 1);
    let mut faces2 = cull_faces(chunk, &masks, 2);
    let mesh2 = greedy_merge(&mut faces2, 2);
    let mut faces3 = cull_faces(chunk, &masks, 3);
    let mesh3 = greedy_merge(&mut faces3, 3);
    let mut faces4 = cull_faces(chunk, &masks, 4);
    let mesh4 = greedy_merge(&mut faces4, 4);
    let mut faces5 = cull_faces(chunk, &masks, 5);
    let mesh5 = greedy_merge(&mut faces5, 5);

    [mesh0, mesh1, mesh2, mesh3, mesh4, mesh5]
}


/// Every key of the map lies inside the chunk.
pub open spec fn keys_in_bounds(m: Map<Cell, Block>) -> bool {
    forall|c: Cell| #[trigger] m.contains_key(c) ==> c.in_bounds()
}

/// Some quad of `qs` holds the cell.
pub open spec fn covered(qs: Seq<QuadView>, c: Cell) -> bool {
    exists|k: int| 0 <= k < qs.len() && #[trigger] qs[k].contains(c)
}

/// The quads of `qs` tile the keys of `m`: each quad holds keys alone, all
/// of them with the block of the quad; each key lies in some quad; and no
/// cell lies in two quads.
pub open spec fn tiles(qs: Seq<QuadView>, m: Map<Cell, Block>) -> bool {
    &&& forall|k: int, c: Cell|
        0 <= k < qs.len() && #[trigger] qs[k].contains(c) ==> m.contains_key(c) && m[c]
            == qs[k].block
    &&& forall|c: Cell| #[trigger] m.contains_key(c) ==> covered(qs, c)
    &&& forall|j: int, k: int, c: Cell|
        #![trigger qs[j].contains(c), qs[k].contains(c)]
        0 <= j < k < qs.len() ==> !(qs[j].contains(c) && qs[k].contains(c))
}

/// The cells that a strip grew over hold the block it grew for.
proof fn lemma_strip_holds(
    m: Map<Cell, Block>,
    c: Cell,
    ax: int,
    forward: bool,
    b: Block,
    t: int,
)
    requires
        1 <= t <= strip_run(m, c, ax, forward, b),
    ensures
        holds(m, shift(c, ax, signed(t, forward)), b),
    decreases t,
{
    let next = shift(c, ax, step_of(forward));
    if t > 1 {
        lemma_strip_holds(m, next, ax, forward, b, t - 1);
        assert(shift(next, ax, signed(t - 1, forward)) == shift(c, ax, signed(t, forward)));
    }
}

/// The rows that a strip grew by are full of the block it grew for.
proof fn lemma_rows_full(
    m: Map<Cell, Block>,
    c: Cell,
    ai: int,
    len: int,
    aj: int,
    forward: bool,
    b: Block,
    r: int,
)
    requires
        1 <= r <= row_run(m, c, ai, len, aj, forward, b),
    ensures
        row_full(m, shift(c, aj, signed(r, forward)), ai, len, b),
    decreases r,
{
    let next = shift(c, aj, step_of(forward));
    if r > 1 {
        lemma_rows_full(m, next, ai, len, aj, forward, b, r - 1);
        assert(shift(next, aj, signed(r - 1, forward)) == shift(c, aj, signed(r, forward)));
    }
}

/// The quad that grows from a key holds that key, and every cell of it is
/// a key with the block of the seed.
pub proof fn lemma_quad_at(m: Map<Cell, Block>, seed: Cell, axis: int)
    requires
        m.contains_key(seed),
        seed.in_bounds(),
    ensures
        quad_at(m, seed, axis).contains(seed),
        quad_at(m, seed, axis).block == m[seed],
        forall|c: Cell| #[trigger]
            quad_at(m, seed, axis).contains(c) ==> holds(m, c, m[seed]),
{
    let q = quad_at(m, seed, axis);
    let ai = first_growth_axis(axis);
    let aj = second_growth_axis(axis);
    let b = m[seed];
    let fwd = strip_run(m, seed, ai, true, b) as int;
    let back = strip_run(m, seed, ai, false, b) as int;
    let start = shift(seed, ai, -back);
    let len = back + fwd + 1;
    let down = row_run(m, start, ai, len, aj, false, b) as int;
    let up = row_run(m, start, ai, len, aj, true, b) as int;
    assert forall|c: Cell| #[trigger] q.contains(c) implies holds(m, c, b) by {
        let r = coord(c, aj) - coord(seed, aj);
        let t = coord(c, ai) - coord(start, ai);
        assert(-down <= r <= up);
        assert(0 <= t < len);
        if r == 0 {
            let d = t - back;
            assert(c == shift(seed, ai, d));
            if d > 0 {
                lemma_strip_holds(m, seed, ai, true, b, d);
            } else if d < 0 {
                lemma_strip_holds(m, seed, ai, false, b, -d);
            }
        } else if r > 0 {
            lemma_rows_full(m, start, ai, len, aj, true, b, r);
            let row = shift(start, aj, signed(r, true));
            assert(c == shift(row, ai, t));
        } else {
            lemma_rows_full(m, start, ai, len, aj, false, b, -r);
            let row = shift(start, aj, signed(-r, false));
            assert(c == shift(row, ai, t));
        }
    }
}

/// The quads of the greedy merge from `from` on tile the keys of a map
/// that has no key before `from`.
proof fn lemma_greedy_from_tiles(m: Map<Cell, Block>, axis: int, from: int)
    requires
        0 <= from <= CHUNK_VOLUME,
        keys_in_bounds(m),
        forall|c: Cell| #[trigger] m.contains_key(c) ==> c.index() >= from,
    ensures
        tiles(greedy_from(m, axis, from), m),
    decreases CHUNK_VOLUME - from,
{
    let qs = greedy_from(m, axis, from);
    if from >= CHUNK_VOLUME {
        assert forall|c: Cell| !m.contains_key(c) by {
            if m.contains_key(c) {
                crate::chunk::lemma_cell_index(c);
            }
        }
    } else {
        let seed = Cell::at(from);
        crate::chunk::lemma_index_cell(from);
        if m.contains_key(seed) {
            let q = quad_at(m, seed, axis);
            let left = m.remove_keys(q.cells());
            let rest = greedy_from(left, axis, from + 1);
            lemma_quad_at(m, seed, axis);
            assert forall|c: Cell| #[trigger] left.contains_key(c) implies c.index() >= from
                + 1 by {
                assert(m.contains_key(c));
                if c.index() == from {
                    crate::chunk::lemma_cell_index(c);
                }
            }
            lemma_greedy_from_tiles(left, axis, from + 1);
            assert(qs == seq![q] + rest);
            assert forall|k: int, c: Cell|
                0 <= k < qs.len() && #[trigger] qs[k].contains(c) implies m.contains_key(c) && m[c]
                == qs[k].block by {
                if k > 0 {
                    assert(qs[k] == rest[k - 1]);
                    assert(left.contains_key(c));
                }
            }
            assert forall|c: Cell| #[trigger] m.contains_key(c) implies covered(qs, c) by {
                if q.contains(c) {
                    assert(qs[0].contains(c));
                } else {
                    assert(left.contains_key(c));
                    let k = choose|k: int| 0 <= k < rest.len() && #[trigger] rest[k].contains(c);
                    assert(qs[k + 1] == rest[k]);
                    assert(qs[k + 1].contains(c));
                }
            }
            assert forall|j: int, k: int, c: Cell|
                #![trigger qs[j].contains(c), qs[k].contains(c)]
                0 <= j < k < qs.len() implies !(qs[j].contains(c) && qs[k].contains(c)) by {
                assert(qs[k] == rest[k - 1]);
                if j == 0 {
                    if rest[k - 1].contains(c) {
                        assert(left.contains_key(c));
                    }
                } else {
                    assert(qs[j] == rest[j - 1]);
                }
            }
        } else {
            assert forall|c: Cell| #[trigger] m.contains_key(c) implies c.index() >= from + 1 by {
                if c.index() == from {
                    crate::chunk::lemma_cell_index(c);
                }
            }
            lemma_greedy_from_tiles(m, axis, from + 1);
            assert(qs == greedy_from(m, axis, from + 1));
        }
    }
}

/// The quads of the greedy merge tile the faces they were made of: each
/// face lies in one quad and in no other, and each quad holds faces of its
/// own block type alone.
pub proof fn lemma_greedy_tiles(m: Map<Cell, Block>, axis: int)
    requires
        keys_in_bounds(m),
    ensures
        tiles(merged_quads(m, axis), m),
{
    assert forall|c: Cell| #[trigger] m.contains_key(c) implies c.index() >= 0 by {
        crate::chunk::lemma_cell_index(c);
    }
    lemma_greedy_from_tiles(m, axis, 0);
}

/// The quads of one direction of a mesh tile the faces of the grid that
/// show in that direction.
pub proof fn lemma_mesh_tiles(grid: Map<Cell, Block>, axis: int)
    ensures
        tiles(merged_quads(exposed_faces(grid, axis), axis), exposed_faces(grid, axis)),
{
    lemma_greedy_tiles(exposed_faces(grid, axis), axis);
}


/// Each quad gives six vertices.
pub proof fn lemma_all_vertices_len(qs: Seq<QuadView>)
    ensures
        all_vertices(qs).len() == 6 * qs.len(),
    decreases qs.len(),
{
    if qs.len() > 0 {
        lemma_all_vertices_len(qs.drop_last());
    }
}

/// The greedy merge from `from` on makes one quad for a cell at most.
pub proof fn lemma_greedy_from_len(m: Map<Cell, Block>, axis: int, from: int)
    requires
        0 <= from <= CHUNK_VOLUME,
    ensures
        greedy_from(m, axis, from).len() <= CHUNK_VOLUME - from,
    decreases CHUNK_VOLUME - from,
{
    if from < CHUNK_VOLUME {
        let c = Cell::at(from);
        if m.contains_key(c) {
            let q = quad_at(m, c, axis);
            lemma_greedy_from_len(m.remove_keys(q.cells()), axis, from + 1);
        } else {
            lemma_greedy_from_len(m, axis, from + 1);
        }
    }
}

/// One direction of a mesh holds six vertices for a block of the chunk at
/// most.
pub proof fn lemma_mesh_size(grid: Map<Cell, Block>, axis: int)
    ensures
        mesh_vertices(grid, axis).len() <= MAX_MESH_VERTICES,
{
    let m = exposed_faces(grid, axis);
    lemma_greedy_from_len(m, axis, 0);
    lemma_all_vertices_len(merged_quads(m, axis));
}

} // verus!
