//! The grid of blocks that is meshed and culled as one unit, and the
//! positions inside it.

pub mod block;
pub mod faces;
pub mod manager;
pub mod mesher;
pub mod pool;
pub mod shapes;
pub mod traverse;
pub mod visibility;

use crate::chunk::block::Block;
use vstd::prelude::*;

verus! {

/// The integer type of a coordinate inside a chunk. A chunk has as many
/// blocks along each edge as this type has bits, so that one column of a
/// chunk fits one value of it.
pub type ChunkDimTy = u32;

/// The number of blocks along each edge of a chunk.
pub const CHUNK_SIZE: ChunkDimTy = 32;

/// The number of bits that one coordinate takes in an [`EncodedVertex`]: one
/// more than a block coordinate needs, because the corner of a block may
/// lie at `CHUNK_SIZE` itself.
pub const NUM_BITS_IN_POS: ChunkDimTy = 6;

/// The number of blocks in a chunk.
pub const CHUNK_VOLUME: usize = 32768;

/// A position in the unbounded integer grid: what a [`LocalBlockPos`] stands
/// for in specifications.
pub struct Cell {
    pub x: int,
    pub y: int,
    pub z: int,
}

impl Cell {
    /// The cell lies inside the chunk.
    pub open spec fn in_bounds(self) -> bool {
        0 <= self.x < CHUNK_SIZE && 0 <= self.y < CHUNK_SIZE && 0 <= self.z < CHUNK_SIZE
    }

    /// The place of the cell in the lexicographic order of `(x, y, z)`.
    pub open spec fn index(self) -> int {
        self.x * 1024 + self.y * 32 + self.z
    }

    /// The cell in the chunk with the given place in the lexicographic order.
    pub open spec fn at(i: int) -> Cell {
        Cell { x: i / 1024, y: (i / 32) % 32, z: i % 32 }
    }
}

/// Block position relative to the chunk.
#[derive(PartialEq, Eq, Structural, Hash, Clone, Copy, Debug)]
pub struct LocalBlockPos(pub ChunkDimTy, pub ChunkDimTy, pub ChunkDimTy);

impl View for LocalBlockPos {
    type V = Cell;

    open spec fn view(&self) -> Cell {
        Cell { x: self.0 as int, y: self.1 as int, z: self.2 as int }
    }
}

impl LocalBlockPos {
    /// The component-wise difference `p1 - p2`, where no component of it is
    /// negative.
    pub fn safe_sub(p1: &LocalBlockPos, p2: &LocalBlockPos) -> (r: Option<LocalBlockPos>)
        ensures
            r is Some <==> p1.0 >= p2.0 && p1.1 >= p2.1 && p1.2 >= p2.2,
            r matches Some(d) ==> d.0 == p1.0 - p2.0 && d.1 == p1.1 - p2.1 && d.2 == p1.2 - p2.2,
    {
        let x = p1.0.checked_sub(p2.0);
        let y = p1.1.checked_sub(p2.1);
        let z = p1.2.checked_sub(p2.2);

        if x.is_none() || y.is_none() || z.is_none() {
            return None;
        }
        Some(LocalBlockPos(x.unwrap(), y.unwrap(), z.unwrap()))
    }

    /// The component-wise sum `p1 + p2`, where every component of it fits the
    /// coordinate type.
    pub fn safe_add(p1: &LocalBlockPos, p2: &LocalBlockPos) -> (r: Option<LocalBlockPos>)
        ensures
            r is Some <==> p1.0 + p2.0 <= ChunkDimTy::MAX && p1.1 + p2.1 <= ChunkDimTy::MAX && p1.2
                + p2.2 <= ChunkDimTy::MAX,
            r matches Some(d) ==> d.0 == p1.0 + p2.0 && d.1 == p1.1 + p2.1 && d.2 == p1.2 + p2.2,
    {
        let x = p1.0.checked_add(p2.0);
        let y = p1.1.checked_add(p2.1);
        let z = p1.2.checked_add(p2.2);

        if x.is_none() || y.is_none() || z.is_none() {
            return None;
        }
        Some(LocalBlockPos(x.unwrap(), y.unwrap(), z.unwrap()))
    }

    /// Whether the position lies inside the chunk.
    pub fn in_bounds(&self) -> (r: bool)
        ensures
            r == self@.in_bounds(),
    {
        self.0 < CHUNK_SIZE && self.1 < CHUNK_SIZE && self.2 < CHUNK_SIZE
    }

    /// The place of a position inside the chunk in the lexicographic order.
    pub fn index(&self) -> (i: usize)
        requires
            self@.in_bounds(),
        ensures
            i == self@.index(),
            i < CHUNK_VOLUME,
    {
        self.0 as usize * 1024 + self.1 as usize * 32 + self.2 as usize
    }

    /// The position inside the chunk with the given place in the
    /// lexicographic order.
    pub fn from_index(i: usize) -> (p: LocalBlockPos)
        requires
            i < CHUNK_VOLUME,
        ensures
            p@ == Cell::at(i as int),
            p@.in_bounds(),
            p@.index() == i,
    {
        LocalBlockPos((i / 1024) as u32, ((i / 32) % 32) as u32, (i % 32) as u32)
    }
}

/// A cell inside the chunk is the one at its own index, and its index lies
/// below the volume.
pub proof fn lemma_cell_index(c: Cell)
    requires
        c.in_bounds(),
    ensures
        0 <= c.index() < CHUNK_VOLUME,
        Cell::at(c.index()) == c,
{
}

/// An index below the volume is that of the cell at it, which lies inside the
/// chunk.
pub proof fn lemma_index_cell(i: int)
    requires
        0 <= i < CHUNK_VOLUME,
    ensures
        Cell::at(i).in_bounds(),
        Cell::at(i).index() == i,
{
}

/// Position of a chunk in the world, in units of chunks.
#[derive(PartialEq, Eq, Structural, Hash, Clone, Copy, Debug)]
pub struct ChunkPos(pub i32, pub i32, pub i32);

/// A vertex position packed into one integer: `x`, `y` and `z` in three
/// fields of `NUM_BITS_IN_POS` bits each, `z` in the lowest.
#[derive(Debug, Clone, Copy, PartialEq, Eq, Structural)]
pub struct EncodedVertex(pub u32);

impl EncodedVertex {
    pub fn to_untyped(&self) -> (r: u32)
        ensures
            r == self.0,
    {
        self.0
    }
}

/// A cube of `CHUNK_SIZE` blocks along each edge. Every position inside it
/// holds a block, air where none was set.
pub struct Chunk {
    data: Vec<Block>,
}

impl View for Chunk {
    type V = Map<Cell, Block>;

    /// The block at every cell inside the chunk.
    closed spec fn view(&self) -> Map<Cell, Block> {
        Map::new(|c: Cell| c.in_bounds(), |c: Cell| self.data@[c.index()])
    }
}

/// The block that the grid `m` has at `c`: air where it has none.
pub open spec fn block_at(m: Map<Cell, Block>, c: Cell) -> Block {
    if m.contains_key(c) {
        m[c]
    } else {
        Block(0)
    }
}

/// The grid `m` has a solid block at `c`.
pub open spec fn solid_at(m: Map<Cell, Block>, c: Cell) -> bool {
    block_at(m, c).solid()
}

/// The grid that holds `b` at every cell inside the chunk.
pub open spec fn uniform(b: Block) -> Map<Cell, Block> {
    Map::new(|c: Cell| c.in_bounds(), |c: Cell| b)
}

impl Chunk {
    /// The chunk holds a block for each of its positions.
    pub closed spec fn wf(&self) -> bool {
        self.data@.len() == CHUNK_VOLUME
    }

    /// The cells of a chunk are those inside its bounds.
    pub proof fn lemma_domain(&self)
        ensures
            forall|c: Cell| #[trigger] self@.contains_key(c) <==> c.in_bounds(),
    {
    }

    /// A chunk that holds `b` at every position.
    fn filled(b: Block) -> (c: Chunk)
        ensures
            c.wf(),
            c@ == uniform(b),
    {
        let mut data: Vec<Block> = Vec::new();
        let mut i: usize = 0;
        while i < CHUNK_VOLUME
            invariant
                0 <= i <= CHUNK_VOLUME,
                data@.len() == i,
                forall|j: int| 0 <= j < i ==> data@[j] == b,
            decreases CHUNK_VOLUME - i,
        {
            data.push(b);
            i += 1;
        }
        let c = Chunk { data };
        assert(c@ =~= uniform(b));
        c
    }

    /// A chunk of air.
    pub fn new() -> (c: Chunk)
        ensures
            c.wf(),
            c@ == uniform(Block(0)),
    {
        Chunk::filled(Block(0))
    }

    /// A chunk of dirt.
    pub fn full() -> (c: Chunk)
        ensures
            c.wf(),
            c@ == uniform(Block(1)),
    {
        Chunk::filled(Block(1))
    }

    /// The block at `pos`; air for a position outside the chunk.
    pub fn get_block(&self, pos: &LocalBlockPos) -> (b: Block)
        requires
            self.wf(),
        ensures
            b == block_at(self@, pos@),
    {
        if pos.in_bounds() {
            self.data[pos.index()]
        } else {
            Block(0)
        }
    }

    /// Puts `b` at `pos`. A position outside the chunk holds no block, and
    /// the chunk stays as it is.
    pub fn set_block(&mut self, pos: LocalBlockPos, b: Block)
        requires
            old(self).wf(),
        ensures
            final(self).wf(),
            final(self)@ == (if pos@.in_bounds() {
                old(self)@.insert(pos@, b)
            } else {
                old(self)@
            }),
    {
        if pos.in_bounds() {
            let i = pos.index();
            self.data.set(i, b);
            proof {
                assert forall|c: Cell| c.in_bounds() && c != pos@ implies c.index() != i by {}
                assert(self@ =~= old(self)@.insert(pos@, b));
            }
        }
    }
}

/// A byte drawn by `rand::random::<u8>()` from the generator of the thread.
/// Nothing is claimed of the byte: two calls may differ.
#[verifier::external_body]
fn random_byte() -> u8 {
    rand::random::<u8>()
}

/// The rolls below this one put a block into a random chunk.
pub const RANDOM_FILL_BELOW: u8 = 254;

/// The grid holds dirt or air at the cell.
pub open spec fn dirt_or_air(m: Map<Cell, Block>, c: Cell) -> bool {
    block_at(m, c) == Block(1) || block_at(m, c) == Block(0)
}

impl Chunk {
    /// Puts dirt at `pos` if `roll` is below [`RANDOM_FILL_BELOW`], and leaves
    /// the chunk as it is otherwise.
    pub fn set_block_on_roll(&mut self, pos: LocalBlockPos, roll: u8)
        requires
            old(self).wf(),
        ensures
            final(self).wf(),
            final(self)@ == (if roll < RANDOM_FILL_BELOW && pos@.in_bounds() {
                old(self)@.insert(pos@, Block(1))
            } else {
                old(self)@
            }),
    {
        if roll < RANDOM_FILL_BELOW {
            self.set_block(pos, Block(1));
        }
    }

    /// A chunk that holds dirt or air at each position, as a random byte
    /// drawn for the position decides: some 254 of 256 positions hold dirt.
    pub fn random() -> (chunk: Chunk)
        ensures
            chunk.wf(),
            forall|c: Cell| c.in_bounds() ==> #[trigger] dirt_or_air(chunk@, c),
    {
        let mut chunk = Chunk::default();
        let mut i: usize = 0;
        while i < CHUNK_VOLUME
            invariant
                0 <= i <= CHUNK_VOLUME,
                chunk.wf(),
                forall|c: Cell| c.in_bounds() ==> #[trigger] dirt_or_air(chunk@, c),
            decreases CHUNK_VOLUME - i,
        {
            let pos = LocalBlockPos::from_index(i);
            let roll = random_byte();
            let ghost before = chunk@;
            chunk.set_block_on_roll(pos, roll);
            proof {
                assert forall|c: Cell| c.in_bounds() implies #[trigger] dirt_or_air(chunk@, c) by {
                    assert(dirt_or_air(before, c));
                }
            }
            i += 1;
        }
        chunk
    }
}

impl Default for Chunk {
    /// A chunk of air.
    fn default() -> (c: Chunk)
        ensures
            c.wf(),
            c@ == uniform(Block(0)),
    {
        Chunk::new()
    }
}

} // verus!
