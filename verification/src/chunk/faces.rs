//! The faces of one direction that are still to be merged into quads.

use crate::chunk::block::Block;
use crate::chunk::{Cell, LocalBlockPos, CHUNK_VOLUME};
use vstd::prelude::*;

verus! {

/// A map from positions inside the chunk to the block whose face shows
/// there. Its positions are walked in lexicographic order, so that what is
/// made from it does not depend on how it was filled.
pub struct FaceMap {
    cells: Vec<Option<Block>>,
}

impl View for FaceMap {
    type V = Map<Cell, Block>;

    closed spec fn view(&self) -> Map<Cell, Block> {
        Map::new(
            |c: Cell| c.in_bounds() && self.cells@[c.index()] is Some,
            |c: Cell| self.cells@[c.index()]->0,
        )
    }
}

/// What a map has at a position: the block of a key, nothing elsewhere.
pub open spec fn lookup(m: Map<Cell, Block>, c: Cell) -> Option<Block> {
    if m.contains_key(c) {
        Some(m[c])
    } else {
        None
    }
}

impl FaceMap {
    /// The map has a slot for each position of the chunk.
    pub closed spec fn wf(&self) -> bool {
        self.cells@.len() == CHUNK_VOLUME
    }

    /// Every key of the map lies inside the chunk.
    pub proof fn lemma_keys_in_bounds(&self)
        ensures
            forall|c: Cell| #[trigger] self@.contains_key(c) ==> c.in_bounds(),
    {
    }

    /// The empty map.
    pub fn new() -> (m: FaceMap)
        ensures
            m.wf(),
            m@ == Map::<Cell, Block>::empty(),
    {
        let mut cells: Vec<Option<Block>> = Vec::new();
        let mut i: usize = 0;
        while i < CHUNK_VOLUME
            invariant
                0 <= i <= CHUNK_VOLUME,
                cells@.len() == i,
                forall|j: int| 0 <= j < i ==> cells@[j] is None,
            decreases CHUNK_VOLUME - i,
        {
            cells.push(None);
            i += 1;
        }
        let m = FaceMap { cells };
        assert(m@ =~= Map::<Cell, Block>::empty());
        m
    }

    /// The block at `pos`, where the map has one.
    pub fn get(&self, pos: &LocalBlockPos) -> (r: Option<Block>)
        requires
            self.wf(),
        ensures
            r == lookup(self@, pos@),
    {
        if pos.in_bounds() {
            self.cells[pos.index()]
        } else {
            None
        }
    }

    /// Maps `pos` to `b`. A position outside the chunk is no key, and the map
    /// stays as it is.
    pub fn insert(&mut self, pos: LocalBlockPos, b: Block)
        requires
            old(self).wf(),
        ensures
            final(self).wf(),
            final(self)@ == (if pos@.in_bounds() {
                old(self)@.insert(pos@, b)
            } else {
                old(self)@
            }),
    {
        if pos.in_bounds() {
            let i = pos.index();
            self.cells.set(i, Some(b));
            proof {
                assert forall|c: Cell| c.in_bounds() && c != pos@ implies c.index() != i by {}
                assert(self@ =~= old(self)@.insert(pos@, b));
            }
        }
    }

    /// Takes the key `pos` out of the map.
    pub fn remove(&mut self, pos: &LocalBlockPos)
        requires
            old(self).wf(),
        ensures
            final(self).wf(),
            final(self)@ == old(self)@.remove(pos@),
    {
        if pos.in_bounds() {
            let i = pos.index();
            self.cells.set(i, None);
            proof {
                assert forall|c: Cell| c.in_bounds() && c != pos@ implies c.index() != i by {}
            }
        }
        assert(self@ =~= old(self)@.remove(pos@));
    }
}

} // verus!
