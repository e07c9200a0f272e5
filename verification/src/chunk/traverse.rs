//! Which chunks are drawn: the table of the chunks that are loaded, the
//! draw call for one side of a chunk, and the walks over the table that
//! collect the draw calls of a frame.

use crate::chunk::visibility::{lemma_mark, unmarked, Side, VisibilityGraph};
use std::collections::VecDeque;
use crate::chunk::ChunkPos;
use vstd::prelude::*;

verus! {

/// The arguments of one indirect draw call, in the order in which the
/// graphics interface reads them.
#[derive(Debug, Clone, Copy, PartialEq, Eq, Structural)]
pub struct DrawArgs {
    pub vertex_count: u32,
    pub instance_count: u32,
    pub first_vertex: u32,
    pub first_instance: u32,
}

/// Where the mesh of a loaded chunk lies in the buffers, and how its sides
/// see each other.
#[derive(Debug, Clone, Copy)]
pub struct ChunkDrawInfo {
    /// The offset of the mesh in the vertex buffer.
    pub vertex_offset: u64,
    /// The offset of the position of the chunk in the storage buffer.
    pub storage_offset: u64,
    /// The offset in the mesh and the length of the part of each direction.
    pub faces: [(u32, u32); 6],
    /// Which sides of the chunk see each other.
    pub vis_graph: VisibilityGraph,
}

impl ChunkDrawInfo {
    /// Every offset that a draw call of the chunk holds fits its 32 bits.
    pub open spec fn addressable(self) -> bool {
        &&& self.storage_offset <= u32::MAX
        &&& forall|k: int| 0 <= k < 6 ==> self.vertex_offset + (#[trigger] self.faces@[k]).0 <= u32::MAX
    }

    /// Whether every offset that a draw call of the chunk holds fits its 32
    /// bits.
    pub fn is_addressable(&self) -> (r: bool)
        ensures
            r == self.addressable(),
    {
        if self.storage_offset > u32::MAX as u64 {
            return false;
        }
        let mut k: usize = 0;
        while k < 6
            invariant
                0 <= k <= 6,
                forall|j: int|
                    0 <= j < k ==> self.vertex_offset + (#[trigger] self.faces@[j]).0 <= u32::MAX,
            decreases 6 - k,
        {
            if self.vertex_offset > u32::MAX as u64 - self.faces[k].0 as u64 {
                return false;
            }
            k += 1;
        }
        true
    }
}

/// The draw call for the part of the mesh of a chunk that looks in the
/// direction with the number `k`. The position of the chunk is found through
/// the first instance.
pub open spec fn draw_args(info: ChunkDrawInfo, k: int) -> DrawArgs {
    DrawArgs {
        vertex_count: info.faces@[k].1,
        instance_count: 1,
        first_vertex: (info.vertex_offset + info.faces@[k].0) as u32,
        first_instance: info.storage_offset as u32,
    }
}

/// The draw call for one side of a chunk.
pub fn create_chunk_indirect_args(draw_info: &ChunkDrawInfo, side: Side) -> (args: DrawArgs)
    requires
        draw_info.addressable(),
    ensures
        args == draw_args(*draw_info, side.number()),
{
    let k = side.index();
    let face_count = draw_info.faces[k].1;
    let vertex_offset = draw_info.vertex_offset;
    let face_offset = draw_info.faces[k].0;
    let storage_offset = draw_info.storage_offset;
    assert(vertex_offset + draw_info.faces@[k as int].0 <= u32::MAX);

    DrawArgs {
        vertex_count: face_count,
        instance_count: 1,
        first_vertex: vertex_offset as u32 + face_offset,
        first_instance: storage_offset as u32,
    }
}

/// Some entry of the table belongs to the chunk at `pos`.
pub open spec fn has_key(entries: Seq<(ChunkPos, ChunkDrawInfo)>, pos: ChunkPos) -> bool {
    exists|i: int| 0 <= i < entries.len() && (#[trigger] entries[i]).0 == pos
}

/// No two entries of the table belong to one chunk.
pub open spec fn distinct_keys(entries: Seq<(ChunkPos, ChunkDrawInfo)>) -> bool {
    forall|i: int, j: int|
        0 <= i < j < entries.len() ==> (#[trigger] entries[i]).0 != (#[trigger] entries[j]).0
}

/// Every entry of the table is addressable.
pub open spec fn all_addressable(entries: Seq<(ChunkPos, ChunkDrawInfo)>) -> bool {
    forall|i: int| 0 <= i < entries.len() ==> (#[trigger] entries[i]).1.addressable()
}

/// The table of the chunks that are loaded: one entry for each, in the
/// order in which the chunks came.
pub struct ChunkLookup {
    entries: Vec<(ChunkPos, ChunkDrawInfo)>,
}

impl View for ChunkLookup {
    type V = Seq<(ChunkPos, ChunkDrawInfo)>;

    closed spec fn view(&self) -> Seq<(ChunkPos, ChunkDrawInfo)> {
        self.entries@
    }
}

impl ChunkLookup {
    /// No two entries belong to one chunk.
    pub open spec fn wf(&self) -> bool {
        distinct_keys(self@)
    }

    /// The empty table.
    pub fn new() -> (t: ChunkLookup)
        ensures
            t@.len() == 0,
            t.wf(),
    {
        ChunkLookup { entries: Vec::new() }
    }

    /// The number of entries.
    pub fn len(&self) -> (n: usize)
        ensures
            n == self@.len(),
    {
        self.entries.len()
    }

    /// The entry at the index `i`.
    pub fn entry(&self, i: usize) -> (e: (ChunkPos, ChunkDrawInfo))
        requires
            i < self@.len(),
        ensures
            e == self@[i as int],
    {
        self.entries[i]
    }

    /// The index of the entry of the chunk at `pos`.
    pub fn position(&self, pos: &ChunkPos) -> (r: Option<usize>)
        ensures
            match r {
                Some(i) => i < self@.len() && self@[i as int].0 == *pos && forall|j: int|
                    0 <= j < i ==> (#[trigger] self@[j]).0 != *pos,
                None => !has_key(self@, *pos),
            },
    {
        let mut i: usize = 0;
        while i < self.entries.len()
            invariant
                0 <= i <= self.entries.len(),
                forall|j: int| 0 <= j < i ==> (#[trigger] self@[j]).0 != *pos,
            decreases self.entries.len() - i,
        {
            if self.entries[i].0 == *pos {
                return Some(i);
            }
            i += 1;
        }
        None
    }

    /// Whether the chunk at `pos` has an entry.
    pub fn contains_key(&self, pos: &ChunkPos) -> (r: bool)
        ensures
            r == has_key(self@, *pos),
    {
        self.position(pos).is_some()
    }

    /// What the table holds for the chunk at `pos`.
    pub fn get(&self, pos: &ChunkPos) -> (r: Option<ChunkDrawInfo>)
        ensures
            r is Some <==> has_key(self@, *pos),
            r matches Some(info) ==> exists|i: int|
                0 <= i < self@.len() && #[trigger] self@[i] == (*pos, info),
    {
        match self.position(pos) {
            Some(i) => {
                assert(self@[i as int] == (*pos, self@[i as int].1));
                Some(self.entries[i].1)
            },
            None => None,
        }
    }

    /// Lets the table hold `info` for the chunk at `pos`: in place of what
    /// it held for that chunk, which is returned, or else as its last entry.
    pub fn insert(&mut self, pos: ChunkPos, info: ChunkDrawInfo) -> (r: Option<ChunkDrawInfo>)
        requires
            old(self).wf(),
        ensures
            final(self).wf(),
            r is Some <==> has_key(old(self)@, pos),
            match r {
                Some(held) => exists|i: int|
                    0 <= i < old(self)@.len() && #[trigger] old(self)@[i] == (pos, held)
                        && final(self)@ == old(self)@.update(i, (pos, info)),
                None => final(self)@ == old(self)@.push((pos, info)),
            },
            all_addressable(old(self)@) && info.addressable() ==> all_addressable(final(self)@),
    {
        match self.position(&pos) {
            Some(i) => {
                let held = self.entries[i].1;
                self.entries.set(i, (pos, info));
                assert(old(self)@[i as int] == (pos, held));
                Some(held)
            },
            None => {
                self.entries.push((pos, info));
                None
            },
        }
    }

    /// Takes the entry of the chunk at `pos` out of the table and returns
    /// what it held.
    pub fn remove(&mut self, pos: &ChunkPos) -> (r: Option<ChunkDrawInfo>)
        requires
            old(self).wf(),
        ensures
            final(self).wf(),
            r is Some <==> has_key(old(self)@, *pos),
            match r {
                Some(held) => exists|i: int|
                    0 <= i < old(self)@.len() && #[trigger] old(self)@[i] == (*pos, held)
                        && final(self)@ == old(self)@.remove(i),
                None => final(self)@ == old(self)@,
            },
            !has_key(final(self)@, *pos),
            all_addressable(old(self)@) ==> all_addressable(final(self)@),
    {
        match self.position(pos) {
            Some(i) => {
                let e = self.entries.remove(i);
                assert(old(self)@[i as int] == (*pos, e.1));
                assert forall|j: int| 0 <= j < self@.len() implies (#[trigger] self@[j]).0
                    != *pos by {
                    if j < i {
                        assert(self@[j] == old(self)@[j]);
                    } else {
                        assert(self@[j] == old(self)@[j + 1]);
                    }
                }
                Some(e.1)
            },
            None => None,
        }
    }
}

/// The side of a chunk through which its neighbour with the number `k` is
/// entered: the chunks above, below, to the left, to the right, in front
/// and behind, in this order.
pub open spec fn neighbor_side(k: int) -> Side {
    if k == 0 {
        Side::TOP
    } else if k == 1 {
        Side::BOTTOM
    } else if k == 2 {
        Side::LEFT
    } else if k == 3 {
        Side::RIGHT
    } else if k == 4 {
        Side::FRONT
    } else {
        Side::BACK
    }
}

/// The coordinates of the neighbour with the number `k` of the chunk at
/// `pos`.
pub open spec fn neighbor_coords(pos: ChunkPos, k: int) -> (int, int, int) {
    if k == 0 {
        (pos.0 as int, pos.1 + 1, pos.2 as int)
    } else if k == 1 {
        (pos.0 as int, pos.1 - 1, pos.2 as int)
    } else if k == 2 {
        (pos.0 - 1, pos.1 as int, pos.2 as int)
    } else if k == 3 {
        (pos.0 + 1, pos.1 as int, pos.2 as int)
    } else if k == 4 {
        (pos.0 as int, pos.1 as int, pos.2 - 1)
    } else {
        (pos.0 as int, pos.1 as int, pos.2 + 1)
    }
}

/// The chunk at `c` has an entry in the table.
pub open spec fn is_loaded(entries: Seq<(ChunkPos, ChunkDrawInfo)>, c: (int, int, int)) -> bool {
    &&& i32::MIN <= c.0 <= i32::MAX
    &&& i32::MIN <= c.1 <= i32::MAX
    &&& i32::MIN <= c.2 <= i32::MAX
    &&& has_key(entries, ChunkPos(c.0 as i32, c.1 as i32, c.2 as i32))
}

/// The loaded chunks among the first `n` neighbours of the chunk at `pos`,
/// each with the side through which it is entered.
pub open spec fn neighbors(entries: Seq<(ChunkPos, ChunkDrawInfo)>, pos: ChunkPos, n: int) -> Seq<
    (ChunkPos, Side),
>
    decreases n,
{
    if n <= 0 {
        Seq::empty()
    } else {
        let c = neighbor_coords(pos, n - 1);
        let before = neighbors(entries, pos, n - 1);
        if is_loaded(entries, c) {
            before.push((ChunkPos(c.0 as i32, c.1 as i32, c.2 as i32), neighbor_side(n - 1)))
        } else {
            before
        }
    }
}

/// Appends the chunk at `(x, y, z)` with `side` if the coordinates exist
/// and the chunk is loaded.
fn push_if_loaded(
    output: &mut Vec<(ChunkPos, Side)>,
    lookup: &ChunkLookup,
    x: Option<i32>,
    y: Option<i32>,
    z: Option<i32>,
    side: Side,
)
    ensures
        final(output)@ == (match (x, y, z) {
            (Some(x), Some(y), Some(z)) => if has_key(lookup@, ChunkPos(x, y, z)) {
                old(output)@.push((ChunkPos(x, y, z), side))
            } else {
                old(output)@
            },
            _ => old(output)@,
        }),
{
    match (x, y, z) {
        (Some(x), Some(y), Some(z)) => {
            let pos = ChunkPos(x, y, z);
            if lookup.contains_key(&pos) {
                output.push((pos, side));
            }
        },
        _ => {},
    }
}

/// Returns the loaded chunks neighboring the chunk at `pos`, each with the
/// side through which it is entered.
pub fn get_neighbors(lookup: &ChunkLookup, pos: ChunkPos) -> (output: Vec<(ChunkPos, Side)>)
    ensures
        output@ == neighbors(lookup@, pos, 6),
{
    let mut output: Vec<(ChunkPos, Side)> = Vec::new();
    proof {
        reveal_with_fuel(neighbors, 7);
    }
    push_if_loaded(&mut output, lookup, Some(pos.0), pos.1.checked_add(1), Some(pos.2), Side::TOP);
    push_if_loaded(
        &mut output,
        lookup,
        Some(pos.0),
        pos.1.checked_sub(1),
        Some(pos.2),
        Side::BOTTOM,
    );
    push_if_loaded(&mut output, lookup, pos.0.checked_sub(1), Some(pos.1), Some(pos.2), Side::LEFT);
    push_if_loaded(
        &mut output,
        lookup,
        pos.0.checked_add(1),
        Some(pos.1),
        Some(pos.2),
        Side::RIGHT,
    );
    push_if_loaded(
        &mut output,
        lookup,
        Some(pos.0),
        Some(pos.1),
        pos.2.checked_sub(1),
        Side::FRONT,
    );
    push_if_loaded(&mut output, lookup, Some(pos.0), Some(pos.1), pos.2.checked_add(1), Side::BACK);
    output
}

/// The draw calls of the six sides of a chunk, in the order of the
/// directions.
pub open spec fn six_draws(info: ChunkDrawInfo) -> Seq<DrawArgs> {
    Seq::new(6, |k: int| draw_args(info, k))
}

/// The draw calls of the first `n` chunks of the table: six for each chunk
/// whose flag is set, in the order of the table.
pub open spec fn draw_list(entries: Seq<(ChunkPos, ChunkDrawInfo)>, flags: Seq<bool>, n: int) -> Seq<
    DrawArgs,
>
    decreases n,
{
    if n <= 0 {
        Seq::empty()
    } else if flags[n - 1] {
        draw_list(entries, flags, n - 1) + six_draws(entries[n - 1].1)
    } else {
        draw_list(entries, flags, n - 1)
    }
}

/// Appends the draw calls of the six sides of a chunk.
fn push_six_draws(output: &mut Vec<DrawArgs>, info: &ChunkDrawInfo)
    requires
        info.addressable(),
    ensures
        final(output)@ == old(output)@ + six_draws(*info),
{
    let mut k: usize = 0;
    while k < 6
        invariant
            0 <= k <= 6,
            info.addressable(),
            output@ == old(output)@ + six_draws(*info).take(k as int),
        decreases 6 - k,
    {
        let face_offset = info.faces[k].0;
        let face_count = info.faces[k].1;
        assert(info.vertex_offset + info.faces@[k as int].0 <= u32::MAX);
        output.push(
            DrawArgs {
                vertex_count: face_count,
                instance_count: 1,
                first_vertex: info.vertex_offset as u32 + face_offset,
                // The first instance is the index into the storage buffer.
                first_instance: info.storage_offset as u32,
            },
        );
        assert(six_draws(*info).take(k + 1) =~= six_draws(*info).take(k as int).push(
            draw_args(*info, k as int),
        ));
        k += 1;
    }
    assert(six_draws(*info).take(6) =~= six_draws(*info));
}

/// Walks over the table and queues every side of each chunk that lies in
/// the view: `in_frustum` says of each entry, in the order of the table,
/// whether its chunk does.
pub fn build_draw_list(lookup: &ChunkLookup, in_frustum: &Vec<bool>) -> (indirect_data: Vec<
    DrawArgs,
>)
    requires
        all_addressable(lookup@),
        in_frustum@.len() == lookup@.len(),
    ensures
        indirect_data@ == draw_list(lookup@, in_frustum@, lookup@.len() as int),
{
    let mut indirect_data: Vec<DrawArgs> = Vec::new();
    let mut i: usize = 0;
    while i < lookup.len()
        invariant
            0 <= i <= lookup@.len(),
            all_addressable(lookup@),
            in_frustum@.len() == lookup@.len(),
            indirect_data@ == draw_list(lookup@, in_frustum@, i as int),
        decreases lookup@.len() - i,
    {
        let e = lookup.entry(i);
        if in_frustum[i] {
            assert(lookup@[i as int].1.addressable());
            push_six_draws(&mut indirect_data, &e.1);
        }
        i += 1;
    }
    indirect_data
}


/// The draw calls for the first direction of each of the first `n` chunks
/// of the table.
pub open spec fn first_face_draws(entries: Seq<(ChunkPos, ChunkDrawInfo)>, n: int) -> Seq<DrawArgs>
    decreases n,
{
    if n <= 0 {
        Seq::empty()
    } else {
        first_face_draws(entries, n - 1).push(draw_args(entries[n - 1].1, 0))
    }
}

/// Queues the first direction of every chunk of the table.
pub fn first_face_draw_list(lookup: &ChunkLookup) -> (indirect_data: Vec<DrawArgs>)
    requires
        all_addressable(lookup@),
    ensures
        indirect_data@ == first_face_draws(lookup@, lookup@.len() as int),
{
    let mut indirect_data: Vec<DrawArgs> = Vec::new();
    let mut i: usize = 0;
    while i < lookup.len()
        invariant
            0 <= i <= lookup@.len(),
            all_addressable(lookup@),
            indirect_data@ == first_face_draws(lookup@, i as int),
        decreases lookup@.len() - i,
    {
        let e = lookup.entry(i);
        assert(lookup@[i as int].1.addressable());
        indirect_data.push(create_chunk_indirect_args(&e.1, Side::FRONT));
        i += 1;
    }
    indirect_data
}

/// The index of the entry of the chunk at `pos`.
pub open spec fn index_of(entries: Seq<(ChunkPos, ChunkDrawInfo)>, pos: ChunkPos) -> int {
    choose|i: int| 0 <= i < entries.len() && (#[trigger] entries[i]).0 == pos
}

/// In a table with one entry for each chunk, the entry of a chunk is found
/// at one index alone.
pub proof fn lemma_index_of(entries: Seq<(ChunkPos, ChunkDrawInfo)>, i: int)
    requires
        distinct_keys(entries),
        0 <= i < entries.len(),
    ensures
        index_of(entries, entries[i].0) == i,
{
    let pos = entries[i].0;
    let j = index_of(entries, pos);
    assert(0 <= j < entries.len() && entries[j].0 == pos);
    if j < i {
        assert(entries[j].0 != entries[i].0);
    } else if i < j {
        assert(entries[i].0 != entries[j].0);
    }
}

/// Every neighbour that `neighbors` lists is loaded, and there are `n` at
/// most.
pub proof fn lemma_neighbors_loaded(entries: Seq<(ChunkPos, ChunkDrawInfo)>, pos: ChunkPos, n: int)
    requires
        0 <= n,
    ensures
        neighbors(entries, pos, n).len() <= n,
        forall|k: int|
            0 <= k < neighbors(entries, pos, n).len() ==> has_key(
                entries,
                (#[trigger] neighbors(entries, pos, n)[k]).0,
            ),
    decreases n,
{
    if n > 0 {
        lemma_neighbors_loaded(entries, pos, n - 1);
    }
}

/// The draw calls for the first `n` of the neighbours `nbrs` of the chunk
/// that the viewer is in: one for each neighbour in the view, for the side
/// through which it is entered.
pub open spec fn first_draws(
    entries: Seq<(ChunkPos, ChunkDrawInfo)>,
    flags: Seq<bool>,
    nbrs: Seq<(ChunkPos, Side)>,
    n: int,
) -> Seq<DrawArgs>
    decreases n,
{
    if n <= 0 {
        Seq::empty()
    } else {
        let before = first_draws(entries, flags, nbrs, n - 1);
        let j = index_of(entries, nbrs[n - 1].0);
        if flags[j] {
            before.push(draw_args(entries[j].1, nbrs[n - 1].1.number()))
        } else {
            before
        }
    }
}

/// The neighbours in the view among the first `n` of `nbrs`, from which
/// the walk goes on.
pub open spec fn first_queue(
    entries: Seq<(ChunkPos, ChunkDrawInfo)>,
    flags: Seq<bool>,
    nbrs: Seq<(ChunkPos, Side)>,
    n: int,
) -> Seq<(ChunkPos, Side)>
    decreases n,
{
    if n <= 0 {
        Seq::empty()
    } else {
        let before = first_queue(entries, flags, nbrs, n - 1);
        let j = index_of(entries, nbrs[n - 1].0);
        if flags[j] {
            before.push(nbrs[n - 1])
        } else {
            before
        }
    }
}

/// The walk goes on from a chunk to its neighbour `nb`: the neighbour was
/// not walked through yet, lies in the view, and the side towards it is
/// seen from the side `parent` through which the chunk was entered.
pub open spec fn passes(
    entries: Seq<(ChunkPos, ChunkDrawInfo)>,
    flags: Seq<bool>,
    visited: Seq<bool>,
    graph: VisibilityGraph,
    parent: Side,
    nb: (ChunkPos, Side),
) -> bool {
    let j = index_of(entries, nb.0);
    !visited[j] && flags[j] && graph@.contains((parent, nb.1))
}

/// The draw calls for the first `n` of the neighbours `nbrs` of a chunk of
/// the walk: one for each neighbour that the walk goes on to.
pub open spec fn step_draws(
    entries: Seq<(ChunkPos, ChunkDrawInfo)>,
    flags: Seq<bool>,
    visited: Seq<bool>,
    graph: VisibilityGraph,
    parent: Side,
    nbrs: Seq<(ChunkPos, Side)>,
    n: int,
) -> Seq<DrawArgs>
    decreases n,
{
    if n <= 0 {
        Seq::empty()
    } else {
        let before = step_draws(entries, flags, visited, graph, parent, nbrs, n - 1);
        if passes(entries, flags, visited, graph, parent, nbrs[n - 1]) {
            before.push(
                draw_args(entries[index_of(entries, nbrs[n - 1].0)].1, nbrs[n - 1].1.number()),
            )
        } else {
            before
        }
    }
}

/// The neighbours among the first `n` of `nbrs` that the walk goes on to,
/// each with the side through which it is entered from its own point of
/// view.
pub open spec fn step_queue(
    entries: Seq<(ChunkPos, ChunkDrawInfo)>,
    flags: Seq<bool>,
    visited: Seq<bool>,
    graph: VisibilityGraph,
    parent: Side,
    nbrs: Seq<(ChunkPos, Side)>,
    n: int,
) -> Seq<(ChunkPos, Side)>
    decreases n,
{
    if n <= 0 {
        Seq::empty()
    } else {
        let before = step_queue(entries, flags, visited, graph, parent, nbrs, n - 1);
        if passes(entries, flags, visited, graph, parent, nbrs[n - 1]) {
            before.push((nbrs[n - 1].0, nbrs[n - 1].1.across()))
        } else {
            before
        }
    }
}

/// The draw calls of the walk from the chunks of `queue` on, breadth
/// first. A chunk that was walked through before is passed over. From any
/// other chunk the walk goes on to the neighbours that pass, draws the side
/// of each through which it is entered, and queues them.
pub open spec fn walk(
    entries: Seq<(ChunkPos, ChunkDrawInfo)>,
    flags: Seq<bool>,
    queue: Seq<(ChunkPos, Side)>,
    visited: Seq<bool>,
) -> Seq<DrawArgs>
    decreases unmarked(visited), queue.len(),
{
    if queue.len() == 0 {
        Seq::empty()
    } else {
        let current = queue[0];
        let rest = queue.drop_first();
        let i = index_of(entries, current.0);
        if 0 <= i < visited.len() && !visited[i] {
            let seen = visited.update(i, true);
            let graph = entries[i].1.vis_graph;
            let nbrs = neighbors(entries, current.0, 6);
            proof {
                lemma_mark(visited, i);
            }
            step_draws(entries, flags, seen, graph, current.1, nbrs, nbrs.len() as int) + walk(
                entries,
                flags,
                rest + step_queue(entries, flags, seen, graph, current.1, nbrs, nbrs.len() as int),
                seen,
            )
        } else {
            walk(entries, flags, rest, visited)
        }
    }
}

/// The draw calls of a frame as seen from the chunk at `start`: every side
/// of that chunk, then the entered side of each neighbour in the view, then
/// the walk from these neighbours on.
pub open spec fn olad_draw_list(
    entries: Seq<(ChunkPos, ChunkDrawInfo)>,
    flags: Seq<bool>,
    start: ChunkPos,
) -> Seq<DrawArgs> {
    let nbrs = neighbors(entries, start, 6);
    six_draws(entries[index_of(entries, start)].1) + first_draws(
        entries,
        flags,
        nbrs,
        nbrs.len() as int,
    ) + walk(
        entries,
        flags,
        first_queue(entries, flags, nbrs, nbrs.len() as int),
        Seq::new(entries.len(), |i: int| false),
    )
}

/// Creates the draw list with occlusion: the chunks are traversed breadth
/// first from the chunk that the viewer is in, and their visibility graphs
/// are consulted so that only the sides are drawn that can be seen through
/// the chunks between. `in_frustum` says of each entry of the table whether
/// its chunk lies in the view.
pub fn olad_build_draw_list(
    lookup: &ChunkLookup,
    in_frustum: &Vec<bool>,
    player_chunk: ChunkPos,
) -> (indirect_data: Vec<DrawArgs>)
    requires
        lookup.wf(),
        all_addressable(lookup@),
        in_frustum@.len() == lookup@.len(),
        has_key(lookup@, player_chunk),
    ensures
        indirect_data@ == olad_draw_list(lookup@, in_frustum@, player_chunk),
{
    let ghost entries = lookup@;
    let ghost flags = in_frustum@;
    let mut indirect_data: Vec<DrawArgs> = Vec::new();
    let mut search_queue: VecDeque<(ChunkPos, Side)> = VecDeque::new();

    // Draw all sides of the chunk that the viewer is in.
    match lookup.position(&player_chunk) {
        Some(at) => {
            proof {
                lemma_index_of(entries, at as int);
            }
            let e = lookup.entry(at);
            push_six_draws(&mut indirect_data, &e.1);
        },
        None => {},
    }

    // The start of the search queue.
    let first = get_neighbors(lookup, player_chunk);
    proof {
        lemma_neighbors_loaded(entries, player_chunk, 6);
    }
    let ghost drawn = indirect_data@;
    let mut n: usize = 0;
    while n < first.len()
        invariant
            0 <= n <= first@.len(),
            entries == lookup@,
            flags == in_frustum@,
            lookup.wf(),
            all_addressable(entries),
            flags.len() == entries.len(),
            forall|k: int| 0 <= k < first@.len() ==> has_key(entries, (#[trigger] first@[k]).0),
            indirect_data@ == drawn + first_draws(entries, flags, first@, n as int),
            search_queue@ == first_queue(entries, flags, first@, n as int),
            forall|k: int|
                0 <= k < search_queue@.len() ==> has_key(entries, (#[trigger] search_queue@[k]).0),
        decreases first@.len() - n,
    {
        let (chunk_pos, side) = first[n];
        assert(has_key(entries, first@[n as int].0));
        let ghost queued = search_queue@;
        match lookup.position(&chunk_pos) {
            Some(j) => {
                proof {
                    lemma_index_of(entries, j as int);
                }
                if in_frustum[j] {
                    // Draw and push to search.
                    let e = lookup.entry(j);
                    indirect_data.push(create_chunk_indirect_args(&e.1, side));
                    search_queue.push_back((chunk_pos, side));
                    assert forall|k: int| 0 <= k < search_queue@.len() implies has_key(
                        entries,
                        (#[trigger] search_queue@[k]).0,
                    ) by {
                        if k < queued.len() {
                            assert(search_queue@[k] == queued[k]);
                        }
                    }
                }
            },
            None => {},
        }
        n += 1;
        assert(indirect_data@ =~= drawn + first_draws(entries, flags, first@, n as int));
    }

    let mut visited: Vec<bool> = Vec::new();
    let mut k: usize = 0;
    while k < lookup.len()
        invariant
            0 <= k <= lookup@.len(),
            visited@.len() == k,
            forall|j: int| 0 <= j < k ==> !visited@[j],
        decreases lookup@.len() - k,
    {
        visited.push(false);
        k += 1;
    }
    assert(visited@ =~= Seq::new(entries.len(), |i: int| false));
    let ghost total = olad_draw_list(entries, flags, player_chunk);

    while search_queue.len() > 0
        invariant
            entries == lookup@,
            flags == in_frustum@,
            lookup.wf(),
            all_addressable(entries),
            flags.len() == entries.len(),
            visited@.len() == entries.len(),
            forall|k: int|
                0 <= k < search_queue@.len() ==> has_key(entries, (#[trigger] search_queue@[k]).0),
            total == indirect_data@ + walk(entries, flags, search_queue@, visited@),
        decreases unmarked(visited@), search_queue@.len(),
    {
        let ghost queue_before = search_queue@;
        let ghost visited_before = visited@;
        let ghost drawn_before = indirect_data@;
        let (current_pos, parent_side) = match search_queue.pop_front() {
            Some(front) => front,
            None => (player_chunk, Side::FRONT),
        };
        let ghost rest = search_queue@;
        assert(rest =~= queue_before.drop_first());
        assert(has_key(entries, queue_before[0].0));
        assert forall|k: int| 0 <= k < rest.len() implies has_key(entries, (#[trigger] rest[k]).0) by {
            assert(rest[k] == queue_before[k + 1]);
        }
        match lookup.position(&current_pos) {
            Some(i) => {
                proof {
                    lemma_index_of(entries, i as int);
                }
                if !visited[i] {
                    visited.set(i, true);
                    proof {
                        lemma_mark(visited_before, i as int);
                    }
                    // The graph of the current chunk.
                    let graph = lookup.entry(i).1.vis_graph;
                    let nbrs = get_neighbors(lookup, current_pos);
                    proof {
                        lemma_neighbors_loaded(entries, current_pos, 6);
                    }
                    let mut m: usize = 0;
                    while m < nbrs.len()
                        invariant
                            0 <= m <= nbrs@.len(),
                            entries == lookup@,
                            flags == in_frustum@,
                            lookup.wf(),
                            all_addressable(entries),
                            flags.len() == entries.len(),
                            visited@.len() == entries.len(),
                            forall|k: int|
                                0 <= k < nbrs@.len() ==> has_key(entries, (#[trigger] nbrs@[k]).0),
                            forall|k: int|
                                0 <= k < search_queue@.len() ==> has_key(
                                    entries,
                                    (#[trigger] search_queue@[k]).0,
                                ),
                            indirect_data@ == drawn_before + step_draws(
                                entries,
                                flags,
                                visited@,
                                graph,
                                parent_side,
                                nbrs@,
                                m as int,
                            ),
                            search_queue@ == rest + step_queue(
                                entries,
                                flags,
                                visited@,
                                graph,
                                parent_side,
                                nbrs@,
                                m as int,
                            ),
                        decreases nbrs@.len() - m,
                    {
                        let (next_chunk, side) = nbrs[m];
                        assert(has_key(entries, nbrs@[m as int].0));
                        let ghost queued = search_queue@;
                        match lookup.position(&next_chunk) {
                            Some(j) => {
                                proof {
                                    lemma_index_of(entries, j as int);
                                }
                                let already_seen = visited[j];
                                let in_view = in_frustum[j];
                                let can_see_from_parent = graph.can_reach_from(parent_side, side);
                                if !already_seen && in_view && can_see_from_parent {
                                    // It passes the filters: draw it.
                                    let e = lookup.entry(j);
                                    indirect_data.push(create_chunk_indirect_args(&e.1, side));
                                    search_queue.push_back((next_chunk, side.opposite()));
                                    assert forall|k: int|
                                        0 <= k < search_queue@.len() implies has_key(
                                        entries,
                                        (#[trigger] search_queue@[k]).0,
                                    ) by {
                                        if k < queued.len() {
                                            assert(search_queue@[k] == queued[k]);
                                        }
                                    }
                                }
                            },
                            None => {},
                        }
                        m += 1;
                        assert(indirect_data@ =~= drawn_before + step_draws(
                            entries,
                            flags,
                            visited@,
                            graph,
                            parent_side,
                            nbrs@,
                            m as int,
                        ));
                        assert(search_queue@ =~= rest + step_queue(
                            entries,
                            flags,
                            visited@,
                            graph,
                            parent_side,
                            nbrs@,
                            m as int,
                        ));
                    }
                    proof {
                        let draws = step_draws(
                            entries,
                            flags,
                            visited@,
                            graph,
                            parent_side,
                            nbrs@,
                            nbrs@.len() as int,
                        );
                        assert(drawn_before + (draws + walk(
                            entries,
                            flags,
                            search_queue@,
                            visited@,
                        )) =~= (drawn_before + draws) + walk(
                            entries,
                            flags,
                            search_queue@,
                            visited@,
                        ));
                    }
                }
            },
            None => {},
        }
    }
    proof {
        assert(indirect_data@ + Seq::<DrawArgs>::empty() =~= indirect_data@);
    }
    indirect_data
}

} // verus!
