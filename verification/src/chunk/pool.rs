//! Where the meshes of the loaded chunks lie in the buffers.
//!
//! The mesh of a chunk is written to the vertex buffer with its six
//! directions one behind the other, each vertex as one 32-bit word, and the
//! position of the chunk is written to the storage buffer. [`ChunkPool`]
//! keeps the two allocators of these buffers and the table of the chunks
//! that are placed. It decides where a chunk goes and says what is to be
//! written; the writing itself is left to its user.

use crate::allocator::{
    allocate_spec, dealloc_spec, inv, is_occupied, lemma_allocate_spec, Allocator, AllocatorView,
    Space,
};
use crate::chunk::block::Block;
use crate::chunk::mesher::{mesh, mesh_vertices, MAX_MESH_VERTICES};
use crate::chunk::traverse::{
    all_addressable, distinct_keys, has_key, index_of, lemma_index_of, ChunkDrawInfo,
    ChunkLookup,
};
use crate::chunk::visibility::{linked, Side, VisibilityGraph};
use crate::chunk::{Cell, Chunk, ChunkPos, EncodedVertex};
use vstd::prelude::*;

verus! {

/// The number of bytes that one vertex takes in the vertex buffer.
pub const VERTEX_SIZE: u32 = 4;

/// The number of bytes that the position of a chunk takes in the storage
/// buffer.
pub const POSITION_SIZE: u64 = 12;

/// The largest vertex buffer in which every vertex of every mesh can be
/// addressed with 32 bits.
pub const MAX_VERTEX_CAPACITY: u64 = 4293984255;

/// The largest storage buffer in which every position can be addressed
/// with 32 bits.
pub const MAX_STORAGE_CAPACITY: u64 = 4294967295;

/// The vertices of the six directions of a mesh.
pub open spec fn parts_of(mesh: Seq<Vec<EncodedVertex>>) -> Seq<Seq<EncodedVertex>> {
    Seq::new(mesh.len(), |k: int| mesh[k]@)
}

/// The vertices of the six directions of the mesh of a grid.
pub open spec fn mesh_parts(grid: Map<Cell, Block>) -> Seq<Seq<EncodedVertex>> {
    Seq::new(6, |k: int| mesh_vertices(grid, k))
}

/// The mesh has six directions, and each holds as many vertices as a chunk
/// can have at most.
pub open spec fn parts_sized(parts: Seq<Seq<EncodedVertex>>) -> bool {
    parts.len() == 6 && forall|k: int| 0 <= k < 6 ==> (#[trigger] parts[k]).len() <= MAX_MESH_VERTICES
}

/// The number of vertices in the first `n` directions of the mesh.
pub open spec fn vertices_before(parts: Seq<Seq<EncodedVertex>>, n: int) -> int
    decreases n,
{
    if n <= 0 {
        0
    } else {
        vertices_before(parts, n - 1) + parts[n - 1].len()
    }
}

/// The words of the first `n` directions of the mesh, one behind the
/// other.
pub open spec fn words_before(parts: Seq<Seq<EncodedVertex>>, n: int) -> Seq<u32>
    decreases n,
{
    if n <= 0 {
        Seq::empty()
    } else {
        words_before(parts, n - 1) + parts[n - 1].map_values(|v: EncodedVertex| v.0)
    }
}

/// Where the part of each direction lies in the mesh: the number of
/// vertices before it and the number of its own.
pub open spec fn ranges(parts: Seq<Seq<EncodedVertex>>) -> Seq<(u32, u32)> {
    Seq::new(6, |k: int| (vertices_before(parts, k) as u32, parts[k].len() as u32))
}

/// The first `n` directions of a mesh hold `MAX_MESH_VERTICES` vertices
/// each at most.
pub proof fn lemma_vertices_before(parts: Seq<Seq<EncodedVertex>>, n: int)
    requires
        parts_sized(parts),
        0 <= n <= 6,
    ensures
        0 <= vertices_before(parts, n) <= n * MAX_MESH_VERTICES,
    decreases n,
{
    if n > 0 {
        lemma_vertices_before(parts, n - 1);
    }
}

/// The number of bytes that the mesh takes in the vertex buffer.
pub fn mesh_byte_len(mesh: &[Vec<EncodedVertex>; 6]) -> (bytes: u32)
    requires
        parts_sized(parts_of(mesh@)),
    ensures
        bytes == VERTEX_SIZE * vertices_before(parts_of(mesh@), 6),
{
    let ghost parts = parts_of(mesh@);
    let mut count: u32 = 0;
    let mut k: usize = 0;
    while k < 6
        invariant
            0 <= k <= 6,
            parts == parts_of(mesh@),
            parts_sized(parts),
            count == vertices_before(parts, k as int),
            count <= k * MAX_MESH_VERTICES,
        decreases 6 - k,
    {
        assert(parts[k as int] == mesh@[k as int]@);
        count = count + mesh[k].len() as u32;
        k += 1;
    }
    VERTEX_SIZE * count
}

/// Where the part of each direction lies in the mesh: the number of
/// vertices before it and the number of its own.
pub fn face_ranges(mesh: &[Vec<EncodedVertex>; 6]) -> (faces: [(u32, u32); 6])
    requires
        parts_sized(parts_of(mesh@)),
    ensures
        faces@ == ranges(parts_of(mesh@)),
{
    let ghost parts = parts_of(mesh@);
    let mut faces = [(0u32, 0u32);6];
    let mut offset: u32 = 0;
    let mut k: usize = 0;
    while k < 6
        invariant
            0 <= k <= 6,
            parts == parts_of(mesh@),
            parts_sized(parts),
            offset == vertices_before(parts, k as int),
            offset <= k * MAX_MESH_VERTICES,
            forall|j: int| 0 <= j < k ==> #[trigger] faces@[j] == ranges(parts)[j],
        decreases 6 - k,
    {
        // The offset is the last offset plus the last length.
        assert(parts[k as int] == mesh@[k as int]@);
        let count = mesh[k].len() as u32;
        faces[k] = (offset, count);
        offset = offset + count;
        k += 1;
    }
    assert(faces@ =~= ranges(parts));
    faces
}

/// The words of the mesh as they are written to the vertex buffer: the
/// vertices of the six directions, one direction behind the other.
pub fn flatten_mesh(mesh: &[Vec<EncodedVertex>; 6]) -> (data: Vec<u32>)
    ensures
        data@ == words_before(parts_of(mesh@), 6),
{
    let ghost parts = parts_of(mesh@);
    let mut data: Vec<u32> = Vec::new();
    let mut k: usize = 0;
    while k < 6
        invariant
            0 <= k <= 6,
            parts == parts_of(mesh@),
            data@ == words_before(parts, k as int),
        decreases 6 - k,
    {
        let part = &mesh[k];
        let ghost before = data@;
        let ghost words = part@.map_values(|v: EncodedVertex| v.0);
        assert(parts[k as int] == part@);
        let mut i: usize = 0;
        while i < part.len()
            invariant
                0 <= i <= part@.len(),
                words == part@.map_values(|v: EncodedVertex| v.0),
                data@ == before + words.take(i as int),
            decreases part@.len() - i,
        {
            data.push(part[i].to_untyped());
            assert(words.take(i + 1) =~= words.take(i as int).push(part@[i as int].0));
            i += 1;
        }
        assert(words.take(i as int) =~= words);
        k += 1;
    }
    data
}

/// The position of a chunk as it is written to the storage buffer.
pub fn position_words(chunk_pos: &ChunkPos) -> (pos: [i32; 3])
    ensures
        pos@ == seq![chunk_pos.0, chunk_pos.1, chunk_pos.2],
{
    let pos = [chunk_pos.0, chunk_pos.1, chunk_pos.2];
    assert(pos@ =~= seq![chunk_pos.0, chunk_pos.1, chunk_pos.2]);
    pos
}

/// What is to be written to the buffers for a chunk that was placed.
pub struct ChunkUpload {
    /// The offset in the vertex buffer at which the mesh is written.
    pub vertex_addr: u64,
    /// The words of the mesh.
    pub vertex_data: Vec<u32>,
    /// The offset in the storage buffer and the position that is written
    /// there; nothing where the storage buffer is full, and the chunk is then
    /// not drawn.
    pub storage: Option<(u64, [i32; 3])>,
}

/// The state of a pool: the states of its two allocators and its table.
pub struct PoolView {
    pub vertex: AllocatorView,
    pub storage: AllocatorView,
    pub lookup: Seq<(ChunkPos, ChunkDrawInfo)>,
}

/// The number of spaces of `s` with the offset `offset`.
pub open spec fn held(s: Seq<Space>, offset: u64) -> nat
    decreases s.len(),
{
    if s.len() == 0 {
        0
    } else {
        held(s.drop_last(), offset) + (if s.last().offset == offset {
            1nat
        } else {
            0nat
        })
    }
}

/// The number of entries of the table whose mesh lies at `offset` in the
/// vertex buffer or, if `storage`, whose position lies at `offset` in the
/// storage buffer.
pub open spec fn wanted(entries: Seq<(ChunkPos, ChunkDrawInfo)>, storage: bool, offset: u64) -> nat
    decreases entries.len(),
{
    if entries.len() == 0 {
        0
    } else {
        wanted(entries.drop_last(), storage, offset) + (if place(entries.last().1, storage)
            == offset {
            1nat
        } else {
            0nat
        })
    }
}

/// The offset of the mesh of a chunk in the vertex buffer or, if
/// `storage`, of its position in the storage buffer.
pub open spec fn place(info: ChunkDrawInfo, storage: bool) -> u64 {
    if storage {
        info.storage_offset
    } else {
        info.vertex_offset
    }
}

/// Each entry of the table has spaces of its own in the two buffers: no
/// offset occurs in more entries than occupied spaces have it.
pub open spec fn backed(v: PoolView) -> bool {
    &&& forall|o: u64| wanted(v.lookup, false, o) <= #[trigger] held(v.vertex.occupied, o)
    &&& forall|o: u64| wanted(v.lookup, true, o) <= #[trigger] held(v.storage.occupied, o)
}

/// The invariant of every pool state: that of the two allocators and of
/// the table, every offset in the buffers can be addressed with 32 bits,
/// and each entry of the table has spaces of its own.
pub open spec fn pool_inv(v: PoolView) -> bool {
    &&& inv(v.vertex)
    &&& inv(v.storage)
    &&& v.vertex.size <= MAX_VERTEX_CAPACITY
    &&& v.storage.size <= MAX_STORAGE_CAPACITY
    &&& distinct_keys(v.lookup)
    &&& all_addressable(v.lookup)
    &&& backed(v)
}

/// `info` is what the table holds of a chunk with the blocks `grid` whose
/// mesh lies at `vertex_addr` and whose position lies at `storage_addr`.
pub open spec fn describes(
    info: ChunkDrawInfo,
    vertex_addr: u64,
    storage_addr: u64,
    grid: Map<Cell, Block>,
) -> bool {
    &&& info.vertex_offset == vertex_addr
    &&& info.storage_offset == storage_addr
    &&& info.faces@ == ranges(mesh_parts(grid))
    &&& forall|s: Side, t: Side| #[trigger]
        info.vis_graph@.contains((s, t)) <==> s == t || linked(grid, s, t)
}

/// The table with `info` for the chunk at `pos`: in place of what it held
/// for that chunk, or else as its last entry.
pub open spec fn put(entries: Seq<(ChunkPos, ChunkDrawInfo)>, pos: ChunkPos, info: ChunkDrawInfo) -> Seq<
    (ChunkPos, ChunkDrawInfo),
> {
    if has_key(entries, pos) {
        entries.update(index_of(entries, pos), (pos, info))
    } else {
        entries.push((pos, info))
    }
}

/// What `add_chunk` returns and the state it leaves. Space for the mesh
/// is taken from the vertex buffer; where there is none, nothing happens.
/// Space for the position is then taken from the storage buffer; where there
/// is none, the mesh keeps its space, but the chunk gets no entry in the
/// table. Else the table holds the chunk with what describes it.
pub open spec fn added(
    pre: PoolView,
    pos: ChunkPos,
    grid: Map<Cell, Block>,
    r: Option<ChunkUpload>,
    post: PoolView,
) -> bool {
    let parts = mesh_parts(grid);
    let bytes = (VERTEX_SIZE * vertices_before(parts, 6)) as u64;
    let v = allocate_spec(pre.vertex, bytes);
    let s = allocate_spec(pre.storage, POSITION_SIZE);
    match (v.0, r) {
        (None, None) => post == pre,
        (Some(vertex_addr), Some(upload)) => {
            &&& upload.vertex_addr == vertex_addr
            &&& upload.vertex_data@ == words_before(parts, 6)
            &&& post.vertex == v.1
            &&& match (s.0, upload.storage) {
                (None, None) => post.storage == pre.storage && post.lookup == pre.lookup,
                (Some(storage_addr), Some(written)) => {
                    &&& written.0 == storage_addr
                    &&& written.1@ == seq![pos.0, pos.1, pos.2]
                    &&& post.storage == s.1
                    &&& exists|info: ChunkDrawInfo| #[trigger]
                        describes(info, vertex_addr, storage_addr, grid) && post.lookup == put(
                            pre.lookup,
                            pos,
                            info,
                        )
                },
                _ => false,
            }
        },
        _ => false,
    }
}

/// The state that `remove_chunk` leaves: the chunk at `pos` leaves the
/// table, and the two spaces that the table held for it are given back.
pub open spec fn removed(pre: PoolView, pos: ChunkPos) -> PoolView {
    if has_key(pre.lookup, pos) {
        let i = index_of(pre.lookup, pos);
        let info = pre.lookup[i].1;
        PoolView {
            vertex: dealloc_spec(pre.vertex, info.vertex_offset),
            storage: dealloc_spec(pre.storage, info.storage_offset),
            lookup: pre.lookup.remove(i),
        }
    } else {
        pre
    }
}

/// Manages where the chunk data lies in the buffers.
pub struct ChunkPool {
    vertex_allocator: Allocator,
    storage_allocator: Allocator,
    lookup: ChunkLookup,
}

impl View for ChunkPool {
    type V = PoolView;

    closed spec fn view(&self) -> PoolView {
        PoolView {
            vertex: self.vertex_allocator@,
            storage: self.storage_allocator@,
            lookup: self.lookup@,
        }
    }
}

impl ChunkPool {
    /// The invariant holds of the state of the pool.
    pub open spec fn wf(&self) -> bool {
        pool_inv(self@)
    }

    /// A pool for a vertex buffer of `vertex_size` bytes and a storage
    /// buffer of `storage_size` bytes, with no chunk placed.
    pub fn new(vertex_size: u64, storage_size: u64) -> (pool: ChunkPool)
        requires
            vertex_size <= MAX_VERTEX_CAPACITY,
            storage_size <= MAX_STORAGE_CAPACITY,
        ensures
            pool.wf(),
            pool@.vertex == crate::allocator::new_spec(vertex_size),
            pool@.storage == crate::allocator::new_spec(storage_size),
            pool@.lookup.len() == 0,
    {
        ChunkPool {
            vertex_allocator: Allocator::new(vertex_size),
            storage_allocator: Allocator::new(storage_size),
            lookup: ChunkLookup::new(),
        }
    }

    /// The allocator of the vertex buffer.
    pub fn vertex_allocator(&self) -> (a: &Allocator)
        ensures
            a@ == self@.vertex,
    {
        &self.vertex_allocator
    }

    /// The allocator of the storage buffer.
    pub fn storage_allocator(&self) -> (a: &Allocator)
        ensures
            a@ == self@.storage,
    {
        &self.storage_allocator
    }

    /// The table of the chunks that are placed.
    pub fn lookup(&self) -> (t: &ChunkLookup)
        ensures
            t@ == self@.lookup,
    {
        &self.lookup
    }

    /// Places a chunk so that it can be rendered, and says what is to be
    /// written to the buffers for it.
    pub fn add_chunk(&mut self, chunk_pos: ChunkPos, chunk: &Chunk) -> (r: Option<ChunkUpload>)
        requires
            old(self).wf(),
            chunk.wf(),
        ensures
            final(self).wf(),
            added(old(self)@, chunk_pos, chunk@, r, final(self)@),
    {
        let ghost pre = self@;
        let ghost grid = chunk@;
        let ghost parts = mesh_parts(grid);
        let mesh = mesh(chunk);
        proof {
            assert(parts_of(mesh@) =~= parts);
            lemma_vertices_before(parts, 6);
            lemma_vertices_before(parts, 5);
            lemma_allocate_spec(pre.vertex, (VERTEX_SIZE * vertices_before(parts, 6)) as u64);
            lemma_allocate_spec(pre.storage, POSITION_SIZE);
        }
        let mesh_len = mesh_byte_len(&mesh);

        // If we can't get a block of memory, just return.
        let vertex_addr = match self.vertex_allocator.allocate(mesh_len as u64) {
            Some(addr) => addr,
            None => {
                assert(self@ == pre);
                return None;
            },
        };
        proof {
            lemma_taken_is_held(pre.vertex, mesh_len as u64);
        }

        let faces = face_ranges(&mesh);
        let vertex_data = flatten_mesh(&mesh);
        let pos = position_words(&chunk_pos);

        let storage_addr = match self.storage_allocator.allocate(POSITION_SIZE) {
            Some(addr) => addr,
            None => {
                return Some(ChunkUpload { vertex_addr, vertex_data, storage: None });
            },
        };
        proof {
            lemma_taken_is_held(pre.storage, POSITION_SIZE);
        }

        // The chunk info from which the draw calls are made.
        let info = ChunkDrawInfo {
            vertex_offset: vertex_addr,
            storage_offset: storage_addr,
            faces,
            vis_graph: VisibilityGraph::from_chunk(chunk),
        };
        proof {
            assert(describes(info, vertex_addr, storage_addr, grid));
            lemma_space_taken(pre.vertex, mesh_len as u64);
            lemma_space_taken(pre.storage, POSITION_SIZE);
            assert forall|k: int| 0 <= k < 6 implies info.vertex_offset + (#[trigger] info.faces@[k]).0
                <= u32::MAX by {
                lemma_vertices_before(parts, k);
            }
            assert(info.addressable());
        }
        let ghost table = self.lookup@;
        let replaced = self.lookup.insert(chunk_pos, info);
        proof {
            if replaced is Some {
                let i = choose|i: int|
                    0 <= i < table.len() && #[trigger] table[i] == (chunk_pos, replaced->0)
                        && self.lookup@ == table.update(i, (chunk_pos, info));
                lemma_index_of(table, i);
                assert forall|o: u64, storage: bool| #[trigger]
                    wanted(self.lookup@, storage, o) <= wanted(table, storage, o) + (if place(
                        info,
                        storage,
                    ) == o {
                        1nat
                    } else {
                        0nat
                    }) by {
                    lemma_wanted_update(table, i, (chunk_pos, info), storage, o);
                }
            } else {
                assert forall|o: u64, storage: bool| #[trigger]
                    wanted(self.lookup@, storage, o) == wanted(table, storage, o) + (if place(
                        info,
                        storage,
                    ) == o {
                        1nat
                    } else {
                        0nat
                    }) by {
                    lemma_wanted_push(table, (chunk_pos, info), storage, o);
                }
            }
            assert(self.lookup@ == put(table, chunk_pos, info));
            assert forall|o: u64|
                wanted(self.lookup@, false, o) <= #[trigger] held(self@.vertex.occupied, o) by {
                assert(wanted(table, false, o) <= held(pre.vertex.occupied, o));
                assert(wanted(self.lookup@, false, o) <= wanted(table, false, o) + (if place(
                    info,
                    false,
                ) == o {
                    1nat
                } else {
                    0nat
                }));
            }
            assert forall|o: u64|
                wanted(self.lookup@, true, o) <= #[trigger] held(self@.storage.occupied, o) by {
                assert(wanted(table, true, o) <= held(pre.storage.occupied, o));
                assert(wanted(self.lookup@, true, o) <= wanted(table, true, o) + (if place(
                    info,
                    true,
                ) == o {
                    1nat
                } else {
                    0nat
                }));
            }
        }
        Some(ChunkUpload { vertex_addr, vertex_data, storage: Some((storage_addr, pos)) })
    }

    /// Takes a chunk out of the table and gives its two spaces back.
    pub fn remove_chunk(&mut self, pos: ChunkPos)
        requires
            old(self).wf(),
        ensures
            final(self).wf(),
            final(self)@ == removed(old(self)@, pos),
    {
        let ghost pre = self@;
        let ghost table = self.lookup@;
        let Some(chunk_info) = self.lookup.remove(&pos) else {
            return ;
        };
        proof {
            let i = choose|i: int|
                0 <= i < table.len() && #[trigger] table[i] == (pos, chunk_info) && self.lookup@
                    == table.remove(i);
            lemma_index_of(table, i);
            lemma_wanted_remove(table, i, false, chunk_info.vertex_offset);
            lemma_wanted_remove(table, i, true, chunk_info.storage_offset);
            assert(wanted(table, false, chunk_info.vertex_offset) <= held(
                pre.vertex.occupied,
                chunk_info.vertex_offset,
            ));
            assert(wanted(table, true, chunk_info.storage_offset) <= held(
                pre.storage.occupied,
                chunk_info.storage_offset,
            ));
            lemma_held_is_occupied(pre.vertex.occupied, chunk_info.vertex_offset);
            lemma_held_is_occupied(pre.storage.occupied, chunk_info.storage_offset);
            lemma_given_back(pre.vertex, chunk_info.vertex_offset);
            lemma_given_back(pre.storage, chunk_info.storage_offset);
            assert forall|o: u64, storage: bool| #[trigger]
                wanted(self.lookup@, storage, o) + (if place(chunk_info, storage) == o {
                    1nat
                } else {
                    0nat
                }) == wanted(table, storage, o) by {
                lemma_wanted_remove(table, i, storage, o);
            }
        }
        self.vertex_allocator.dealloc(chunk_info.vertex_offset);
        self.storage_allocator.dealloc(chunk_info.storage_offset);
        proof {
            assert forall|o: u64|
                wanted(self.lookup@, false, o) <= #[trigger] held(self@.vertex.occupied, o) by {
                assert(wanted(table, false, o) <= held(pre.vertex.occupied, o));
                assert(wanted(self.lookup@, false, o) + (if place(chunk_info, false) == o {
                    1nat
                } else {
                    0nat
                }) == wanted(table, false, o));
            }
            assert forall|o: u64|
                wanted(self.lookup@, true, o) <= #[trigger] held(self@.storage.occupied, o) by {
                assert(wanted(table, true, o) <= held(pre.storage.occupied, o));
                assert(wanted(self.lookup@, true, o) + (if place(chunk_info, true) == o {
                    1nat
                } else {
                    0nat
                }) == wanted(table, true, o));
            }
        }
    }
}

impl Default for ChunkPool {
    /// A pool for buffers of no size.
    fn default() -> (pool: ChunkPool)
        ensures
            pool.wf(),
            pool@.vertex.size == 0,
            pool@.storage.size == 0,
            pool@.lookup.len() == 0,
    {
        ChunkPool {
            vertex_allocator: Allocator::default(),
            storage_allocator: Allocator::default(),
            lookup: ChunkLookup::new(),
        }
    }
}

/// The space that an allocation takes lies at the offset that is returned
/// and ends within the capacity.
pub proof fn lemma_space_taken(v: AllocatorView, length: u64)
    requires
        inv(v),
    ensures
        allocate_spec(v, length).0 matches Some(offset) ==> offset + length <= v.size,
{
    if allocate_spec(v, length).0 is Some {
        lemma_allocate_spec(v, length);
        let w = allocate_spec(v, length).1;
        let last = w.occupied.len() - 1;
        assert(w.occupied[last].end() <= w.size);
    }
}


/// Appending a space adds one to the number of spaces with its offset.
proof fn lemma_held_push(s: Seq<Space>, x: Space, o: u64)
    ensures
        held(s.push(x), o) == held(s, o) + (if x.offset == o {
            1nat
        } else {
            0nat
        }),
{
    assert(s.push(x).drop_last() =~= s);
}

/// Taking a space out of a list takes one off the number of spaces with its
/// offset.
proof fn lemma_held_remove(s: Seq<Space>, i: int, o: u64)
    requires
        0 <= i < s.len(),
    ensures
        held(s.remove(i), o) + (if s[i].offset == o {
            1nat
        } else {
            0nat
        }) == held(s, o),
    decreases s.len(),
{
    if i == s.len() - 1 {
        assert(s.remove(i) =~= s.drop_last());
    } else {
        lemma_held_remove(s.drop_last(), i, o);
        assert(s.remove(i).drop_last() =~= s.drop_last().remove(i));
    }
}

/// Where some space has the offset, the first space with it is found.
proof fn lemma_held_is_occupied(s: Seq<Space>, o: u64)
    requires
        held(s, o) > 0,
    ensures
        crate::allocator::find_from(s, crate::allocator::has_offset(o), 0) < s.len(),
    decreases s.len(),
{
    let p = crate::allocator::has_offset(o);
    crate::allocator::lemma_find_from(s, p, 0);
    if s.last().offset == o {
        assert(p(s[s.len() - 1]));
    } else {
        let t = s.drop_last();
        lemma_held_is_occupied(t, o);
        crate::allocator::lemma_find_from(t, p, 0);
        let k = crate::allocator::find_from(t, p, 0);
        assert(p(t[k]));
        assert(p(s[k]));
    }
}

/// Appending an entry adds one to the number of entries with its place.
proof fn lemma_wanted_push(
    entries: Seq<(ChunkPos, ChunkDrawInfo)>,
    e: (ChunkPos, ChunkDrawInfo),
    storage: bool,
    o: u64,
)
    ensures
        wanted(entries.push(e), storage, o) == wanted(entries, storage, o) + (if place(
            e.1,
            storage,
        ) == o {
            1nat
        } else {
            0nat
        }),
{
    assert(entries.push(e).drop_last() =~= entries);
}

/// Taking an entry out of the table takes one off the number of entries
/// with its place.
proof fn lemma_wanted_remove(
    entries: Seq<(ChunkPos, ChunkDrawInfo)>,
    i: int,
    storage: bool,
    o: u64,
)
    requires
        0 <= i < entries.len(),
    ensures
        wanted(entries.remove(i), storage, o) + (if place(entries[i].1, storage) == o {
            1nat
        } else {
            0nat
        }) == wanted(entries, storage, o),
    decreases entries.len(),
{
    if i == entries.len() - 1 {
        assert(entries.remove(i) =~= entries.drop_last());
    } else {
        lemma_wanted_remove(entries.drop_last(), i, storage, o);
        assert(entries.remove(i).drop_last() =~= entries.drop_last().remove(i));
    }
}

/// Putting an entry in the place of another adds one to the number of
/// entries with its place at most.
proof fn lemma_wanted_update(
    entries: Seq<(ChunkPos, ChunkDrawInfo)>,
    i: int,
    e: (ChunkPos, ChunkDrawInfo),
    storage: bool,
    o: u64,
)
    requires
        0 <= i < entries.len(),
    ensures
        wanted(entries.update(i, e), storage, o) <= wanted(entries, storage, o) + (if place(
            e.1,
            storage,
        ) == o {
            1nat
        } else {
            0nat
        }),
    decreases entries.len(),
{
    if i == entries.len() - 1 {
        assert(entries.update(i, e).drop_last() =~= entries.drop_last());
    } else {
        lemma_wanted_update(entries.drop_last(), i, e, storage, o);
        assert(entries.update(i, e).drop_last() =~= entries.drop_last().update(i, e));
    }
}

/// An allocation that succeeds adds one to the number of occupied spaces
/// with the offset it returns, and changes no other number.
proof fn lemma_taken_is_held(v: AllocatorView, length: u64)
    requires
        inv(v),
    ensures
        forall|o: u64| #[trigger]
            held(allocate_spec(v, length).1.occupied, o) == held(v.occupied, o) + (
            if allocate_spec(v, length).0 == Some(o) {
                1nat
            } else {
                0nat
            }),
{
    let w = allocate_spec(v, length).1;
    assert forall|o: u64| #[trigger]
        held(w.occupied, o) == held(v.occupied, o) + (if allocate_spec(v, length).0 == Some(o) {
            1nat
        } else {
            0nat
        }) by {
        if allocate_spec(v, length).0 is Some {
            let offset = allocate_spec(v, length).0->0;
            lemma_held_push(v.occupied, Space { offset, length }, o);
        }
    }
}

/// Giving the space at `offset` back takes one off the number of occupied
/// spaces with this offset, and changes no other number.
proof fn lemma_given_back(v: AllocatorView, offset: u64)
    requires
        is_occupied(v, offset),
    ensures
        forall|o: u64| #[trigger]
            held(dealloc_spec(v, offset).occupied, o) + (if o == offset {
                1nat
            } else {
                0nat
            }) == held(v.occupied, o),
{
    let k = crate::allocator::find_from(v.occupied, crate::allocator::has_offset(offset), 0);
    crate::allocator::lemma_find_from(v.occupied, crate::allocator::has_offset(offset), 0);
    assert(crate::allocator::has_offset(offset)(v.occupied[k]));
    assert forall|o: u64| #[trigger]
        held(dealloc_spec(v, offset).occupied, o) + (if o == offset {
            1nat
        } else {
            0nat
        }) == held(v.occupied, o) by {
        lemma_held_remove(v.occupied, k, o);
    }
}

} // verus!
