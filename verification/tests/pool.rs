use vvrs::chunk::block::Block;
use vvrs::chunk::mesher::{encode_vertex, mesh};
use vvrs::allocator::Space;
use vvrs::chunk::pool::{
    face_ranges, flatten_mesh, mesh_byte_len, position_words, ChunkPool, POSITION_SIZE,
    VERTEX_SIZE,
};
use vvrs::chunk::traverse::first_face_draw_list;
use vvrs::chunk::visibility::Side;
use vvrs::chunk::{Chunk, ChunkPos, EncodedVertex, LocalBlockPos};

fn parts(lens: [usize; 6]) -> [Vec<EncodedVertex>; 6] {
    let mut next = 0u32;
    lens.map(|n| {
        (0..n)
            .map(|_| {
                next += 1;
                EncodedVertex(next)
            })
            .collect()
    })
}

#[test]
fn the_directions_lie_one_behind_the_other() {
    let mesh = parts([6, 12, 0, 6, 18, 6]);
    assert_eq!(
        face_ranges(&mesh),
        [(0, 6), (6, 12), (18, 0), (18, 6), (24, 18), (42, 6)]
    );
    assert_eq!(mesh_byte_len(&mesh), 4 * 48);
    let words = flatten_mesh(&mesh);
    assert_eq!(words, (1..=48).collect::<Vec<u32>>());
}

#[test]
fn an_empty_mesh_takes_no_space() {
    let mesh = parts([0; 6]);
    assert_eq!(face_ranges(&mesh), [(0, 0); 6]);
    assert_eq!(mesh_byte_len(&mesh), 0);
    assert!(flatten_mesh(&mesh).is_empty());
}

#[test]
fn the_mesh_of_a_block_is_laid_out_in_six_parts_of_six() {
    let mut chunk = Chunk::default();
    chunk.set_block(LocalBlockPos(1, 1, 1), Block(1));
    let mesh = mesh(&chunk);
    assert_eq!(
        face_ranges(&mesh),
        [(0, 6), (6, 6), (12, 6), (18, 6), (24, 6), (30, 6)]
    );
    assert_eq!(mesh_byte_len(&mesh), 144);
    let words = flatten_mesh(&mesh);
    assert_eq!(words.len(), 36);
    assert_eq!(words[0], encode_vertex(1, 1, 1).unwrap().to_untyped());
    assert_eq!(words[35], encode_vertex(1, 1, 2).unwrap().to_untyped());
}

#[test]
fn the_sizes_are_those_of_the_words() {
    assert_eq!(VERTEX_SIZE as usize, std::mem::size_of::<EncodedVertex>());
    assert_eq!(POSITION_SIZE as usize, std::mem::size_of::<[i32; 3]>());
    assert_eq!(position_words(&ChunkPos(1, -2, 3)), [1, -2, 3]);
}

fn one_block() -> Chunk {
    let mut chunk = Chunk::default();
    chunk.set_block(LocalBlockPos(1, 1, 1), Block(1));
    chunk
}

#[test]
fn a_chunk_is_placed_in_both_buffers() {
    let mut pool = ChunkPool::new(1024, 64);
    let upload = pool.add_chunk(ChunkPos(1, -2, 3), &one_block()).unwrap();
    assert_eq!(upload.vertex_addr, 0);
    assert_eq!(upload.vertex_data.len(), 36);
    assert_eq!(upload.vertex_data[0], encode_vertex(1, 1, 1).unwrap().to_untyped());
    assert_eq!(upload.storage, Some((0, [1, -2, 3])));
    assert_eq!(pool.vertex_allocator().occupied_spaces(), vec![Space::new(0, 144)]);
    assert_eq!(pool.storage_allocator().occupied_spaces(), vec![Space::new(0, 12)]);
    let info = pool.lookup().get(&ChunkPos(1, -2, 3)).unwrap();
    assert_eq!(info.vertex_offset, 0);
    assert_eq!(info.storage_offset, 0);
    assert_eq!(info.faces, [(0, 6), (6, 6), (12, 6), (18, 6), (24, 6), (30, 6)]);
    assert!(info.vis_graph.can_reach_from(Side::TOP, Side::BOTTOM));

    let second = pool.add_chunk(ChunkPos(0, 0, 0), &Chunk::full()).unwrap();
    assert_eq!(second.vertex_addr, 144);
    assert_eq!(second.storage, Some((12, [0, 0, 0])));
    let full = pool.lookup().get(&ChunkPos(0, 0, 0)).unwrap();
    assert!(!full.vis_graph.can_reach_from(Side::TOP, Side::BOTTOM));
    assert_eq!(first_face_draw_list(pool.lookup()).len(), 2);
}

#[test]
fn a_chunk_without_room_for_its_mesh_is_not_placed() {
    let mut pool = ChunkPool::new(100, 64);
    assert!(pool.add_chunk(ChunkPos(0, 0, 0), &one_block()).is_none());
    assert_eq!(pool.vertex_allocator().allocated(), 0);
    assert_eq!(pool.storage_allocator().allocated(), 0);
    assert_eq!(pool.lookup().len(), 0);
}

#[test]
fn a_chunk_without_room_for_its_position_keeps_its_mesh_and_is_not_drawn() {
    let mut pool = ChunkPool::new(1024, 8);
    let upload = pool.add_chunk(ChunkPos(0, 0, 0), &one_block()).unwrap();
    assert_eq!(upload.vertex_addr, 0);
    assert_eq!(upload.vertex_data.len(), 36);
    assert_eq!(upload.storage, None);
    assert_eq!(pool.vertex_allocator().allocated(), 144);
    assert_eq!(pool.storage_allocator().allocated(), 0);
    assert_eq!(pool.lookup().len(), 0);
}

#[test]
fn a_chunk_that_leaves_gives_its_spaces_back() {
    let mut pool = ChunkPool::new(1024, 64);
    pool.add_chunk(ChunkPos(0, 0, 0), &one_block()).unwrap();
    pool.add_chunk(ChunkPos(1, 0, 0), &one_block()).unwrap();
    pool.remove_chunk(ChunkPos(0, 0, 0));
    assert_eq!(pool.lookup().len(), 1);
    assert!(pool.lookup().get(&ChunkPos(0, 0, 0)).is_none());
    assert_eq!(pool.vertex_allocator().allocated(), 144);
    assert_eq!(pool.storage_allocator().allocated(), 12);
    assert_eq!(pool.vertex_allocator().occupied_spaces(), vec![Space::new(144, 144)]);
    // A chunk that is not placed leaves nothing behind.
    pool.remove_chunk(ChunkPos(9, 9, 9));
    assert_eq!(pool.lookup().len(), 1);
    pool.remove_chunk(ChunkPos(1, 0, 0));
    assert_eq!(pool.vertex_allocator().free_spaces(), vec![Space::new(0, 1024)]);
    assert_eq!(pool.storage_allocator().free_spaces(), vec![Space::new(0, 64)]);
}

#[test]
fn a_pool_without_buffers_places_nothing() {
    let mut pool = ChunkPool::default();
    assert!(pool.add_chunk(ChunkPos(0, 0, 0), &one_block()).is_none());
    // A mesh without vertices takes a space of no length, but the
    // position finds no room.
    let upload = pool.add_chunk(ChunkPos(0, 0, 0), &Chunk::default());
    assert!(upload.is_none());
}
