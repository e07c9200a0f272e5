use vvrs::chunk::block::Block;
use vvrs::chunk::faces::FaceMap;
use vvrs::chunk::mesher::{
    add_faces, create_quad, cull_faces, decode_vertex, encode_vertex, greedy_merge, greedy_quads,
    grow_quad, mesh, solid_columns, Quad,
};
use vvrs::chunk::{Chunk, ChunkDimTy, EncodedVertex, LocalBlockPos, CHUNK_SIZE};

fn decoded(v: &Vec<EncodedVertex>) -> Vec<(ChunkDimTy, ChunkDimTy, ChunkDimTy)> {
    v.iter().map(|f| decode_vertex(f)).collect::<Vec<_>>()
}

#[test]
fn mesher_can_modify_chunk() {
    let mut chunk = Chunk::default();

    chunk.set_block(LocalBlockPos(0, 0, 0), Block(1));

    let x = chunk.get_block(&LocalBlockPos(0, 0, 0));
    let y = chunk.get_block(&LocalBlockPos(1, 1, 1));

    assert!(x == Block(1));
    assert!(y == Block(0));
}

#[test]
fn can_mesh_chunk() {
    let mut chunk = Chunk::default();

    for i in 0..CHUNK_SIZE {
        for j in 0..CHUNK_SIZE {
            for k in 0..CHUNK_SIZE {
                let pos = LocalBlockPos(i, j, k);
                chunk.set_block(pos, Block(1));
            }
        }
    }

    let data = mesh(&chunk);

    for i in data {
        println!("{:?}", decoded(&i));
        assert!(i.len() == 6);
    }
}

#[test]
fn a_full_chunk_has_one_quad_over_each_side() {
    let data = mesh(&Chunk::full());
    // -Z: the side at z = 0.
    assert_eq!(
        decoded(&data[0]),
        vec![(0, 0, 0), (32, 0, 0), (32, 32, 0), (0, 0, 0), (32, 32, 0), (0, 32, 0)]
    );
    // +Y: the side at y = 32.
    assert_eq!(
        decoded(&data[1]),
        vec![(0, 32, 0), (32, 32, 0), (32, 32, 32), (0, 32, 0), (32, 32, 32), (0, 32, 32)]
    );
    // +X: the side at x = 32.
    assert_eq!(
        decoded(&data[2]),
        vec![(32, 0, 0), (32, 32, 0), (32, 32, 32), (32, 0, 0), (32, 32, 32), (32, 0, 32)]
    );
    // +Z: the side at z = 32.
    assert_eq!(
        decoded(&data[3]),
        vec![(0, 0, 32), (32, 0, 32), (32, 32, 32), (0, 0, 32), (32, 32, 32), (0, 32, 32)]
    );
    // -Y: the side at y = 0.
    assert_eq!(
        decoded(&data[4]),
        vec![(0, 0, 0), (32, 0, 0), (32, 0, 32), (0, 0, 0), (32, 0, 32), (0, 0, 32)]
    );
    // -X: the side at x = 0.
    assert_eq!(
        decoded(&data[5]),
        vec![(0, 0, 0), (0, 32, 0), (0, 32, 32), (0, 0, 0), (0, 32, 32), (0, 0, 32)]
    );
}

#[test]
fn an_empty_chunk_has_no_quads() {
    let data = mesh(&Chunk::default());
    for side in data.iter() {
        assert!(side.is_empty());
    }
}

#[test]
fn a_chunk_of_leaves_has_no_quads() {
    let mut chunk = Chunk::default();
    for x in 0..CHUNK_SIZE {
        for y in 0..CHUNK_SIZE {
            chunk.set_block(LocalBlockPos(x, y, 7), Block(3));
        }
    }
    for side in mesh(&chunk).iter() {
        assert!(side.is_empty());
    }
}

#[test]
fn a_single_block_has_one_quad_in_each_direction() {
    let mut chunk = Chunk::default();
    chunk.set_block(LocalBlockPos(3, 4, 5), Block(2));
    let data = mesh(&chunk);
    assert_eq!(
        decoded(&data[0]),
        vec![(3, 4, 5), (4, 4, 5), (4, 5, 5), (3, 4, 5), (4, 5, 5), (3, 5, 5)]
    );
    assert_eq!(
        decoded(&data[3]),
        vec![(3, 4, 6), (4, 4, 6), (4, 5, 6), (3, 4, 6), (4, 5, 6), (3, 5, 6)]
    );
    assert_eq!(
        decoded(&data[1]),
        vec![(3, 5, 5), (4, 5, 5), (4, 5, 6), (3, 5, 5), (4, 5, 6), (3, 5, 6)]
    );
    assert_eq!(
        decoded(&data[4]),
        vec![(3, 4, 5), (4, 4, 5), (4, 4, 6), (3, 4, 5), (4, 4, 6), (3, 4, 6)]
    );
    assert_eq!(
        decoded(&data[2]),
        vec![(4, 4, 5), (4, 5, 5), (4, 5, 6), (4, 4, 5), (4, 5, 6), (4, 4, 6)]
    );
    assert_eq!(
        decoded(&data[5]),
        vec![(3, 4, 5), (3, 5, 5), (3, 5, 6), (3, 4, 5), (3, 5, 6), (3, 4, 6)]
    );
}

#[test]
fn faces_between_solid_blocks_are_culled() {
    let mut chunk = Chunk::default();
    chunk.set_block(LocalBlockPos(0, 0, 0), Block(1));
    chunk.set_block(LocalBlockPos(1, 0, 0), Block(1));
    let masks = solid_columns(&chunk);
    assert_eq!(masks.len(), 1024);
    assert_eq!(masks[0], 1);
    assert_eq!(masks[32], 1);
    assert_eq!(masks[1], 0);
    // +X shows at the second block alone, -X at the first alone.
    let plus_x = cull_faces(&chunk, &masks, 2);
    assert_eq!(plus_x.get(&LocalBlockPos(0, 0, 0)), None);
    assert_eq!(plus_x.get(&LocalBlockPos(1, 0, 0)), Some(Block(1)));
    let minus_x = cull_faces(&chunk, &masks, 5);
    assert_eq!(minus_x.get(&LocalBlockPos(0, 0, 0)), Some(Block(1)));
    assert_eq!(minus_x.get(&LocalBlockPos(1, 0, 0)), None);
    // Both show in the four other directions.
    for axis in [0, 1, 3, 4] {
        let faces = cull_faces(&chunk, &masks, axis);
        assert_eq!(faces.get(&LocalBlockPos(0, 0, 0)), Some(Block(1)));
        assert_eq!(faces.get(&LocalBlockPos(1, 0, 0)), Some(Block(1)));
        assert_eq!(faces.get(&LocalBlockPos(2, 0, 0)), None);
    }
    // The two blocks merge into one quad along x.
    let data = mesh(&chunk);
    assert_eq!(
        decoded(&data[3]),
        vec![(0, 0, 1), (2, 0, 1), (2, 1, 1), (0, 0, 1), (2, 1, 1), (0, 1, 1)]
    );
    assert_eq!(data[2].len(), 6);
    assert_eq!(data[5].len(), 6);
}

#[test]
fn faces_in_a_column_are_culled_along_z() {
    let mut chunk = Chunk::default();
    for z in 0..CHUNK_SIZE {
        chunk.set_block(LocalBlockPos(9, 9, z), Block(2));
    }
    let masks = solid_columns(&chunk);
    assert_eq!(masks[9 * 32 + 9], u32::MAX);
    let minus_z = cull_faces(&chunk, &masks, 0);
    let plus_z = cull_faces(&chunk, &masks, 3);
    for z in 0..CHUNK_SIZE {
        let here = LocalBlockPos(9, 9, z);
        assert_eq!(minus_z.get(&here), if z == 0 { Some(Block(2)) } else { None });
        assert_eq!(plus_z.get(&here), if z == 31 { Some(Block(2)) } else { None });
    }
}

#[test]
fn add_faces_decodes_every_bit_of_a_full_mask() {
    let chunk = Chunk::full();
    let mut data = FaceMap::new();
    add_faces(&chunk, &mut data, 2, 3, u32::MAX);
    for z in 0..CHUNK_SIZE {
        assert_eq!(data.get(&LocalBlockPos(2, 3, z)), Some(Block(1)));
    }
    assert_eq!(data.get(&LocalBlockPos(2, 4, 0)), None);
    assert_eq!(data.get(&LocalBlockPos(3, 3, 0)), None);
}

#[test]
fn add_faces_decodes_the_bits_that_are_set() {
    let mut chunk = Chunk::default();
    chunk.set_block(LocalBlockPos(0, 0, 31), Block(2));
    chunk.set_block(LocalBlockPos(0, 0, 4), Block(1));
    let mut data = FaceMap::new();
    data.insert(LocalBlockPos(7, 7, 7), Block(5));
    add_faces(&chunk, &mut data, 0, 0, 0x8000_0011);
    assert_eq!(data.get(&LocalBlockPos(0, 0, 31)), Some(Block(2)));
    assert_eq!(data.get(&LocalBlockPos(0, 0, 4)), Some(Block(1)));
    assert_eq!(data.get(&LocalBlockPos(0, 0, 0)), Some(Block(0)));
    assert_eq!(data.get(&LocalBlockPos(0, 0, 1)), None);
    assert_eq!(data.get(&LocalBlockPos(0, 0, 30)), None);
    assert_eq!(data.get(&LocalBlockPos(7, 7, 7)), Some(Block(5)));
    add_faces(&chunk, &mut data, 0, 0, 0);
    assert_eq!(data.get(&LocalBlockPos(0, 0, 1)), None);
}

#[test]
fn face_map_holds_what_was_put() {
    let mut m = FaceMap::new();
    assert_eq!(m.get(&LocalBlockPos(1, 2, 3)), None);
    m.insert(LocalBlockPos(1, 2, 3), Block(1));
    m.insert(LocalBlockPos(40, 2, 3), Block(1));
    assert_eq!(m.get(&LocalBlockPos(1, 2, 3)), Some(Block(1)));
    assert_eq!(m.get(&LocalBlockPos(40, 2, 3)), None);
    m.insert(LocalBlockPos(1, 2, 3), Block(2));
    assert_eq!(m.get(&LocalBlockPos(1, 2, 3)), Some(Block(2)));
    m.remove(&LocalBlockPos(1, 2, 3));
    assert_eq!(m.get(&LocalBlockPos(1, 2, 3)), None);
    m.remove(&LocalBlockPos(1, 2, 3));
    m.remove(&LocalBlockPos(99, 2, 3));
    assert_eq!(m.get(&LocalBlockPos(1, 2, 3)), None);
}

fn quad(c1: (u32, u32, u32), c2: (u32, u32, u32), block: u32, axis: usize) -> Quad {
    Quad {
        c1: LocalBlockPos(c1.0, c1.1, c1.2),
        c2: LocalBlockPos(c2.0, c2.1, c2.2),
        block: Block(block),
        axis,
    }
}

#[test]
fn greedy_merge_stops_at_another_block_type() {
    let mut faces = FaceMap::new();
    for x in 0..4 {
        faces.insert(LocalBlockPos(x, 0, 0), Block(1));
    }
    faces.insert(LocalBlockPos(4, 0, 0), Block(2));
    faces.insert(LocalBlockPos(5, 0, 0), Block(1));
    let quads = greedy_quads(&mut faces, 0);
    assert_eq!(
        quads,
        vec![
            quad((0, 0, 0), (3, 0, 0), 1, 0),
            quad((4, 0, 0), (4, 0, 0), 2, 0),
            quad((5, 0, 0), (5, 0, 0), 1, 0),
        ]
    );
    assert_eq!(faces.get(&LocalBlockPos(0, 0, 0)), None);
    assert_eq!(faces.get(&LocalBlockPos(5, 0, 0)), None);
}

#[test]
fn greedy_merge_takes_whole_rows_alone() {
    // An L: three long in the first row, two long in the second.
    let mut faces = FaceMap::new();
    for x in 0..3 {
        faces.insert(LocalBlockPos(x, 0, 0), Block(1));
    }
    for x in 0..2 {
        faces.insert(LocalBlockPos(x, 1, 0), Block(1));
    }
    let quads = greedy_quads(&mut faces, 3);
    assert_eq!(
        quads,
        vec![quad((0, 0, 0), (2, 0, 0), 1, 3), quad((0, 1, 0), (1, 1, 0), 1, 3)]
    );
}

#[test]
fn greedy_merge_grows_over_full_rows() {
    let mut faces = FaceMap::new();
    for x in 2..6 {
        for y in 1..4 {
            faces.insert(LocalBlockPos(x, y, 9), Block(2));
        }
    }
    faces.insert(LocalBlockPos(2, 4, 9), Block(2));
    let quads = greedy_quads(&mut faces, 0);
    assert_eq!(
        quads,
        vec![quad((2, 1, 9), (5, 3, 9), 2, 0), quad((2, 4, 9), (2, 4, 9), 2, 0)]
    );
}

#[test]
fn the_growth_axes_follow_the_direction() {
    // Faces that look along y grow along x and z.
    let mut faces = FaceMap::new();
    for x in 0..2 {
        for z in 0..3 {
            faces.insert(LocalBlockPos(x, 5, z), Block(1));
        }
    }
    assert_eq!(greedy_quads(&mut faces, 1), vec![quad((0, 5, 0), (1, 5, 2), 1, 1)]);
    // Faces that look along x grow along y and z.
    let mut faces = FaceMap::new();
    for y in 0..2 {
        for z in 0..3 {
            faces.insert(LocalBlockPos(5, y, z), Block(1));
        }
    }
    assert_eq!(greedy_quads(&mut faces, 5), vec![quad((5, 0, 0), (5, 1, 2), 1, 5)]);
    // Faces in a plane that the direction does not grow in stay alone.
    let mut faces = FaceMap::new();
    faces.insert(LocalBlockPos(0, 0, 0), Block(1));
    faces.insert(LocalBlockPos(0, 0, 1), Block(1));
    assert_eq!(
        greedy_quads(&mut faces, 0),
        vec![quad((0, 0, 0), (0, 0, 0), 1, 0), quad((0, 0, 1), (0, 0, 1), 1, 0)]
    );
}

#[test]
fn a_quad_grows_backward_from_a_seed_in_its_middle() {
    let mut faces = FaceMap::new();
    for x in 2..6 {
        for y in 1..4 {
            faces.insert(LocalBlockPos(x, y, 0), Block(1));
        }
    }
    let q = grow_quad(&faces, &LocalBlockPos(4, 2, 0), 0);
    assert_eq!(q, quad((2, 1, 0), (5, 3, 0), 1, 0));
}

#[test]
fn greedy_merge_gives_the_vertices_of_its_quads() {
    let mut faces = FaceMap::new();
    for x in 0..4 {
        faces.insert(LocalBlockPos(x, 0, 0), Block(1));
    }
    let vertices = greedy_merge(&mut faces, 3);
    assert_eq!(
        decoded(&vertices),
        vec![(0, 0, 1), (4, 0, 1), (4, 1, 1), (0, 0, 1), (4, 1, 1), (0, 1, 1)]
    );
    assert_eq!(faces.get(&LocalBlockPos(0, 0, 0)), None);
    let nothing = greedy_merge(&mut faces, 3);
    assert!(nothing.is_empty());
}

#[test]
fn quads_tile_the_faces_of_a_chunk() {
    let mut chunk = Chunk::default();
    let mut seed: u32 = 7;
    for x in 0..CHUNK_SIZE {
        for y in 0..CHUNK_SIZE {
            for z in 0..CHUNK_SIZE {
                seed = seed.wrapping_mul(1664525).wrapping_add(1013904223);
                if (seed >> 24) % 3 == 0 {
                    chunk.set_block(LocalBlockPos(x, y, z), Block(1 + (seed >> 16) % 2));
                }
            }
        }
    }
    let masks = solid_columns(&chunk);
    for axis in 0..6 {
        let faces = cull_faces(&chunk, &masks, axis);
        let mut left = cull_faces(&chunk, &masks, axis);
        let quads = greedy_quads(&mut left, axis);
        let mut covered = vec![0u8; 32768];
        for q in quads.iter() {
            for x in q.c1.0..=q.c2.0 {
                for y in q.c1.1..=q.c2.1 {
                    for z in q.c1.2..=q.c2.2 {
                        let p = LocalBlockPos(x, y, z);
                        assert_eq!(faces.get(&p), Some(q.block));
                        covered[p.index()] += 1;
                    }
                }
            }
        }
        for i in 0..32768 {
            let p = LocalBlockPos::from_index(i);
            assert_eq!(covered[i], if faces.get(&p).is_some() { 1 } else { 0 });
            assert_eq!(left.get(&p), None);
        }
    }
}

#[test]
fn vertices_round_trip() {
    for (x, y, z) in [(0, 0, 0), (32, 32, 32), (1, 2, 3), (63, 0, 63), (0, 63, 0), (31, 32, 17)] {
        let v = encode_vertex(x, y, z).unwrap();
        assert_eq!(decode_vertex(&v), (x, y, z));
    }
    for x in 0..=CHUNK_SIZE {
        for y in 0..=CHUNK_SIZE {
            for z in 0..=CHUNK_SIZE {
                let v = encode_vertex(x, y, z).unwrap();
                assert_eq!(decode_vertex(&v), (x, y, z));
            }
        }
    }
}

#[test]
fn vertices_pack_six_bits_a_coordinate() {
    assert_eq!(encode_vertex(1, 2, 3).unwrap().to_untyped(), (1 << 12) | (2 << 6) | 3);
    assert_eq!(encode_vertex(32, 0, 0).unwrap().to_untyped(), 32 << 12);
    assert_eq!(encode_vertex(63, 63, 63).unwrap().to_untyped(), 0x3ffff);
    assert_eq!(decode_vertex(&EncodedVertex(0x3f000)), (63, 0, 0));
}

#[test]
fn a_coordinate_beyond_its_field_is_refused() {
    assert!(encode_vertex(64, 0, 0).is_none());
    assert!(encode_vertex(0, 64, 0).is_none());
    assert!(encode_vertex(0, 0, 64).is_none());
    assert!(encode_vertex(u32::MAX, 1, 1).is_none());
    assert!(encode_vertex(63, 63, 63).is_some());
}

#[test]
fn create_quad_orders_the_corners_by_direction() {
    let c1 = LocalBlockPos(1, 2, 3);
    let c2 = LocalBlockPos(4, 6, 3);
    assert_eq!(
        decoded(&create_quad(0, c1, c2).unwrap()),
        vec![(1, 2, 3), (5, 2, 3), (5, 7, 3), (1, 2, 3), (5, 7, 3), (1, 7, 3)]
    );
    assert_eq!(
        decoded(&create_quad(3, c1, c2).unwrap()),
        vec![(1, 2, 4), (5, 2, 4), (5, 7, 4), (1, 2, 4), (5, 7, 4), (1, 7, 4)]
    );
    assert_eq!(
        decoded(&create_quad(1, c1, c2).unwrap()),
        vec![(1, 7, 3), (5, 7, 3), (5, 7, 4), (1, 7, 3), (5, 7, 4), (1, 7, 4)]
    );
    assert_eq!(
        decoded(&create_quad(4, c1, c2).unwrap()),
        vec![(1, 2, 3), (5, 2, 3), (5, 2, 4), (1, 2, 3), (5, 2, 4), (1, 2, 4)]
    );
    assert_eq!(
        decoded(&create_quad(2, c1, c2).unwrap()),
        vec![(5, 2, 3), (5, 7, 3), (5, 7, 4), (5, 2, 3), (5, 7, 4), (5, 2, 4)]
    );
    assert_eq!(
        decoded(&create_quad(5, c1, c2).unwrap()),
        vec![(1, 2, 3), (1, 7, 3), (1, 7, 4), (1, 2, 3), (1, 7, 4), (1, 2, 4)]
    );
}

#[test]
fn create_quad_refuses_corners_that_no_vertex_holds() {
    assert!(create_quad(0, LocalBlockPos(0, 0, 0), LocalBlockPos(62, 62, 62)).is_some());
    assert!(create_quad(0, LocalBlockPos(0, 0, 0), LocalBlockPos(63, 0, 0)).is_none());
    assert!(create_quad(0, LocalBlockPos(0, 64, 0), LocalBlockPos(0, 0, 0)).is_none());
    assert!(create_quad(0, LocalBlockPos(0, 0, 0), LocalBlockPos(0, 0, u32::MAX)).is_none());
}
