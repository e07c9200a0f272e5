use vvrs::chunk::block::Block;
use vvrs::chunk::{Chunk, EncodedVertex, LocalBlockPos, CHUNK_SIZE, NUM_BITS_IN_POS};

#[test]
fn chunk_can_modify_chunk() {
    let mut chunk = Chunk::default();

    chunk.set_block(LocalBlockPos(0, 0, 0), Block(1));

    let x = chunk.get_block(&LocalBlockPos(0, 0, 0));
    let y = chunk.get_block(&LocalBlockPos(1, 1, 1));

    assert!(x == Block(1));
    assert!(y == Block(0));
}

#[test]
fn constants_describe_the_chunk() {
    assert_eq!(CHUNK_SIZE, 32);
    assert_eq!(NUM_BITS_IN_POS, 6);
    assert!((1u32 << NUM_BITS_IN_POS) > CHUNK_SIZE);
}

#[test]
fn blocks_are_solid_by_kind() {
    assert!(!Block(0).is_solid());
    assert!(Block(1).is_solid());
    assert!(Block(2).is_solid());
    assert!(!Block(3).is_solid());
    assert!(!Block(4).is_solid());
    assert!(!Block(u32::MAX).is_solid());
}

#[test]
fn positions_outside_the_chunk_read_as_air_and_take_no_block() {
    let mut chunk = Chunk::default();
    chunk.set_block(LocalBlockPos(32, 0, 0), Block(1));
    chunk.set_block(LocalBlockPos(0, 40, 0), Block(1));
    chunk.set_block(LocalBlockPos(0, 0, u32::MAX), Block(1));
    assert_eq!(chunk.get_block(&LocalBlockPos(32, 0, 0)), Block(0));
    assert_eq!(chunk.get_block(&LocalBlockPos(0, 40, 0)), Block(0));
    assert_eq!(chunk.get_block(&LocalBlockPos(0, 0, u32::MAX)), Block(0));
    for x in 0..CHUNK_SIZE {
        for y in 0..CHUNK_SIZE {
            for z in 0..CHUNK_SIZE {
                assert_eq!(chunk.get_block(&LocalBlockPos(x, y, z)), Block(0));
            }
        }
    }
}

#[test]
fn a_block_that_was_set_is_read_back_and_no_other_changes() {
    let mut chunk = Chunk::default();
    chunk.set_block(LocalBlockPos(31, 0, 17), Block(2));
    chunk.set_block(LocalBlockPos(31, 0, 17), Block(3));
    chunk.set_block(LocalBlockPos(5, 6, 7), Block(9));
    assert_eq!(chunk.get_block(&LocalBlockPos(31, 0, 17)), Block(3));
    assert_eq!(chunk.get_block(&LocalBlockPos(5, 6, 7)), Block(9));
    assert_eq!(chunk.get_block(&LocalBlockPos(17, 0, 31)), Block(0));
    assert_eq!(chunk.get_block(&LocalBlockPos(7, 6, 5)), Block(0));
}

#[test]
fn a_full_chunk_is_dirt_everywhere() {
    let chunk = Chunk::full();
    for x in 0..CHUNK_SIZE {
        for y in 0..CHUNK_SIZE {
            for z in 0..CHUNK_SIZE {
                assert_eq!(chunk.get_block(&LocalBlockPos(x, y, z)), Block(1));
            }
        }
    }
}

#[test]
fn a_random_chunk_holds_dirt_or_air() {
    let chunk = Chunk::random();
    let mut dirt = 0;
    for x in 0..CHUNK_SIZE {
        for y in 0..CHUNK_SIZE {
            for z in 0..CHUNK_SIZE {
                let b = chunk.get_block(&LocalBlockPos(x, y, z));
                assert!(b == Block(0) || b == Block(1));
                if b == Block(1) {
                    dirt += 1;
                }
            }
        }
    }
    // 254 of 256 rolls put dirt: far more than half of the chunk holds it.
    assert!(dirt > 32768 / 2);
}

#[test]
fn a_roll_puts_dirt_below_the_bound_alone() {
    let mut chunk = Chunk::default();
    chunk.set_block_on_roll(LocalBlockPos(1, 2, 3), 253);
    chunk.set_block_on_roll(LocalBlockPos(3, 2, 1), 254);
    chunk.set_block_on_roll(LocalBlockPos(4, 4, 4), 255);
    chunk.set_block_on_roll(LocalBlockPos(5, 5, 5), 0);
    assert_eq!(chunk.get_block(&LocalBlockPos(1, 2, 3)), Block(1));
    assert_eq!(chunk.get_block(&LocalBlockPos(3, 2, 1)), Block(0));
    assert_eq!(chunk.get_block(&LocalBlockPos(4, 4, 4)), Block(0));
    assert_eq!(chunk.get_block(&LocalBlockPos(5, 5, 5)), Block(1));
}

#[test]
fn safe_sub_guards_every_component() {
    let p = LocalBlockPos(3, 4, 5);
    assert_eq!(
        LocalBlockPos::safe_sub(&p, &LocalBlockPos(1, 0, 0)),
        Some(LocalBlockPos(2, 4, 5))
    );
    assert_eq!(
        LocalBlockPos::safe_sub(&p, &LocalBlockPos(3, 4, 5)),
        Some(LocalBlockPos(0, 0, 0))
    );
    assert_eq!(LocalBlockPos::safe_sub(&p, &LocalBlockPos(4, 0, 0)), None);
    assert_eq!(LocalBlockPos::safe_sub(&p, &LocalBlockPos(0, 5, 0)), None);
    assert_eq!(LocalBlockPos::safe_sub(&p, &LocalBlockPos(0, 0, 6)), None);
}

#[test]
fn safe_add_guards_every_component() {
    let p = LocalBlockPos(3, 4, u32::MAX - 1);
    assert_eq!(
        LocalBlockPos::safe_add(&p, &LocalBlockPos(1, 1, 1)),
        Some(LocalBlockPos(4, 5, u32::MAX))
    );
    assert_eq!(LocalBlockPos::safe_add(&p, &LocalBlockPos(0, 0, 2)), None);
    assert_eq!(LocalBlockPos::safe_add(&p, &LocalBlockPos(u32::MAX, 0, 0)), None);
}

#[test]
fn index_orders_positions_lexicographically() {
    assert_eq!(LocalBlockPos(0, 0, 0).index(), 0);
    assert_eq!(LocalBlockPos(0, 0, 31).index(), 31);
    assert_eq!(LocalBlockPos(0, 1, 0).index(), 32);
    assert_eq!(LocalBlockPos(1, 0, 0).index(), 1024);
    assert_eq!(LocalBlockPos(31, 31, 31).index(), 32767);
    assert_eq!(LocalBlockPos::from_index(1024 + 64 + 3), LocalBlockPos(1, 2, 3));
    assert!(LocalBlockPos(31, 31, 31).in_bounds());
    assert!(!LocalBlockPos(31, 32, 31).in_bounds());
}

#[test]
fn to_untyped_hands_out_the_bits() {
    assert_eq!(EncodedVertex(0x12345).to_untyped(), 0x12345);
}

#[test]
fn textures_lie_in_a_row() {
    assert_eq!(Block(0).texture_tile(), 0);
    assert_eq!(Block(1).texture_tile(), 0);
    assert_eq!(Block(2).texture_tile(), 1);
    assert_eq!(Block(3).texture_tile(), 2);
    assert_eq!(Block(4).texture_tile(), 0);
}
