use vvrs::chunk::block::Block;
use vvrs::chunk::visibility::{flood_fill, Side, VisibilityGraph};
use vvrs::chunk::{Chunk, LocalBlockPos, CHUNK_SIZE};

#[test]
fn visibility_graph_full_chunk() {
    let full_chunk = Chunk::full();

    let vis_graph = VisibilityGraph::from_chunk(&full_chunk);

    // iter over each entry to check if any are false
    for side1 in Side::iter().iter() {
        for side2 in Side::iter().iter() {
            if side1 == side2 {
                assert!(vis_graph.can_reach_from(*side1, *side2));
                continue;
            }
            assert!(!vis_graph.can_reach_from(*side1, *side2));
        }
    }
}

#[test]
fn visibility_graph_empty_chunk() {
    let empty_chunk = Chunk::default();
    let vis_graph = VisibilityGraph::from_chunk(&empty_chunk);

    // iter over each entry to check if any are false
    for side1 in Side::iter().iter() {
        for side2 in Side::iter().iter() {
            assert!(vis_graph.can_reach_from(*side1, *side2));
        }
    }
}

#[test]
fn visibility_graph_split_x_chunk() {
    let mut split_chunk = Chunk::default();

    // fill the chunk with blocks
    for x in 0..CHUNK_SIZE {
        for y in 0..CHUNK_SIZE {
            for z in 0..CHUNK_SIZE {
                if x == 3 {
                    split_chunk.set_block(LocalBlockPos(x, y, z), Block(1));
                }
            }
        }
    }

    let vis_graph = VisibilityGraph::from_chunk(&split_chunk);

    for side1 in Side::iter().iter() {
        for side2 in Side::iter().iter() {
            if (*side1 == Side::RIGHT && *side2 == Side::LEFT)
                || (*side2 == Side::RIGHT && *side1 == Side::LEFT)
            {
                assert!(!vis_graph.can_reach_from(*side1, *side2));
                continue;
            }

            assert!(
                vis_graph.can_reach_from(*side1, *side2),
                "{:?} - {:?}",
                side1,
                side2
            );
        }
    }
}

#[test]
fn visibility_graph_split_y_chunk() {
    let mut split_chunk = Chunk::default();

    // fill the chunk with blocks
    for x in 0..CHUNK_SIZE {
        for y in 0..CHUNK_SIZE {
            for z in 0..CHUNK_SIZE {
                if y == 3 {
                    split_chunk.set_block(LocalBlockPos(x, y, z), Block(1));
                }
            }
        }
    }

    let vis_graph = VisibilityGraph::from_chunk(&split_chunk);

    for side1 in Side::iter().iter() {
        for side2 in Side::iter().iter() {
            if (*side1 == Side::TOP && *side2 == Side::BOTTOM)
                || (*side2 == Side::TOP && *side1 == Side::BOTTOM)
            {
                assert!(!vis_graph.can_reach_from(*side1, *side2));
                continue;
            }

            assert!(
                vis_graph.can_reach_from(*side1, *side2),
                "{:?} - {:?}",
                side1,
                side2
            );
        }
    }
}

#[test]
fn visibility_graph_split_z_chunk() {
    let mut split_chunk = Chunk::default();

    // fill the chunk with blocks
    for x in 0..CHUNK_SIZE {
        for y in 0..CHUNK_SIZE {
            for z in 0..CHUNK_SIZE {
                if z == 3 {
                    split_chunk.set_block(LocalBlockPos(x, y, z), Block(1));
                }
            }
        }
    }

    let vis_graph = VisibilityGraph::from_chunk(&split_chunk);

    for side1 in Side::iter().iter() {
        for side2 in Side::iter().iter() {
            if (*side1 == Side::FRONT && *side2 == Side::BACK)
                || (*side2 == Side::FRONT && *side1 == Side::BACK)
            {
                assert!(!vis_graph.can_reach_from(*side1, *side2));
                continue;
            }

            assert!(
                vis_graph.can_reach_from(*side1, *side2),
                "{:?} - {:?}",
                side1,
                side2
            );
        }
    }
}

#[test]
fn sides_are_numbered_in_order() {
    let sides = Side::iter();
    assert_eq!(
        sides,
        vec![Side::FRONT, Side::BACK, Side::TOP, Side::BOTTOM, Side::LEFT, Side::RIGHT]
    );
    for (k, side) in sides.iter().enumerate() {
        assert_eq!(side.index(), k);
    }
}

#[test]
fn opposite_sides_come_in_pairs() {
    assert_eq!(Side::FRONT.opposite(), Side::BACK);
    assert_eq!(Side::BACK.opposite(), Side::FRONT);
    assert_eq!(Side::TOP.opposite(), Side::BOTTOM);
    assert_eq!(Side::BOTTOM.opposite(), Side::TOP);
    assert_eq!(Side::LEFT.opposite(), Side::RIGHT);
    assert_eq!(Side::RIGHT.opposite(), Side::LEFT);
    for side in Side::iter() {
        assert_eq!(side.opposite().opposite(), side);
        assert_ne!(side.opposite(), side);
    }
}

#[test]
fn the_empty_graph_joins_each_side_with_itself_alone() {
    let g = VisibilityGraph::empty_graph();
    for a in Side::iter() {
        for b in Side::iter() {
            assert_eq!(g.can_reach_from(a, b), a == b);
        }
    }
}

#[test]
fn a_pocket_joins_the_sides_it_touches_alone() {
    // A solid chunk with a tunnel along z at x = 5, y = 6 and a closed
    // cave in the middle.
    let mut chunk = Chunk::full();
    for z in 0..CHUNK_SIZE {
        chunk.set_block(LocalBlockPos(5, 6, z), Block(0));
    }
    chunk.set_block(LocalBlockPos(16, 16, 16), Block(0));
    let g = VisibilityGraph::from_chunk(&chunk);
    for a in Side::iter() {
        for b in Side::iter() {
            let through = (a == Side::FRONT && b == Side::BACK)
                || (a == Side::BACK && b == Side::FRONT);
            assert_eq!(g.can_reach_from(a, b), a == b || through, "{:?} - {:?}", a, b);
        }
    }
}

#[test]
fn two_pockets_do_not_join_their_sides() {
    // A dent in the bottom and a dent in the top, apart from each other, and
    // a corner cell that lies on three sides.
    let mut chunk = Chunk::full();
    chunk.set_block(LocalBlockPos(4, 0, 4), Block(3));
    chunk.set_block(LocalBlockPos(4, 31, 4), Block(0));
    chunk.set_block(LocalBlockPos(0, 31, 31), Block(0));
    let g = VisibilityGraph::from_chunk(&chunk);
    assert!(!g.can_reach_from(Side::TOP, Side::BOTTOM));
    assert!(!g.can_reach_from(Side::BOTTOM, Side::TOP));
    assert!(g.can_reach_from(Side::TOP, Side::RIGHT));
    assert!(g.can_reach_from(Side::RIGHT, Side::BACK));
    assert!(g.can_reach_from(Side::BACK, Side::TOP));
    assert!(!g.can_reach_from(Side::BOTTOM, Side::RIGHT));
    assert!(!g.can_reach_from(Side::LEFT, Side::TOP));
    assert!(!g.can_reach_from(Side::FRONT, Side::BACK));
}

#[test]
fn flood_fill_marks_one_pocket() {
    let mut chunk = Chunk::default();
    for y in 0..CHUNK_SIZE {
        for z in 0..CHUNK_SIZE {
            chunk.set_block(LocalBlockPos(10, y, z), Block(2));
        }
    }
    let mut visited = vec![false; 32768];
    let touched = flood_fill(&chunk, &LocalBlockPos(0, 5, 5), &mut visited);
    // FRONT, BACK, TOP, BOTTOM and RIGHT (x = 0), not LEFT (x = 31).
    assert_eq!(touched, [true, true, true, true, false, true]);
    assert!(visited[LocalBlockPos(9, 31, 31).index()]);
    assert!(!visited[LocalBlockPos(11, 0, 0).index()]);
    // A second fill from the same pocket finds nothing new.
    let again = flood_fill(&chunk, &LocalBlockPos(3, 3, 3), &mut visited);
    assert_eq!(again, [false; 6]);
    // A fill from a solid cell touches nothing.
    let solid = flood_fill(&chunk, &LocalBlockPos(10, 3, 3), &mut visited);
    assert_eq!(solid, [false; 6]);
    let other = flood_fill(&chunk, &LocalBlockPos(20, 3, 3), &mut visited);
    assert_eq!(other, [true, true, true, true, true, false]);
}

#[test]
fn a_solid_layer_parts_the_two_sides_across_it_wherever_it_lies() {
    for (axis, low, high) in [
        (0, Side::RIGHT, Side::LEFT),
        (1, Side::BOTTOM, Side::TOP),
        (2, Side::FRONT, Side::BACK),
    ] {
        for at in [1u32, 15, 30] {
            let mut chunk = Chunk::default();
            for u in 0..CHUNK_SIZE {
                for v in 0..CHUNK_SIZE {
                    let pos = match axis {
                        0 => LocalBlockPos(at, u, v),
                        1 => LocalBlockPos(u, at, v),
                        _ => LocalBlockPos(u, v, at),
                    };
                    chunk.set_block(pos, Block(2));
                }
            }
            let g = VisibilityGraph::from_chunk(&chunk);
            for a in Side::iter() {
                for b in Side::iter() {
                    let parted = (a == low && b == high) || (a == high && b == low);
                    assert_eq!(g.can_reach_from(a, b), !parted, "{:?} - {:?}", a, b);
                }
            }
        }
    }
}

#[test]
fn a_layer_on_the_border_leaves_its_side_alone() {
    // A solid layer at x = 0: no empty cell lies on the side RIGHT.
    let mut chunk = Chunk::default();
    for y in 0..CHUNK_SIZE {
        for z in 0..CHUNK_SIZE {
            chunk.set_block(LocalBlockPos(0, y, z), Block(1));
        }
    }
    let g = VisibilityGraph::from_chunk(&chunk);
    for a in Side::iter() {
        for b in Side::iter() {
            let alone = (a == Side::RIGHT) != (b == Side::RIGHT);
            assert_eq!(g.can_reach_from(a, b), !alone, "{:?} - {:?}", a, b);
        }
    }
}

#[test]
fn the_graph_is_symmetric() {
    let mut chunk = Chunk::full();
    let mut seed: u32 = 99;
    for x in 0..CHUNK_SIZE {
        for y in 0..CHUNK_SIZE {
            for z in 0..CHUNK_SIZE {
                seed = seed.wrapping_mul(1664525).wrapping_add(1013904223);
                if (seed >> 24) % 4 == 0 {
                    chunk.set_block(LocalBlockPos(x, y, z), Block(0));
                }
            }
        }
    }
    let g = VisibilityGraph::from_chunk(&chunk);
    for a in Side::iter() {
        assert!(g.can_reach_from(a, a));
        for b in Side::iter() {
            assert_eq!(g.can_reach_from(a, b), g.can_reach_from(b, a));
        }
    }
}

#[test]
fn sides_look_along_their_axes() {
    assert_eq!(Side::FRONT.direction(), (0, 0, 1));
    assert_eq!(Side::BACK.direction(), (0, 0, -1));
    assert_eq!(Side::TOP.direction(), (0, 1, 0));
    assert_eq!(Side::BOTTOM.direction(), (0, -1, 0));
    assert_eq!(Side::LEFT.direction(), (-1, 0, 0));
    assert_eq!(Side::RIGHT.direction(), (1, 0, 0));
}
