use vvrs::chunk::manager::{is_listed, plan_load};
use vvrs::chunk::ChunkPos;

#[test]
fn nothing_loaded_asks_for_the_whole_range() {
    let plan = plan_load(&vec![], ChunkPos(0, 0, 0), 1);
    assert!(plan.to_remove.is_empty());
    assert_eq!(plan.to_add.len(), 27);
    assert_eq!(plan.to_add[0], ChunkPos(-1, -1, -1));
    assert_eq!(plan.to_add[1], ChunkPos(-1, -1, 0));
    assert_eq!(plan.to_add[3], ChunkPos(-1, 0, -1));
    assert_eq!(plan.to_add[13], ChunkPos(0, 0, 0));
    assert_eq!(plan.to_add[26], ChunkPos(1, 1, 1));
}

#[test]
fn a_radius_of_zero_asks_for_one_chunk() {
    let plan = plan_load(&vec![], ChunkPos(4, 9, 9), 0);
    // Every coordinate of the range runs around the x coordinate.
    assert_eq!(plan.to_add, vec![ChunkPos(4, 4, 4)]);
}

#[test]
fn loaded_chunks_stay_in_the_range_and_leave_outside_it() {
    let loaded = vec![
        ChunkPos(5, 5, 5),
        ChunkPos(0, 0, 0),
        ChunkPos(1, 1, 2),
        ChunkPos(-1, 1, 0),
        ChunkPos(0, -2, 0),
    ];
    let plan = plan_load(&loaded, ChunkPos(0, 0, 0), 1);
    assert_eq!(
        plan.to_remove,
        vec![ChunkPos(5, 5, 5), ChunkPos(1, 1, 2), ChunkPos(0, -2, 0)]
    );
    assert_eq!(plan.to_add.len(), 25);
    assert!(!plan.to_add.contains(&ChunkPos(0, 0, 0)));
    assert!(!plan.to_add.contains(&ChunkPos(-1, 1, 0)));
    assert!(plan.to_add.contains(&ChunkPos(1, 1, 1)));
    for pair in plan.to_add.windows(2) {
        let (p, q) = (pair[0], pair[1]);
        assert!((p.0, p.1, p.2) < (q.0, q.1, q.2));
    }
}

#[test]
fn the_range_may_reach_the_edge_of_the_world() {
    let plan = plan_load(&vec![], ChunkPos(i32::MAX - 1, 0, 0), 1);
    assert_eq!(plan.to_add.len(), 27);
    assert_eq!(plan.to_add[26], ChunkPos(i32::MAX, i32::MAX, i32::MAX));
}

#[test]
fn is_listed_finds_what_the_list_holds() {
    let list = vec![ChunkPos(1, 2, 3), ChunkPos(3, 2, 1)];
    assert!(is_listed(&list, &ChunkPos(3, 2, 1)));
    assert!(!is_listed(&list, &ChunkPos(3, 2, 2)));
    assert!(!is_listed(&vec![], &ChunkPos(0, 0, 0)));
}
