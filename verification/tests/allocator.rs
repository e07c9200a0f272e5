use vvrs::allocator::{Allocator, Space};

#[test]
fn gpu_allocs_in_order() {
    let mut x = Allocator::new(1024);

    let offset = x.allocate(24).expect("");
    assert!(offset == 0);

    let offset = x.allocate(10).expect("");
    assert!(offset == 24);

    let offset = x.allocate(11).expect("");
    assert!(offset == 34);
}

#[test]
fn gpu_allocs_fit_blocks() {
    let mut x = Allocator::new(1024);

    let _ = x.allocate(24).expect("");
    let offset = x.allocate(10).expect("");
    let _ = x.allocate(11).expect("");

    x.dealloc(offset);

    let offset = x.allocate(10).expect("");
    assert!(offset == 24);
}

#[test]
fn allocs_merge_freespace() {
    let mut x = Allocator::new(1024);

    let offset1 = x.allocate(24).expect("");
    let offset2 = x.allocate(10).expect("");
    let offset3 = x.allocate(11).expect("");
    let _ = x.allocate(12).expect("");

    x.dealloc(offset1);
    x.dealloc(offset3);
    x.dealloc(offset2);

    let t = x.allocate(45).expect("");
    assert!(t == 0);
}

#[test]
fn big_allocs_dont_find_space() {
    let mut x = Allocator::new(1024);
    let t = x.allocate(2048);
    assert!(t.is_none());
}

fn total(spaces: &Vec<vvrs::allocator::Space>) -> u64 {
    spaces.iter().map(|s| s.length).sum()
}

fn overlap_free(spaces: &Vec<vvrs::allocator::Space>) -> bool {
    for (i, a) in spaces.iter().enumerate() {
        for (j, b) in spaces.iter().enumerate() {
            if i != j
                && a.length > 0
                && b.length > 0
                && a.offset < b.offset + b.length
                && b.offset < a.offset + a.length
            {
                return false;
            }
        }
    }
    true
}

fn coalesced(spaces: &Vec<vvrs::allocator::Space>) -> bool {
    for (i, a) in spaces.iter().enumerate() {
        for (j, b) in spaces.iter().enumerate() {
            if i != j && a.offset + a.length == b.offset {
                return false;
            }
        }
    }
    true
}

fn check_invariants(x: &Allocator) {
    let free = x.free_spaces();
    let occupied = x.occupied_spaces();
    assert_eq!(total(&free) + total(&occupied), x.capacity());
    assert_eq!(total(&occupied), x.allocated());
    assert!(overlap_free(&free));
    assert!(overlap_free(&occupied));
    let mut all = free.clone();
    all.extend(occupied.iter().cloned());
    assert!(overlap_free(&all));
}

#[test]
fn fresh_allocator_is_one_free_space() {
    let x = Allocator::new(1024);
    assert_eq!(x.capacity(), 1024);
    assert_eq!(x.allocated(), 0);
    assert_eq!(x.free_spaces(), vec![Space::new(0, 1024)]);
    assert!(x.occupied_spaces().is_empty());
}

#[test]
fn default_allocator_holds_nothing() {
    let mut x = Allocator::default();
    assert_eq!(x.capacity(), 0);
    assert!(x.free_spaces().is_empty());
    assert!(x.allocate(1).is_none());
    assert!(x.allocate(0).is_none());
}

#[test]
fn whole_capacity_fits_a_fresh_allocator() {
    let mut x = Allocator::new(1024);
    assert_eq!(x.allocate(1024), Some(0));
    assert!(x.free_spaces().is_empty());
    assert_eq!(x.occupied_spaces(), vec![Space::new(0, 1024)]);
    assert_eq!(x.allocate(1), None);
    check_invariants(&x);
}

#[test]
fn one_more_than_the_capacity_fails_and_changes_nothing() {
    let mut x = Allocator::new(1024);
    let _ = x.allocate(100);
    let free = x.free_spaces();
    let occupied = x.occupied_spaces();
    assert_eq!(x.allocate(1025), None);
    assert_eq!(x.free_spaces(), free);
    assert_eq!(x.occupied_spaces(), occupied);
}

#[test]
fn allocation_takes_the_best_fit() {
    let mut x = Allocator::new(100);
    let a = x.allocate(10).unwrap();
    let _b = x.allocate(10).unwrap();
    let c = x.allocate(30).unwrap();
    let _d = x.allocate(10).unwrap();
    // Free: 10 at 0, 30 at 20 and 40 at 60.
    x.dealloc(a);
    x.dealloc(c);
    assert_eq!(
        x.free_spaces(),
        vec![Space::new(60, 40), Space::new(0, 10), Space::new(20, 30)]
    );
    // 25 fits the spaces of 40 and of 30: the one of 30 leaves less.
    assert_eq!(x.allocate(25), Some(20));
    assert_eq!(
        x.free_spaces(),
        vec![Space::new(60, 40), Space::new(0, 10), Space::new(45, 5)]
    );
    check_invariants(&x);
}

#[test]
fn equal_fits_are_taken_in_list_order() {
    let mut x = Allocator::new(40);
    let a = x.allocate(10).unwrap();
    let _b = x.allocate(10).unwrap();
    let c = x.allocate(10).unwrap();
    let _d = x.allocate(10).unwrap();
    x.dealloc(c);
    x.dealloc(a);
    assert_eq!(x.free_spaces(), vec![Space::new(20, 10), Space::new(0, 10)]);
    assert_eq!(x.allocate(10), Some(20));
    assert_eq!(x.allocate(10), Some(0));
}

#[test]
fn freed_space_joins_the_free_space_behind_it() {
    let mut x = Allocator::new(1024);
    let a = x.allocate(24).unwrap();
    let b = x.allocate(10).unwrap();
    x.dealloc(b);
    // The space given back lies before the free rest: the rest grows
    // downward by its length.
    assert_eq!(x.free_spaces(), vec![Space::new(24, 1000)]);
    check_invariants(&x);
    x.dealloc(a);
    assert_eq!(x.free_spaces(), vec![Space::new(0, 1024)]);
    assert_eq!(x.allocated(), 0);
}

#[test]
fn freed_space_joins_both_neighbours() {
    let mut x = Allocator::new(100);
    let a = x.allocate(10).unwrap();
    let b = x.allocate(10).unwrap();
    let c = x.allocate(10).unwrap();
    let _d = x.allocate(70).unwrap();
    x.dealloc(a);
    x.dealloc(c);
    assert_eq!(x.free_spaces(), vec![Space::new(0, 10), Space::new(20, 10)]);
    x.dealloc(b);
    assert_eq!(x.free_spaces(), vec![Space::new(0, 30)]);
    assert!(coalesced(&x.free_spaces()));
    check_invariants(&x);
}

#[test]
fn freed_space_joins_neighbours_in_either_list_order() {
    let mut x = Allocator::new(100);
    let a = x.allocate(10).unwrap();
    let b = x.allocate(10).unwrap();
    let c = x.allocate(10).unwrap();
    let _d = x.allocate(70).unwrap();
    x.dealloc(c);
    x.dealloc(a);
    assert_eq!(x.free_spaces(), vec![Space::new(20, 10), Space::new(0, 10)]);
    x.dealloc(b);
    // The space behind is met first; the space before then takes both.
    assert_eq!(x.free_spaces(), vec![Space::new(0, 30)]);
    check_invariants(&x);
}

#[test]
fn freed_space_without_neighbours_stands_alone() {
    let mut x = Allocator::new(30);
    let _a = x.allocate(10).unwrap();
    let b = x.allocate(10).unwrap();
    let _c = x.allocate(10).unwrap();
    x.dealloc(b);
    assert_eq!(x.free_spaces(), vec![Space::new(10, 10)]);
    assert_eq!(
        x.occupied_spaces(),
        vec![Space::new(0, 10), Space::new(20, 10)]
    );
    check_invariants(&x);
}

#[test]
fn is_allocated_tells_the_offsets_in_use() {
    let mut x = Allocator::new(64);
    let a = x.allocate(16).unwrap();
    assert!(x.is_allocated(a));
    assert!(!x.is_allocated(16));
    x.dealloc(a);
    assert!(!x.is_allocated(a));
}

#[test]
fn invariants_hold_along_a_run() {
    let mut x = Allocator::new(4096);
    let mut held: Vec<u64> = Vec::new();
    let mut seed: u64 = 12345;
    for step in 0..400 {
        seed = seed.wrapping_mul(6364136223846793005).wrapping_add(1442695040888963407);
        let roll = seed >> 33;
        if step % 3 != 2 || held.is_empty() {
            if let Some(offset) = x.allocate(1 + roll % 300) {
                held.push(offset);
            }
        } else {
            let offset = held.remove((roll as usize) % held.len());
            assert!(x.is_allocated(offset));
            x.dealloc(offset);
            assert!(coalesced(&x.free_spaces()));
        }
        check_invariants(&x);
    }
}

#[test]
fn empty_allocations_can_leave_free_spaces_that_touch() {
    let mut x = Allocator::new(30);
    assert_eq!(x.allocate(4), Some(0));
    assert_eq!(x.allocate(0), Some(4));
    x.dealloc(0);
    assert_eq!(x.allocate(20), Some(0));
    assert_eq!(x.allocate(5), Some(20));
    assert_eq!(x.allocate(5), Some(25));
    x.dealloc(4);
    x.dealloc(0);
    assert_eq!(x.free_spaces(), vec![Space::new(4, 0), Space::new(0, 20)]);
    assert_eq!(x.allocate(4), Some(0));
    x.dealloc(25);
    assert_eq!(
        x.free_spaces(),
        vec![Space::new(4, 0), Space::new(4, 16), Space::new(25, 5)]
    );
    assert!(!coalesced(&x.free_spaces()));
    check_invariants(&x);
}

#[test]
fn percent_allocked() {
    let mut x = Allocator::new(2048);
    let _ = x.allocate(1024);
    let percent = x.allocated() as f32 / x.capacity() as f32;
    assert!(percent == 0.5);
}
