//! Which chunks come and go when the viewer moves: the chunks around the
//! viewer are loaded, and the loaded chunks that lie further away leave.

use crate::chunk::ChunkPos;
use vstd::prelude::*;

verus! {

/// The chunk at `p` lies in the range of `radius` chunks around the chunk
/// at `center`. The range is a cube, and all three coordinates of it run
/// around the x coordinate of the centre.
pub open spec fn in_range(p: ChunkPos, center: ChunkPos, radius: int) -> bool {
    &&& center.0 - radius <= p.0 <= center.0 + radius
    &&& center.0 - radius <= p.1 <= center.0 + radius
    &&& center.0 - radius <= p.2 <= center.0 + radius
}

/// `p` comes before `q` in the lexicographic order of `(x, y, z)`.
pub open spec fn precedes(p: ChunkPos, q: ChunkPos) -> bool {
    p.0 < q.0 || (p.0 == q.0 && (p.1 < q.1 || (p.1 == q.1 && p.2 < q.2)))
}

/// Each position of `s` comes before the next one.
pub open spec fn ascending(s: Seq<ChunkPos>) -> bool {
    forall|i: int, j: int| 0 <= i < j < s.len() ==> precedes(#[trigger] s[i], #[trigger] s[j])
}

/// The chunks among the first `n` of `loaded` that lie out of the range, in
/// the order of `loaded`.
pub open spec fn out_of_range(loaded: Seq<ChunkPos>, center: ChunkPos, radius: int, n: int) -> Seq<
    ChunkPos,
>
    decreases n,
{
    if n <= 0 {
        Seq::empty()
    } else if in_range(loaded[n - 1], center, radius) {
        out_of_range(loaded, center, radius, n - 1)
    } else {
        out_of_range(loaded, center, radius, n - 1).push(loaded[n - 1])
    }
}

/// What a move of the viewer asks for.
pub struct LoadPlan {
    /// The loaded chunks that leave: those out of the range.
    pub to_remove: Vec<ChunkPos>,
    /// The chunks that come: those in the range that are not loaded, in
    /// lexicographic order.
    pub to_add: Vec<ChunkPos>,
}

/// Whether `p` is one of `list`.
pub fn is_listed(list: &Vec<ChunkPos>, p: &ChunkPos) -> (r: bool)
    ensures
        r == list@.contains(*p),
{
    let mut i: usize = 0;
    while i < list.len()
        invariant
            0 <= i <= list@.len(),
            forall|j: int| 0 <= j < i ==> list@[j] != *p,
        decreases list@.len() - i,
    {
        if list[i] == *p {
            return true;
        }
        i += 1;
    }
    false
}

/// The position `(x, y, z)` comes before the point that the walk over the
/// range has come to.
spec fn walked(p: ChunkPos, x: int, y: int, z: int) -> bool {
    p.0 < x || (p.0 == x && (p.1 < y || (p.1 == y && p.2 < z)))
}

/// Recalculates the chunks that need to be loaded: which of the chunks
/// that are loaded leave, and which chunks come.
pub fn plan_load(loaded: &Vec<ChunkPos>, center: ChunkPos, radius: u32) -> (plan: LoadPlan)
    requires
        i32::MIN <= center.0 - radius,
        center.0 + radius <= i32::MAX,
    ensures
        plan.to_remove@ == out_of_range(loaded@, center, radius as int, loaded@.len() as int),
        ascending(plan.to_add@),
        forall|p: ChunkPos| #[trigger]
            plan.to_add@.contains(p) <==> in_range(p, center, radius as int) && !loaded@.contains(
                p,
            ),
{
    let lo: i64 = center.0 as i64 - radius as i64;
    let hi: i64 = center.0 as i64 + radius as i64;
    let ghost r = radius as int;

    let mut to_add: Vec<ChunkPos> = Vec::new();
    let mut x: i64 = lo;
    while x <= hi
        invariant
            lo == center.0 - r,
            hi == center.0 + r,
            i32::MIN <= lo <= x <= hi + 1 <= i32::MAX + 1,
            ascending(to_add@),
            forall|p: ChunkPos|
                to_add@.contains(p) <==> in_range(p, center, r) && walked(p, x as int, lo as int, lo as int)
                    && !loaded@.contains(p),
        decreases hi + 1 - x,
    {
        let mut y: i64 = lo;
        while y <= hi
            invariant
                lo == center.0 - r,
                hi == center.0 + r,
                i32::MIN <= lo <= x <= hi <= i32::MAX,
                lo <= y <= hi + 1,
                ascending(to_add@),
                forall|p: ChunkPos|
                    to_add@.contains(p) <==> in_range(p, center, r) && walked(
                        p,
                        x as int,
                        y as int,
                        lo as int,
                    ) && !loaded@.contains(p),
            decreases hi + 1 - y,
        {
            let mut z: i64 = lo;
            while z <= hi
                invariant
                    lo == center.0 - r,
                    hi == center.0 + r,
                    i32::MIN <= lo <= x <= hi <= i32::MAX,
                    lo <= y <= hi,
                    lo <= z <= hi + 1,
                    ascending(to_add@),
                    forall|p: ChunkPos|
                        to_add@.contains(p) <==> in_range(p, center, r) && walked(
                            p,
                            x as int,
                            y as int,
                            z as int,
                        ) && !loaded@.contains(p),
                decreases hi + 1 - z,
            {
                let new_pos = ChunkPos(x as i32, y as i32, z as i32);
                let ghost before = to_add@;
                if !is_listed(loaded, &new_pos) {
                    to_add.push(new_pos);
                    proof {
                        assert forall|i: int, j: int| 0 <= i < j < to_add@.len() implies precedes(
                            #[trigger] to_add@[i],
                            #[trigger] to_add@[j],
                        ) by {
                            if j == before.len() {
                                assert(before.contains(before[i]));
                            } else {
                                assert(precedes(before[i], before[j]));
                            }
                        }
                        assert(to_add@[before.len() as int] == new_pos);
                    }
                }
                z += 1;
                proof {
                    assert forall|p: ChunkPos|
                        to_add@.contains(p) <==> in_range(p, center, r) && walked(
                            p,
                            x as int,
                            y as int,
                            z as int,
                        ) && !loaded@.contains(p) by {
                        if to_add@.contains(p) {
                            let i = choose|i: int| 0 <= i < to_add@.len() && to_add@[i] == p;
                            if i < before.len() {
                                assert(before[i] == p);
                                assert(before.contains(p));
                            }
                        }
                        if before.contains(p) {
                            let i = choose|i: int| 0 <= i < before.len() && before[i] == p;
                            assert(to_add@[i] == p);
                        }
                    }
                }
            }
            y += 1;
        }
        x += 1;
    }

    let mut to_remove: Vec<ChunkPos> = Vec::new();
    let mut n: usize = 0;
    while n < loaded.len()
        invariant
            lo == center.0 - r,
            hi == center.0 + r,
            0 <= n <= loaded@.len(),
            to_remove@ == out_of_range(loaded@, center, r, n as int),
        decreases loaded@.len() - n,
    {
        let p = loaded[n];
        let inside = lo <= p.0 as i64 && p.0 as i64 <= hi && lo <= p.1 as i64 && p.1 as i64 <= hi
            && lo <= p.2 as i64 && p.2 as i64 <= hi;
        if !inside {
            to_remove.push(p);
        }
        n += 1;
    }
    LoadPlan { to_remove, to_add }
}

} // verus!
