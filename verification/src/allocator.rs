//! A free-list allocator over a linear range of fixed capacity.
//!
//! The allocator keeps two lists of [`Space`]s, the free ones and the occupied
//! ones. [`Allocator::allocate`] takes the best fitting free space, and
//! [`Allocator::dealloc`] gives a space back and joins it with the free spaces
//! that touch it. What the two do is defined on [`AllocatorView`] by
//! [`allocate_spec`] and [`dealloc_spec`]; the properties of those definitions
//! are proved at the end of this file.

use vstd::prelude::*;

verus! {

/// A contiguous region `[offset, offset + length)` of the managed range.
#[derive(Debug, Clone, Copy, PartialEq, Eq, Structural)]
pub struct Space {
    pub offset: u64,
    pub length: u64,
}

impl Space {
    /// One past the last address of the region.
    pub open spec fn end(self) -> int {
        self.offset + self.length
    }

    /// The region of `length` addresses from `offset` on.
    pub fn new(offset: u64, length: u64) -> (s: Space)
        ensures
            s == (Space { offset, length }),
    {
        Space { offset, length }
    }
}

/// The state of an allocator: its capacity and its two lists, in list order.
pub struct AllocatorView {
    pub size: nat,
    pub free: Seq<Space>,
    pub occupied: Seq<Space>,
}

/// The sum of the lengths of `s`.
pub open spec fn total_length(s: Seq<Space>) -> nat
    decreases s.len(),
{
    if s.len() == 0 {
        0
    } else {
        total_length(s.drop_last()) + s.last().length as nat
    }
}

/// Some address lies in both `a` and `b`.
pub open spec fn overlap(a: Space, b: Space) -> bool {
    a.offset < b.end() && b.offset < a.end() && a.length > 0 && b.length > 0
}

/// No two entries of `s` overlap.
pub open spec fn disjoint_within(s: Seq<Space>) -> bool {
    forall|i: int, j: int| 0 <= i < s.len() && 0 <= j < s.len() && i != j ==> !overlap(s[i], s[j])
}

/// No entry of `a` overlaps an entry of `b`.
pub open spec fn disjoint_across(a: Seq<Space>, b: Seq<Space>) -> bool {
    forall|i: int, j: int| 0 <= i < a.len() && 0 <= j < b.len() ==> !overlap(a[i], b[j])
}

/// Every entry of `s` ends at or before `size`.
pub open spec fn within(s: Seq<Space>, size: nat) -> bool {
    forall|i: int| 0 <= i < s.len() ==> (#[trigger] s[i]).end() <= size
}

/// The free and the occupied lengths add up to the capacity.
pub open spec fn conserved(v: AllocatorView) -> bool {
    total_length(v.free) + total_length(v.occupied) == v.size
}

/// No two spaces, free or occupied, overlap.
pub open spec fn disjoint(v: AllocatorView) -> bool {
    &&& disjoint_within(v.free)
    &&& disjoint_within(v.occupied)
    &&& disjoint_across(v.free, v.occupied)
}

/// The invariant of every allocator state: the spaces lie within the
/// capacity, they add up to it, and no two of them overlap.
pub open spec fn inv(v: AllocatorView) -> bool {
    &&& v.size <= u64::MAX
    &&& within(v.free, v.size)
    &&& within(v.occupied, v.size)
    &&& conserved(v)
    &&& disjoint(v)
}

/// No free space ends where another one begins.
pub open spec fn coalesced(free: Seq<Space>) -> bool {
    forall|i: int, j: int|
        0 <= i < free.len() && 0 <= j < free.len() && i != j ==> free[i].end() != free[j].offset
}

/// No space is empty, but for the free space of an allocator of capacity 0.
pub open spec fn no_empty_space(v: AllocatorView) -> bool {
    &&& forall|i: int| 0 <= i < v.occupied.len() ==> (#[trigger] v.occupied[i]).length > 0
    &&& v.size > 0 ==> forall|i: int| 0 <= i < v.free.len() ==> (#[trigger] v.free[i]).length > 0
}

/// The state that an allocator keeps as long as no allocation has length 0:
/// no space is empty and the free spaces are pairwise apart.
pub open spec fn tidy(v: AllocatorView) -> bool {
    no_empty_space(v) && coalesced(v.free)
}

/// The least index from `from` on whose space satisfies `p`; the length of
/// `s` where there is none.
pub open spec fn find_from(s: Seq<Space>, p: spec_fn(Space) -> bool, from: int) -> int
    decreases s.len() - from,
{
    if from < 0 || from >= s.len() {
        s.len() as int
    } else if p(s[from]) {
        from
    } else {
        find_from(s, p, from + 1)
    }
}

/// The free space at `i` is long enough for `length`.
pub open spec fn fits(free: Seq<Space>, length: u64, i: int) -> bool {
    0 <= i < free.len() && free[i].length >= length
}

/// The free space at `i` is the best fit for `length`: none that fits is
/// shorter, and those before it that fit are longer.
pub open spec fn is_best_fit(free: Seq<Space>, length: u64, i: int) -> bool {
    &&& fits(free, length, i)
    &&& forall|j: int| fits(free, length, j) ==> free[i].length <= free[j].length
    &&& forall|j: int| fits(free, length, j) && j < i ==> free[i].length < free[j].length
}

/// The index of the best fit for `length`, where some free space fits.
pub open spec fn best_fit(free: Seq<Space>, length: u64) -> Option<int> {
    if exists|i: int| fits(free, length, i) {
        Some(choose|i: int| is_best_fit(free, length, i))
    } else {
        None
    }
}

/// The state after `length` was taken from the start of the free space at
/// `i`: that space leaves the free list, what is left of it is appended to
/// the free list, and the part taken is appended to the occupied list.
pub open spec fn carve(v: AllocatorView, i: int, length: u64) -> AllocatorView {
    let f = v.free[i];
    let rest = v.free.remove(i);
    AllocatorView {
        size: v.size,
        free: if f.length > length {
            rest.push(Space { offset: (f.offset + length) as u64, length: (f.length - length) as u64 })
        } else {
            rest
        },
        occupied: v.occupied.push(Space { offset: f.offset, length }),
    }
}

/// What `allocate` returns and the state it leaves.
pub open spec fn allocate_spec(v: AllocatorView, length: u64) -> (Option<u64>, AllocatorView) {
    match best_fit(v.free, length) {
        Some(i) => (Some(v.free[i].offset), carve(v, i, length)),
        None => (None, v),
    }
}

/// `f` lies directly before `s`.
pub open spec fn ends_at_start_of(s: Space) -> spec_fn(Space) -> bool {
    |f: Space| f.end() == s.offset
}

/// `f` lies directly behind `s`.
pub open spec fn starts_at_end_of(s: Space) -> spec_fn(Space) -> bool {
    |f: Space| s.end() == f.offset
}

/// `f` lies directly before or directly behind `s`.
pub open spec fn touches(s: Space) -> spec_fn(Space) -> bool {
    |f: Space| f.end() == s.offset || s.end() == f.offset
}

/// The space has the offset `offset`.
pub open spec fn has_offset(offset: u64) -> spec_fn(Space) -> bool {
    |o: Space| o.offset == offset
}

/// The free list after `s` was given back. `s` joins the first free space
/// that touches it, and then the first one behind that in the list which
/// touches `s` on its other side: of the two spaces joined last, the one at
/// the lower address keeps its place in the list and the other one leaves.
/// Where no free space touches `s`, it is appended.
pub open spec fn coalesce(free: Seq<Space>, s: Space) -> Seq<Space> {
    let m = find_from(free, touches(s), 0);
    if m == free.len() {
        free.push(s)
    } else if free[m].end() == s.offset {
        let g = find_from(free, starts_at_end_of(s), m + 1);
        if g == free.len() {
            free.update(
                m,
                Space { offset: free[m].offset, length: (free[m].length + s.length) as u64 },
            )
        } else {
            free.update(
                m,
                Space {
                    offset: free[m].offset,
                    length: (free[m].length + s.length + free[g].length) as u64,
                },
            ).remove(g)
        }
    } else {
        let g = find_from(free, ends_at_start_of(s), m + 1);
        if g == free.len() {
            free.update(m, Space { offset: s.offset, length: (s.length + free[m].length) as u64 })
        } else {
            free.update(
                g,
                Space {
                    offset: free[g].offset,
                    length: (free[g].length + s.length + free[m].length) as u64,
                },
            ).remove(m)
        }
    }
}

/// Some occupied space has the offset `offset`.
pub open spec fn is_occupied(v: AllocatorView, offset: u64) -> bool {
    find_from(v.occupied, has_offset(offset), 0) < v.occupied.len()
}

/// The state that `dealloc` leaves: the first occupied space with the offset
/// `offset` leaves the occupied list and is given back to the free list.
pub open spec fn dealloc_spec(v: AllocatorView, offset: u64) -> AllocatorView {
    let k = find_from(v.occupied, has_offset(offset), 0);
    AllocatorView {
        size: v.size,
        free: coalesce(v.free, v.occupied[k]),
        occupied: v.occupied.remove(k),
    }
}

/// The state of a fresh allocator of capacity `size`.
pub open spec fn new_spec(size: u64) -> AllocatorView {
    AllocatorView {
        size: size as nat,
        free: seq![Space { offset: 0, length: size }],
        occupied: Seq::empty(),
    }
}


/// A fixed-size allocator over a linear range, used to place data in a
/// buffer of that size.
pub struct Allocator {
    size: u64,
    freelist: Vec<Space>,
    occulist: Vec<Space>,
}

impl View for Allocator {
    type V = AllocatorView;

    closed spec fn view(&self) -> AllocatorView {
        AllocatorView {
            size: self.size as nat,
            free: self.freelist@,
            occupied: self.occulist@,
        }
    }
}

impl Allocator {
    /// The invariant holds of the allocator's state.
    pub open spec fn wf(&self) -> bool {
        inv(self@)
    }

    /// An allocator of capacity `size`, all of it free.
    pub fn new(size: u64) -> (a: Allocator)
        ensures
            a@ == new_spec(size),
            a.wf(),
            tidy(a@),
    {
        let mut freelist: Vec<Space> = Vec::new();
        freelist.push(Space::new(0, size));
        let a = Allocator { size, freelist, occulist: Vec::new() };
        proof {
            assert(a@.free =~= new_spec(size).free);
            assert(a@.occupied =~= new_spec(size).occupied);
            lemma_new_spec(size);
        }
        a
    }

    /// The capacity of the allocator.
    pub fn capacity(&self) -> (n: u64)
        ensures
            n == self@.size,
    {
        self.size
    }

    /// Takes `length` from the free space that fits it with the least left
    /// over, the first of them in the list where several leave as little, and
    /// returns the offset of the part taken. Returns `None`, and changes
    /// nothing, where no free space is long enough. The lengths still add up
    /// to the capacity afterwards and no two spaces overlap.
    pub fn allocate(&mut self, length: u64) -> (res: Option<u64>)
        requires
            old(self).wf(),
        ensures
            res == allocate_spec(old(self)@, length).0,
            final(self)@ == allocate_spec(old(self)@, length).1,
            final(self).wf(),
            res is None <==> forall|i: int| !fits(old(self)@.free, length, i),
            length > old(self)@.size ==> res is None,
            tidy(old(self)@) && length > 0 ==> tidy(final(self)@),
    {
        let mut best: Option<usize> = None;
        let mut i: usize = 0;
        while i < self.freelist.len()
            invariant
                0 <= i <= self.freelist.len(),
                self.freelist@ == old(self).freelist@,
                match best {
                    None => forall|j: int| 0 <= j < i ==> !fits(self.freelist@, length, j),
                    Some(b) => b < i && is_best_fit(self.freelist@.take(i as int), length, b as int),
                },
            decreases self.freelist.len() - i,
        {
            let l = self.freelist[i].length;
            proof {
                let before = self.freelist@.take(i as int);
                let now = self.freelist@.take(i + 1);
                assert(forall|j: int| 0 <= j < i ==> before[j] == now[j]);
                assert(forall|j: int| fits(now, length, j) && j < i ==> fits(before, length, j));
                assert(forall|j: int| fits(before, length, j) ==> fits(now, length, j));
                assert(forall|j: int| fits(now, length, j) ==> fits(self.freelist@, length, j));
                assert(forall|j: int| 0 <= j <= i && fits(self.freelist@, length, j) ==> fits(now, length, j));
            }
            if l >= length {
                match best {
                    None => {
                        best = Some(i);
                    },
                    Some(b) => {
                        if l < self.freelist[b].length {
                            best = Some(i);
                        }
                    },
                }
            }
            i += 1;
        }
        proof {
            assert(self.freelist@.take(i as int) =~= self.freelist@);
            lemma_allocate_spec(old(self)@, length);
        }
        match best {
            None => {
                proof {
                    assert(forall|j: int| !fits(self.freelist@, length, j));
                }
                None
            },
            Some(i) => {
                proof {
                    lemma_best_fit_unique(self.freelist@, length, i as int);
                }
                let fs = self.freelist.remove(i);
                if fs.length > length {
                    self.freelist.push(Space::new(fs.offset + length, fs.length - length));
                }
                self.occulist.push(Space::new(fs.offset, length));
                Some(fs.offset)
            },
        }
    }

    /// The free spaces, in the order of the free list.
    pub fn free_spaces(&self) -> (r: Vec<Space>)
        ensures
            r@ == self@.free,
    {
        self.freelist.clone()
    }

    /// The occupied spaces, in the order in which they were taken.
    pub fn occupied_spaces(&self) -> (r: Vec<Space>)
        ensures
            r@ == self@.occupied,
    {
        self.occulist.clone()
    }

    /// Whether some occupied space has the offset `offset`, so that
    /// [`Allocator::dealloc`] may be called with it.
    pub fn is_allocated(&self, offset: u64) -> (r: bool)
        ensures
            r == is_occupied(self@, offset),
    {
        let k = self.position(offset);
        k < self.occulist.len()
    }

    /// The sum of the lengths of the occupied spaces.
    pub fn allocated(&self) -> (n: u64)
        requires
            self.wf(),
        ensures
            n == total_length(self@.occupied),
    {
        let mut n: u64 = 0;
        let mut i: usize = 0;
        while i < self.occulist.len()
            invariant
                0 <= i <= self.occulist.len(),
                n == total_length(self.occulist@.take(i as int)),
                total_length(self.occulist@) <= u64::MAX,
            decreases self.occulist.len() - i,
        {
            proof {
                assert(self.occulist@.take(i + 1).drop_last() =~= self.occulist@.take(i as int));
                lemma_total_take(self.occulist@, i + 1);
            }
            n = n + self.occulist[i].length;
            i += 1;
        }
        proof {
            assert(self.occulist@.take(i as int) =~= self.occulist@);
        }
        n
    }

    /// The index of the first occupied space with the offset `offset`; the
    /// length of the occupied list where there is none.
    fn position(&self, offset: u64) -> (k: usize)
        ensures
            k == find_from(self.occulist@, has_offset(offset), 0),
            k <= self.occulist.len(),
    {
        let mut k: usize = 0;
        while k < self.occulist.len() && self.occulist[k].offset != offset
            invariant
                0 <= k <= self.occulist.len(),
                forall|j: int| 0 <= j < k ==> !has_offset(offset)(self.occulist@[j]),
            decreases self.occulist.len() - k,
        {
            k += 1;
        }
        proof {
            lemma_find_from_is(self.occulist@, has_offset(offset), 0, k as int);
        }
        k
    }

    /// Gives back the first occupied space with the offset `offset`. It joins
    /// the first free space that touches it, and then the first free space
    /// behind that one in the list which touches it on its other side; where no
    /// free space touches it, it becomes a free space of its own. The lengths
    /// still add up to the capacity afterwards and no two spaces overlap; and
    /// where no space was empty and no two free spaces touched before, none do
    /// afterwards.
    pub fn dealloc(&mut self, offset: u64)
        requires
            old(self).wf(),
            is_occupied(old(self)@, offset),
        ensures
            final(self)@ == dealloc_spec(old(self)@, offset),
            final(self).wf(),
            tidy(old(self)@) ==> tidy(final(self)@),
    {
        proof {
            lemma_dealloc_spec(self@, offset);
        }
        let k = self.position(offset);
        let space = self.occulist.remove(k);
        let n = self.freelist.len();
        let ghost free = self.freelist@;
        let ghost size = self.size;

        let mut m: usize = 0;
        while m < n && !(self.freelist[m].offset + self.freelist[m].length == space.offset
            || space.offset + space.length == self.freelist[m].offset)
            invariant
                0 <= m <= n == free.len(),
                self.freelist@ == free,
                within(free, size as nat),
                space.end() <= size,
                forall|j: int| 0 <= j < m ==> !touches(space)(free[j]),
            decreases n - m,
        {
            m += 1;
        }
        proof {
            lemma_find_from_is(free, touches(space), 0, m as int);
        }
        if m == n {
            self.freelist.push(space);
            return ;
        }
        let f = self.freelist[m];
        if f.offset + f.length == space.offset {
            let mut g: usize = m + 1;
            while g < n && space.offset + space.length != self.freelist[g].offset
                invariant
                    m < g <= n == free.len(),
                    self.freelist@ == free,
                    space.end() <= size,
                    forall|j: int| m < j < g ==> !starts_at_end_of(space)(free[j]),
                decreases n - g,
            {
                g += 1;
            }
            proof {
                lemma_find_from_is(free, starts_at_end_of(space), m + 1, g as int);
            }
            if g == n {
                self.freelist.set(m, Space::new(f.offset, f.length + space.length));
            } else {
                let behind = self.freelist[g].length;
                self.freelist.set(m, Space::new(f.offset, f.length + space.length + behind));
                self.freelist.remove(g);
            }
        } else {
            let mut g: usize = m + 1;
            while g < n && self.freelist[g].offset + self.freelist[g].length != space.offset
                invariant
                    m < g <= n == free.len(),
                    self.freelist@ == free,
                    within(free, size as nat),
                    forall|j: int| m < j < g ==> !ends_at_start_of(space)(free[j]),
                decreases n - g,
            {
                g += 1;
            }
            proof {
                lemma_find_from_is(free, ends_at_start_of(space), m + 1, g as int);
            }
            if g == n {
                self.freelist.set(m, Space::new(space.offset, space.length + f.length));
            } else {
                let before = self.freelist[g];
                self.freelist.set(
                    g,
                    Space::new(before.offset, before.length + space.length + f.length),
                );
                self.freelist.remove(m);
            }
        }
    }
}

impl Default for Allocator {
    /// An allocator of capacity 0 that holds no space at all.
    fn default() -> (a: Allocator)
        ensures
            a@.size == 0,
            a@.free.len() == 0,
            a@.occupied.len() == 0,
            a.wf(),
            tidy(a@),
    {
        Allocator { size: 0, freelist: Vec::new(), occulist: Vec::new() }
    }
}

/// `find_from` returns the least index from `from` on that satisfies `p`.
pub proof fn lemma_find_from(s: Seq<Space>, p: spec_fn(Space) -> bool, from: int)
    requires
        0 <= from <= s.len(),
    ensures
        from <= find_from(s, p, from) <= s.len(),
        find_from(s, p, from) < s.len() ==> p(s[find_from(s, p, from)]),
        forall|j: int| from <= j < find_from(s, p, from) ==> !p(s[j]),
    decreases s.len() - from,
{
    if from < s.len() && !p(s[from]) {
        lemma_find_from(s, p, from + 1);
    }
}

/// An index that satisfies `p` and has none before it from `from` on that
/// does is the one that `find_from` returns.
pub proof fn lemma_find_from_is(s: Seq<Space>, p: spec_fn(Space) -> bool, from: int, i: int)
    requires
        0 <= from <= i <= s.len(),
        i < s.len() ==> p(s[i]),
        forall|j: int| from <= j < i ==> !p(s[j]),
    ensures
        find_from(s, p, from) == i,
{
    lemma_find_from(s, p, from);
}

/// Appending a space adds its length to the sum.
proof fn lemma_total_push(s: Seq<Space>, x: Space)
    ensures
        total_length(s.push(x)) == total_length(s) + x.length,
{
    assert(s.push(x).drop_last() =~= s);
}

/// Taking a space out of a list takes its length off the sum.
proof fn lemma_total_remove(s: Seq<Space>, i: int)
    requires
        0 <= i < s.len(),
    ensures
        total_length(s.remove(i)) + s[i].length == total_length(s),
    decreases s.len(),
{
    if i == s.len() - 1 {
        assert(s.remove(i) =~= s.drop_last());
    } else {
        lemma_total_remove(s.drop_last(), i);
        assert(s.remove(i).drop_last() =~= s.drop_last().remove(i));
    }
}

/// Putting a space in the place of another changes the sum by the
/// difference of their lengths.
proof fn lemma_total_update(s: Seq<Space>, i: int, x: Space)
    requires
        0 <= i < s.len(),
    ensures
        total_length(s.update(i, x)) + s[i].length == total_length(s) + x.length,
    decreases s.len(),
{
    if i == s.len() - 1 {
        assert(s.update(i, x).drop_last() =~= s.drop_last());
    } else {
        lemma_total_update(s.drop_last(), i, x);
        assert(s.update(i, x).drop_last() =~= s.drop_last().update(i, x));
    }
}

/// The lengths of the first `n` spaces add up to no more than those of all.
proof fn lemma_total_take(s: Seq<Space>, n: int)
    requires
        0 <= n <= s.len(),
    ensures
        total_length(s.take(n)) <= total_length(s),
    decreases s.len() - n,
{
    if n < s.len() {
        lemma_total_take(s, n + 1);
        assert(s.take(n + 1).drop_last() =~= s.take(n));
    } else {
        assert(s.take(n) =~= s);
    }
}

/// What joining `s` to the free list has to keep: `r` is longer than `free`
/// by the length of `s`, lies within the capacity, is free of overlaps,
/// overlaps nothing that neither `free` nor `s` overlapped, and is coalesced
/// where `free` was and no space is empty.
spec fn joined(free: Seq<Space>, s: Space, size: nat, r: Seq<Space>) -> bool {
    &&& total_length(r) == total_length(free) + s.length
    &&& within(r, size)
    &&& disjoint_within(r)
    &&& forall|x: Space|
        !overlap(s, x) && (forall|i: int| 0 <= i < free.len() ==> !overlap(free[i], x)) ==> (
        forall|i: int| 0 <= i < r.len() ==> !overlap(#[trigger] r[i], x))
    &&& all_positive(free, s) && coalesced(free) ==> coalesced(r) && forall|i: int|
        0 <= i < r.len() ==> (#[trigger] r[i]).length > 0
}

/// Neither `s` nor a space of `free` is empty.
spec fn all_positive(free: Seq<Space>, s: Space) -> bool {
    s.length > 0 && forall|i: int| 0 <= i < free.len() ==> (#[trigger] free[i]).length > 0
}

/// What `coalesce` starts from: a free list within the capacity and free of
/// overlaps, and a space within the capacity that overlaps none of it.
spec fn joinable(free: Seq<Space>, s: Space, size: nat) -> bool {
    &&& size <= u64::MAX
    &&& within(free, size)
    &&& s.end() <= size
    &&& disjoint_within(free)
    &&& forall|i: int| 0 <= i < free.len() ==> !overlap(free[i], s)
}

/// `s` touches no free space and is appended.
proof fn lemma_join_none(free: Seq<Space>, s: Space, size: nat)
    requires
        joinable(free, s, size),
        forall|i: int| 0 <= i < free.len() ==> !touches(s)(free[i]),
    ensures
        joined(free, s, size, free.push(s)),
{
    let r = free.push(s);
    lemma_total_push(free, s);
    assert forall|a: int, b: int|
        0 <= a < r.len() && 0 <= b < r.len() && a != b implies !overlap(r[a], r[b]) by {
        if a < free.len() && b < free.len() {
            assert(!overlap(free[a], free[b]));
        } else if a < free.len() {
            assert(!overlap(free[a], s));
        } else {
            assert(!overlap(free[b], s));
        }
    }
    if all_positive(free, s) && coalesced(free) {
        assert forall|a: int, b: int|
            0 <= a < r.len() && 0 <= b < r.len() && a != b implies r[a].end() != r[b].offset by {
            if a < free.len() && b < free.len() {
                assert(free[a].end() != free[b].offset);
            } else if a < free.len() {
                assert(!touches(s)(free[a]));
            } else {
                assert(!touches(s)(free[b]));
            }
        }
    }
}

/// `s` joins the free space at `m`, which lies before it (`before`) or behind
/// it, and no other free space touches `s` on its other side.
proof fn lemma_join_one(free: Seq<Space>, s: Space, size: nat, m: int, before: bool)
    requires
        joinable(free, s, size),
        0 <= m < free.len(),
        before ==> free[m].end() == s.offset,
        !before ==> s.end() == free[m].offset,
        forall|j: int|
            0 <= j < free.len() && j != m ==> (if before {
                !starts_at_end_of(s)(free[j])
            } else {
                !ends_at_start_of(s)(free[j])
            }),
    ensures
        joined(
            free,
            s,
            size,
            free.update(
                m,
                Space {
                    offset: if before { free[m].offset } else { s.offset },
                    length: (free[m].length + s.length) as u64,
                },
            ),
        ),
{
    let x = Space {
        offset: if before { free[m].offset } else { s.offset },
        length: (free[m].length + s.length) as u64,
    };
    let r = free.update(m, x);
    assert(free[m].end() <= size);
    lemma_total_update(free, m, x);
    assert forall|a: int, b: int|
        0 <= a < r.len() && 0 <= b < r.len() && a != b implies !overlap(r[a], r[b]) by {
        assert(!overlap(free[a], free[b]));
        assert(!overlap(free[a], s));
        assert(!overlap(free[b], s));
    }
    assert forall|y: Space|
        !overlap(s, y) && (forall|i: int|
            0 <= i < free.len() ==> !overlap(free[i], y)) implies (forall|i: int|
        0 <= i < r.len() ==> !overlap(#[trigger] r[i], y)) by {
        assert forall|i: int| 0 <= i < r.len() implies !overlap(#[trigger] r[i], y) by {
            assert(!overlap(free[i], y));
            assert(!overlap(free[m], y));
        }
    }
    if all_positive(free, s) && coalesced(free) {
        assert forall|a: int, b: int|
            0 <= a < r.len() && 0 <= b < r.len() && a != b implies r[a].end() != r[b].offset by {
            assert(free[a].end() != free[b].offset);
            if a == m {
                assert(before ==> !starts_at_end_of(s)(free[b]));
            } else if b == m {
                assert(!before ==> !ends_at_start_of(s)(free[a]));
            }
        }
        assert forall|i: int| 0 <= i < r.len() implies (#[trigger] r[i]).length > 0 by {
            assert(free[i].length > 0);
        }
    }
}

/// `s` joins the free space at `keep`, which lies before it, and the one at
/// `drop`, which lies behind it.
proof fn lemma_join_two(free: Seq<Space>, s: Space, size: nat, keep: int, drop: int)
    requires
        joinable(free, s, size),
        0 <= keep < free.len(),
        0 <= drop < free.len(),
        keep != drop,
        free[keep].end() == s.offset,
        s.end() == free[drop].offset,
    ensures
        joined(
            free,
            s,
            size,
            free.update(
                keep,
                Space {
                    offset: free[keep].offset,
                    length: (free[keep].length + s.length + free[drop].length) as u64,
                },
            ).remove(drop),
        ),
{
    let x = Space {
        offset: free[keep].offset,
        length: (free[keep].length + s.length + free[drop].length) as u64,
    };
    let u = free.update(keep, x);
    let r = u.remove(drop);
    assert(free[keep].end() <= size);
    assert(free[drop].end() <= size);
    lemma_total_update(free, keep, x);
    lemma_total_remove(u, drop);
    assert(forall|i: int|
        0 <= i < r.len() ==> r[i] == (if i < drop {
            u[i]
        } else {
            u[i + 1]
        }));
    assert forall|i: int| 0 <= i < r.len() implies (#[trigger] r[i]).end() <= size by {
        let ii = if i < drop { i } else { i + 1 };
        assert(free[ii].end() <= size);
    }
    assert forall|a: int, b: int|
        0 <= a < r.len() && 0 <= b < r.len() && a != b implies !overlap(r[a], r[b]) by {
        let ia = if a < drop { a } else { a + 1 };
        let ib = if b < drop { b } else { b + 1 };
        assert(!overlap(free[ia], free[ib]));
        assert(!overlap(free[ia], free[drop]));
        assert(!overlap(free[drop], free[ib]));
        assert(!overlap(free[ia], s));
        assert(!overlap(free[ib], s));
    }
    assert forall|y: Space|
        !overlap(s, y) && (forall|i: int|
            0 <= i < free.len() ==> !overlap(free[i], y)) implies (forall|i: int|
        0 <= i < r.len() ==> !overlap(#[trigger] r[i], y)) by {
        assert forall|i: int| 0 <= i < r.len() implies !overlap(#[trigger] r[i], y) by {
            let ii = if i < drop { i } else { i + 1 };
            assert(!overlap(free[ii], y));
            assert(!overlap(free[drop], y));
            assert(!overlap(free[keep], y));
        }
    }
    if all_positive(free, s) && coalesced(free) {
        assert forall|a: int, b: int|
            0 <= a < r.len() && 0 <= b < r.len() && a != b implies r[a].end() != r[b].offset by {
            let ia = if a < drop { a } else { a + 1 };
            let ib = if b < drop { b } else { b + 1 };
            assert(free[ia].end() != free[ib].offset);
            assert(free[drop].end() != free[ib].offset);
            assert(free[ia].end() != free[keep].offset);
        }
        assert forall|i: int| 0 <= i < r.len() implies (#[trigger] r[i]).length > 0 by {
            let ii = if i < drop { i } else { i + 1 };
            assert(free[ii].length > 0);
        }
    }
}

/// Giving a space back keeps what `joined` says.
proof fn lemma_coalesce(free: Seq<Space>, s: Space, size: nat)
    requires
        joinable(free, s, size),
    ensures
        joined(free, s, size, coalesce(free, s)),
{
    let m = find_from(free, touches(s), 0);
    lemma_find_from(free, touches(s), 0);
    if m == free.len() {
        lemma_join_none(free, s, size);
    } else if free[m].end() == s.offset {
        let g = find_from(free, starts_at_end_of(s), m + 1);
        lemma_find_from(free, starts_at_end_of(s), m + 1);
        if g == free.len() {
            assert forall|j: int| 0 <= j < free.len() && j != m implies !starts_at_end_of(s)(
                free[j],
            ) by {
                if j < m {
                    assert(!touches(s)(free[j]));
                }
            }
            lemma_join_one(free, s, size, m, true);
        } else {
            assert(starts_at_end_of(s)(free[g]));
            lemma_join_two(free, s, size, m, g);
        }
    } else {
        let g = find_from(free, ends_at_start_of(s), m + 1);
        lemma_find_from(free, ends_at_start_of(s), m + 1);
        assert(touches(s)(free[m]));
        if g == free.len() {
            assert forall|j: int| 0 <= j < free.len() && j != m implies !ends_at_start_of(s)(
                free[j],
            ) by {
                if j < m {
                    assert(!touches(s)(free[j]));
                }
            }
            lemma_join_one(free, s, size, m, false);
        } else {
            assert(ends_at_start_of(s)(free[g]));
            lemma_join_two(free, s, size, g, m);
        }
    }
}

/// Giving a space back keeps the invariant, and it keeps a tidy state
/// tidy: no free space then ends where another one begins.
pub proof fn lemma_dealloc_spec(v: AllocatorView, offset: u64)
    requires
        inv(v),
        is_occupied(v, offset),
    ensures
        inv(dealloc_spec(v, offset)),
        tidy(v) ==> tidy(dealloc_spec(v, offset)),
{
    let k = find_from(v.occupied, has_offset(offset), 0);
    lemma_find_from(v.occupied, has_offset(offset), 0);
    let s = v.occupied[k];
    let w = dealloc_spec(v, offset);
    assert(s.end() <= v.size);
    assert forall|i: int| 0 <= i < v.free.len() implies !overlap(v.free[i], s) by {
        assert(!overlap(v.free[i], v.occupied[k]));
    }
    lemma_coalesce(v.free, s, v.size);
    lemma_total_remove(v.occupied, k);
    assert(forall|j: int|
        0 <= j < w.occupied.len() ==> w.occupied[j] == v.occupied[if j < k {
            j
        } else {
            j + 1
        }]);
    assert(within(w.occupied, w.size));
    assert forall|a: int, b: int|
        0 <= a < w.occupied.len() && 0 <= b < w.occupied.len() && a != b implies !overlap(
        w.occupied[a],
        w.occupied[b],
    ) by {
        let ia = if a < k { a } else { a + 1 };
        let ib = if b < k { b } else { b + 1 };
        assert(!overlap(v.occupied[ia], v.occupied[ib]));
    }
    assert forall|a: int, b: int|
        0 <= a < w.free.len() && 0 <= b < w.occupied.len() implies !overlap(
        w.free[a],
        w.occupied[b],
    ) by {
        let ib = if b < k { b } else { b + 1 };
        let y = v.occupied[ib];
        assert(!overlap(s, y)) by {
            assert(!overlap(v.occupied[k], v.occupied[ib]));
        }
        assert forall|i: int| 0 <= i < v.free.len() implies !overlap(v.free[i], y) by {
            assert(!overlap(v.free[i], v.occupied[ib]));
        }
        assert(!overlap(coalesce(v.free, s)[a], y));
    }
    if tidy(v) {
        assert(s.length > 0);
        assert(v.size > 0);
    }
}

/// At most one index is the best fit.
pub proof fn lemma_best_fit_unique(free: Seq<Space>, length: u64, i: int)
    requires
        is_best_fit(free, length, i),
    ensures
        best_fit(free, length) == Some(i),
{
    assert(fits(free, length, i));
    let c = choose|c: int| is_best_fit(free, length, c);
    assert(is_best_fit(free, length, c));
    if c < i {
        assert(free[i].length < free[c].length);
    } else if i < c {
        assert(free[c].length < free[i].length);
    }
}

/// Where some free space among the first `n` fits, one of them is the best fit among
/// them.
proof fn lemma_best_fit_exists(free: Seq<Space>, length: u64, n: int) -> (b: int)
    requires
        0 <= n <= free.len(),
        exists|i: int| fits(free.take(n), length, i),
    ensures
        is_best_fit(free.take(n), length, b),
    decreases n,
{
    let w = choose|i: int| fits(free.take(n), length, i);
    let last = n - 1;
    assert(free.take(n).take(last) =~= free.take(last));
    if exists|i: int| fits(free.take(last), length, i) {
        let p = lemma_best_fit_exists(free, length, last);
        assert(forall|j: int| fits(free.take(n), length, j) && j < last ==> fits(free.take(last), length, j));
        if fits(free.take(n), length, last) && free[last].length < free[p].length {
            last
        } else {
            p
        }
    } else {
        assert(forall|j: int| fits(free.take(n), length, j) && j < last ==> fits(free.take(last), length, j));
        assert(fits(free.take(n), length, last));
        last
    }
}

/// The state of a fresh allocator meets the invariant and is tidy.
pub proof fn lemma_new_spec(size: u64)
    ensures
        inv(new_spec(size)),
        tidy(new_spec(size)),
{
    let v = new_spec(size);
    assert(v.free.drop_last() =~= Seq::<Space>::empty());
    assert(total_length(v.free) == size) by {
        reveal_with_fuel(total_length, 2);
    }
}

/// An allocation keeps the invariant, and it keeps a state tidy if its length is
/// not 0. It fails if and only if no free space is long enough, which is so
/// whenever the length exceeds the capacity.
pub proof fn lemma_allocate_spec(v: AllocatorView, length: u64)
    requires
        inv(v),
    ensures
        inv(allocate_spec(v, length).1),
        allocate_spec(v, length).0 is None <==> forall|i: int| !fits(v.free, length, i),
        length > v.size ==> allocate_spec(v, length).0 is None,
        tidy(v) && length > 0 ==> tidy(allocate_spec(v, length).1),
{
    if exists|i: int| fits(v.free, length, i) {
        assert(v.free.take(v.free.len() as int) =~= v.free);
        let i = lemma_best_fit_exists(v.free, length, v.free.len() as int);
        lemma_best_fit_unique(v.free, length, i);
        let f = v.free[i];
        assert(f.end() <= v.size);
        let w = carve(v, i, length);
        let rest = v.free.remove(i);
        let taken = Space { offset: f.offset, length };
        let left = Space { offset: (f.offset + length) as u64, length: (f.length - length) as u64 };
        lemma_total_remove(v.free, i);
        lemma_total_push(rest, left);
        lemma_total_push(v.occupied, taken);
        assert(forall|j: int| 0 <= j < rest.len() ==> rest[j] == v.free[if j < i { j } else { j + 1 }]);
        assert(within(w.free, w.size));
        assert(within(w.occupied, w.size));
        assert(conserved(w));
        assert(disjoint_within(w.free)) by {
            assert forall|a: int, b: int|
                0 <= a < w.free.len() && 0 <= b < w.free.len() && a != b implies !overlap(
                w.free[a],
                w.free[b],
            ) by {
                let ia = if a < i { a } else { a + 1 };
                let ib = if b < i { b } else { b + 1 };
                if a < rest.len() && b < rest.len() {
                    assert(!overlap(v.free[ia], v.free[ib]));
                } else if a < rest.len() {
                    assert(!overlap(v.free[ia], v.free[i]));
                } else {
                    assert(!overlap(v.free[i], v.free[ib]));
                }
            }
        }
        assert(disjoint_within(w.occupied)) by {
            assert forall|a: int, b: int|
                0 <= a < w.occupied.len() && 0 <= b < w.occupied.len() && a != b implies !overlap(
                w.occupied[a],
                w.occupied[b],
            ) by {
                if a < v.occupied.len() && b < v.occupied.len() {
                    assert(!overlap(v.occupied[a], v.occupied[b]));
                } else if a < v.occupied.len() {
                    assert(!overlap(v.free[i], v.occupied[a]));
                } else {
                    assert(!overlap(v.free[i], v.occupied[b]));
                }
            }
        }
        assert(disjoint_across(w.free, w.occupied)) by {
            assert forall|a: int, b: int|
                0 <= a < w.free.len() && 0 <= b < w.occupied.len() implies !overlap(
                w.free[a],
                w.occupied[b],
            ) by {
                let ia = if a < i { a } else { a + 1 };
                if a < rest.len() && b < v.occupied.len() {
                    assert(!overlap(v.free[ia], v.occupied[b]));
                } else if a < rest.len() {
                    assert(!overlap(v.free[ia], v.free[i]));
                } else if b < v.occupied.len() {
                    assert(!overlap(v.free[i], v.occupied[b]));
                }
            }
        }
        if tidy(v) && length > 0 {
            assert(v.size > 0);
            assert(no_empty_space(w));
            assert(coalesced(w.free)) by {
                assert forall|a: int, b: int|
                    0 <= a < w.free.len() && 0 <= b < w.free.len() && a != b implies w.free[a].end()
                    != w.free[b].offset by {
                    let ia = if a < i { a } else { a + 1 };
                    let ib = if b < i { b } else { b + 1 };
                    if a < rest.len() && b < rest.len() {
                        assert(v.free[ia].end() != v.free[ib].offset);
                    } else if a < rest.len() {
                        assert(!overlap(v.free[ia], v.free[i]));
                        assert(v.free[ia].end() != v.free[i].offset);
                    } else {
                        assert(v.free[i].end() != v.free[ib].offset);
                    }
                }
            }
        }
    } else {
    }
    if length > v.size {
        assert forall|i: int| !fits(v.free, length, i) by {
            if 0 <= i < v.free.len() {
                assert(v.free[i].end() <= v.size);
            }
        }
    }
}

/// Taking the whole capacity from a fresh allocator succeeds at offset 0.
pub proof fn lemma_allocate_all_of_fresh(size: u64)
    ensures
        allocate_spec(new_spec(size), size).0 == Some(0u64),
{
    let v = new_spec(size);
    assert(is_best_fit(v.free, size, 0));
    lemma_best_fit_unique(v.free, size, 0);
}

} // verus!
