//! The boot allocator: serves allocate / free / resize requests against the
//! free-memory interval set, while hosting its own allocation ledger in
//! memory carved out of the very pool it manages.
//!
//! The ledger records every live allocation as a `(start, size)` pair. Entry
//! 0 is special: it describes the ledger's own backing table, written exactly
//! once when `update` bootstraps the allocator.

use vstd::prelude::*;

use crate::memory_map::MemoryMap;
use crate::memory_map::SECTION_CAPACITY;
use crate::memory_map::sections_wf;
use crate::pattern::MemoryPattern;
use crate::pattern::classify;
use crate::pattern::cmp_mem_sct;

verus! {

/// Capacity of the allocation ledger, in entries.
pub const LEDGER_CAPACITY: usize = 4096;

/// Bytes of one ledger record: a start address and a size, eight bytes each.
pub const LEDGER_ENTRY_BYTES: usize = 16;

/// Bytes of the ledger's own backing table, carved out of the free set the
/// first time the allocator is used.
pub const LEDGER_TABLE_BYTES: usize = LEDGER_ENTRY_BYTES * LEDGER_CAPACITY;

/// The whole half-open range `[ptr, ptr + size)` lies inside one free
/// section.
pub open spec fn range_in_free(m: Seq<(usize, usize)>, ptr: int, size: int) -> bool {
    exists|i: int|
        0 <= i < m.len() && (#[trigger] m[i]).0 <= ptr && ptr + size <= m[i].0 + m[i].1
}

/// Ledger normal form: every end address in bounds, and the entries after
/// the self-referential entry 0 sorted by start address.
pub open spec fn ledger_wf(t: Seq<(usize, usize)>) -> bool {
    &&& t.len() <= LEDGER_CAPACITY
    &&& (forall|i: int| 0 <= i < t.len() ==> (#[trigger] t[i]).0 + t[i].1 <= usize::MAX)
    &&& (forall|i: int, j: int|
        1 <= i < j < t.len() ==> (#[trigger] t[i]).0 <= (#[trigger] t[j]).0)
}

/// Index of the first ledger entry at or past `i` that starts above `addr`,
/// or the ledger's length if there is none: where a new entry for `addr` is
/// inserted to keep the tail sorted.
pub open spec fn ledger_insert_pos(t: Seq<(usize, usize)>, addr: int, i: int) -> int
    decreases t.len() - i,
{
    if i >= t.len() {
        t.len() as int
    } else if t[i].0 > addr {
        i
    } else {
        ledger_insert_pos(t, addr, i + 1)
    }
}

/// Index of the first ledger entry at or past `i` that matches start and
/// size exactly, or the ledger's length if there is none.
pub open spec fn ledger_match_from(t: Seq<(usize, usize)>, start: int, size: int, i: int) -> int
    decreases t.len() - i,
{
    if i >= t.len() {
        t.len() as int
    } else if t[i].0 == start && t[i].1 == size {
        i
    } else {
        ledger_match_from(t, start, size, i + 1)
    }
}

/// Index of the first ledger entry at or past `i` with the given start, or
/// the ledger's length if there is none.
pub open spec fn ledger_match_start_from(t: Seq<(usize, usize)>, start: int, i: int) -> int
    decreases t.len() - i,
{
    if i >= t.len() {
        t.len() as int
    } else if t[i].0 == start {
        i
    } else {
        ledger_match_start_from(t, start, i + 1)
    }
}

/// Index of the first free section at or past `i` large enough to hold the
/// ledger's backing table, or the section count if there is none.
pub open spec fn first_table_host(m: Seq<(usize, usize)>, i: int) -> int
    decreases m.len() - i,
{
    if i >= m.len() {
        m.len() as int
    } else if m[i].1 >= LEDGER_TABLE_BYTES {
        i
    } else {
        first_table_host(m, i + 1)
    }
}

/// Mirror of `next_valid_memory_ptr`'s walk over the free sections, from
/// index `i` on: the first section that both starts at or below `from_ptr`
/// and is large enough decides — `from_ptr` itself if the section contains
/// the whole request, the section's start if the section lies wholly below
/// `from_ptr`; `0` if no section decides.
pub open spec fn next_valid_ptr_from(m: Seq<(usize, usize)>, from_ptr: int, size: int, i: int) -> int
    decreases m.len() - i,
{
    if i >= m.len() {
        0
    } else if from_ptr >= m[i].0 && size <= m[i].1 {
        if classify(m[i].0 as int, m[i].1 as int, from_ptr, size) == MemoryPattern::NoChange {
            from_ptr
        } else if classify(m[i].0 as int, m[i].1 as int, from_ptr, size)
            == MemoryPattern::Separate {
            m[i].0 as int
        } else {
            next_valid_ptr_from(m, from_ptr, size, i + 1)
        }
    } else {
        next_valid_ptr_from(m, from_ptr, size, i + 1)
    }
}

/// Mirror of `reduce_size_fit_next_available_slot`'s walk: the intersection
/// of the request with the first free section it is not separate from, or
/// `(0, 0)` if it is separate from all of them.
pub open spec fn reduce_fit_from(m: Seq<(usize, usize)>, start: int, size: int, i: int) -> (
    int,
    int,
)
    decreases m.len() - i,
{
    if i >= m.len() {
        (0, 0)
    } else {
        let rel = classify(m[i].0 as int, m[i].1 as int, start, size);
        if rel == MemoryPattern::StartBranch {
            (start, m[i].0 + m[i].1 - start)
        } else if rel == MemoryPattern::EndBranch {
            (m[i].0 as int, start + size - m[i].0)
        } else if rel == MemoryPattern::Overwrite {
            (m[i].0 as int, m[i].1 as int)
        } else if rel == MemoryPattern::NoChange {
            (start, size)
        } else {
            reduce_fit_from(m, start, size, i + 1)
        }
    }
}

/// Mirror of `taken_more_size_available`: the number of free bytes directly
/// after the matched ledger entry, stopping at the next ledger entry; zero
/// when the entry is not found or the bytes right after it are not free.
pub open spec fn more_size_spec(
    t: Seq<(usize, usize)>,
    m: Seq<(usize, usize)>,
    mstart: int,
    msize: int,
) -> int {
    let j = ledger_match_from(t, mstart, msize, 1);
    if j == t.len() {
        0
    } else {
        let pstart = mstart + msize;
        let limit = if j + 1 < t.len() {
            t[j + 1].0 as int
        } else {
            usize::MAX as int
        };
        if limit <= pstart {
            0
        } else {
            let fit = reduce_fit_from(m, pstart, limit - pstart, 0);
            if fit.0 == pstart {
                fit.1
            } else {
                0
            }
        }
    }
}

/// The allocation candidate at ledger index `i` — the address just past
/// entry `i` — is acceptable: the request fits before the next ledger entry
/// and inside one free section.
pub open spec fn slot_ok(t: Seq<(usize, usize)>, m: Seq<(usize, usize)>, i: int, size: int) -> bool {
    let p = t[i].0 + t[i].1;
    &&& p + size <= usize::MAX
    &&& (i + 1 < t.len() ==> p + size <= t[i + 1].0)
    &&& range_in_free(m, p, size)
}

/// First-fit slot search from ledger index `i` on: the first acceptable
/// candidate wins; `0` if none is acceptable.
pub open spec fn first_slot_from(t: Seq<(usize, usize)>, m: Seq<(usize, usize)>, size: int, i: int) -> int
    decreases t.len() - i,
{
    if i >= t.len() {
        0
    } else if slot_ok(t, m, i, size) {
        t[i].0 + t[i].1
    } else {
        first_slot_from(t, m, size, i + 1)
    }
}

/// First-fit slot search over the whole ledger.
pub open spec fn first_slot(t: Seq<(usize, usize)>, m: Seq<(usize, usize)>, size: int) -> int {
    first_slot_from(t, m, size, 0)
}

/// First fit from index `k` on: the result is the lowest acceptable
/// candidate address at or past `k`, over a ledger whose entries are sorted
/// and disjoint.
proof fn lemma_first_fit_lowest_from(
    t: Seq<(usize, usize)>,
    m: Seq<(usize, usize)>,
    size: int,
    k: int,
)
    requires
        forall|i: int, j: int|
            0 <= i < j < t.len() ==> (#[trigger] t[i]).0 + t[i].1 <= (#[trigger] t[j]).0,
        0 <= k <= t.len(),
        first_slot_from(t, m, size, k) != 0,
    ensures
        forall|i: int|
            k <= i < t.len() && #[trigger] slot_ok(t, m, i, size) ==> first_slot_from(
                t,
                m,
                size,
                k,
            ) <= t[i].0 + t[i].1,
    decreases t.len() - k,
{
    if k < t.len() {
        if slot_ok(t, m, k, size) {
            assert forall|i: int| k <= i < t.len() && #[trigger] slot_ok(t, m, i, size) implies t[k].0
                + t[k].1 <= t[i].0 + t[i].1 by {
                if i > k {
                    assert(t[k].0 + t[k].1 <= t[i].0);
                }
            }
        } else {
            lemma_first_fit_lowest_from(t, m, size, k + 1);
        }
    }
}

/// First fit really means lowest address first: over a ledger whose entries
/// are sorted and disjoint, the slot search returns the lowest acceptable
/// candidate address.
pub proof fn lemma_first_fit_lowest(t: Seq<(usize, usize)>, m: Seq<(usize, usize)>, size: int)
    requires
        forall|i: int, j: int|
            0 <= i < j < t.len() ==> (#[trigger] t[i]).0 + t[i].1 <= (#[trigger] t[j]).0,
        first_slot(t, m, size) != 0,
    ensures
        forall|i: int|
            0 <= i < t.len() && #[trigger] slot_ok(t, m, i, size) ==> first_slot(t, m, size)
                <= t[i].0 + t[i].1,
{
    lemma_first_fit_lowest_from(t, m, size, 0);
}

/// When the request is larger than every free section, no candidate is
/// acceptable and the search yields the null sentinel.
pub proof fn lemma_first_slot_no_fit(
    t: Seq<(usize, usize)>,
    m: Seq<(usize, usize)>,
    size: int,
    i: int,
)
    requires
        0 <= i <= t.len(),
        forall|k: int| 0 <= k < m.len() ==> (#[trigger] m[k]).1 < size,
    ensures
        first_slot_from(t, m, size, i) == 0,
    decreases t.len() - i,
{
    if i < t.len() {
        if slot_ok(t, m, i, size) {
            let p = t[i].0 + t[i].1;
            let j = choose|j: int|
                0 <= j < m.len() && (#[trigger] m[j]).0 <= p && p + size <= m[j].0 + m[j].1;
            assert(m[j].1 >= size);
            assert(false);
        }
        lemma_first_slot_no_fit(t, m, size, i + 1);
    }
}

/// A successful match search really found a matching entry at the returned
/// index.
pub proof fn lemma_match_found(t: Seq<(usize, usize)>, start: int, size: int, i: int)
    requires
        0 <= i <= t.len(),
    ensures
        i <= ledger_match_from(t, start, size, i) <= t.len(),
        ledger_match_from(t, start, size, i) < t.len() ==> {
            let j = ledger_match_from(t, start, size, i);
            t[j].0 == start && t[j].1 == size
        },
    decreases t.len() - i,
{
    if i < t.len() && !(t[i].0 == start && t[i].1 == size) {
        lemma_match_found(t, start, size, i + 1);
    }
}

/// A successful start-match search really found an entry with that start at
/// the returned index.
pub proof fn lemma_match_start_found(t: Seq<(usize, usize)>, start: int, i: int)
    requires
        0 <= i <= t.len(),
    ensures
        i <= ledger_match_start_from(t, start, i) <= t.len(),
        ledger_match_start_from(t, start, i) < t.len() ==> {
            let j = ledger_match_start_from(t, start, i);
            t[j].0 == start
        },
    decreases t.len() - i,
{
    if i < t.len() && t[i].0 != start {
        lemma_match_start_found(t, start, i + 1);
    }
}

/// A clamped request that keeps its start address lies inside a free
/// section.
pub proof fn lemma_reduce_fit_in_free(m: Seq<(usize, usize)>, start: int, size: int, i: int)
    requires
        sections_wf(m),
        0 <= i <= m.len(),
        size > 0,
        start + size <= usize::MAX,
    ensures
        ({
            let fit = reduce_fit_from(m, start, size, i);
            (fit.0 == start && fit.1 > 0) ==> range_in_free(m, start, fit.1)
        }),
    decreases m.len() - i,
{
    if i < m.len() {
        let rel = classify(m[i].0 as int, m[i].1 as int, start, size);
        if rel == MemoryPattern::NoChange {
            crate::pattern::lemma_nochange_is_contained(
                m[i].0 as int,
                m[i].1 as int,
                start,
                size,
            );
        } else if rel == MemoryPattern::Separate {
            lemma_reduce_fit_in_free(m, start, size, i + 1);
        }
    }
}

/// A first-fit result is an in-bounds address.
pub proof fn lemma_first_slot_bounds(
    t: Seq<(usize, usize)>,
    m: Seq<(usize, usize)>,
    size: int,
    i: int,
)
    requires
        ledger_wf(t),
        0 <= i <= t.len(),
    ensures
        0 <= first_slot_from(t, m, size, i) <= usize::MAX,
    decreases t.len() - i,
{
    if i < t.len() && !slot_ok(t, m, i, size) {
        lemma_first_slot_bounds(t, m, size, i + 1);
    }
}

/// A non-null first-fit result never coincides with the start of an existing
/// allocation of the same size: the gap check would have rejected the
/// candidate.
proof fn lemma_first_slot_no_dup(
    t: Seq<(usize, usize)>,
    m: Seq<(usize, usize)>,
    size: int,
    i: int,
)
    requires
        ledger_wf(t),
        size > 0,
        forall|k: int| 1 <= k < t.len() ==> (#[trigger] t[k]).1 > 0,
        0 <= i <= t.len(),
        first_slot_from(t, m, size, i) != 0,
    ensures
        forall|k: int|
            1 <= k < t.len() ==> !((#[trigger] t[k]).0 == first_slot_from(t, m, size, i)
                && t[k].1 == size),
    decreases t.len() - i,
{
    if i < t.len() {
        if slot_ok(t, m, i, size) {
            let a = t[i].0 + t[i].1;
            assert forall|k: int| 1 <= k < t.len() implies !((#[trigger] t[k]).0 == a && t[k].1
                == size) by {
                if t[k].0 == a && t[k].1 == size {
                    if k > i {
                        assert(t[i + 1].0 <= t[k].0);
                        assert(a + size <= t[i + 1].0);
                        assert(false);
                    } else {
                        assert(t[k].0 <= t[i].0);
                        assert(t[i].0 + t[i].1 >= a + t[i].1);
                        assert(t[i].1 > 0);
                        assert(false);
                    }
                }
            }
        } else {
            lemma_first_slot_no_dup(t, m, size, i + 1);
        }
    }
}

/// Where the sorted-insert position lands: everything before it starts at or
/// below the address, the entry at it (if any) starts above.
proof fn lemma_insert_pos_props(t: Seq<(usize, usize)>, addr: int, i: int)
    requires
        0 <= i <= t.len(),
    ensures
        i <= ledger_insert_pos(t, addr, i) <= t.len(),
        forall|k: int| i <= k < ledger_insert_pos(t, addr, i) ==> (#[trigger] t[k]).0 <= addr,
        ledger_insert_pos(t, addr, i) < t.len() ==> t[ledger_insert_pos(t, addr, i)].0 > addr,
    decreases t.len() - i,
{
    if i < t.len() && !(t[i].0 > addr) {
        lemma_insert_pos_props(t, addr, i + 1);
    }
}

/// A match search lands on `j` when nothing before `j` matches and `j` does.
proof fn lemma_match_skips(t: Seq<(usize, usize)>, start: int, size: int, i: int, j: int)
    requires
        0 <= i <= j < t.len(),
        forall|k: int| i <= k < j ==> !((#[trigger] t[k]).0 == start && t[k].1 == size),
        t[j].0 == start && t[j].1 == size,
    ensures
        ledger_match_from(t, start, size, i) == j,
    decreases j - i,
{
    if i < j {
        lemma_match_skips(t, start, size, i + 1, j);
    }
}

/// Freeing a block and allocating the same size again reuses its address:
/// removing the freshly recorded entry restores the ledger exactly, and the
/// first-fit search is a function of the ledger and the free map alone.
pub proof fn lemma_free_then_reallocate(
    t: Seq<(usize, usize)>,
    m: Seq<(usize, usize)>,
    size: usize,
)
    requires
        ledger_wf(t),
        t.len() >= 1,
        size > 0,
        forall|k: int| 1 <= k < t.len() ==> (#[trigger] t[k]).1 > 0,
        first_slot(t, m, size as int) != 0,
    ensures
        ({
            let a = first_slot(t, m, size as int);
            let t1 = t.insert(ledger_insert_pos(t, a, 1), ((a as usize), size));
            let j = ledger_match_from(t1, a, size as int, 1);
            j < t1.len() && t1.remove(j) == t && first_slot(t1.remove(j), m, size as int) == a
        }),
{
    let a = first_slot(t, m, size as int);
    lemma_first_slot_bounds(t, m, size as int, 0);
    lemma_first_slot_no_dup(t, m, size as int, 0);
    let pos = ledger_insert_pos(t, a, 1);
    lemma_insert_pos_props(t, a, 1);
    let x = ((a as usize), size);
    let t1 = t.insert(pos, x);
    assert forall|k: int| 1 <= k < pos implies !((#[trigger] t1[k]).0 == a && t1[k].1
        == size as int) by {
        assert(t1[k] == t[k]);
    }
    assert(t1[pos] == x);
    lemma_match_skips(t1, a, size as int, 1, pos);
    assert(t1.remove(pos) =~= t);
}

/// When the walk of a normal-form map stops at a section that partially
/// overlaps the request, no section contains the request: the sections before
/// the stop are separate from it, and everything after starts past it.
proof fn lemma_no_other_section_contains(m: Seq<(usize, usize)>, ptr: int, size: int, i: int)
    requires
        sections_wf(m),
        0 <= i < m.len(),
        size >= 0,
        classify(m[i].0 as int, m[i].1 as int, ptr, size) != MemoryPattern::Separate,
        classify(m[i].0 as int, m[i].1 as int, ptr, size) != MemoryPattern::NoChange,
        forall|k: int|
            0 <= k < i ==> classify(
                (#[trigger] m[k]).0 as int,
                m[k].1 as int,
                ptr,
                size,
            ) == MemoryPattern::Separate,
    ensures
        size > 0 ==> !range_in_free(m, ptr, size),
        size == 0 ==> !(exists|j: int|
            0 <= j < m.len() && (#[trigger] m[j]).0 < ptr < m[j].0 + m[j].1),
{
    crate::pattern::lemma_classify_separate(m[i].0 as int, m[i].1 as int, ptr, size);
    if size > 0 && range_in_free(m, ptr, size) {
        let j = choose|j: int|
            0 <= j < m.len() && (#[trigger] m[j]).0 <= ptr && ptr + size <= m[j].0 + m[j].1;
        crate::pattern::lemma_contained_is_nochange(m[j].0 as int, m[j].1 as int, ptr, size);
        if j > i {
            assert(m[i].0 + m[i].1 < m[j].0);
        }
        assert(false);
    }
    if size == 0 && (exists|j: int|
        0 <= j < m.len() && (#[trigger] m[j]).0 < ptr < m[j].0 + m[j].1) {
        let j = choose|j: int| 0 <= j < m.len() && (#[trigger] m[j]).0 < ptr < m[j].0 + m[j].1;
        crate::pattern::lemma_contained_is_nochange(m[j].0 as int, m[j].1 as int, ptr, size);
        if j > i {
            assert(m[i].0 + m[i].1 < m[j].0);
        }
        assert(false);
    }
}

/// When every section of a normal-form map is separate from the request, no
/// section contains it.
proof fn lemma_no_section_contains(m: Seq<(usize, usize)>, ptr: int, size: int)
    requires
        sections_wf(m),
        size >= 0,
        forall|k: int|
            0 <= k < m.len() ==> classify(
                (#[trigger] m[k]).0 as int,
                m[k].1 as int,
                ptr,
                size,
            ) == MemoryPattern::Separate,
    ensures
        size > 0 ==> !range_in_free(m, ptr, size),
        size == 0 ==> !(exists|j: int|
            0 <= j < m.len() && (#[trigger] m[j]).0 < ptr < m[j].0 + m[j].1),
{
    if size > 0 && range_in_free(m, ptr, size) {
        let j = choose|j: int|
            0 <= j < m.len() && (#[trigger] m[j]).0 <= ptr && ptr + size <= m[j].0 + m[j].1;
        crate::pattern::lemma_contained_is_nochange(m[j].0 as int, m[j].1 as int, ptr, size);
        assert(false);
    }
    if size == 0 && (exists|j: int|
        0 <= j < m.len() && (#[trigger] m[j]).0 < ptr < m[j].0 + m[j].1) {
        let j = choose|j: int| 0 <= j < m.len() && (#[trigger] m[j]).0 < ptr < m[j].0 + m[j].1;
        crate::pattern::lemma_contained_is_nochange(m[j].0 as int, m[j].1 as int, ptr, size);
        assert(false);
    }
}

/// The process-wide boot allocator: the free-memory map plus the allocation
/// ledger.
pub struct HTMAlloc {
    mmap: MemoryMap,
    taken: Vec<(usize, usize)>,
}

impl HTMAlloc {
    /// The free-memory map the allocator serves from.
    pub closed spec fn free_view(&self) -> Seq<(usize, usize)> {
        self.mmap@
    }

    /// The allocation ledger: entry 0 is the ledger's own storage.
    pub closed spec fn ledger_view(&self) -> Seq<(usize, usize)> {
        self.taken@
    }

    /// The allocator has bootstrapped its ledger and can serve requests.
    pub open spec fn is_initialized(&self) -> bool {
        self.ledger_view().len() > 0
    }

    /// Both halves are in normal form.
    pub open spec fn wf(&self) -> bool {
        &&& sections_wf(self.free_view())
        &&& self.free_view().len() <= SECTION_CAPACITY
        &&& ledger_wf(self.ledger_view())
    }

    /// A dormant allocator: no free memory known, ledger not bootstrapped.
    /// `update` brings it to life.
    pub fn ginit() -> (r: Self)
        ensures
            r.free_view() == Seq::<(usize, usize)>::empty(),
            r.ledger_view() == Seq::<(usize, usize)>::empty(),
            r.wf(),
            !r.is_initialized(),
    {
        HTMAlloc { mmap: MemoryMap::new(), taken: Vec::new() }
    }

    /// Number of ledger entries currently live.
    pub fn ledger_len(&self) -> (r: usize)
        ensures
            r == self.ledger_view().len(),
    {
        self.taken.len()
    }

    /// The ledger entry at the given index.
    pub fn ledger_entry(&self, i: usize) -> (r: (usize, usize))
        requires
            i < self.ledger_view().len(),
        ensures
            r == self.ledger_view()[i as int],
    {
        self.taken[i]
    }

    /// The free-memory map, for inspection.
    pub fn free_map(&self) -> (r: &MemoryMap)
        ensures
            r@ == self.free_view(),
    {
        &self.mmap
    }

    /// Adopts the reconciled free-memory map and bootstraps the ledger: the
    /// first free section large enough to hold the ledger's backing table
    /// donates its head, recorded as the self-referential entry 0. Runs
    /// exactly once per boot; without a large-enough section the allocator
    /// stays uninitialized and serves nothing.
    pub fn update(&mut self, mmap: MemoryMap)
        requires
            old(self).ledger_view().len() == 0,
            mmap.wf(),
        ensures
            final(self).wf(),
            final(self).free_view() == mmap@,
            ({
                let j = first_table_host(mmap@, 0);
                if j < mmap@.len() {
                    final(self).ledger_view() == seq![(mmap@[j].0, LEDGER_TABLE_BYTES)]
                } else {
                    final(self).ledger_view().len() == 0
                }
            }),
    {
        self.mmap = mmap;
        let sz = self.mmap.len();
        let mut i: usize = 0;
        while i < sz
            invariant
                i <= sz,
                sz == self.mmap@.len(),
                self.mmap.wf(),
                first_table_host(self.mmap@, 0) == first_table_host(self.mmap@, i as int),
                forall|k: int| 0 <= k < i ==> (#[trigger] self.mmap@[k]).1 < LEDGER_TABLE_BYTES,
                self.taken@.len() == 0,
                self.mmap@ == mmap@,
            decreases sz - i,
        {
            let (s, l) = self.mmap.section(i);
            if l >= LEDGER_TABLE_BYTES {
                self.taken.push((s, LEDGER_TABLE_BYTES));
                proof {
                    assert(self.taken@ =~= seq![(s, LEDGER_TABLE_BYTES)]);
                }
                return ;
            }
            i += 1;
        }
    }

    /// Returns a pointer to the next valid available section of memory: the
    /// given pointer itself when the request starting there lies wholly
    /// inside a free section, the start of the first sufficiently large free
    /// section lying wholly below the pointer otherwise, and the null
    /// sentinel when neither exists or the requested size is zero.
    pub fn next_valid_memory_ptr(&self, from_ptr: usize, with_size: usize) -> (r: usize)
        requires
            self.wf(),
            from_ptr + with_size <= usize::MAX,
        ensures
            with_size == 0 ==> r == 0,
            with_size > 0 ==> r as int == next_valid_ptr_from(
                self.free_view(),
                from_ptr as int,
                with_size as int,
                0,
            ),
            r != 0 && with_size > 0 ==> range_in_free(self.free_view(), r as int, with_size as int),
    {
        if with_size == 0 {
            return 0;
        }
        let sz = self.mmap.len();
        let mut i: usize = 0;
        while i < sz
            invariant
                i <= sz,
                sz == self.mmap@.len(),
                self.wf(),
                from_ptr + with_size <= usize::MAX,
                with_size > 0,
                next_valid_ptr_from(self.mmap@, from_ptr as int, with_size as int, 0)
                    == next_valid_ptr_from(self.mmap@, from_ptr as int, with_size as int, i as int),
            decreases sz - i,
        {
            let (s, l) = self.mmap.section(i);
            if from_ptr >= s && with_size <= l {
                let rel = cmp_mem_sct(s, l, from_ptr, with_size);
                if matches!(rel, MemoryPattern::NoChange) {
                    proof {
                        crate::pattern::lemma_nochange_is_contained(
                            s as int,
                            l as int,
                            from_ptr as int,
                            with_size as int,
                        );
                    }
                    return from_ptr;
                }
                if matches!(rel, MemoryPattern::Separate) {
                    proof {
                        crate::pattern::lemma_classify_separate(
                            s as int,
                            l as int,
                            from_ptr as int,
                            with_size as int,
                        );
                        assert(range_in_free(self.mmap@, s as int, with_size as int));
                    }
                    return s;
                }
            }
            i += 1;
        }
        0
    }

    /// Clamps the request to the first free section it is not separate from,
    /// returning `(0, 0)` when it is separate from every section.
    pub fn reduce_size_fit_next_available_slot(&self, start: usize, size: usize) -> (r: (
        usize,
        usize,
    ))
        requires
            self.wf(),
            start + size <= usize::MAX,
        ensures
            r.0 as int == reduce_fit_from(self.free_view(), start as int, size as int, 0).0,
            r.1 as int == reduce_fit_from(self.free_view(), start as int, size as int, 0).1,
    {
        let sz = self.mmap.len();
        let mut i: usize = 0;
        while i < sz
            invariant
                i <= sz,
                sz == self.mmap@.len(),
                self.wf(),
                start + size <= usize::MAX,
                reduce_fit_from(self.mmap@, start as int, size as int, 0) == reduce_fit_from(
                    self.mmap@,
                    start as int,
                    size as int,
                    i as int,
                ),
            decreases sz - i,
        {
            let (s, l) = self.mmap.section(i);
            match cmp_mem_sct(s, l, start, size) {
                MemoryPattern::StartBranch => {
                    return (start, s + l - start);
                },
                MemoryPattern::EndBranch => {
                    return (s, start + size - s);
                },
                MemoryPattern::Overwrite => {
                    return (s, l);
                },
                MemoryPattern::NoChange => {
                    return (start, size);
                },
                MemoryPattern::Separate => {},
            }
            i += 1;
        }
        (0, 0)
    }

    /// Returns the pointer to the next available section of memory not
    /// taken, first fit at the end of each ledger entry; the null sentinel
    /// when the size is zero, the ledger is not bootstrapped, or nothing
    /// fits.
    pub fn next_available_slot(&self, size: usize) -> (r: usize)
        requires
            self.wf(),
        ensures
            r as int == if size == 0 || self.ledger_view().len() == 0 {
                0
            } else {
                first_slot(self.ledger_view(), self.free_view(), size as int)
            },
            r != 0 ==> range_in_free(self.free_view(), r as int, size as int),
    {
        let len = self.taken.len();
        if size == 0 || len == 0 {
            return 0;
        }
        let mut i: usize = 0;
        while i < len
            invariant
                i <= len,
                len == self.taken@.len(),
                self.wf(),
                size > 0,
                first_slot(self.taken@, self.mmap@, size as int) == first_slot_from(
                    self.taken@,
                    self.mmap@,
                    size as int,
                    i as int,
                ),
            decreases len - i,
        {
            let (ts, tl) = self.taken[i];
            let pstart = ts + tl;
            let mut ok = false;
            if size <= usize::MAX - pstart {
                let within_gap = if i + 1 < len {
                    pstart + size <= self.taken[i + 1].0
                } else {
                    true
                };
                if within_gap && self.valid_memory_check(pstart, size) {
                    ok = true;
                }
            }
            if ok {
                proof {
                    assert(slot_ok(self.taken@, self.mmap@, i as int, size as int));
                }
                return pstart;
            }
            proof {
                assert(!slot_ok(self.taken@, self.mmap@, i as int, size as int));
            }
            i += 1;
        }
        0
    }

    /// Finds the lowest acceptable address with `size` contiguous free bytes
    /// — first fit over the gaps that follow each ledger entry — and records
    /// the allocation. Returns the null sentinel, leaving the ledger
    /// untouched, when the size is zero, the allocator is not bootstrapped,
    /// or nothing fits; in particular whenever the request exceeds every
    /// free section.
    pub fn allocate(&mut self, size: usize) -> (r: usize)
        requires
            old(self).wf(),
            old(self).ledger_view().len() < LEDGER_CAPACITY,
        ensures
            final(self).wf(),
            final(self).free_view() == old(self).free_view(),
            r as int == if size == 0 || old(self).ledger_view().len() == 0 {
                0int
            } else {
                first_slot(old(self).ledger_view(), old(self).free_view(), size as int)
            },
            r == 0 ==> final(self).ledger_view() == old(self).ledger_view(),
            r != 0 ==> final(self).ledger_view() == old(self).ledger_view().insert(
                ledger_insert_pos(old(self).ledger_view(), r as int, 1),
                (r, size),
            ),
            r != 0 ==> range_in_free(old(self).free_view(), r as int, size as int),
            (forall|k: int|
                0 <= k < old(self).free_view().len() ==> (#[trigger] old(self).free_view()[k]).1
                    < size) ==> r == 0,
    {
        let ptr = self.next_available_slot(size);
        if ptr == 0 {
            return 0;
        }
        proof {
            if forall|k: int|
                0 <= k < self.mmap@.len() ==> (#[trigger] self.mmap@[k]).1 < size as int {
                lemma_first_slot_no_fit(self.taken@, self.mmap@, size as int, 0);
                assert(false);
            }
        }
        let len = self.taken.len();
        let mut p: usize = 1;
        while p < len && self.taken[p].0 <= ptr
            invariant
                1 <= p <= len,
                len == self.taken@.len(),
                len >= 1,
                forall|k: int| 1 <= k < p ==> (#[trigger] self.taken@[k]).0 <= ptr,
                ledger_insert_pos(self.taken@, ptr as int, 1) == ledger_insert_pos(
                    self.taken@,
                    ptr as int,
                    p as int,
                ),
            decreases len - p,
        {
            p += 1;
        }
        proof {
            assert(ledger_insert_pos(self.taken@, ptr as int, 1) == p);
        }
        let ghost prev = self.taken@;
        self.taken.insert(p, (ptr, size));
        proof {
            let w = choose|w: int|
                0 <= w < self.mmap@.len() && (#[trigger] self.mmap@[w]).0 <= ptr as int && ptr
                    + size <= self.mmap@[w].0 + self.mmap@[w].1;
            assert(ptr + size <= usize::MAX);
            assert forall|k: int| 0 <= k < self.taken@.len() implies (#[trigger] self.taken@[k]).0
                + self.taken@[k].1 <= usize::MAX by {
                if k < p {
                    assert(self.taken@[k] == prev[k]);
                } else if k > p {
                    assert(self.taken@[k] == prev[k - 1]);
                }
            }
            assert forall|k1: int, k2: int| 1 <= k1 < k2 < self.taken@.len() implies (
            #[trigger] self.taken@[k1]).0 <= (#[trigger] self.taken@[k2]).0 by {
                if k2 < p {
                    assert(self.taken@[k1] == prev[k1]);
                    assert(self.taken@[k2] == prev[k2]);
                } else if k1 > p {
                    assert(self.taken@[k1] == prev[k1 - 1]);
                    assert(self.taken@[k2] == prev[k2 - 1]);
                } else if k1 == p && k2 > p {
                    assert(self.taken@[k2] == prev[k2 - 1]);
                    assert(prev[k2 - 1].0 > ptr);
                } else if k1 < p && k2 == p {
                    assert(self.taken@[k1] == prev[k1]);
                } else {
                    assert(self.taken@[k1] == prev[k1]);
                    assert(self.taken@[k2] == prev[k2 - 1]);
                    assert(prev[k2 - 1].0 > ptr);
                }
            }
        }
        ptr
    }

    /// Removes the ledger entry matching the address and size exactly; a
    /// mismatched size or an unknown address is a silent no-op. Entry 0, the
    /// ledger's own storage, is never freed.
    pub fn free(&mut self, start: usize, size: usize)
        requires
            old(self).wf(),
        ensures
            final(self).wf(),
            final(self).free_view() == old(self).free_view(),
            ({
                let j = ledger_match_from(old(self).ledger_view(), start as int, size as int, 1);
                if j < old(self).ledger_view().len() {
                    final(self).ledger_view() == old(self).ledger_view().remove(j)
                } else {
                    final(self).ledger_view() == old(self).ledger_view()
                }
            }),
    {
        let found = self.taken_match(start, size);
        if let Some(i) = found {
            proof {
                let j = ledger_match_from(self.taken@, start as int, size as int, 1);
                if self.taken@.len() >= 1 {
                    lemma_match_found(self.taken@, start as int, size as int, 1);
                }
                assert(j < self.taken@.len());
                assert(i == j);
            }
            let ghost prev = self.taken@;
            self.taken.remove(i);
            proof {
                assert forall|k: int| 0 <= k < self.taken@.len() implies (#[trigger] self.taken@[k]).0
                    + self.taken@[k].1 <= usize::MAX by {
                    if k < i {
                        assert(self.taken@[k] == prev[k]);
                    } else {
                        assert(self.taken@[k] == prev[k + 1]);
                    }
                }
                assert forall|k1: int, k2: int| 1 <= k1 < k2 < self.taken@.len() implies (
                #[trigger] self.taken@[k1]).0 <= (#[trigger] self.taken@[k2]).0 by {
                    if k2 < i {
                        assert(self.taken@[k1] == prev[k1]);
                        assert(self.taken@[k2] == prev[k2]);
                    } else if k1 >= i {
                        assert(self.taken@[k1] == prev[k1 + 1]);
                        assert(self.taken@[k2] == prev[k2 + 1]);
                    } else {
                        assert(self.taken@[k1] == prev[k1]);
                        assert(self.taken@[k2] == prev[k2 + 1]);
                    }
                }
            }
        }
    }

    /// Resizes a live allocation. Shrinking updates the ledger entry in
    /// place at the same address. Growing extends the block in place when
    /// the bytes directly after it are free and unclaimed by the next ledger
    /// entry; otherwise it allocates a fresh block of the new size and frees
    /// the old one, returning the new address — or the null sentinel,
    /// changing nothing, when no block fits. Growing the ledger's own
    /// backing table (entry 0) instead relocates it past the last ledger
    /// entry.
    pub fn resize(&mut self, start: usize, old_size: usize, new_size: usize) -> (r: usize)
        requires
            old(self).wf(),
            old(self).ledger_view().len() < LEDGER_CAPACITY,
            start + new_size <= usize::MAX,
        ensures
            final(self).wf(),
            final(self).free_view() == old(self).free_view(),
            new_size <= old_size ==> r == start && final(self).ledger_view() == ({
                let j = ledger_match_start_from(old(self).ledger_view(), start as int, 1);
                if j < old(self).ledger_view().len() {
                    old(self).ledger_view().update(j, (start, new_size))
                } else {
                    old(self).ledger_view()
                }
            }),
            (new_size > old_size && old(self).ledger_view().len() > 0 && start == old(
                self,
            ).ledger_view()[0].0) ==> ({
                let last = old(self).ledger_view()[old(self).ledger_view().len() - 1];
                let p = last.0 + last.1;
                let good = if p + new_size <= usize::MAX {
                    next_valid_ptr_from(old(self).free_view(), p, new_size as int, 0)
                } else {
                    0int
                };
                r as int == good && final(self).ledger_view() == old(self).ledger_view().update(
                    0,
                    (r, new_size),
                )
            }),
            (new_size > old_size && !(old(self).ledger_view().len() > 0 && start == old(
                self,
            ).ledger_view()[0].0)) ==> ({
                let add = more_size_spec(
                    old(self).ledger_view(),
                    old(self).free_view(),
                    start as int,
                    old_size as int,
                );
                if old_size + add >= new_size {
                    r == start && final(self).ledger_view() == ({
                        let j = ledger_match_start_from(old(self).ledger_view(), start as int, 1);
                        if j < old(self).ledger_view().len() {
                            old(self).ledger_view().update(j, (start, new_size))
                        } else {
                            old(self).ledger_view()
                        }
                    })
                } else {
                    r as int == first_slot(
                        old(self).ledger_view(),
                        old(self).free_view(),
                        new_size as int,
                    ) && (r == 0 ==> final(self).ledger_view() == old(self).ledger_view()) && (r
                        != 0 ==> final(self).ledger_view() == ({
                        let t1 = old(self).ledger_view().insert(
                            ledger_insert_pos(old(self).ledger_view(), r as int, 1),
                            (r, new_size),
                        );
                        let j = ledger_match_from(t1, start as int, old_size as int, 1);
                        if j < t1.len() {
                            t1.remove(j)
                        } else {
                            t1
                        }
                    }))
                }
            }),
    {
        if new_size <= old_size {
            let found = self.taken_match_start(start);
            if let Some(i) = found {
                proof {
                    let j = ledger_match_start_from(self.taken@, start as int, 1);
                    if self.taken@.len() >= 1 {
                        lemma_match_start_found(self.taken@, start as int, 1);
                    }
                    assert(j < self.taken@.len());
                    assert(i == j);
                }
                let ghost prev = self.taken@;
                self.taken.set(i, (start, new_size));
                proof {
                    assert forall|k1: int, k2: int| 1 <= k1 < k2 < self.taken@.len() implies (
                    #[trigger] self.taken@[k1]).0 <= (#[trigger] self.taken@[k2]).0 by {
                        assert(self.taken@[k1].0 == prev[k1].0);
                        assert(self.taken@[k2].0 == prev[k2].0);
                    }
                }
            }
            return start;
        }
        let len = self.taken.len();
        if len > 0 && self.taken[0].0 == start {
            let (ls, ll) = self.taken[len - 1];
            let pstart = ls + ll;
            let good = if new_size <= usize::MAX - pstart {
                self.next_valid_memory_ptr(pstart, new_size)
            } else {
                0
            };
            let ghost prev = self.taken@;
            self.taken.set(0, (good, new_size));
            proof {
                if good != 0 {
                    let w = choose|w: int|
                        0 <= w < self.mmap@.len() && (#[trigger] self.mmap@[w]).0 <= good as int
                            && good + new_size <= self.mmap@[w].0 + self.mmap@[w].1;
                    assert(good + new_size <= usize::MAX);
                }
                assert forall|k1: int, k2: int| 1 <= k1 < k2 < self.taken@.len() implies (
                #[trigger] self.taken@[k1]).0 <= (#[trigger] self.taken@[k2]).0 by {
                    assert(self.taken@[k1].0 == prev[k1].0);
                    assert(self.taken@[k2].0 == prev[k2].0);
                }
            }
            return good;
        }
        let add = self.taken_more_size_available(start, old_size);
        if add >= new_size - old_size {
            let found = self.taken_match_start(start);
            if let Some(i) = found {
                proof {
                    let j = ledger_match_start_from(self.taken@, start as int, 1);
                    if self.taken@.len() >= 1 {
                        lemma_match_start_found(self.taken@, start as int, 1);
                    }
                    assert(j < self.taken@.len());
                    assert(i == j);
                }
                let ghost prev = self.taken@;
                self.taken.set(i, (start, new_size));
                proof {
                    assert forall|k1: int, k2: int| 1 <= k1 < k2 < self.taken@.len() implies (
                    #[trigger] self.taken@[k1]).0 <= (#[trigger] self.taken@[k2]).0 by {
                        assert(self.taken@[k1].0 == prev[k1].0);
                        assert(self.taken@[k2].0 == prev[k2].0);
                    }
                }
            }
            return start;
        }
        let nptr = self.allocate(new_size);
        if nptr == 0 {
            return 0;
        }
        self.free(start, old_size);
        nptr
    }

    /// Restores the ledger's order: the entries after the self-referential
    /// entry 0 are sorted by start address. Returns whether anything changed.
    pub fn taken_organize(&mut self) -> (r: bool)
        requires
            old(self).ledger_view().len() >= 1,
            old(self).ledger_view().len() <= LEDGER_CAPACITY,
            forall|k: int|
                0 <= k < old(self).ledger_view().len()
                    ==> (#[trigger] old(self).ledger_view()[k]).0 + old(self).ledger_view()[k].1
                    <= usize::MAX,
        ensures
            final(self).free_view() == old(self).free_view(),
            final(self).ledger_view().len() == old(self).ledger_view().len(),
            final(self).ledger_view()[0] == old(self).ledger_view()[0],
            forall|i: int, j: int|
                1 <= i < j < final(self).ledger_view().len()
                    ==> (#[trigger] final(self).ledger_view()[i]).0
                    <= (#[trigger] final(self).ledger_view()[j]).0,
            final(self).ledger_view().subrange(
                1,
                final(self).ledger_view().len() as int,
            ).to_multiset() == old(self).ledger_view().subrange(
                1,
                old(self).ledger_view().len() as int,
            ).to_multiset(),
            ledger_wf(final(self).ledger_view()),
            r == (final(self).ledger_view() != old(self).ledger_view()),
    {
        broadcast use vstd::seq_lib::to_multiset_insert;
        broadcast use vstd::seq_lib::to_multiset_build;

        let len = self.taken.len();
        let mut tail: Vec<(usize, usize)> = Vec::new();
        proof {
            assert(self.taken@.subrange(1, 1) =~= tail@);
        }
        let mut i: usize = 1;
        while i < len
            invariant
                1 <= i <= len,
                len == self.taken@.len(),
                tail@.len() == i - 1,
                forall|p: int, q: int|
                    0 <= p < q < tail@.len() ==> (#[trigger] tail@[p]).0
                        <= (#[trigger] tail@[q]).0,
                forall|k: int|
                    0 <= k < tail@.len() ==> (#[trigger] tail@[k]).0 + tail@[k].1 <= usize::MAX,
                tail@.to_multiset() == self.taken@.subrange(1, i as int).to_multiset(),
                forall|k: int|
                    0 <= k < self.taken@.len() ==> (#[trigger] self.taken@[k]).0 + self.taken@[k].1
                        <= usize::MAX,
            decreases len - i,
        {
            let x = self.taken[i];
            let mut p: usize = 0;
            while p < tail.len() && tail[p].0 <= x.0
                invariant
                    p <= tail@.len(),
                    forall|k: int| 0 <= k < p ==> (#[trigger] tail@[k]).0 <= x.0,
                decreases tail@.len() - p,
            {
                p += 1;
            }
            let ghost prev = tail@;
            tail.insert(p, x);
            proof {
                assert(tail@ == prev.insert(p as int, x));
                vstd::seq_lib::to_multiset_insert(prev, p as int, x);
                assert(tail@.to_multiset() == prev.to_multiset().insert(x));
                assert(self.taken@.subrange(1, i + 1) =~= self.taken@.subrange(1, i as int).push(
                    x,
                ));
                vstd::seq_lib::to_multiset_build(self.taken@.subrange(1, i as int), x);
                assert(self.taken@.subrange(1, i as int).push(x).to_multiset()
                    == self.taken@.subrange(1, i as int).to_multiset().insert(x));
                assert(tail@.to_multiset() == self.taken@.subrange(1, i + 1).to_multiset());
                assert forall|k1: int, k2: int| 0 <= k1 < k2 < tail@.len() implies (#[trigger] tail@[k1]).0
                    <= (#[trigger] tail@[k2]).0 by {
                    if k2 < p {
                    } else if k1 > p {
                        assert(tail@[k1] == prev[k1 - 1]);
                        assert(tail@[k2] == prev[k2 - 1]);
                    } else if k1 == p && k2 > p {
                        assert(tail@[k2] == prev[k2 - 1]);
                        assert(prev[k2 - 1].0 >= prev[p as int].0);
                        assert(prev[p as int].0 > x.0);
                    } else if k1 < p && k2 == p {
                        assert(tail@[k1] == prev[k1]);
                    } else {
                        assert(tail@[k1] == prev[k1]);
                        assert(tail@[k2] == prev[k2 - 1]);
                        assert(prev[k2 - 1].0 >= prev[p as int].0);
                        assert(prev[p as int].0 > x.0);
                    }
                }
                assert forall|k: int| 0 <= k < tail@.len() implies (#[trigger] tail@[k]).0
                    + tail@[k].1 <= usize::MAX by {
                    if k < p {
                        assert(tail@[k] == prev[k]);
                    } else if k > p {
                        assert(tail@[k] == prev[k - 1]);
                    } else {
                        assert(tail@[k] == self.taken@[i as int]);
                    }
                }
            }
            i += 1;
        }
        let mut out: Vec<(usize, usize)> = Vec::new();
        out.push(self.taken[0]);
        let mut j: usize = 0;
        while j < tail.len()
            invariant
                j <= tail@.len(),
                self.taken@.len() >= 1,
                out@ == seq![self.taken@[0]] + tail@.subrange(0, j as int),
            decreases tail@.len() - j,
        {
            out.push(tail[j]);
            proof {
                assert(out@ =~= seq![self.taken@[0]] + tail@.subrange(0, j + 1));
            }
            j += 1;
        }
        proof {
            assert(out@ =~= seq![self.taken@[0]] + tail@);
            assert(out@.subrange(1, out@.len() as int) =~= tail@);
            assert(self.taken@.subrange(1, len as int) =~= self.taken@.subrange(1, i as int));
        }
        let changed = !crate::memory_map::sections_equal(&self.taken, &out);
        self.taken = out;
        changed
    }

    /// Returns the ledger index whose entry matches the given start and size
    /// exactly; entry 0, the ledger's own storage, is never matched.
    pub fn taken_match(&self, start: usize, size: usize) -> (r: Option<usize>)
        requires
            self.wf(),
        ensures
            ({
                let j = ledger_match_from(self.ledger_view(), start as int, size as int, 1);
                if j < self.ledger_view().len() {
                    r == Some(j as usize)
                } else {
                    r is None
                }
            }),
    {
        let len = self.taken.len();
        if len <= 1 {
            return None;
        }
        let mut i: usize = 1;
        while i < len
            invariant
                1 <= i <= len,
                len == self.taken@.len(),
                ledger_match_from(self.taken@, start as int, size as int, 1) == ledger_match_from(
                    self.taken@,
                    start as int,
                    size as int,
                    i as int,
                ),
            decreases len - i,
        {
            let (ts, tl) = self.taken[i];
            if ts == start && tl == size {
                return Some(i);
            }
            i += 1;
        }
        None
    }

    /// Returns the ledger index of the first entry past entry 0 with the
    /// given start address.
    pub fn taken_match_start(&self, start: usize) -> (r: Option<usize>)
        requires
            self.wf(),
        ensures
            ({
                let j = ledger_match_start_from(self.ledger_view(), start as int, 1);
                if j < self.ledger_view().len() {
                    r == Some(j as usize)
                } else {
                    r is None
                }
            }),
    {
        let len = self.taken.len();
        if len <= 1 {
            return None;
        }
        let mut i: usize = 1;
        while i < len
            invariant
                1 <= i <= len,
                len == self.taken@.len(),
                ledger_match_start_from(self.taken@, start as int, 1) == ledger_match_start_from(
                    self.taken@,
                    start as int,
                    i as int,
                ),
            decreases len - i,
        {
            let (ts, _) = self.taken[i];
            if ts == start {
                return Some(i);
            }
            i += 1;
        }
        None
    }

    /// Returns the number of additional free bytes directly after the
    /// matched allocation, stopping at the next ledger entry: how far the
    /// block could grow in place.
    pub fn taken_more_size_available(&self, mstart: usize, msize: usize) -> (r: usize)
        requires
            self.wf(),
        ensures
            r as int == more_size_spec(
                self.ledger_view(),
                self.free_view(),
                mstart as int,
                msize as int,
            ),
            r != 0 ==> range_in_free(self.free_view(), mstart + msize, r as int),
            r != 0 ==> mstart + msize + r <= usize::MAX,
    {
        proof {
            if self.taken@.len() >= 1 {
                lemma_match_found(self.taken@, mstart as int, msize as int, 1);
            } else {
                assert(ledger_match_from(self.taken@, mstart as int, msize as int, 1)
                    == self.taken@.len());
            }
        }
        let found = self.taken_match(mstart, msize);
        match found {
            None => 0,
            Some(j) => {
                proof {
                    lemma_match_found(self.taken@, mstart as int, msize as int, 1);
                }
                let pstart = mstart + msize;
                let limit = if j + 1 < self.taken.len() {
                    self.taken[j + 1].0
                } else {
                    usize::MAX
                };
                if limit <= pstart {
                    0
                } else {
                    let (gs, gsz) = self.reduce_size_fit_next_available_slot(
                        pstart,
                        limit - pstart,
                    );
                    proof {
                        lemma_reduce_fit_in_free(
                            self.mmap@,
                            pstart as int,
                            (limit - pstart) as int,
                            0,
                        );
                        if gs == pstart && gsz != 0 {
                            let w = choose|w: int|
                                0 <= w < self.mmap@.len() && (#[trigger] self.mmap@[w]).0
                                    <= pstart as int && pstart + gsz <= self.mmap@[w].0
                                    + self.mmap@[w].1;
                            assert(pstart + gsz <= usize::MAX);
                        }
                    }
                    if gs == pstart {
                        gsz
                    } else {
                        0
                    }
                }
            },
        }
    }

    /// True exactly when some free section wholly contains
    /// `[ptr, ptr + size)`; for an empty request, when some free section
    /// strictly surrounds `ptr`.
    pub fn valid_memory_check(&self, ptr: usize, size: usize) -> (r: bool)
        requires
            self.wf(),
            ptr + size <= usize::MAX,
        ensures
            size > 0 ==> (r <==> range_in_free(self.free_view(), ptr as int, size as int)),
            size == 0 ==> (r <==> exists|i: int|
                0 <= i < self.free_view().len() && (#[trigger] self.free_view()[i]).0 < ptr
                    < self.free_view()[i].0 + self.free_view()[i].1),
    {
        let sz = self.mmap.len();
        let mut i: usize = 0;
        while i < sz
            invariant
                i <= sz,
                sz == self.mmap@.len(),
                self.wf(),
                ptr + size <= usize::MAX,
                forall|k: int|
                    0 <= k < i ==> classify(
                        (#[trigger] self.mmap@[k]).0 as int,
                        self.mmap@[k].1 as int,
                        ptr as int,
                        size as int,
                    ) == MemoryPattern::Separate,
            decreases sz - i,
        {
            let (s, l) = self.mmap.section(i);
            let rel = cmp_mem_sct(s, l, ptr, size);
            if matches!(rel, MemoryPattern::NoChange) {
                proof {
                    crate::pattern::lemma_nochange_is_contained(
                        s as int,
                        l as int,
                        ptr as int,
                        size as int,
                    );
                }
                return true;
            }
            if !matches!(rel, MemoryPattern::Separate) {
                proof {
                    lemma_no_other_section_contains(self.mmap@, ptr as int, size as int, i as int);
                }
                return false;
            }
            i += 1;
        }
        proof {
            lemma_no_section_contains(self.mmap@, ptr as int, size as int);
        }
        false
    }
}

} // verus!
