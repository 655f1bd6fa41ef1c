//! The free-memory interval set: a capacity-bounded collection of disjoint,
//! coalesced `(start, size)` ranges of physical addresses, ordered by start
//! address.
//!
//! `glue_section` marks a range free (merging overlaps and touches),
//! `rip_section` marks a range reserved (trimming and splitting), and
//! `organize` repairs an arbitrary section list back into normal form.

use vstd::prelude::*;

use crate::pattern::MemoryPattern;
use crate::pattern::classify;

verus! {

/// Number of section slots the map can hold; exceeding it is a fatal
/// condition in a bootstrap allocator, reported as `CapacityError`.
pub const SECTION_CAPACITY: usize = 256;

/// The fixed-capacity section table cannot take the one more entry the
/// operation would have produced.
#[derive(Clone, Copy, Debug, PartialEq, Eq, Structural)]
pub struct CapacityError;

/// Normal form of a section list: sorted ascending by start, every section
/// non-empty and in-bounds, and no two sections overlapping or even touching
/// (touching ranges must have been coalesced).
pub open spec fn sections_wf(s: Seq<(usize, usize)>) -> bool {
    &&& (forall|i: int|
        0 <= i < s.len() ==> (#[trigger] s[i]).1 > 0 && s[i].0 + s[i].1 <= usize::MAX)
    &&& (forall|i: int, j: int|
        0 <= i < j < s.len() ==> (#[trigger] s[i]).0 + s[i].1 < (#[trigger] s[j]).0)
}

/// Address `a` lies in one of the sections.
pub open spec fn covers(s: Seq<(usize, usize)>, a: int) -> bool {
    exists|i: int| 0 <= i < s.len() && (#[trigger] s[i]).0 <= a < s[i].0 + s[i].1
}

/// The set of free physical memory, represented as disjoint sorted sections.
pub struct MemoryMap {
    sections: Vec<(usize, usize)>,
}

impl View for MemoryMap {
    type V = Seq<(usize, usize)>;

    closed spec fn view(&self) -> Seq<(usize, usize)> {
        self.sections@
    }
}

impl MemoryMap {
    /// The map is in normal form and within its capacity bound.
    pub open spec fn wf(&self) -> bool {
        sections_wf(self@) && self@.len() <= SECTION_CAPACITY
    }

    /// An empty map: no memory is free.
    pub fn new() -> (r: Self)
        ensures
            r@ == Seq::<(usize, usize)>::empty(),
            r.wf(),
    {
        MemoryMap { sections: Vec::new() }
    }

    /// A map over the given raw section list, which need not be in normal
    /// form; `organize` brings it there.
    pub fn from_sections(sections: Vec<(usize, usize)>) -> (r: Self)
        requires
            sections@.len() <= SECTION_CAPACITY,
        ensures
            r@ == sections@,
    {
        MemoryMap { sections }
    }

    /// Number of sections currently held.
    pub fn len(&self) -> (r: usize)
        ensures
            r == self@.len(),
    {
        self.sections.len()
    }

    /// The section at the given slot.
    pub fn section(&self, i: usize) -> (r: (usize, usize))
        requires
            i < self@.len(),
        ensures
            r == self@[i as int],
    {
        self.sections[i]
    }

    /// Marks `[start, start + size)` as free, merging it with every existing
    /// section it overlaps or touches.
    pub fn glue_section(&mut self, start: usize, size: usize) -> (res: Result<(), CapacityError>)
        requires
            old(self).wf(),
            start + size <= usize::MAX,
        ensures
            final(self).wf(),
            res is Ok ==> forall|a: int|
                #![trigger covers(final(self)@, a)]
                covers(final(self)@, a) <==> covers(old(self)@, a) || (start <= a < start + size),
            res is Err ==> final(self)@ == old(self)@,
            res is Err <==> (size > 0 && old(self)@.len() == SECTION_CAPACITY && (forall|k: int|
                0 <= k < old(self)@.len() ==> classify(
                    (#[trigger] old(self)@[k]).0 as int,
                    old(self)@[k].1 as int,
                    start as int,
                    size as int,
                ) == MemoryPattern::Separate)),
            final(self)@.len() <= old(self)@.len() + 1,
    {
        if size == 0 {
            return Ok(());
        }
        let out = glued_sections(&self.sections, start, size);
        if out.len() > SECTION_CAPACITY {
            proof {
                lemma_all_separate_iff(self.sections@, start, size, out@.len() as int);
            }
            return Err(CapacityError);
        }
        proof {
            lemma_all_separate_iff(self.sections@, start, size, out@.len() as int);
        }
        self.sections = out;
        Ok(())
    }
}

impl MemoryMap {
    /// Marks `[start, start + size)` as no longer free, trimming every
    /// overlapping section and splitting a section that strictly contains the
    /// range into a left and a right remainder.
    pub fn rip_section(&mut self, start: usize, size: usize) -> (res: Result<(), CapacityError>)
        requires
            old(self).wf(),
            start + size <= usize::MAX,
        ensures
            final(self).wf(),
            res is Ok ==> forall|a: int|
                #![trigger covers(final(self)@, a)]
                covers(final(self)@, a) <==> covers(old(self)@, a) && !(start <= a < start
                    + size),
            res is Err ==> final(self)@ == old(self)@,
            res is Err <==> (size > 0 && old(self)@.len() == SECTION_CAPACITY && (exists|k: int|
                0 <= k < old(self)@.len() && (#[trigger] old(self)@[k]).0 < start && start + size
                    < old(self)@[k].0 + old(self)@[k].1)),
            final(self)@.len() <= old(self)@.len() + 1,
    {
        if size == 0 {
            return Ok(());
        }
        let out = ripped_sections(&self.sections, start, size);
        if out.len() > SECTION_CAPACITY {
            return Err(CapacityError);
        }
        self.sections = out;
        Ok(())
    }
}

/// Builds the section list that results from ripping `[start, start + size)`
/// out of a normal-form list.
#[verifier::loop_isolation(false)]
#[verifier::rlimit(50)]
fn ripped_sections(sections: &Vec<(usize, usize)>, start: usize, size: usize) -> (out: Vec<
    (usize, usize),
>)
    requires
        sections_wf(sections@),
        start + size <= usize::MAX,
        size > 0,
    ensures
        sections_wf(out@),
        forall|a: int|
            #![trigger covers(out@, a)]
            covers(out@, a) <==> covers(sections@, a) && !(start <= a < start + size),
        out@.len() <= sections@.len() + 1,
        (out@.len() == sections@.len() + 1) <==> (exists|k: int|
            0 <= k < sections@.len() && (#[trigger] sections@[k]).0 < start && start + size
                < sections@[k].0 + sections@[k].1),
{
    let n = sections.len();
    let g_end = start + size;

    // sections ending at or before the candidate's start stay whole
    let mut lo: usize = 0;
    while lo < n && sections[lo].0 + sections[lo].1 <= start
        invariant
            lo <= n,
            forall|k: int| 0 <= k < lo ==> (#[trigger] sections@[k]).0 + sections@[k].1 <= start,
        decreases n - lo,
    {
        lo += 1;
    }

    // sections starting at or past the candidate's end stay whole
    let mut hi: usize = lo;
    while hi < n && sections[hi].0 < g_end
        invariant
            lo <= hi <= n,
            forall|k: int| lo <= k < hi ==> (#[trigger] sections@[k]).0 < g_end,
        decreases n - hi,
    {
        hi += 1;
    }

    let mut out: Vec<(usize, usize)> = Vec::new();
    let mut i: usize = 0;
    while i < lo
        invariant
            i <= lo <= n,
            out@ == sections@.subrange(0, i as int),
        decreases lo - i,
    {
        out.push(sections[i]);
        proof {
            assert(out@ =~= sections@.subrange(0, i + 1));
        }
        i += 1;
    }

    let ghost prefix = sections@.subrange(0, lo as int);
    let ghost left_rem = if lo < hi && sections@[lo as int].0 < start {
        seq![(sections@[lo as int].0, (start - sections@[lo as int].0) as usize)]
    } else {
        Seq::<(usize, usize)>::empty()
    };
    let ghost right_rem = if lo < hi && sections@[hi - 1].0 + sections@[hi - 1].1 > start + size {
        seq![
            (
                (start + size) as usize,
                (sections@[hi - 1].0 + sections@[hi - 1].1 - start - size) as usize,
            ),
        ]
    } else {
        Seq::<(usize, usize)>::empty()
    };

    if lo < hi {
        let (s0, _) = sections[lo];
        if s0 < start {
            out.push((s0, start - s0));
        }
        let (s1, l1) = sections[hi - 1];
        if s1 + l1 > g_end {
            out.push((g_end, s1 + l1 - g_end));
        }
    }
    assert(out@ == prefix + left_rem + right_rem);

    let ghost mid = prefix + left_rem + right_rem;
    let mut j: usize = hi;
    while j < n
        invariant
            hi <= j <= n,
            out@ == mid + sections@.subrange(hi as int, j as int),
        decreases n - j,
    {
        out.push(sections[j]);
        proof {
            assert(out@ =~= mid + sections@.subrange(hi as int, j + 1));
        }
        j += 1;
    }

    proof {
        lemma_ripped_correct(sections@, out@, lo as int, hi as int, start, size);
    }

    out
}

/// Correctness of the section list assembled by `ripped_sections`: it is in
/// normal form, covers exactly the old sections minus the candidate range,
/// and grows by one slot exactly when one section strictly contains the
/// candidate.
#[verifier::rlimit(50)]
proof fn lemma_ripped_correct(
    secs: Seq<(usize, usize)>,
    out: Seq<(usize, usize)>,
    lo: int,
    hi: int,
    start: usize,
    size: usize,
)
    requires
        sections_wf(secs),
        size > 0,
        start + size <= usize::MAX,
        0 <= lo <= hi <= secs.len(),
        forall|k: int| 0 <= k < lo ==> (#[trigger] secs[k]).0 + secs[k].1 <= start,
        lo < secs.len() ==> secs[lo].0 + secs[lo].1 > start,
        forall|k: int| lo <= k < hi ==> (#[trigger] secs[k]).0 < start + size,
        hi < secs.len() ==> secs[hi].0 >= start + size,
        out == secs.subrange(0, lo) + (if lo < hi && secs[lo].0 < start {
            seq![(secs[lo].0, (start - secs[lo].0) as usize)]
        } else {
            Seq::<(usize, usize)>::empty()
        }) + (if lo < hi && secs[hi - 1].0 + secs[hi - 1].1 > start + size {
            seq![
                ((start + size) as usize, (secs[hi - 1].0 + secs[hi - 1].1 - start - size) as usize),
            ]
        } else {
            Seq::<(usize, usize)>::empty()
        }) + secs.subrange(hi, secs.len() as int),
    ensures
        sections_wf(out),
        forall|a: int|
            #![trigger covers(out, a)]
            covers(out, a) <==> covers(secs, a) && !(start <= a < start + size),
        out.len() <= secs.len() + 1,
        (out.len() == secs.len() + 1) <==> (exists|k: int|
            0 <= k < secs.len() && (#[trigger] secs[k]).0 < start && start + size < secs[k].0
                + secs[k].1),
{
    let n = secs.len() as int;
    let g_end = start + size;
    let left: int = if lo < hi && secs[lo].0 < start {
        1
    } else {
        0
    };
    let right: int = if lo < hi && secs[hi - 1].0 + secs[hi - 1].1 > g_end {
        1
    } else {
        0
    };
    assert(out.len() == lo + left + right + (n - hi));

    // ends of the overlapped block grow strictly with the index
    assert forall|k: int| lo < k < hi implies (#[trigger] secs[k]).0 > start && secs[k].0
        + secs[k].1 > start by {
        assert(secs[lo].0 + secs[lo].1 < secs[k].0);
    }

    // normal form of the result
    assert forall|p: int, q: int| 0 <= p < q < out.len() implies (#[trigger] out[p]).0 + out[p].1
        < (#[trigger] out[q]).0 by {
        if p >= lo + left + right {
            assert(out[p] == secs[p - left - right + (hi - lo)]);
            assert(out[q] == secs[q - left - right + (hi - lo)]);
        } else if q >= lo + left + right {
            let qk = q - left - right + (hi - lo);
            assert(out[q] == secs[qk]);
            if p < lo {
                assert(out[p] == secs[p]);
                assert(secs[p].0 + secs[p].1 < secs[qk].0);
            } else if p == lo && left == 1 {
                assert(out[p] == (secs[lo].0, (start - secs[lo].0) as usize));
                assert(secs[lo].0 + secs[lo].1 < secs[qk].0);
            } else {
                assert(out[p] == ((start + size) as usize, (secs[hi - 1].0 + secs[hi - 1].1 - start
                    - size) as usize));
                assert(secs[hi - 1].0 + secs[hi - 1].1 < secs[qk].0);
            }
        } else if p < lo && q < lo {
        } else if p < lo {
            assert(out[p] == secs[p]);
            assert(secs[p].0 + secs[p].1 <= start);
            if q == lo && left == 1 {
                assert(out[q].0 == secs[lo].0);
                assert(secs[p].0 + secs[p].1 < secs[lo].0);
            } else {
                assert(out[q].0 == start + size);
            }
        } else {
            // p is the left remainder, q the right remainder
            assert(out[p] == (secs[lo].0, (start - secs[lo].0) as usize));
            assert(out[q].0 == start + size);
        }
    }

    // coverage in both directions
    assert forall|a: int| covers(out, a) implies (covers(secs, a) && !(start <= a < start
        + size)) by {
        let w = choose|w: int|
            0 <= w < out.len() && (#[trigger] out[w]).0 <= a < out[w].0 + out[w].1;
        if w < lo {
            assert(out[w] == secs[w]);
            assert(secs[w].0 <= a < secs[w].0 + secs[w].1);
        } else if w >= lo + left + right {
            let k = w - left - right + (hi - lo);
            assert(out[w] == secs[k]);
            assert(secs[k].0 <= a < secs[k].0 + secs[k].1);
            assert(secs[k].0 >= start + size);
        } else if w == lo && left == 1 {
            assert(out[w] == (secs[lo].0, (start - secs[lo].0) as usize));
            assert(secs[lo].0 <= a < secs[lo].0 + secs[lo].1);
        } else {
            assert(out[w] == ((start + size) as usize, (secs[hi - 1].0 + secs[hi - 1].1 - start
                - size) as usize));
            assert(secs[hi - 1].0 <= a < secs[hi - 1].0 + secs[hi - 1].1);
        }
    }
    assert forall|a: int| (covers(secs, a) && !(start <= a < start + size)) implies covers(
        out,
        a,
    ) by {
        let w = choose|w: int|
            0 <= w < secs.len() && (#[trigger] secs[w]).0 <= a < secs[w].0 + secs[w].1;
        if w < lo {
            assert(out[w] == secs[w]);
            assert(out[w].0 <= a < out[w].0 + out[w].1);
        } else if w >= hi {
            let q = w + left + right - (hi - lo);
            assert(out[q] == secs[w]);
            assert(out[q].0 <= a < out[q].0 + out[q].1);
        } else if a < start {
            // only the first overlapped section can reach below the candidate
            if w > lo {
                assert(secs[lo].0 + secs[lo].1 < secs[w].0);
                assert(false);
            }
            assert(left == 1);
            assert(out[lo as int] == (secs[lo].0, (start - secs[lo].0) as usize));
            assert(out[lo as int].0 <= a < out[lo as int].0 + out[lo as int].1);
        } else {
            // only the last overlapped section can reach past the candidate
            assert(a >= start + size);
            if w < hi - 1 {
                assert(secs[w].0 + secs[w].1 < secs[hi - 1].0);
                assert(secs[hi - 1].0 < start + size);
                assert(false);
            }
            assert(right == 1);
            let q = lo + left;
            assert(out[q] == ((start + size) as usize, (secs[hi - 1].0 + secs[hi - 1].1 - start
                - size) as usize));
            assert(out[q].0 <= a < out[q].0 + out[q].1);
        }
    }

    // the length grows exactly when one section strictly contains the range
    if out.len() == n + 1 {
        assert(left + right == hi - lo + 1);
        assert(left <= 1 && right <= 1);
        assert(hi - lo == 1);
        assert(secs[lo].0 < start && start + size < secs[lo].0 + secs[lo].1);
    }
    if exists|k: int|
        0 <= k < secs.len() && (#[trigger] secs[k]).0 < start && start + size < secs[k].0
            + secs[k].1 {
        let k = choose|k: int|
            0 <= k < secs.len() && (#[trigger] secs[k]).0 < start && start + size < secs[k].0
                + secs[k].1;
        assert(secs[k].0 + secs[k].1 > start);
        assert(k >= lo);
        if k > lo {
            assert(secs[lo].0 + secs[lo].1 < secs[k].0);
            assert(secs[lo].0 + secs[lo].1 > start);
            assert(secs[k].0 > start);
            assert(false);
        }
        assert(k == lo);
        assert(secs[k].0 < start + size);
        assert(k < hi);
        if hi > lo + 1 {
            assert(secs[lo + 1].0 < start + size);
            assert(secs[lo].0 + secs[lo].1 < secs[lo + 1].0);
            assert(false);
        }
        assert(hi == lo + 1);
        assert(left == 1 && right == 1);
        assert(out.len() == n + 1);
    }
}

/// Starts are non-decreasing along the list.
pub open spec fn sorted_starts(s: Seq<(usize, usize)>) -> bool {
    forall|i: int, j: int| 0 <= i < j < s.len() ==> (#[trigger] s[i]).0 <= (#[trigger] s[j]).0
}

impl MemoryMap {
    /// Idempotent invariant-repair pass: sorts the sections, drops empty
    /// ones, and coalesces every overlapping or touching pair, restoring
    /// normal form without changing which addresses are covered. Returns
    /// whether anything changed.
    pub fn organize(&mut self) -> (changed: bool)
        requires
            old(self)@.len() <= SECTION_CAPACITY,
            forall|k: int|
                0 <= k < old(self)@.len() ==> (#[trigger] old(self)@[k]).0 + old(self)@[k].1
                    <= usize::MAX,
        ensures
            final(self).wf(),
            forall|a: int|
                #![trigger covers(final(self)@, a)]
                covers(final(self)@, a) <==> covers(old(self)@, a),
            final(self)@.len() <= old(self)@.len(),
            changed == (final(self)@ != old(self)@),
    {
        let sorted = sorted_by_start(&self.sections);
        proof {
            assert forall|k: int| 0 <= k < sorted@.len() implies (#[trigger] sorted@[k]).0
                + sorted@[k].1 <= usize::MAX by {
                assert(self.sections@.contains(sorted@[k]));
                let j = choose|j: int|
                    0 <= j < self.sections@.len() && self.sections@[j] == sorted@[k];
                assert(self.sections@[j].0 + self.sections@[j].1 <= usize::MAX);
            }
        }
        let merged = coalesced(&sorted);
        let changed = !sections_equal(&self.sections, &merged);
        self.sections = merged;
        changed
    }
}

/// Element-wise equality of two section lists.
#[verifier::loop_isolation(false)]
pub(crate) fn sections_equal(a: &Vec<(usize, usize)>, b: &Vec<(usize, usize)>) -> (r: bool)
    ensures
        r == (a@ == b@),
{
    if a.len() != b.len() {
        return false;
    }
    let mut i: usize = 0;
    while i < a.len()
        invariant
            i <= a@.len(),
            a@.len() == b@.len(),
            forall|k: int| 0 <= k < i ==> a@[k] == b@[k],
        decreases a@.len() - i,
    {
        let (x0, x1) = a[i];
        let (y0, y1) = b[i];
        if x0 != y0 || x1 != y1 {
            proof {
                assert(a@[i as int] != b@[i as int]);
            }
            return false;
        }
        i += 1;
    }
    proof {
        assert(a@ =~= b@);
    }
    true
}

/// Inserting a section into a list covers exactly the old addresses plus the
/// section's own.
proof fn lemma_covers_insert(s: Seq<(usize, usize)>, p: int, x: (usize, usize), a: int)
    requires
        0 <= p <= s.len(),
    ensures
        covers(s.insert(p, x), a) <==> (covers(s, a) || (x.0 <= a < x.0 + x.1)),
{
    let t = s.insert(p, x);
    if covers(t, a) {
        let w = choose|w: int| 0 <= w < t.len() && (#[trigger] t[w]).0 <= a < t[w].0 + t[w].1;
        if w < p {
            assert(t[w] == s[w]);
            assert(covers(s, a));
        } else if w > p {
            assert(t[w] == s[w - 1]);
            assert(covers(s, a));
        }
    }
    if covers(s, a) {
        let w = choose|w: int| 0 <= w < s.len() && (#[trigger] s[w]).0 <= a < s[w].0 + s[w].1;
        if w < p {
            assert(t[w] == s[w]);
        } else {
            assert(t[w + 1] == s[w]);
        }
        assert(covers(t, a));
    }
    if x.0 <= a < x.0 + x.1 {
        assert(t[p] == x);
        assert(covers(t, a));
    }
}

/// Pushing a section onto a list covers exactly the old addresses plus the
/// section's own.
pub(crate) proof fn lemma_covers_push(s: Seq<(usize, usize)>, x: (usize, usize), a: int)
    ensures
        covers(s.push(x), a) <==> (covers(s, a) || (x.0 <= a < x.0 + x.1)),
{
    assert(s.push(x) =~= s.insert(s.len() as int, x));
    lemma_covers_insert(s, s.len() as int, x, a);
}

/// Reorders the sections by ascending start address without changing which
/// addresses are covered.
#[verifier::loop_isolation(false)]
#[verifier::rlimit(30)]
fn sorted_by_start(v: &Vec<(usize, usize)>) -> (out: Vec<(usize, usize)>)
    ensures
        sorted_starts(out@),
        out@.len() == v@.len(),
        forall|a: int| #![trigger covers(out@, a)] covers(out@, a) <==> covers(v@, a),
        forall|k: int| 0 <= k < out@.len() ==> v@.contains(#[trigger] out@[k]),
{
    let n = v.len();
    let mut out: Vec<(usize, usize)> = Vec::new();
    let mut i: usize = 0;
    while i < n
        invariant
            i <= n,
            out@.len() == i,
            sorted_starts(out@),
            forall|a: int|
                #![trigger covers(out@, a)]
                covers(out@, a) <==> covers(v@.subrange(0, i as int), a),
            forall|k: int| 0 <= k < out@.len() ==> v@.contains(#[trigger] out@[k]),
        decreases n - i,
    {
        let x = v[i];
        let mut p: usize = 0;
        while p < out.len() && out[p].0 <= x.0
            invariant
                p <= out@.len(),
                forall|k: int| 0 <= k < p ==> (#[trigger] out@[k]).0 <= x.0,
            decreases out@.len() - p,
        {
            p += 1;
        }
        let ghost prev = out@;
        out.insert(p, x);
        proof {
            assert forall|a: int| #![trigger covers(out@, a)] covers(out@, a) <==> covers(
                v@.subrange(0, i + 1),
                a,
            ) by {
                lemma_covers_insert(prev, p as int, x, a);
                assert(v@.subrange(0, i + 1) =~= v@.subrange(0, i as int).push(x));
                lemma_covers_push(v@.subrange(0, i as int), x, a);
            }
            assert forall|k: int| 0 <= k < out@.len() implies v@.contains(#[trigger] out@[k]) by {
                if k < p {
                    assert(out@[k] == prev[k]);
                } else if k > p {
                    assert(out@[k] == prev[k - 1]);
                } else {
                    assert(out@[k] == v@[i as int]);
                }
            }
            assert forall|k1: int, k2: int| 0 <= k1 < k2 < out@.len() implies (#[trigger] out@[k1]).0
                <= (#[trigger] out@[k2]).0 by {
                if k2 < p {
                } else if k1 > p {
                    assert(out@[k1] == prev[k1 - 1]);
                    assert(out@[k2] == prev[k2 - 1]);
                } else if k1 == p && k2 > p {
                    assert(out@[k2] == prev[k2 - 1]);
                    assert(prev[k2 - 1].0 >= prev[p as int].0);
                    assert(prev[p as int].0 > x.0);
                } else if k1 < p && k2 == p {
                    assert(out@[k1] == prev[k1]);
                } else {
                    // k1 < p < k2
                    assert(out@[k1] == prev[k1]);
                    assert(out@[k2] == prev[k2 - 1]);
                    assert(prev[k2 - 1].0 >= prev[p as int].0);
                    assert(prev[p as int].0 > x.0);
                }
            }
        }
        i += 1;
    }
    proof {
        assert(v@.subrange(0, n as int) == v@);
    }
    out
}

/// Coalesces a sorted section list: drops empty sections and merges every
/// overlapping or touching pair, leaving the list in normal form.
#[verifier::loop_isolation(false)]
#[verifier::rlimit(30)]
fn coalesced(v: &Vec<(usize, usize)>) -> (out: Vec<(usize, usize)>)
    requires
        sorted_starts(v@),
        forall|k: int| 0 <= k < v@.len() ==> (#[trigger] v@[k]).0 + v@[k].1 <= usize::MAX,
    ensures
        sections_wf(out@),
        forall|a: int| #![trigger covers(out@, a)] covers(out@, a) <==> covers(v@, a),
        out@.len() <= v@.len(),
{
    let n = v.len();
    let mut out: Vec<(usize, usize)> = Vec::new();
    let mut i: usize = 0;
    while i < n
        invariant
            i <= n,
            out@.len() <= i,
            sections_wf(out@),
            forall|a: int|
                #![trigger covers(out@, a)]
                covers(out@, a) <==> covers(v@.subrange(0, i as int), a),
            out@.len() > 0 && i < n ==> out@.last().0 <= v@[i as int].0,
        decreases n - i,
    {
        let (s, l) = v[i];
        let ghost prev = out@;
        if l == 0 {
            proof {
                assert forall|a: int| #![trigger covers(out@, a)] covers(out@, a) <==> covers(
                    v@.subrange(0, i + 1),
                    a,
                ) by {
                    assert(v@.subrange(0, i + 1) =~= v@.subrange(0, i as int).push((s, l)));
                    lemma_covers_push(v@.subrange(0, i as int), (s, l), a);
                }
            }
            i += 1;
            continue;
        }
        let e = s + l;
        if out.len() == 0 {
            out.push((s, l));
            proof {
                assert forall|a: int| #![trigger covers(out@, a)] covers(out@, a) <==> (covers(
                    prev,
                    a,
                ) || (s <= a < s + l)) by {
                    lemma_covers_push(prev, (s, l), a);
                }
            }
        } else {
            let li = out.len() - 1;
            let (ls, ll) = out[li];
            let le = ls + ll;
            if le < s {
                out.push((s, l));
                proof {
                    assert forall|p: int, q: int| 0 <= p < q < out@.len() implies (#[trigger] out@[p]).0
                        + out@[p].1 < (#[trigger] out@[q]).0 by {
                        if q == out@.len() - 1 && p < q - 1 {
                            assert(prev[p].0 + prev[p].1 < prev[li as int].0);
                        }
                    }
                    assert forall|a: int| #![trigger covers(out@, a)] covers(out@, a) <==> (covers(
                        prev,
                        a,
                    ) || (s <= a < s + l)) by {
                        lemma_covers_push(prev, (s, l), a);
                    }
                }
            } else {
                let ne = if e > le {
                    e
                } else {
                    le
                };
                out.set(li, (ls, ne - ls));
                proof {
                    assert forall|a: int| #![trigger covers(out@, a)] covers(out@, a) <==> (covers(
                        prev,
                        a,
                    ) || (s <= a < s + l)) by {
                        if covers(out@, a) {
                            let w = choose|w: int|
                                0 <= w < out@.len() && (#[trigger] out@[w]).0 <= a < out@[w].0
                                    + out@[w].1;
                            if w < li {
                                assert(out@[w] == prev[w]);
                                assert(covers(prev, a));
                            } else {
                                if a < le {
                                    assert(prev[li as int].0 <= a < prev[li as int].0
                                        + prev[li as int].1);
                                    assert(covers(prev, a));
                                } else {
                                    assert(s <= a < e);
                                }
                            }
                        }
                        if s <= a < s + l {
                            assert(out@[li as int].0 <= a < out@[li as int].0 + out@[li as int].1);
                            assert(covers(out@, a));
                        }
                        if covers(prev, a) {
                            let w = choose|w: int|
                                0 <= w < prev.len() && (#[trigger] prev[w]).0 <= a < prev[w].0
                                    + prev[w].1;
                            if w < li {
                                assert(out@[w] == prev[w]);
                            } else {
                                assert(out@[li as int].0 <= a < out@[li as int].0
                                    + out@[li as int].1);
                            }
                            assert(covers(out@, a));
                        }
                    }
                }
            }
        }
        proof {
            assert forall|a: int| #![trigger covers(out@, a)] covers(out@, a) <==> covers(
                v@.subrange(0, i + 1),
                a,
            ) by {
                assert(covers(out@, a) <==> (covers(prev, a) || (s <= a < s + l)));
                assert(covers(prev, a) <==> covers(v@.subrange(0, i as int), a));
                assert(v@.subrange(0, i + 1) =~= v@.subrange(0, i as int).push((s, l)));
                lemma_covers_push(v@.subrange(0, i as int), (s, l), a);
            }
        }
        i += 1;
    }
    proof {
        assert(v@.subrange(0, n as int) == v@);
    }
    out
}

/// Dropping the first section of a normal-form list covers exactly the
/// addresses at or past that section's end.
proof fn lemma_covers_tail(s: Seq<(usize, usize)>, a: int)
    requires
        sections_wf(s),
        s.len() > 0,
    ensures
        covers(s.drop_first(), a) <==> (covers(s, a) && a >= s[0].0 + s[0].1),
{
    let t = s.drop_first();
    if covers(t, a) {
        let w = choose|w: int| 0 <= w < t.len() && (#[trigger] t[w]).0 <= a < t[w].0 + t[w].1;
        assert(t[w] == s[w + 1]);
        assert(s[0].0 + s[0].1 < s[w + 1].0);
        assert(covers(s, a));
    }
    if covers(s, a) && a >= s[0].0 + s[0].1 {
        let w = choose|w: int| 0 <= w < s.len() && (#[trigger] s[w]).0 <= a < s[w].0 + s[w].1;
        assert(w != 0);
        assert(t[w - 1] == s[w]);
        assert(covers(t, a));
    }
}

/// The normal form is canonical: two normal-form section lists that cover
/// exactly the same addresses are equal.
pub proof fn lemma_sections_canonical(s1: Seq<(usize, usize)>, s2: Seq<(usize, usize)>)
    requires
        sections_wf(s1),
        sections_wf(s2),
        forall|a: int| #![trigger covers(s1, a)] covers(s1, a) <==> covers(s2, a),
    ensures
        s1 == s2,
    decreases s1.len(),
{
    if s1.len() == 0 {
        if s2.len() > 0 {
            let a = s2[0].0 as int;
            assert(covers(s2, a));
            assert(covers(s1, a));
            assert(false);
        }
        assert(s1 =~= s2);
    } else if s2.len() == 0 {
        let a = s1[0].0 as int;
        assert(covers(s1, a));
        assert(covers(s2, a));
        assert(false);
    } else {
        let a1 = s1[0].0 as int;
        let a2 = s2[0].0 as int;
        // each list's first start is its least covered address
        assert(covers(s1, a1));
        assert(covers(s2, a2));
        assert(covers(s2, a1));
        assert(covers(s1, a2));
        let w1 = choose|w: int| 0 <= w < s2.len() && (#[trigger] s2[w]).0 <= a1 < s2[w].0 + s2[w].1;
        if w1 > 0 {
            assert(s2[0].0 + s2[0].1 < s2[w1].0);
        }
        assert(a1 >= a2);
        let w2 = choose|w: int| 0 <= w < s1.len() && (#[trigger] s1[w]).0 <= a2 < s1[w].0 + s1[w].1;
        if w2 > 0 {
            assert(s1[0].0 + s1[0].1 < s1[w2].0);
        }
        assert(a2 >= a1);
        // the first sections end together: the lower end would be covered on
        // one side only
        let e1 = s1[0].0 + s1[0].1;
        let e2 = s2[0].0 + s2[0].1;
        if e1 < e2 {
            assert(covers(s2, e1));
            assert(covers(s1, e1));
            let w = choose|w: int|
                0 <= w < s1.len() && (#[trigger] s1[w]).0 <= e1 < s1[w].0 + s1[w].1;
            if w > 0 {
                assert(s1[0].0 + s1[0].1 < s1[w].0);
            }
            assert(false);
        }
        if e2 < e1 {
            assert(covers(s1, e2));
            assert(covers(s2, e2));
            let w = choose|w: int|
                0 <= w < s2.len() && (#[trigger] s2[w]).0 <= e2 < s2[w].0 + s2[w].1;
            if w > 0 {
                assert(s2[0].0 + s2[0].1 < s2[w].0);
            }
            assert(false);
        }
        assert(s1[0] == s2[0]);

        let t1 = s1.drop_first();
        let t2 = s2.drop_first();
        assert(sections_wf(t1)) by {
            assert forall|i: int, j: int| 0 <= i < j < t1.len() implies (#[trigger] t1[i]).0
                + t1[i].1 < (#[trigger] t1[j]).0 by {
                assert(t1[i] == s1[i + 1]);
                assert(t1[j] == s1[j + 1]);
            }
            assert forall|i: int| 0 <= i < t1.len() implies (#[trigger] t1[i]).1 > 0 && t1[i].0
                + t1[i].1 <= usize::MAX by {
                assert(t1[i] == s1[i + 1]);
            }
        }
        assert(sections_wf(t2)) by {
            assert forall|i: int, j: int| 0 <= i < j < t2.len() implies (#[trigger] t2[i]).0
                + t2[i].1 < (#[trigger] t2[j]).0 by {
                assert(t2[i] == s2[i + 1]);
                assert(t2[j] == s2[j + 1]);
            }
            assert forall|i: int| 0 <= i < t2.len() implies (#[trigger] t2[i]).1 > 0 && t2[i].0
                + t2[i].1 <= usize::MAX by {
                assert(t2[i] == s2[i + 1]);
            }
        }
        assert forall|a: int| #![trigger covers(t1, a)] covers(t1, a) <==> covers(t2, a) by {
            lemma_covers_tail(s1, a);
            lemma_covers_tail(s2, a);
            assert(covers(s1, a) <==> covers(s2, a));
        }
        lemma_sections_canonical(t1, t2);
        assert(s1 =~= s2) by {
            assert forall|i: int| 0 <= i < s1.len() implies s1[i] == s2[i] by {
                if i > 0 {
                    assert(s1[i] == t1[i - 1]);
                    assert(s2[i] == t2[i - 1]);
                }
            }
        }
    }
}

/// Gluing the same range twice yields the same set as gluing it once: the
/// second call covers nothing new, and normal form is canonical.
pub proof fn lemma_union_idempotent(
    base: Seq<(usize, usize)>,
    once: Seq<(usize, usize)>,
    twice: Seq<(usize, usize)>,
    start: usize,
    size: usize,
)
    requires
        sections_wf(once),
        sections_wf(twice),
        forall|a: int|
            #![trigger covers(once, a)]
            covers(once, a) <==> covers(base, a) || (start <= a < start + size),
        forall|a: int|
            #![trigger covers(twice, a)]
            covers(twice, a) <==> covers(once, a) || (start <= a < start + size),
    ensures
        twice == once,
{
    assert forall|a: int| #![trigger covers(twice, a)] covers(twice, a) <==> covers(once, a) by {
        assert(covers(once, a) <==> covers(base, a) || (start <= a < start + size));
    }
    lemma_sections_canonical(twice, once);
}

/// Ripping a range straight after gluing it into an empty set leaves the set
/// empty again.
pub proof fn lemma_union_subtract_inverse(
    unioned: Seq<(usize, usize)>,
    subtracted: Seq<(usize, usize)>,
    start: usize,
    size: usize,
)
    requires
        sections_wf(subtracted),
        forall|a: int|
            #![trigger covers(unioned, a)]
            covers(unioned, a) <==> (start <= a < start + size),
        forall|a: int|
            #![trigger covers(subtracted, a)]
            covers(subtracted, a) <==> covers(unioned, a) && !(start <= a < start + size),
    ensures
        subtracted.len() == 0,
{
    if subtracted.len() > 0 {
        let a = subtracted[0].0 as int;
        assert(covers(subtracted, a));
        assert(covers(unioned, a));
        assert(false);
    }
}

/// `out.len() == s.len() + 1` after a glue pass exactly when the candidate
/// range is separate from every section.
proof fn lemma_all_separate_iff(s: Seq<(usize, usize)>, start: usize, size: usize, out_len: int)
    requires
        sections_wf(s),
        size > 0,
        start + size <= usize::MAX,
        out_len <= s.len() + 1,
        (out_len == s.len() + 1) <==> (forall|k: int|
            0 <= k < s.len() ==> (#[trigger] s[k]).0 + s[k].1 < start || start + size < s[k].0),
    ensures
        (out_len == s.len() + 1) <==> (forall|k: int|
            0 <= k < s.len() ==> classify(
                (#[trigger] s[k]).0 as int,
                s[k].1 as int,
                start as int,
                size as int,
            ) == MemoryPattern::Separate),
{
    assert forall|k: int| 0 <= k < s.len() implies ((classify(
        (#[trigger] s[k]).0 as int,
        s[k].1 as int,
        start as int,
        size as int,
    ) == MemoryPattern::Separate) <==> (s[k].0 + s[k].1 < start || start + size < s[k].0)) by {
        crate::pattern::lemma_classify_separate(
            s[k].0 as int,
            s[k].1 as int,
            start as int,
            size as int,
        );
    }
}

/// Every point of the merged interval `[ms, me)` is already covered by the
/// candidate range `[gs, ge)` or by one of the sections `[lo, hi)` that were
/// merged into it: the merged sections chain together without gaps.
proof fn lemma_chain_covered(
    s: Seq<(usize, usize)>,
    lo: int,
    hi: int,
    gs: int,
    ge: int,
    ms: int,
    me: int,
    a: int,
)
    requires
        sections_wf(s),
        0 <= lo <= hi <= s.len(),
        gs < ge,
        forall|k: int| lo <= k < hi ==> (#[trigger] s[k]).0 <= ge && s[k].0 + s[k].1 >= gs,
        ms == if lo < hi && s[lo].0 < gs {
            s[lo].0 as int
        } else {
            gs
        },
        me == if lo < hi && s[hi - 1].0 + s[hi - 1].1 > ge {
            s[hi - 1].0 + s[hi - 1].1
        } else {
            ge
        },
        ms <= a < me,
    ensures
        gs <= a < ge || exists|k: int| lo <= k < hi && (#[trigger] s[k]).0 <= a < s[k].0 + s[k].1,
    decreases hi - lo,
{
    if lo == hi {
        // the merged interval is the candidate range itself
    } else {
        let pe: int = if lo < hi - 1 && s[hi - 2].0 + s[hi - 2].1 > ge {
            s[hi - 2].0 + s[hi - 2].1
        } else {
            ge
        };
        let pms: int = if lo < hi - 1 && s[lo].0 < gs {
            s[lo].0 as int
        } else {
            gs
        };
        let ls = s[hi - 1].0 as int;
        let le = s[hi - 1].0 + s[hi - 1].1;
        if lo < hi - 1 {
            assert(s[hi - 2].0 + s[hi - 2].1 < ls);
        }
        if pms <= a < pe {
            // inherited from the shorter chain
            lemma_chain_covered(s, lo, hi - 1, gs, ge, pms, pe, a);
        } else if a < pms {
            // only possible when the whole chain is the single section `lo`,
            // whose head sticks out below the candidate range
            assert(pms == gs);
            assert(lo == hi - 1);
            assert(ls <= a < le);
            assert(exists|k: int| lo <= k < hi && (#[trigger] s[k]).0 <= a < s[k].0 + s[k].1);
        } else {
            // the last merged section supplies the point
            assert(le > ge);
            assert(me == le);
            assert(ls <= a < le);
            assert(exists|k: int| lo <= k < hi && (#[trigger] s[k]).0 <= a < s[k].0 + s[k].1);
        }
    }
}

/// Builds the section list that results from gluing `[start, start + size)`
/// into a normal-form list: the sections it overlaps or touches collapse into
/// one merged section.
#[verifier::loop_isolation(false)]
#[verifier::rlimit(50)]
fn glued_sections(sections: &Vec<(usize, usize)>, start: usize, size: usize) -> (out: Vec<
    (usize, usize),
>)
    requires
        sections_wf(sections@),
        start + size <= usize::MAX,
        size > 0,
    ensures
        sections_wf(out@),
        forall|a: int|
            #![trigger covers(out@, a)]
            covers(out@, a) <==> covers(sections@, a) || (start <= a < start + size),
        out@.len() <= sections@.len() + 1,
        (out@.len() == sections@.len() + 1) <==> (forall|k: int|
            0 <= k < sections@.len() ==> (#[trigger] sections@[k]).0 + sections@[k].1 < start
                || start + size < sections@[k].0),
{
    let n = sections.len();
    let g_end = start + size;

    // first section whose end reaches the candidate range
    let mut lo: usize = 0;
    while lo < n && sections[lo].0 + sections[lo].1 < start
        invariant
            lo <= n,
            forall|k: int| 0 <= k < lo ==> (#[trigger] sections@[k]).0 + sections@[k].1 < start,
        decreases n - lo,
    {
        lo += 1;
    }

    // first section past `lo` that starts beyond the candidate's end (no touch)
    let mut hi: usize = lo;
    while hi < n && sections[hi].0 <= g_end
        invariant
            lo <= hi <= n,
            forall|k: int| lo <= k < hi ==> (#[trigger] sections@[k]).0 <= g_end,
        decreases n - hi,
    {
        hi += 1;
    }

    // the merged section spanning the candidate and everything it touches
    let mut m_start: usize = start;
    let mut m_end: usize = g_end;
    if lo < hi {
        let (s0, _) = sections[lo];
        if s0 < start {
            m_start = s0;
        }
        let (s1, l1) = sections[hi - 1];
        if s1 + l1 > g_end {
            m_end = s1 + l1;
        }
    }

    let mut out: Vec<(usize, usize)> = Vec::new();
    let mut i: usize = 0;
    while i < lo
        invariant
            i <= lo <= n,
            out@ == sections@.subrange(0, i as int),
        decreases lo - i,
    {
        out.push(sections[i]);
        proof {
            assert(out@ =~= sections@.subrange(0, i + 1));
        }
        i += 1;
    }

    out.push((m_start, m_end - m_start));

    let ghost mid = sections@.subrange(0, lo as int).push((m_start, (m_end - m_start) as usize));
    assert(out@ == mid);

    let mut j: usize = hi;
    while j < n
        invariant
            hi <= j <= n,
            out@ == mid + sections@.subrange(hi as int, j as int),
        decreases n - j,
    {
        out.push(sections[j]);
        proof {
            assert(out@ =~= mid + sections@.subrange(hi as int, j + 1));
        }
        j += 1;
    }

    proof {
        lemma_glued_correct(sections@, out@, lo as int, hi as int, start, size, m_start, m_end);
    }

    out
}

/// Correctness of the section list assembled by `glued_sections`: it is in
/// normal form, covers exactly the old sections plus the candidate range, and
/// grows by one slot exactly when the candidate is separate from everything.
#[verifier::rlimit(60)]
proof fn lemma_glued_correct(
    secs: Seq<(usize, usize)>,
    out: Seq<(usize, usize)>,
    lo: int,
    hi: int,
    start: usize,
    size: usize,
    m_start: usize,
    m_end: usize,
)
    requires
        sections_wf(secs),
        size > 0,
        start + size <= usize::MAX,
        0 <= lo <= hi <= secs.len(),
        forall|k: int| 0 <= k < lo ==> (#[trigger] secs[k]).0 + secs[k].1 < start,
        lo < secs.len() ==> secs[lo].0 + secs[lo].1 >= start,
        forall|k: int| lo <= k < hi ==> (#[trigger] secs[k]).0 <= start + size,
        hi < secs.len() ==> secs[hi].0 > start + size,
        m_start == if lo < hi && secs[lo].0 < start {
            secs[lo].0
        } else {
            start
        },
        m_end as int == if lo < hi && secs[hi - 1].0 + secs[hi - 1].1 > start + size {
            secs[hi - 1].0 + secs[hi - 1].1
        } else {
            start + size
        },
        out == secs.subrange(0, lo).push((m_start, (m_end - m_start) as usize)) + secs.subrange(
            hi,
            secs.len() as int,
        ),
    ensures
        sections_wf(out),
        forall|a: int|
            #![trigger covers(out, a)]
            covers(out, a) <==> covers(secs, a) || (start <= a < start + size),
        out.len() == lo + 1 + secs.len() - hi,
        (out.len() == secs.len() + 1) <==> (forall|k: int|
            0 <= k < secs.len() ==> (#[trigger] secs[k]).0 + secs[k].1 < start || start + size
                < secs[k].0),
{
    let n = secs.len() as int;
    let g_end = start + size;
    let merged = (m_start, (m_end - m_start) as usize);
    // every merged section touches the candidate range from both sides
    assert forall|k: int| lo <= k < hi implies (#[trigger] secs[k]).0 <= g_end && secs[k].0
        + secs[k].1 >= start by {
        if k > lo {
            assert(secs[lo as int].0 + secs[lo as int].1 < secs[k].0);
        }
    }

    // normal form of the result
    assert forall|p: int, q: int| 0 <= p < q < out.len() implies (#[trigger] out[p]).0
        + out[p].1 < (#[trigger] out[q]).0 by {
        if p < lo && q == lo {
            assert(out[q].0 == m_start);
            if lo < hi && secs[lo as int].0 < start {
                assert(secs[p].0 + secs[p].1 < secs[lo as int].0);
            }
        } else if p == lo && q > lo {
            let qk = q - lo - 1 + hi;
            assert(out[q] == secs[qk]);
            if lo < hi {
                assert(secs[hi - 1].0 + secs[hi - 1].1 < secs[qk].0);
                assert(secs[hi - 1].0 < secs[qk].0);
            }
        } else if p < lo && q > lo {
            let qk = q - lo - 1 + hi;
            assert(out[p] == secs[p]);
            assert(out[q] == secs[qk]);
        } else if p > lo && q > lo {
            assert(out[p] == secs[p - lo - 1 + hi]);
            assert(out[q] == secs[q - lo - 1 + hi]);
        }
    }
    assert(sections_wf(out));

    // coverage in both directions
    assert forall|a: int| covers(out, a) implies (covers(secs, a) || (start <= a < start
        + size)) by {
        let w = choose|w: int| 0 <= w < out.len() && (#[trigger] out[w]).0 <= a < out[w].0
            + out[w].1;
        if w < lo {
            assert(secs[w].0 <= a < secs[w].0 + secs[w].1);
        } else if w == lo {
            // inside the merged section: the chain lemma resolves it
            assert(m_start <= a < m_end);
            lemma_chain_covered(
                secs,
                lo as int,
                hi as int,
                start as int,
                g_end as int,
                m_start as int,
                m_end as int,
                a,
            );
        } else {
            let k = w - lo - 1 + hi;
            assert(secs[k].0 <= a < secs[k].0 + secs[k].1);
        }
    }
    assert forall|a: int| (covers(secs, a) || (start <= a < start + size)) implies covers(
        out,
        a,
    ) by {
        if start <= a < start + size {
            assert(out[lo as int] == merged);
            assert(out[lo as int].0 <= a < out[lo as int].0 + out[lo as int].1);
        } else {
            let w = choose|w: int| 0 <= w < secs.len() && (#[trigger] secs[w]).0 <= a
                < secs[w].0 + secs[w].1;
            if w < lo {
                assert(out[w] == secs[w]);
                assert(out[w].0 <= a < out[w].0 + out[w].1);
            } else if w < hi {
                // absorbed into the merged section
                assert(secs[lo as int].0 <= secs[w].0);
                if w > lo {
                    assert(secs[lo as int].0 + secs[lo as int].1 < secs[w].0);
                }
                if w < hi - 1 {
                    assert(secs[w].0 + secs[w].1 < secs[hi - 1].0);
                }
                assert(m_start <= a < m_end);
                assert(out[lo as int].0 <= a < out[lo as int].0 + out[lo as int].1);
            } else {
                let q = w - hi + lo + 1;
                assert(out[q] == secs[w]);
                assert(out[q].0 <= a < out[q].0 + out[q].1);
            }
        }
    }

    // the length grows exactly when nothing merged, i.e. when the
    // candidate is separate from every section
    assert(out.len() == lo + 1 + (n - hi));
    if hi == lo {
        assert forall|k: int| 0 <= k < secs.len() implies (#[trigger] secs[k]).0 + secs[k].1
            < start || start + size < secs[k].0 by {
            if k >= lo {
                if k == lo {
                } else {
                    assert(secs[lo as int].0 + secs[lo as int].1 < secs[k].0);
                }
            }
        }
    } else {
        assert(secs[lo as int].0 + secs[lo as int].1 >= start);
        assert(secs[lo as int].0 <= g_end);
    }
}

} // verus!
