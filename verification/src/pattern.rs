//! Five-way classification of how two half-open physical-address ranges
//! relate to each other.
//!
//! Every operation on the free-memory interval set derives its behaviour
//! from this classification, so its edge cases (zero-length ranges, exact
//! touches at a boundary, coinciding endpoints) are pinned down exactly.

use vstd::prelude::*;

verus! {

/// Relation between an existing ("original") range and a candidate ("given")
/// range, both half-open byte intervals `[start, start + size)`.
#[derive(Clone, Copy, Debug, PartialEq, Eq, Structural)]
pub enum MemoryPattern {
    /// The ranges neither overlap nor touch.
    Separate,
    /// The original range starts first and the given range reaches past its
    /// end (or touches it exactly): the original keeps its start and grows a
    /// tail.
    StartBranch,
    /// The given range starts first and the original range reaches past its
    /// end (or touches it exactly): the mirror of `StartBranch`.
    EndBranch,
    /// The original range contains the given range entirely, including the
    /// exactly-equal case.
    NoChange,
    /// The given range contains the original range entirely and differs from
    /// it.
    Overwrite,
}

/// Mathematical counterpart of `cmp_mem_sct`.
///
/// The exactly-equal case is `NoChange` unconditionally; this tie-break takes
/// precedence over every other rule.
pub open spec fn classify(
    original_start: int,
    original_size: int,
    given_start: int,
    given_size: int,
) -> MemoryPattern {
    let original_end = original_start + original_size;
    let given_end = given_start + given_size;
    if original_start == given_start && original_size == given_size {
        MemoryPattern::NoChange
    } else if original_end < given_start || given_end < original_start {
        MemoryPattern::Separate
    } else if given_start == original_end {
        MemoryPattern::StartBranch
    } else if original_start == given_end {
        MemoryPattern::EndBranch
    } else if given_start >= original_start {
        if given_end > original_end {
            if original_start == given_start {
                MemoryPattern::Overwrite
            } else {
                MemoryPattern::StartBranch
            }
        } else {
            MemoryPattern::NoChange
        }
    } else if given_end <= original_end {
        if original_end == given_end {
            MemoryPattern::Overwrite
        } else {
            MemoryPattern::EndBranch
        }
    } else {
        MemoryPattern::Overwrite
    }
}

/// One past the last address of the half-open range `[start, start + size)`.
pub fn end(start: usize, size: usize) -> (r: usize)
    requires
        start + size <= usize::MAX,
    ensures
        r == start + size,
{
    start + size
}

/// `end` applied to a `(start, size)` pair.
pub fn endt(tuple: (usize, usize)) -> (r: usize)
    requires
        tuple.0 + tuple.1 <= usize::MAX,
    ensures
        r == tuple.0 + tuple.1,
{
    tuple.0 + tuple.1
}

/// Classifies how the given range relates to the original range.
pub fn cmp_mem_sct(
    original_start: usize,
    original_size: usize,
    given_start: usize,
    given_size: usize,
) -> (r: MemoryPattern)
    requires
        original_start + original_size <= usize::MAX,
        given_start + given_size <= usize::MAX,
    ensures
        r == classify(
            original_start as int,
            original_size as int,
            given_start as int,
            given_size as int,
        ),
{
    if original_start == given_start && original_size == given_size {
        return MemoryPattern::NoChange;
    }

    let original_end = end(original_start, original_size);
    let given_end = end(given_start, given_size);

    if original_end < given_start || given_end < original_start {
        MemoryPattern::Separate
    } else if given_start == original_end {
        MemoryPattern::StartBranch
    } else if original_start == given_end {
        MemoryPattern::EndBranch
    } else if given_start >= original_start {
        if given_end > original_end {
            if original_start == given_start {
                MemoryPattern::Overwrite
            } else {
                MemoryPattern::StartBranch
            }
        } else {
            MemoryPattern::NoChange
        }
    } else if given_end <= original_end {
        if original_end == given_end {
            MemoryPattern::Overwrite
        } else {
            MemoryPattern::EndBranch
        }
    } else {
        MemoryPattern::Overwrite
    }
}

/// The classification is exhaustive over the boundary cases: a given range
/// touching the original exactly at its end is `StartBranch`, an exactly
/// equal given range is `NoChange`, and a given range strictly inside the
/// original (touching neither edge) is `NoChange`.
pub proof fn lemma_classify_boundary_cases(rs: int, rl: int, gs: int, gl: int)
    requires
        rl >= 0,
        gl >= 0,
    ensures
        rl > 0 && gl > 0 && gs == rs + rl ==> classify(rs, rl, gs, gl) == MemoryPattern::StartBranch,
        classify(rs, rl, rs, rl) == MemoryPattern::NoChange,
        rs < gs && gs + gl < rs + rl ==> classify(rs, rl, gs, gl) == MemoryPattern::NoChange,
{
}

/// A given range that the original contains — entirely, and strictly so at
/// both edges if the given range is empty — classifies as `NoChange`.
pub proof fn lemma_contained_is_nochange(rs: int, rl: int, gs: int, gl: int)
    requires
        rl > 0,
        gl >= 0,
        rs <= gs,
        gs + gl <= rs + rl,
        gl == 0 ==> rs < gs && gs < rs + rl,
    ensures
        classify(rs, rl, gs, gl) == MemoryPattern::NoChange,
{
}

/// Conversely, `NoChange` means the original range contains the given one —
/// strictly at both edges if the given range is empty.
pub proof fn lemma_nochange_is_contained(rs: int, rl: int, gs: int, gl: int)
    requires
        rl > 0,
        gl >= 0,
        classify(rs, rl, gs, gl) == MemoryPattern::NoChange,
    ensures
        rs <= gs,
        gs + gl <= rs + rl,
        gl == 0 ==> rs < gs && gs < rs + rl,
{
}

/// The `Separate` relation holds exactly when the two ranges neither overlap
/// nor touch.
pub proof fn lemma_classify_separate(rs: int, rl: int, gs: int, gl: int)
    requires
        rl >= 0,
        gl >= 0,
    ensures
        classify(rs, rl, gs, gl) == MemoryPattern::Separate <==> (rs + rl < gs || gs + gl < rs),
{
}

} // verus!
