//! Splitting a resource of known size into contiguous byte ranges.

use vstd::prelude::*;

verus! {

/// One segment of the resource: bytes `start..=end` (HTTP range semantics).
/// An empty segment has `end + 1 == start`.
#[derive(Clone, Copy, Debug, PartialEq, Eq, Structural)]
pub struct Range {
    pub index: u32,
    pub start: u64,
    pub end: u64,
}

impl Range {
    /// Number of bytes the range holds.
    pub open spec fn len(self) -> int {
        self.end + 1 - self.start
    }
}

/// How many segments a resource of `total` bytes is split into when
/// `requested` are asked for: never more segments than bytes.
pub open spec fn effective_count(total: u64, requested: u32) -> nat {
    if (requested as int) <= (total as int) {
        requested as nat
    } else {
        total as nat
    }
}

/// First byte of segment `i` out of `n`.
pub open spec fn range_start(total: u64, n: nat, i: nat) -> int {
    if i == 0 {
        0
    } else {
        (total as int / n as int) * i + 1
    }
}

/// Last byte of segment `i` out of `n`; the last segment ends at the last
/// byte of the resource and absorbs the remainder of the division.
pub open spec fn range_end(total: u64, n: nat, i: nat) -> int {
    if i + 1 == n {
        total - 1
    } else {
        (total as int / n as int) * (i + 1)
    }
}

/// `r` is segment `i` of the split of `total` bytes into `n` segments.
pub open spec fn is_segment(r: Range, total: u64, n: nat, i: nat) -> bool {
    &&& r.index == i
    &&& r.start == range_start(total, n, i)
    &&& r.end == range_end(total, n, i)
}

/// `rs` is the split of `total` bytes into `requested` segments.
pub open spec fn is_partition(rs: Seq<Range>, total: u64, requested: u32) -> bool {
    let n = effective_count(total, requested);
    &&& rs.len() == n
    &&& forall|i: int| 0 <= i < rs.len() ==> is_segment(#[trigger] rs[i], total, n, i as nat)
}

/// Sum of the lengths of the ranges.
pub open spec fn total_len(rs: Seq<Range>) -> int
    decreases rs.len(),
{
    if rs.len() == 0 {
        0
    } else {
        total_len(rs.drop_last()) + rs.last().len()
    }
}

/// Splits `total_size` bytes into `segment_count` ranges (fewer when the
/// resource has fewer bytes than that, none for an empty resource).
/// Segment 0 starts at 0; segment `i > 0` starts one past `base * i`, where
/// `base = total_size / n`; every segment but the last ends at
/// `base * (i + 1)`, the last at `total_size - 1`.
pub fn partition(total_size: u64, segment_count: u32) -> (r: Vec<Range>)
    ensures
        is_partition(r@, total_size, segment_count),
{
    let n: u32 = if (segment_count as u64) <= total_size {
        segment_count
    } else {
        total_size as u32
    };
    let mut ranges: Vec<Range> = Vec::new();
    if n == 0 {
        return ranges;
    }
    let base: u64 = total_size / (n as u64);
    proof {
        assert(base * n <= total_size) by (nonlinear_arith)
            requires base == total_size / (n as u64), n > 0;
        assert(base >= 1) by (nonlinear_arith)
            requires base == total_size / (n as u64), 0 < n <= total_size;
    }
    let mut i: u32 = 0;
    while i < n
        invariant
            0 < n,
            n as nat == effective_count(total_size, segment_count),
            base == total_size / (n as u64),
            base * n <= total_size,
            base >= 1,
            i <= n,
            ranges@.len() == i,
            forall|k: int|
                0 <= k < i ==> is_segment(#[trigger] ranges@[k], total_size, n as nat, k as nat),
        decreases n - i,
    {
        proof {
            assert(base * i <= base * n) by (nonlinear_arith)
                requires i <= n;
            assert(base * (i + 1) <= base * n) by (nonlinear_arith)
                requires i + 1 <= n;
            assert(base * (i + 1) == base * i + base) by (nonlinear_arith);
        }
        let start: u64 = if i == 0 {
            0
        } else {
            base * (i as u64) + 1
        };
        let end: u64 = if i + 1 == n {
            total_size - 1
        } else {
            base * (i as u64 + 1)
        };
        ranges.push(Range { index: i, start, end });
        i = i + 1;
    }
    ranges
}

/// The ranges are in index order, each starts one past the end of the one
/// before it, the first at byte 0, and none is inverted.
pub open spec fn is_contiguous_cover(rs: Seq<Range>, total: u64) -> bool {
    &&& rs.len() >= 1
    &&& rs[0].start == 0
    &&& rs.last().end == total - 1
    &&& forall|i: int| 0 <= i < rs.len() ==> (#[trigger] rs[i]).index == i
    &&& forall|i: int| 0 <= i < rs.len() ==> (#[trigger] rs[i]).start <= rs[i].end + 1
    &&& forall|i: int| 0 <= i < rs.len() - 1 ==> (#[trigger] rs[i]).end + 1 == rs[i + 1].start
}

proof fn lemma_prefix_len(rs: Seq<Range>, total: u64, k: int)
    requires
        is_contiguous_cover(rs, total),
        1 <= k <= rs.len(),
    ensures
        total_len(rs.subrange(0, k)) == rs[k - 1].end + 1,
    decreases k,
{
    let p = rs.subrange(0, k);
    assert(p.drop_last() =~= rs.subrange(0, k - 1));
    assert(p.last() == rs[k - 1]);
    assert(total_len(p) == total_len(p.drop_last()) + rs[k - 1].len());
    if k > 1 {
        lemma_prefix_len(rs, total, k - 1);
        assert(rs[k - 2].end + 1 == rs[k - 1].start);
    } else {
        assert(total_len(p.drop_last()) == 0);
    }
}

/// Partition coverage: for a resource of at least one byte and at least one
/// requested segment, the ranges are ordered by index, contiguous, pairwise
/// disjoint, and their lengths add up to the size of the resource.
pub proof fn lemma_partition_covers(rs: Seq<Range>, total_size: u64, segment_count: u32)
    requires
        total_size >= 1,
        segment_count >= 1,
        is_partition(rs, total_size, segment_count),
    ensures
        is_contiguous_cover(rs, total_size),
        forall|i: int, j: int| 0 <= i < j < rs.len() ==> rs[i].end < rs[j].start,
        total_len(rs) == total_size,
{
    let n = effective_count(total_size, segment_count);
    let base: int = total_size as int / n as int;
    assert(base >= 1 && base * n <= total_size) by (nonlinear_arith)
        requires base == total_size as int / n as int, 0 < n <= total_size;
    assert forall|i: int| 0 <= i < rs.len() implies (#[trigger] rs[i]).start <= rs[i].end + 1 by {
        assert(is_segment(rs[i], total_size, n, i as nat));
        if i > 0 {
            assert(base * i + 1 <= base * (i + 1) + 1) by (nonlinear_arith)
                requires base >= 1, i >= 0;
            if i + 1 == n {
                assert(base * i + 1 <= total_size) by (nonlinear_arith)
                    requires base >= 1, i + 1 == n, base * n <= total_size;
            }
        }
    }
    assert forall|i: int| 0 <= i < rs.len() - 1 implies (#[trigger] rs[i]).end + 1 == rs[i + 1].start by {
        assert(is_segment(rs[i], total_size, n, i as nat));
        assert(is_segment(rs[i + 1], total_size, n, (i + 1) as nat));
    }
    assert forall|i: int, j: int| 0 <= i < j < rs.len() implies rs[i].end < rs[j].start by {
        assert(is_segment(rs[i], total_size, n, i as nat));
        assert(is_segment(rs[j], total_size, n, j as nat));
        assert(base * (i + 1) <= base * j) by (nonlinear_arith)
            requires base >= 1, i + 1 <= j;
    }
    assert(is_segment(rs[0], total_size, n, 0));
    assert(is_segment(rs[rs.len() - 1], total_size, n, (n - 1) as nat));
    lemma_prefix_len(rs, total_size, rs.len() as int);
    assert(rs.subrange(0, rs.len() as int) =~= rs);
}

} // verus!
