//! The shared count of bytes fetched across all segments.

use crate::fetch::{FetchStep, SegmentFetch};
use crate::partition::{is_partition, total_len, Range};
use vstd::prelude::*;

verus! {

/// Bytes of the resource persisted so far, out of `total`. The fraction
/// `received / total` is what the download reports; the drivers hold this
/// behind one lock and add every byte they persist.
#[derive(Clone, Copy, Debug, PartialEq, Eq, Structural)]
pub struct Progress {
    pub received: u64,
    pub total: u64,
}

impl Progress {
    pub open spec fn wf(self) -> bool {
        self.received <= self.total
    }

    /// Nothing received yet of a resource of `total` bytes.
    pub fn new(total: u64) -> (r: Progress)
        ensures
            r == (Progress { received: 0, total }),
            r.wf(),
    {
        Progress { received: 0, total }
    }

    /// Adds `bytes` to the count, which never passes the total, and returns
    /// the new count.
    pub fn advance(&mut self, bytes: u64) -> (r: u64)
        requires
            old(self).wf(),
        ensures
            final(self).total == old(self).total,
            final(self).received == if old(self).received + bytes <= old(self).total {
                old(self).received + bytes
            } else {
                old(self).total as int
            },
            final(self).received >= old(self).received,
            final(self).wf(),
            r == final(self).received,
    {
        if bytes <= self.total - self.received {
            self.received = self.received + bytes;
        } else {
            self.received = self.total;
        }
        self.received
    }

    /// Every byte of the resource has been received.
    pub fn is_complete(&self) -> (r: bool)
        ensures
            r == (self.received == self.total),
    {
        self.received == self.total
    }
}

/// Bytes persisted over all segments.
pub open spec fn fetched(fs: Seq<SegmentFetch>) -> int
    decreases fs.len(),
{
    if fs.len() == 0 {
        0
    } else {
        fetched(fs.drop_last()) + (fs.last().cursor - fs.last().start)
    }
}

/// Each fetch in `fs` works on the range of the same position in `rs`.
pub open spec fn fetches_of(fs: Seq<SegmentFetch>, rs: Seq<Range>) -> bool {
    &&& fs.len() == rs.len()
    &&& forall|i: int|
        0 <= i < fs.len() ==> {
            &&& (#[trigger] fs[i]).wf()
            &&& fs[i].start == rs[i].start
            &&& fs[i].end == rs[i].end
        }
}

proof fn lemma_fetched_bounded(fs: Seq<SegmentFetch>, rs: Seq<Range>)
    requires
        fetches_of(fs, rs),
    ensures
        fetched(fs) <= total_len(rs),
        fetched(fs) == total_len(rs) <==> forall|i: int| 0 <= i < fs.len() ==> (#[trigger] fs[i]).cursor
            == fs[i].end + 1,
    decreases fs.len(),
{
    if fs.len() > 0 {
        let n = fs.len() - 1;
        assert(fetches_of(fs.drop_last(), rs.drop_last())) by {
            assert forall|i: int| 0 <= i < n implies (#[trigger] fs.drop_last()[i]).wf() by {
                assert(fs.drop_last()[i] == fs[i]);
            }
        }
        lemma_fetched_bounded(fs.drop_last(), rs.drop_last());
        assert(fs[n].wf());
        if forall|i: int| 0 <= i < fs.len() ==> (#[trigger] fs[i]).cursor == fs[i].end + 1 {
            assert forall|i: int| 0 <= i < n implies (#[trigger] fs.drop_last()[i]).cursor
                == fs.drop_last()[i].end + 1 by {
                assert(fs.drop_last()[i] == fs[i]);
            }
        }
        if fetched(fs) == total_len(rs) {
            assert forall|i: int| 0 <= i < fs.len() implies (#[trigger] fs[i]).cursor == fs[i].end
                + 1 by {
                if i < n {
                    assert(fs.drop_last()[i] == fs[i]);
                }
            }
        }
    }
}

/// Progress completeness: while each segment of a partition is fetched by
/// its own fetch, the bytes persisted over all of them never exceed the size
/// of the resource, and they reach it exactly when every segment is complete.
pub proof fn lemma_full_progress_iff_all_complete(
    rs: Seq<Range>,
    fs: Seq<SegmentFetch>,
    total_size: u64,
    segment_count: u32,
)
    requires
        total_size >= 1,
        segment_count >= 1,
        is_partition(rs, total_size, segment_count),
        fetches_of(fs, rs),
    ensures
        fetched(fs) <= total_size,
        fetched(fs) == total_size <==> forall|i: int|
            0 <= i < fs.len() ==> (#[trigger] fs[i]).step() == FetchStep::Complete,
{
    crate::partition::lemma_partition_covers(rs, total_size, segment_count);
    lemma_fetched_bounded(fs, rs);
    assert forall|i: int| 0 <= i < fs.len() implies ((#[trigger] fs[i]).step() == FetchStep::Complete
        <==> fs[i].cursor == fs[i].end + 1) by {
        assert(fs[i].wf());
    }
}

proof fn lemma_fetched_update(fs: Seq<SegmentFetch>, i: int, g: SegmentFetch)
    requires
        0 <= i < fs.len(),
    ensures
        fetched(fs.update(i, g)) == fetched(fs) + (g.cursor - g.start) - (fs[i].cursor - fs[i].start),
    decreases fs.len(),
{
    let n = fs.len() - 1;
    if i < n {
        assert(fs.update(i, g).drop_last() =~= fs.drop_last().update(i, g));
        lemma_fetched_update(fs.drop_last(), i, g);
    } else {
        assert(fs.update(i, g).drop_last() =~= fs.drop_last());
    }
}

/// Progress accounting: while the count equals the bytes persisted over all
/// segments, adding the bytes that one segment accepts from a response keeps
/// it equal, within the total, and never lowers it; so the reported
/// fraction only grows and is whole exactly when every segment is complete.
pub proof fn lemma_advance_tracks_fetches(
    rs: Seq<Range>,
    fs: Seq<SegmentFetch>,
    total_size: u64,
    segment_count: u32,
    p: Progress,
    i: int,
    received: u64,
)
    requires
        total_size >= 1,
        segment_count >= 1,
        is_partition(rs, total_size, segment_count),
        fetches_of(fs, rs),
        p.total == total_size,
        p.received == fetched(fs),
        0 <= i < fs.len(),
        fs[i].awaiting(),
    ensures
        ({
            let g = fs[i].after_chunk(received);
            let a: u64 = if received == 0 {
                0
            } else {
                fs[i].accepted(received)
            };
            let fs2 = fs.update(i, g);
            &&& fetches_of(fs2, rs)
            &&& p.received + a <= p.total
            &&& fetched(fs2) == p.received + a
            &&& fetched(fs2) >= p.received
            &&& (fetched(fs2) == total_size <==> forall|k: int|
                0 <= k < fs2.len() ==> (#[trigger] fs2[k]).step() == FetchStep::Complete)
        }),
{
    let g = fs[i].after_chunk(received);
    let fs2 = fs.update(i, g);
    assert(fs[i].wf());
    assert(fetches_of(fs2, rs)) by {
        assert forall|k: int| 0 <= k < fs2.len() implies (#[trigger] fs2[k]).wf() by {
            if k != i {
                assert(fs2[k] == fs[k]);
            }
        }
    }
    lemma_fetched_update(fs, i, g);
    lemma_full_progress_iff_all_complete(rs, fs2, total_size, segment_count);
}

} // verus!
