//! The decisions of one segment's resumable, retrying fetch.
//!
//! The driver of a segment asks [`SegmentFetch::next_step`] what to do,
//! performs the request, and reports back with
//! [`SegmentFetch::record_chunk`] or [`SegmentFetch::record_failure`].

use crate::partition::Range;
use vstd::prelude::*;

verus! {

/// Largest number of bytes asked for in one request.
pub const CHUNK_SIZE: u64 = 15 * 1024 * 1024;

/// Why a segment did not complete.
#[derive(Clone, Copy, Debug, PartialEq, Eq, Structural)]
pub enum FailureReason {
    /// The retry budget ran out before the range was fetched.
    Exhausted,
}

/// What the driver of a segment does next.
#[derive(Clone, Copy, Debug, PartialEq, Eq, Structural)]
pub enum FetchStep {
    /// Ask for bytes `from..=to` of the resource.
    Request { from: u64, to: u64 },
    /// Every byte of the range is persisted.
    Complete,
    /// The retry budget is spent; the checkpoint stays for a later resume.
    Exhausted,
}

/// Progress of one segment: bytes `start..cursor` are persisted in its
/// checkpoint, bytes `cursor..=end` are still to come, and `failures` of
/// the `max_retries` failed attempts allowed have happened.
#[derive(Clone, Copy, Debug, PartialEq, Eq, Structural)]
pub struct SegmentFetch {
    pub start: u64,
    pub end: u64,
    pub cursor: u64,
    pub failures: u32,
    pub max_retries: u32,
}

/// The state in which a fetch of `range` starts when its checkpoint already
/// holds `persisted` bytes, or `None` when the range is inverted, ends at the
/// largest offset, or is shorter than the checkpoint.
pub open spec fn resume_spec(range: Range, persisted: u64, max_retries: u32) -> Option<SegmentFetch> {
    if range.start <= range.end + 1 && range.end < u64::MAX && persisted <= range.end + 1 - range.start {
        Some(
            SegmentFetch {
                start: range.start,
                end: range.end,
                cursor: (range.start + persisted) as u64,
                failures: 0,
                max_retries,
            },
        )
    } else {
        None
    }
}

impl SegmentFetch {
    pub open spec fn wf(self) -> bool {
        &&& self.start <= self.cursor <= self.end + 1
        &&& self.end < u64::MAX
        &&& self.failures <= self.max_retries
    }

    /// The step that the state calls for: done once the cursor has passed
    /// the end, out of budget once `max_retries` attempts failed, otherwise
    /// a request for at most `CHUNK_SIZE` bytes from the cursor on.
    pub open spec fn step(self) -> FetchStep {
        if self.cursor > self.end {
            FetchStep::Complete
        } else if self.failures >= self.max_retries {
            FetchStep::Exhausted
        } else if self.end - self.cursor >= CHUNK_SIZE - 1 {
            FetchStep::Request { from: self.cursor, to: (self.cursor + CHUNK_SIZE - 1) as u64 }
        } else {
            FetchStep::Request { from: self.cursor, to: self.end }
        }
    }

    /// A request is outstanding.
    pub open spec fn awaiting(self) -> bool {
        self.step() is Request
    }

    /// How many of `received` bytes belong to the range.
    pub open spec fn accepted(self, received: u64) -> u64 {
        if received <= self.end + 1 - self.cursor {
            received
        } else {
            (self.end + 1 - self.cursor) as u64
        }
    }

    /// The state after one failed attempt.
    pub open spec fn after_failure(self) -> SegmentFetch {
        SegmentFetch { failures: (self.failures + 1) as u32, ..self }
    }

    /// The state after a response of `received` bytes; an empty response
    /// counts as a failed attempt.
    pub open spec fn after_chunk(self, received: u64) -> SegmentFetch {
        if received == 0 {
            self.after_failure()
        } else {
            SegmentFetch { cursor: (self.cursor + self.accepted(received)) as u64, ..self }
        }
    }

    /// Bytes still to fetch plus attempts still allowed: every report
    /// lowers it, so a segment cannot retry forever.
    pub open spec fn work_left(self) -> nat {
        ((self.end + 1 - self.cursor) + (self.max_retries - self.failures)) as nat
    }

    /// Starts the fetch of `range`, resuming after the `persisted` bytes that
    /// its checkpoint already holds.
    pub fn resume(range: Range, persisted: u64, max_retries: u32) -> (r: Option<SegmentFetch>)
        ensures
            r == resume_spec(range, persisted, max_retries),
            r matches Some(f) ==> f.wf(),
    {
        if range.end < u64::MAX && range.start <= range.end + 1
            && persisted <= range.end + 1 - range.start {
            Some(
                SegmentFetch {
                    start: range.start,
                    end: range.end,
                    cursor: range.start + persisted,
                    failures: 0,
                    max_retries,
                },
            )
        } else {
            None
        }
    }

    /// What to do next.
    pub fn next_step(&self) -> (r: FetchStep)
        requires
            self.wf(),
        ensures
            r == self.step(),
    {
        if self.cursor > self.end {
            FetchStep::Complete
        } else if self.failures >= self.max_retries {
            FetchStep::Exhausted
        } else if self.end - self.cursor >= CHUNK_SIZE - 1 {
            FetchStep::Request { from: self.cursor, to: self.cursor + (CHUNK_SIZE - 1) }
        } else {
            FetchStep::Request { from: self.cursor, to: self.end }
        }
    }

    /// Records a response of `received` bytes to the outstanding request and
    /// returns how many of them, from the first on, are appended to the
    /// checkpoint. An empty response counts as a failed attempt.
    pub fn record_chunk(&mut self, received: u64) -> (accepted: u64)
        requires
            old(self).wf(),
            old(self).awaiting(),
        ensures
            *final(self) == old(self).after_chunk(received),
            accepted == if received == 0 { 0 } else { old(self).accepted(received) },
            final(self).wf(),
            final(self).work_left() < old(self).work_left(),
            final(self).cursor >= old(self).cursor,
    {
        if received == 0 {
            self.failures = self.failures + 1;
            0
        } else {
            let room: u64 = self.end + 1 - self.cursor;
            let accepted: u64 = if received <= room {
                received
            } else {
                room
            };
            self.cursor = self.cursor + accepted;
            accepted
        }
    }

    /// Records a failed attempt at the outstanding request.
    pub fn record_failure(&mut self)
        requires
            old(self).wf(),
            old(self).awaiting(),
        ensures
            *final(self) == old(self).after_failure(),
            final(self).wf(),
            final(self).work_left() < old(self).work_left(),
    {
        self.failures = self.failures + 1;
    }

    /// The segment's outcome once it stopped: `None` while a request is
    /// still called for.
    pub fn outcome(&self) -> (r: Option<Result<(), FailureReason>>)
        requires
            self.wf(),
        ensures
            r == match self.step() {
                FetchStep::Complete => Some(Ok(())),
                FetchStep::Exhausted => Some(Err(FailureReason::Exhausted)),
                FetchStep::Request { .. } => None::<Result<(), FailureReason>>,
            },
    {
        match self.next_step() {
            FetchStep::Complete => Some(Ok(())),
            FetchStep::Exhausted => Some(Err(FailureReason::Exhausted)),
            FetchStep::Request { .. } => None,
        }
    }
}

/// What the source did with one request: sent the next bytes of the
/// resource (at most the given number, never past its end), or failed.
#[derive(Clone, Copy, Debug, PartialEq, Eq, Structural)]
pub enum FetchEvent {
    Received(u64),
    Failed,
}

/// The checkpoint `file` holds exactly the bytes `start..cursor` of
/// `content`, and the range lies inside `content`.
pub open spec fn holds_prefix(f: SegmentFetch, file: Seq<u8>, content: Seq<u8>) -> bool {
    &&& f.wf()
    &&& f.end < content.len()
    &&& file == content.subrange(f.start as int, f.cursor as int)
}

/// The state and checkpoint after the driver has performed one request
/// that the source answered with `e`.
pub open spec fn apply_event(f: SegmentFetch, file: Seq<u8>, content: Seq<u8>, e: FetchEvent) -> (
    SegmentFetch,
    Seq<u8>,
) {
    match e {
        FetchEvent::Failed => (f.after_failure(), file),
        FetchEvent::Received(k) => {
            let d: u64 = if f.cursor + k <= content.len() {
                k
            } else {
                (content.len() - f.cursor) as u64
            };
            let a: u64 = if d == 0 {
                0
            } else {
                f.accepted(d)
            };
            (f.after_chunk(d), file + content.subrange(f.cursor as int, f.cursor + a))
        },
    }
}

/// The state and checkpoint after the driver has run against a source
/// answering its requests with `events`, one per request, for as long as
/// requests are called for.
pub open spec fn replay(f: SegmentFetch, file: Seq<u8>, content: Seq<u8>, events: Seq<FetchEvent>) -> (
    SegmentFetch,
    Seq<u8>,
)
    decreases events.len(),
{
    if events.len() == 0 || !f.awaiting() {
        (f, file)
    } else {
        let (g, file2) = apply_event(f, file, content, events[0]);
        replay(g, file2, content, events.drop_first())
    }
}

proof fn lemma_replay_keeps_prefix(f: SegmentFetch, file: Seq<u8>, content: Seq<u8>, events: Seq<FetchEvent>)
    requires
        holds_prefix(f, file, content),
        content.len() <= u64::MAX,
    ensures
        holds_prefix(replay(f, file, content, events).0, replay(f, file, content, events).1, content),
        replay(f, file, content, events).0.start == f.start,
        replay(f, file, content, events).0.end == f.end,
        replay(f, file, content, events).0.max_retries == f.max_retries,
    decreases events.len(),
{
    if events.len() > 0 && f.awaiting() {
        let (g, file2) = apply_event(f, file, content, events[0]);
        match events[0] {
            FetchEvent::Failed => {},
            FetchEvent::Received(k) => {
                let d: u64 = if f.cursor + k <= content.len() {
                    k
                } else {
                    (content.len() - f.cursor) as u64
                };
                let a: u64 = if d == 0 {
                    0
                } else {
                    f.accepted(d)
                };
                assert(file2 =~= content.subrange(g.start as int, g.cursor as int));
            },
        }
        lemma_replay_keeps_prefix(g, file2, content, events.drop_first());
    }
}

/// Resume idempotence: a fetch of `range` that starts from an empty
/// checkpoint and is interrupted after the source answered `first`, then
/// resumed from the bytes its checkpoint holds and run against `second`,
/// continues at the byte after them, and once complete its checkpoint holds
/// exactly the bytes of the range, as one uninterrupted pass leaves it.
pub proof fn lemma_resume_idempotent(
    range: Range,
    max_retries: u32,
    content: Seq<u8>,
    first: Seq<FetchEvent>,
    second: Seq<FetchEvent>,
)
    requires
        range.start <= range.end + 1,
        range.end < content.len() <= u64::MAX,
    ensures
        ({
            let (f1, file1) = replay(
                resume_spec(range, 0, max_retries).unwrap(),
                Seq::empty(),
                content,
                first,
            );
            let resumed = resume_spec(range, file1.len() as u64, max_retries);
            &&& resumed is Some
            &&& resumed.unwrap().cursor == range.start + file1.len()
            &&& file1 == content.subrange(range.start as int, range.start + file1.len())
            &&& ({
                let (f2, file2) = replay(resumed.unwrap(), file1, content, second);
                f2.step() == FetchStep::Complete ==> file2 == content.subrange(
                    range.start as int,
                    range.end + 1,
                )
            })
        }),
{
    let f0 = resume_spec(range, 0, max_retries).unwrap();
    assert(Seq::<u8>::empty() =~= content.subrange(f0.start as int, f0.cursor as int));
    lemma_replay_keeps_prefix(f0, Seq::empty(), content, first);
    let (f1, file1) = replay(f0, Seq::empty(), content, first);
    let g = resume_spec(range, file1.len() as u64, max_retries).unwrap();
    assert(g.cursor == f1.cursor);
    lemma_replay_keeps_prefix(g, file1, content, second);
}

/// The fetch after `k` failed attempts in a row.
pub open spec fn failures_only(k: nat) -> Seq<FetchEvent> {
    Seq::new(k, |_i: int| FetchEvent::Failed)
}

/// Retry exhaustion: against a source that fails every request, a fetch
/// with bytes still to come performs `max_retries - failures` more attempts,
/// then reports exhaustion and asks for nothing more, however many further
/// failures the source has in store.
pub proof fn lemma_failing_source_exhausts(f: SegmentFetch, file: Seq<u8>, content: Seq<u8>, k: nat)
    requires
        f.wf(),
        f.cursor <= f.end,
    ensures
        ({
            let g = replay(f, file, content, failures_only(k)).0;
            let spent = if f.failures + k <= f.max_retries {
                f.failures + k
            } else {
                f.max_retries as int
            };
            &&& g == SegmentFetch { failures: spent as u32, ..f }
            &&& g.step() == FetchStep::Exhausted <==> f.failures + k >= f.max_retries
            &&& g.step() is Request <==> f.failures + k < f.max_retries
        }),
    decreases k,
{
    if k > 0 && f.awaiting() {
        assert(failures_only(k).drop_first() =~= failures_only((k - 1) as nat));
        lemma_failing_source_exhausts(f.after_failure(), file, content, (k - 1) as nat);
    }
}

} // verus!
