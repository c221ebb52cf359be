use segget::fetch::{FailureReason, FetchStep, SegmentFetch, CHUNK_SIZE};
use segget::partition::Range;

/// Runs a fetch against an in-memory source, appending to `file`.
fn run(f: &mut SegmentFetch, file: &mut Vec<u8>, content: &[u8], chunk_cap: u64, fail_first: u32) {
    let mut failures_left = fail_first;
    loop {
        match f.next_step() {
            FetchStep::Request { from, to } => {
                if failures_left > 0 {
                    failures_left -= 1;
                    f.record_failure();
                    continue;
                }
                let hi = std::cmp::min(to, from + chunk_cap - 1);
                let chunk = &content[from as usize..=hi as usize];
                let accepted = f.record_chunk(chunk.len() as u64);
                file.extend_from_slice(&chunk[..accepted as usize]);
            }
            _ => return,
        }
    }
}

#[test]
fn retry_exhaustion_after_three_failures() {
    let range = Range { index: 0, start: 0, end: 999 };
    let mut f = SegmentFetch::resume(range, 0, 3).unwrap();
    let mut attempts = 0;
    while let FetchStep::Request { .. } = f.next_step() {
        attempts += 1;
        f.record_failure();
        assert!(attempts <= 3);
    }
    assert_eq!(attempts, 3);
    assert_eq!(f.next_step(), FetchStep::Exhausted);
    assert_eq!(f.outcome(), Some(Err(FailureReason::Exhausted)));
}

#[test]
fn empty_response_counts_as_failure() {
    let range = Range { index: 0, start: 0, end: 9 };
    let mut f = SegmentFetch::resume(range, 0, 1).unwrap();
    assert_eq!(f.record_chunk(0), 0);
    assert_eq!(f.failures, 1);
    assert_eq!(f.cursor, 0);
    assert_eq!(f.next_step(), FetchStep::Exhausted);
}

#[test]
fn request_is_bounded_by_chunk_size() {
    let range = Range { index: 1, start: 100, end: 100 + 3 * CHUNK_SIZE };
    let f = SegmentFetch::resume(range, 0, 3).unwrap();
    assert_eq!(f.next_step(), FetchStep::Request { from: 100, to: 100 + CHUNK_SIZE - 1 });
    let g = SegmentFetch::resume(Range { index: 0, start: 5, end: 20 }, 0, 3).unwrap();
    assert_eq!(g.next_step(), FetchStep::Request { from: 5, to: 20 });
}

#[test]
fn surplus_bytes_are_not_accepted() {
    let mut f = SegmentFetch::resume(Range { index: 0, start: 10, end: 19 }, 4, 3).unwrap();
    assert_eq!(f.cursor, 14);
    assert_eq!(f.record_chunk(100), 6);
    assert_eq!(f.cursor, 20);
    assert_eq!(f.outcome(), Some(Ok(())));
}

#[test]
fn resume_rejects_oversized_checkpoint() {
    let range = Range { index: 0, start: 0, end: 9 };
    assert_eq!(SegmentFetch::resume(range, 11, 3), None);
    assert!(SegmentFetch::resume(range, 10, 3).is_some());
    assert_eq!(SegmentFetch::resume(range, 10, 3).unwrap().outcome(), Some(Ok(())));
    assert_eq!(SegmentFetch::resume(Range { index: 0, start: 5, end: 3 }, 0, 3), None);
}

#[test]
fn resume_after_interruption_gives_same_bytes() {
    let content: Vec<u8> = (0..200u32).map(|i| (i * 7 % 251) as u8).collect();
    let range = Range { index: 1, start: 50, end: 149 };

    let mut whole = Vec::new();
    let mut f = SegmentFetch::resume(range, 0, 3).unwrap();
    run(&mut f, &mut whole, &content, 1000, 0);
    assert_eq!(f.outcome(), Some(Ok(())));

    let mut partial = Vec::new();
    let mut g = SegmentFetch::resume(range, 0, 3).unwrap();
    run(&mut g, &mut partial, &content, 30, 0);
    partial.truncate(37);
    let mut h = SegmentFetch::resume(range, partial.len() as u64, 3).unwrap();
    assert_eq!(h.next_step(), FetchStep::Request { from: 87, to: 149 });
    run(&mut h, &mut partial, &content, 30, 2);
    assert_eq!(h.outcome(), Some(Ok(())));
    assert_eq!(partial, whole);
    assert_eq!(partial, content[50..150].to_vec());
}

#[test]
fn outcome_while_running_is_none() {
    let f = SegmentFetch::resume(Range { index: 0, start: 0, end: 0 }, 0, 1).unwrap();
    assert_eq!(f.outcome(), None);
}
