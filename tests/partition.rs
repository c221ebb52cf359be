use segget::partition::{partition, Range};

fn check_cover(total: u64, count: u32) {
    let rs = partition(total, count);
    let n = std::cmp::min(total, count as u64) as usize;
    assert_eq!(rs.len(), n);
    assert_eq!(rs[0].start, 0);
    assert_eq!(rs[n - 1].end, total - 1);
    let mut sum = 0u64;
    for (i, r) in rs.iter().enumerate() {
        assert_eq!(r.index as usize, i);
        if i + 1 < n {
            assert_eq!(r.end + 1, rs[i + 1].start);
        }
        sum += r.end + 1 - r.start;
    }
    assert_eq!(sum, total);
}

#[test]
fn partition_two_segments() {
    assert_eq!(
        partition(10, 2),
        vec![Range { index: 0, start: 0, end: 5 }, Range { index: 1, start: 6, end: 9 }]
    );
}

#[test]
fn partition_last_absorbs_remainder() {
    assert_eq!(
        partition(11, 3),
        vec![
            Range { index: 0, start: 0, end: 3 },
            Range { index: 1, start: 4, end: 6 },
            Range { index: 2, start: 7, end: 10 }
        ]
    );
}

#[test]
fn partition_single_segment() {
    assert_eq!(partition(5, 1), vec![Range { index: 0, start: 0, end: 4 }]);
}

#[test]
fn partition_more_segments_than_bytes() {
    let rs = partition(3, 8);
    assert_eq!(rs.len(), 3);
    check_cover(3, 8);
}

#[test]
fn partition_empty_resource() {
    assert_eq!(partition(0, 4), vec![]);
}

#[test]
fn partition_coverage_many_sizes() {
    for total in [1u64, 2, 7, 31, 32, 33, 1000, 1 << 40, u64::MAX] {
        for count in 1..=32u32 {
            check_cover(total, count);
        }
    }
}
