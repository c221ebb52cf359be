use segget::download::{
    check_parts, collect_outcomes, describe_resource, file_name_of, next_stage, parse_length, DownloadError, Stage,
};
use segget::fetch::FailureReason;
use segget::layout::{merge_plan, output_path, part_file_path};

#[test]
fn merge_plan_orders_checkpoints() {
    let plan = merge_plan("tests", "test.txt", 2);
    assert_eq!(plan, vec!["tests/test.txt.part0_2".to_string(), "tests/test.txt.part1_2".to_string()]);
    assert_eq!(output_path("tests", "test.txt"), "tests/test.txt");
    assert_eq!(check_parts(&vec!["Hello".len() as u64, "World".len() as u64], 10), Ok(()));
}

#[test]
fn paths_use_one_separator() {
    assert_eq!(output_path("/tmp/", "a.bin"), "/tmp/a.bin");
    assert_eq!(output_path("", "a.bin"), "/a.bin");
    assert_eq!(part_file_path("out/", "100MB.bin", 12, 32), "out/100MB.bin.part12_32");
    assert_eq!(part_file_path(".", "f", 0, 1), "./f.part0_1");
    assert_eq!(part_file_path("d", "f", 4294967295, 4000000000), "d/f.part4294967295_4000000000");
}

#[test]
fn check_parts_detects_truncation() {
    assert_eq!(check_parts(&vec![5, 4], 10), Err(DownloadError::SizeMismatch));
    assert_eq!(check_parts(&vec![5, 6], 10), Err(DownloadError::SizeMismatch));
    assert_eq!(check_parts(&vec![u64::MAX, 1], 10), Err(DownloadError::SizeMismatch));
    assert_eq!(check_parts(&vec![], 0), Ok(()));
}

#[test]
fn any_failed_segment_fails_download() {
    let ok: Vec<Result<(), FailureReason>> = vec![Ok(()), Ok(()), Ok(())];
    assert_eq!(collect_outcomes(&ok), Ok(()));
    let one = vec![Ok(()), Err(FailureReason::Exhausted), Ok(()), Err(FailureReason::Exhausted)];
    assert_eq!(collect_outcomes(&one), Err(DownloadError::SegmentExhausted { index: 1 }));
    let last = vec![Ok(()), Ok(()), Err(FailureReason::Exhausted)];
    assert_eq!(collect_outcomes(&last), Err(DownloadError::SegmentExhausted { index: 2 }));
}

#[test]
fn length_header_parsing() {
    assert_eq!(parse_length("0"), Some(0));
    assert_eq!(parse_length("3000"), Some(3000));
    assert_eq!(parse_length("18446744073709551615"), Some(u64::MAX));
    assert_eq!(parse_length("18446744073709551616"), None);
    assert_eq!(parse_length(""), None);
    assert_eq!(parse_length("12a"), None);
    assert_eq!(parse_length("-1"), None);
}

#[test]
fn file_name_is_last_path_segment() {
    assert_eq!(file_name_of("/z4d4kWk.jpg"), "z4d4kWk.jpg");
    assert_eq!(file_name_of("/files/100MB.bin"), "100MB.bin");
    assert_eq!(file_name_of("/files/"), "");
    assert_eq!(file_name_of("plain"), "plain");
}

#[test]
fn probe_response_interpretation() {
    let d = describe_resource("/files/100MB.bin", Some("104857600"), Some("bytes")).unwrap();
    assert_eq!(d.total_size, 104857600);
    assert_eq!(d.suggested_name, "100MB.bin");
    assert!(d.supports_ranges);
    assert_eq!(
        describe_resource("/a.bin", None, Some("bytes")).unwrap_err(),
        DownloadError::MissingLength
    );
    assert_eq!(
        describe_resource("/a.bin", Some("ten"), Some("bytes")).unwrap_err(),
        DownloadError::InvalidLength
    );
    assert_eq!(
        describe_resource("/a.bin", Some("10"), None).unwrap_err(),
        DownloadError::RangesUnsupported
    );
    assert_eq!(
        describe_resource("/a.bin", Some("10"), Some("none")).unwrap_err(),
        DownloadError::RangesUnsupported
    );
    assert_eq!(
        describe_resource("/", Some("10"), Some("bytes")).unwrap_err(),
        DownloadError::MissingName
    );
}

#[test]
fn pipeline_runs_in_order() {
    let mut stage = Stage::Validating;
    let mut seen = vec![stage];
    while stage != Stage::Done {
        stage = next_stage(stage, Ok(()));
        seen.push(stage);
    }
    assert_eq!(
        seen,
        vec![
            Stage::Validating,
            Stage::Probing,
            Stage::Partitioning,
            Stage::Downloading,
            Stage::Merging,
            Stage::Done
        ]
    );
}

#[test]
fn failed_segment_never_reaches_merge() {
    let outcomes = vec![Ok(()), Ok(()), Err(FailureReason::Exhausted), Ok(())];
    let stage = next_stage(Stage::Downloading, collect_outcomes(&outcomes));
    assert_eq!(stage, Stage::Failed(DownloadError::SegmentExhausted { index: 2 }));
    assert_eq!(next_stage(stage, Ok(())), stage);
    let probe = next_stage(Stage::Probing, Err(DownloadError::RangesUnsupported));
    assert_eq!(probe, Stage::Failed(DownloadError::RangesUnsupported));
    assert_eq!(next_stage(Stage::Done, Err(DownloadError::MergeFailed)), Stage::Done);
}
