//! The pipeline's decisions: what a probe response says of the resource,
//! whether the segments together succeeded, and whether their checkpoints
//! may be merged.

use crate::fetch::FailureReason;
use vstd::prelude::*;

verus! {

/// Why a download did not produce its final file.
#[derive(Clone, Copy, Debug, PartialEq, Eq, Structural)]
pub enum DownloadError {
    /// A setting of the download is out of bounds.
    InvalidArguments,
    /// The metadata request itself failed.
    ProbeFailed,
    /// The response gave no length of the resource.
    MissingLength,
    /// The length the response gave is not a decimal number of bytes.
    InvalidLength,
    /// The server does not take byte-range requests.
    RangesUnsupported,
    /// The resolved location ends in no file name.
    MissingName,
    /// Segment `index` ran out of retries.
    SegmentExhausted { index: u32 },
    /// The checkpoints do not add up to the size of the resource.
    SizeMismatch,
    /// A checkpoint could not be read or the final file written.
    MergeFailed,
}

/// What the probe learned of the resource.
#[derive(Clone, Debug)]
pub struct ResourceDescriptor {
    pub total_size: u64,
    pub suggested_name: String,
    pub supports_ranges: bool,
}

pub open spec fn is_digit(c: char) -> bool {
    '0' <= c <= '9'
}

/// The number that the digits of `s` spell.
pub open spec fn digits_value(s: Seq<char>) -> nat
    decreases s.len(),
{
    if s.len() == 0 {
        0
    } else {
        digits_value(s.drop_last()) * 10 + (s.last() as nat - '0' as nat) as nat
    }
}

/// `s` is a non-empty run of decimal digits.
pub open spec fn is_decimal(s: Seq<char>) -> bool {
    s.len() > 0 && forall|i: int| 0 <= i < s.len() ==> is_digit(#[trigger] s[i])
}

/// Reads a length header: `Some` exactly when it is a non-empty run of
/// decimal digits whose value fits in 64 bits.
pub fn parse_length(s: &str) -> (r: Option<u64>)
    ensures
        r == (if is_decimal(s@) && digits_value(s@) <= u64::MAX {
            Some(digits_value(s@) as u64)
        } else {
            None::<u64>
        }),
{
    let n: usize = s.unicode_len();
    if n == 0 {
        return None;
    }
    let mut value: u64 = 0;
    let mut i: usize = 0;
    while i < n
        invariant
            n == s@.len(),
            i <= n,
            forall|k: int| 0 <= k < i ==> is_digit(#[trigger] s@[k]),
            value == digits_value(s@.subrange(0, i as int)),
        decreases n - i,
    {
        let c: char = s.get_char(i);
        assert(s@.subrange(0, i + 1).drop_last() =~= s@.subrange(0, i as int));
        if c < '0' || c > '9' {
            return None;
        }
        let d: u64 = (c as u32 - '0' as u32) as u64;
        if value > (u64::MAX - d) / 10 {
            proof {
                lemma_digits_grow(s@, (i + 1) as int, n as int);
            }
            return None;
        }
        value = value * 10 + d;
        i = i + 1;
    }
    assert(s@.subrange(0, n as int) =~= s@);
    Some(value)
}

proof fn lemma_digits_grow(s: Seq<char>, i: int, n: int)
    requires
        1 <= i <= n == s.len(),
        digits_value(s.subrange(0, i)) > u64::MAX,
    ensures
        !(is_decimal(s) && digits_value(s) <= u64::MAX),
    decreases n - i,
{
    if i < n && is_decimal(s) {
        assert(s.subrange(0, i + 1).drop_last() =~= s.subrange(0, i));
        lemma_digits_grow(s, i + 1, n);
    } else if i == n {
        assert(s.subrange(0, n) =~= s);
    }
}

/// Position of the last `/` in `s`, or -1 when there is none.
pub open spec fn last_slash(s: Seq<char>) -> int
    decreases s.len(),
{
    if s.len() == 0 {
        -1
    } else if s.last() == '/' {
        s.len() - 1
    } else {
        last_slash(s.drop_last())
    }
}

/// The last segment of a path: what follows its last `/`.
pub open spec fn last_segment(s: Seq<char>) -> Seq<char> {
    s.subrange(last_slash(s) + 1, s.len() as int)
}

/// The file name that a path ends in.
pub fn file_name_of(path: &str) -> (r: String)
    ensures
        r@ == last_segment(path@),
{
    let n: usize = path.unicode_len();
    let mut j: usize = n;
    assert(path@.subrange(0, n as int) =~= path@);
    while j > 0 && path.get_char(j - 1) != '/'
        invariant
            n == path@.len(),
            j <= n,
            last_slash(path@) == last_slash(path@.subrange(0, j as int)),
        decreases j,
    {
        assert(path@.subrange(0, j as int).drop_last() =~= path@.subrange(0, j - 1));
        j = j - 1;
    }
    assert(path@.subrange(0, n as int) =~= path@);
    proof {
        if j > 0 {
            assert(path@.subrange(0, j as int).last() == path@[j - 1]);
        }
    }
    String::from_str(path.substring_char(j, n))
}

/// The value of an `Accept-Ranges` header that refuses range requests.
pub open spec fn refuses_ranges(v: Seq<char>) -> bool {
    v =~= seq!['n', 'o', 'n', 'e']
}

fn is_none_token(v: &str) -> (r: bool)
    ensures
        r == refuses_ranges(v@),
{
    if v.unicode_len() != 4 {
        return false;
    }
    v.get_char(0) == 'n' && v.get_char(1) == 'o' && v.get_char(2) == 'n' && v.get_char(3) == 'e'
}

/// What a probe response says of the resource: its length, whether it takes
/// range requests, and the name it goes by.
pub open spec fn probe_outcome(
    path: Seq<char>,
    length: Option<Seq<char>>,
    accept_ranges: Option<Seq<char>>,
) -> Result<(u64, Seq<char>), DownloadError> {
    match length {
        None => Err(DownloadError::MissingLength),
        Some(l) => if !(is_decimal(l) && digits_value(l) <= u64::MAX) {
            Err(DownloadError::InvalidLength)
        } else if accept_ranges is None || refuses_ranges(accept_ranges.unwrap()) {
            Err(DownloadError::RangesUnsupported)
        } else if last_segment(path).len() == 0 {
            Err(DownloadError::MissingName)
        } else {
            Ok((digits_value(l) as u64, last_segment(path)))
        },
    }
}

/// Reads the probe's response: `path` is the path of the resolved location,
/// `length` and `accept_ranges` the values of the length and range headers.
pub fn describe_resource(path: &str, length: Option<&str>, accept_ranges: Option<&str>) -> (r: Result<
    ResourceDescriptor,
    DownloadError,
>)
    ensures
        match (r, probe_outcome(
            path@,
            match length {
                Some(l) => Some(l@),
                None => None::<Seq<char>>,
            },
            match accept_ranges {
                Some(a) => Some(a@),
                None => None::<Seq<char>>,
            },
        )) {
            (Ok(d), Ok((size, name))) => d.total_size == size && d.suggested_name@ == name
                && d.supports_ranges,
            (Err(e), Err(f)) => e == f,
            _ => false,
        },
{
    let size: u64 = match length {
        None => {
            return Err(DownloadError::MissingLength);
        },
        Some(l) => match parse_length(l) {
            None => {
                return Err(DownloadError::InvalidLength);
            },
            Some(v) => v,
        },
    };
    match accept_ranges {
        None => {
            return Err(DownloadError::RangesUnsupported);
        },
        Some(a) => {
            if is_none_token(a) {
                return Err(DownloadError::RangesUnsupported);
            }
        },
    }
    let name = file_name_of(path);
    if name.as_str().unicode_len() == 0 {
        return Err(DownloadError::MissingName);
    }
    Ok(ResourceDescriptor { total_size: size, suggested_name: name, supports_ranges: true })
}

/// The error of the first failed segment, if any.
pub open spec fn first_failure(outcomes: Seq<Result<(), FailureReason>>) -> Result<(), DownloadError>
    decreases outcomes.len(),
{
    if outcomes.len() == 0 {
        Ok(())
    } else if outcomes.last() is Err {
        match first_failure(outcomes.drop_last()) {
            Ok(()) => Err(DownloadError::SegmentExhausted { index: (outcomes.len() - 1) as u32 }),
            Err(e) => Err(e),
        }
    } else {
        first_failure(outcomes.drop_last())
    }
}

/// Joins the outcomes of all segments, in segment order: success when every
/// segment succeeded, otherwise the failure of the first one that failed.
/// Merging follows only on success.
pub fn collect_outcomes(outcomes: &Vec<Result<(), FailureReason>>) -> (r: Result<(), DownloadError>)
    requires
        outcomes@.len() <= u32::MAX + 1,
    ensures
        r == first_failure(outcomes@),
        r is Ok <==> forall|i: int| 0 <= i < outcomes@.len() ==> (#[trigger] outcomes@[i]) is Ok,
        r matches Err(DownloadError::SegmentExhausted { index }) ==> {
            &&& index < outcomes@.len()
            &&& outcomes@[index as int] is Err
            &&& forall|k: int| 0 <= k < index ==> (#[trigger] outcomes@[k]) is Ok
        },
        r is Err ==> r matches Err(DownloadError::SegmentExhausted { .. }),
{
    let mut i: usize = 0;
    while i < outcomes.len()
        invariant
            i <= outcomes@.len() <= u32::MAX + 1,
            first_failure(outcomes@.subrange(0, i as int)) == Ok::<(), DownloadError>(()),
            forall|k: int| 0 <= k < i ==> (#[trigger] outcomes@[k]) is Ok,
        decreases outcomes@.len() - i,
    {
        assert(outcomes@.subrange(0, i + 1).drop_last() =~= outcomes@.subrange(0, i as int));
        if outcomes[i].is_err() {
            proof {
                lemma_first_failure_stays(outcomes@, i + 1);
            }
            return Err(DownloadError::SegmentExhausted { index: i as u32 });
        }
        i = i + 1;
    }
    assert(outcomes@.subrange(0, i as int) =~= outcomes@);
    Ok(())
}

proof fn lemma_first_failure_stays(outcomes: Seq<Result<(), FailureReason>>, k: int)
    requires
        1 <= k <= outcomes.len(),
        first_failure(outcomes.subrange(0, k)) is Err,
    ensures
        first_failure(outcomes) == first_failure(outcomes.subrange(0, k)),
    decreases outcomes.len() - k,
{
    if k < outcomes.len() {
        assert(outcomes.subrange(0, k + 1).drop_last() =~= outcomes.subrange(0, k));
        lemma_first_failure_stays(outcomes, k + 1);
    } else {
        assert(outcomes.subrange(0, k) =~= outcomes);
    }
}

/// Where the pipeline of one download stands.
#[derive(Clone, Copy, Debug, PartialEq, Eq, Structural)]
pub enum Stage {
    Validating,
    Probing,
    Partitioning,
    Downloading,
    Merging,
    Done,
    Failed(DownloadError),
}

/// The stage that follows `stage` once its work ended with `result`: the
/// next stage in order on success, `Failed` with the error otherwise; `Done`
/// and `Failed` are final.
pub open spec fn next_stage_spec(stage: Stage, result: Result<(), DownloadError>) -> Stage {
    match stage {
        Stage::Done => Stage::Done,
        Stage::Failed(e) => Stage::Failed(e),
        _ => match result {
            Err(e) => Stage::Failed(e),
            Ok(()) => match stage {
                Stage::Validating => Stage::Probing,
                Stage::Probing => Stage::Partitioning,
                Stage::Partitioning => Stage::Downloading,
                Stage::Downloading => Stage::Merging,
                _ => Stage::Done,
            },
        },
    }
}

/// Moves the pipeline on after the work of `stage` ended with `result`.
pub fn next_stage(stage: Stage, result: Result<(), DownloadError>) -> (r: Stage)
    ensures
        r == next_stage_spec(stage, result),
{
    match stage {
        Stage::Done => Stage::Done,
        Stage::Failed(e) => Stage::Failed(e),
        _ => match result {
            Err(e) => Stage::Failed(e),
            Ok(()) => match stage {
                Stage::Validating => Stage::Probing,
                Stage::Probing => Stage::Partitioning,
                Stage::Partitioning => Stage::Downloading,
                Stage::Downloading => Stage::Merging,
                _ => Stage::Done,
            },
        },
    }
}

/// Aggregate failure: when any one segment ran out of retries, the joined
/// outcome of the downloads is a failure and the pipeline goes from
/// downloading to `Failed`, never to merging; when all succeeded, it merges.
pub proof fn lemma_failed_segment_skips_merge(outcomes: Seq<Result<(), FailureReason>>)
    ensures
        (exists|i: int| 0 <= i < outcomes.len() && (#[trigger] outcomes[i]) is Err) ==> {
            &&& first_failure(outcomes) is Err
            &&& next_stage_spec(Stage::Downloading, first_failure(outcomes)) is Failed
        },
        (forall|i: int| 0 <= i < outcomes.len() ==> (#[trigger] outcomes[i]) is Ok) ==> next_stage_spec(
            Stage::Downloading,
            first_failure(outcomes),
        ) == Stage::Merging,
    decreases outcomes.len(),
{
    if outcomes.len() > 0 {
        let rest = outcomes.drop_last();
        lemma_failed_segment_skips_merge(rest);
        if exists|i: int| 0 <= i < outcomes.len() && (#[trigger] outcomes[i]) is Err {
            let i = choose|i: int| 0 <= i < outcomes.len() && (#[trigger] outcomes[i]) is Err;
            if i < outcomes.len() - 1 {
                assert(rest[i] is Err);
            }
        }
        if forall|i: int| 0 <= i < outcomes.len() ==> (#[trigger] outcomes[i]) is Ok {
            assert forall|i: int| 0 <= i < rest.len() implies (#[trigger] rest[i]) is Ok by {
                assert(rest[i] == outcomes[i]);
            }
        }
    }
}

/// Sum of the lengths of the checkpoints.
pub open spec fn sum_lengths(lengths: Seq<u64>) -> int
    decreases lengths.len(),
{
    if lengths.len() == 0 {
        0
    } else {
        sum_lengths(lengths.drop_last()) + lengths.last()
    }
}

/// Checks before merging that the checkpoints, of the given lengths, hold
/// exactly as many bytes as the resource: no truncated final file.
pub fn check_parts(lengths: &Vec<u64>, total_size: u64) -> (r: Result<(), DownloadError>)
    ensures
        r is Ok <==> sum_lengths(lengths@) == total_size,
        r is Err ==> r == Err::<(), DownloadError>(DownloadError::SizeMismatch),
{
    let mut sum: u64 = 0;
    let mut i: usize = 0;
    while i < lengths.len()
        invariant
            i <= lengths@.len(),
            sum == sum_lengths(lengths@.subrange(0, i as int)),
            sum <= total_size,
        decreases lengths@.len() - i,
    {
        assert(lengths@.subrange(0, i + 1).drop_last() =~= lengths@.subrange(0, i as int));
        if lengths[i] > total_size - sum {
            proof {
                lemma_sum_grows(lengths@, i + 1);
            }
            return Err(DownloadError::SizeMismatch);
        }
        sum = sum + lengths[i];
        i = i + 1;
    }
    assert(lengths@.subrange(0, i as int) =~= lengths@);
    if sum == total_size {
        Ok(())
    } else {
        Err(DownloadError::SizeMismatch)
    }
}

proof fn lemma_sum_grows(lengths: Seq<u64>, k: int)
    requires
        0 <= k <= lengths.len(),
    ensures
        sum_lengths(lengths) >= sum_lengths(lengths.subrange(0, k)),
    decreases lengths.len() - k,
{
    if k < lengths.len() {
        assert(lengths.subrange(0, k + 1).drop_last() =~= lengths.subrange(0, k));
        lemma_sum_grows(lengths, k + 1);
    } else {
        assert(lengths.subrange(0, k) =~= lengths);
    }
}

} // verus!
