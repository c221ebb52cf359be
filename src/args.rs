//! The settings of a download and their validation.

use vstd::prelude::*;

verus! {

/// The settings of one download.
#[derive(Clone, Debug)]
pub struct Args {
    /// The link to the file to download.
    pub link: String,
    /// The folder the file is saved to.
    pub output: String,
    /// The number of segments fetched at once.
    pub threads: u32,
    /// The number of failed attempts allowed per segment.
    pub retries: u32,
    /// The timeout of each request, in seconds.
    pub timeout: u32,
}

/// A setting that is out of bounds.
#[derive(Clone, Copy, Debug, PartialEq, Eq, Structural)]
pub enum ArgsError {
    InvalidLink,
    ThreadsOutOfRange,
    RetriesOutOfRange,
    TimeoutOutOfRange,
}

/// Whether `s` parses as an absolute URL.
pub uninterp spec fn is_url(s: Seq<char>) -> bool;

/// Relies on validator::validate_url: it tells whether the text parses as an
/// absolute URL, which depends on the text alone.
#[verifier::external_body]
fn url_parses(s: &str) -> (r: bool)
    ensures
        r == is_url(s@),
{
    validator::validate_url(s)
}

pub open spec fn in_bounds(v: u32, lo: u32, hi: u32) -> bool {
    lo <= v <= hi
}

/// The settings that are out of bounds, in the order of the fields: the link
/// must be a URL, `threads` within 1 to 32, `retries` within 1 to 10 and
/// `timeout` within 1 to 60.
pub open spec fn args_problems(link: Seq<char>, threads: u32, retries: u32, timeout: u32) -> Seq<
    ArgsError,
> {
    (if is_url(link) {
        Seq::empty()
    } else {
        seq![ArgsError::InvalidLink]
    }) + (if in_bounds(threads, 1, 32) {
        Seq::empty()
    } else {
        seq![ArgsError::ThreadsOutOfRange]
    }) + (if in_bounds(retries, 1, 10) {
        Seq::empty()
    } else {
        seq![ArgsError::RetriesOutOfRange]
    }) + (if in_bounds(timeout, 1, 60) {
        Seq::empty()
    } else {
        seq![ArgsError::TimeoutOutOfRange]
    })
}

impl Args {
    /// Checks every setting; on failure lists all that are out of bounds.
    pub fn validate(&self) -> (r: Result<(), Vec<ArgsError>>)
        ensures
            r is Ok <==> args_problems(self.link@, self.threads, self.retries, self.timeout).len() == 0,
            r matches Err(v) ==> v@ == args_problems(
                self.link@,
                self.threads,
                self.retries,
                self.timeout,
            ),
    {
        let mut problems: Vec<ArgsError> = Vec::new();
        if !url_parses(self.link.as_str()) {
            problems.push(ArgsError::InvalidLink);
        }
        if !(1 <= self.threads && self.threads <= 32) {
            problems.push(ArgsError::ThreadsOutOfRange);
        }
        if !(1 <= self.retries && self.retries <= 10) {
            problems.push(ArgsError::RetriesOutOfRange);
        }
        if !(1 <= self.timeout && self.timeout <= 60) {
            problems.push(ArgsError::TimeoutOutOfRange);
        }
        assert(problems@ =~= args_problems(self.link@, self.threads, self.retries, self.timeout));
        if problems.len() == 0 {
            Ok(())
        } else {
            Err(problems)
        }
    }
}

impl ArgsError {
    /// The text shown for the problem.
    pub fn message(&self) -> (r: String)
        ensures
            r@ == match self {
                ArgsError::InvalidLink => "The link is not valid"@,
                ArgsError::ThreadsOutOfRange => "The number of threads must be between 1 and 32"@,
                ArgsError::RetriesOutOfRange => "The number of retries must be between 1 and 10"@,
                ArgsError::TimeoutOutOfRange => "The timeout must be between 1 and 60"@,
            },
    {
        match self {
            ArgsError::InvalidLink => String::from_str("The link is not valid"),
            ArgsError::ThreadsOutOfRange => String::from_str(
                "The number of threads must be between 1 and 32",
            ),
            ArgsError::RetriesOutOfRange => String::from_str(
                "The number of retries must be between 1 and 10",
            ),
            ArgsError::TimeoutOutOfRange => String::from_str("The timeout must be between 1 and 60"),
        }
    }
}

/// `p` is a prefix of `s`.
pub open spec fn has_prefix(s: Seq<char>, p: Seq<char>) -> bool {
    p.len() <= s.len() && s.subrange(0, p.len() as int) == p
}

fn starts_with(s: &str, p: &str) -> (r: bool)
    ensures
        r == has_prefix(s@, p@),
{
    let n: usize = p.unicode_len();
    if n > s.unicode_len() {
        return false;
    }
    let mut i: usize = 0;
    while i < n
        invariant
            n == p@.len() <= s@.len(),
            i <= n,
            forall|k: int| 0 <= k < i ==> s@[k] == p@[k],
        decreases n - i,
    {
        if s.get_char(i) != p.get_char(i) {
            assert(s@.subrange(0, n as int)[i as int] != p@[i as int]);
            return false;
        }
        i = i + 1;
    }
    assert(s@.subrange(0, n as int) =~= p@);
    true
}

/// The outcome of [`validate_url`] on a link.
pub open spec fn url_check(url: Seq<char>) -> Result<(), Seq<char>> {
    if url.len() == 0 {
        Err("The link is empty"@)
    } else if !has_prefix(url, "http://"@) && !has_prefix(url, "https://"@) {
        Err("The link is not valid"@)
    } else {
        Ok(())
    }
}

/// Accepts a non-empty link that starts with `http://` or `https://`.
pub fn validate_url(url: &str) -> (r: Result<(), String>)
    ensures
        match (r, url_check(url@)) {
            (Ok(()), Ok(())) => true,
            (Err(m), Err(n)) => m@ == n,
            _ => false,
        },
{
    if url.unicode_len() == 0 {
        return Err(String::from_str("The link is empty"));
    }
    if !starts_with(url, "http://") && !starts_with(url, "https://") {
        return Err(String::from_str("The link is not valid"));
    }
    Ok(())
}

} // verus!
