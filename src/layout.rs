//! Where a download keeps its files: the final file and one partial file
//! (the resumable checkpoint) per segment.

use vstd::prelude::*;

verus! {

/// The decimal digit for `d < 10`.
pub open spec fn digit_char(d: nat) -> char {
    if d == 0 {
        '0'
    } else if d == 1 {
        '1'
    } else if d == 2 {
        '2'
    } else if d == 3 {
        '3'
    } else if d == 4 {
        '4'
    } else if d == 5 {
        '5'
    } else if d == 6 {
        '6'
    } else if d == 7 {
        '7'
    } else if d == 8 {
        '8'
    } else {
        '9'
    }
}

/// `n` written in decimal, without leading zeros.
pub open spec fn decimal(n: nat) -> Seq<char>
    decreases n,
{
    if n < 10 {
        seq![digit_char(n)]
    } else {
        decimal(n / 10).push(digit_char(n % 10))
    }
}

/// `name` inside the directory `dir`, with one separator between them.
pub open spec fn join_path(dir: Seq<char>, name: Seq<char>) -> Seq<char> {
    if dir.len() > 0 && dir.last() == '/' {
        dir + name
    } else {
        dir + seq!['/'] + name
    }
}

/// `<dir>/<name>.part<index>_<count>`: the checkpoint of segment `index`
/// of a download split into `count` segments.
pub open spec fn part_path(dir: Seq<char>, name: Seq<char>, index: nat, count: nat) -> Seq<char> {
    join_path(dir, name) + seq!['.', 'p', 'a', 'r', 't'] + decimal(index) + seq!['_'] + decimal(
        count,
    )
}

fn digit_str(d: u64) -> (r: &'static str)
    requires
        d < 10,
    ensures
        r@ == seq![digit_char(d as nat)],
{
    proof {
        reveal_strlit("0");
        reveal_strlit("1");
        reveal_strlit("2");
        reveal_strlit("3");
        reveal_strlit("4");
        reveal_strlit("5");
        reveal_strlit("6");
        reveal_strlit("7");
        reveal_strlit("8");
        reveal_strlit("9");
    }
    let r = if d == 0 {
        "0"
    } else if d == 1 {
        "1"
    } else if d == 2 {
        "2"
    } else if d == 3 {
        "3"
    } else if d == 4 {
        "4"
    } else if d == 5 {
        "5"
    } else if d == 6 {
        "6"
    } else if d == 7 {
        "7"
    } else if d == 8 {
        "8"
    } else {
        "9"
    };
    assert(r@ =~= seq![digit_char(d as nat)]);
    r
}

fn push_decimal(out: &mut String, n: u64)
    ensures
        final(out)@ == old(out)@ + decimal(n as nat),
    decreases n,
{
    if n >= 10 {
        push_decimal(out, n / 10);
    }
    out.append(digit_str(n % 10));
    proof {
        if n >= 10 {
            assert(old(out)@ + decimal(n as nat) =~= old(out)@ + decimal((n / 10) as nat) + seq![
                digit_char((n % 10) as nat),
            ]);
        }
    }
}

fn push_joined(out: &mut String, dir: &str, name: &str)
    requires
        old(out)@.len() == 0,
    ensures
        final(out)@ == join_path(dir@, name@),
{
    out.append(dir);
    let n: usize = dir.unicode_len();
    let needs_separator: bool = n == 0 || dir.get_char(n - 1) != '/';
    if needs_separator {
        proof {
            reveal_strlit("/");
        }
        out.append("/");
    }
    out.append(name);
    assert(final(out)@ =~= join_path(dir@, name@));
}

/// The path of the final file: `name` inside `dir`.
pub fn output_path(dir: &str, name: &str) -> (r: String)
    ensures
        r@ == join_path(dir@, name@),
{
    let mut out = String::new();
    push_joined(&mut out, dir, name);
    out
}

/// The path of the checkpoint of segment `index` out of `count`.
pub fn part_file_path(dir: &str, name: &str, index: u32, count: u32) -> (r: String)
    ensures
        r@ == part_path(dir@, name@, index as nat, count as nat),
{
    let mut out = String::new();
    push_joined(&mut out, dir, name);
    proof {
        reveal_strlit(".part");
        reveal_strlit("_");
    }
    out.append(".part");
    push_decimal(&mut out, index as u64);
    out.append("_");
    push_decimal(&mut out, count as u64);
    assert(out@ =~= part_path(dir@, name@, index as nat, count as nat));
    out
}

/// The checkpoints of a download split into `count` segments, in the order
/// in which their bytes make up the resource.
pub fn merge_plan(dir: &str, name: &str, count: u32) -> (r: Vec<String>)
    ensures
        r@.len() == count,
        forall|i: int| 0 <= i < count ==> (#[trigger] r@[i])@ == part_path(dir@, name@, i as nat, count as nat),
{
    let mut plan: Vec<String> = Vec::new();
    let mut i: u32 = 0;
    while i < count
        invariant
            i <= count,
            plan@.len() == i,
            forall|k: int| 0 <= k < i ==> (#[trigger] plan@[k])@ == part_path(dir@, name@, k as nat, count as nat),
        decreases count - i,
    {
        plan.push(part_file_path(dir, name, i, count));
        i = i + 1;
    }
    plan
}

} // verus!
