//! The report of a measurement: the mean of the run times of each engine on
//! one program, and the text that tells them.

use vstd::prelude::*;
use vstd::string::StringExecFns;
use crate::error::{append_decimal, decimal};

verus! {

/// How long one engine took on a program, on average.
#[derive(Debug, PartialEq, Eq)]
pub struct Measurement {
    pub implementation: String,
    pub milliseconds: u64,
}

/// The sum of the first `n` run times.
pub open spec fn sum_upto(times: Seq<u64>, n: nat) -> nat
    decreases n,
{
    if n == 0 || n > times.len() {
        0
    } else {
        sum_upto(times, (n - 1) as nat) + times[n - 1] as nat
    }
}

/// The mean of run times, rounded down; `None` where there are none, or
/// where their sum is too large to be told.
pub fn mean(times: &Vec<u64>) -> (r: Option<u64>)
    ensures
        match r {
            Some(m) => times@.len() > 0 && m == sum_upto(times@, times@.len()) / times@.len(),
            None => times@.len() == 0 || sum_upto(times@, times@.len()) > u64::MAX,
        },
{
    let len = times.len();
    if len == 0 {
        return None;
    }
    let mut sum: u64 = 0;
    let mut i: usize = 0;
    while i < len
        invariant
            0 <= i <= len,
            len == times@.len(),
            sum == sum_upto(times@, i as nat),
        decreases len - i,
    {
        match sum.checked_add(times[i]) {
            Some(s) => {
                sum = s;
            },
            None => {
                proof {
                    lemma_sum_grows(times@, (i + 1) as nat, len as nat);
                }
                return None;
            },
        }
        i += 1;
    }
    Some(sum / (len as u64))
}

/// The sum of more run times is no smaller.
pub proof fn lemma_sum_grows(times: Seq<u64>, n: nat, m: nat)
    requires
        n <= m <= times.len(),
    ensures
        sum_upto(times, n) <= sum_upto(times, m),
    decreases m,
{
    if m > n {
        lemma_sum_grows(times, n, (m - 1) as nat);
    }
}

/// The line of one measurement; all lines but the last end in a comma.
pub open spec fn entry_text(m: Measurement, last: bool) -> Seq<char> {
    "        {\"implementation\": \""@ + m.implementation@ + "\", \"milliseconds\": "@ + decimal(
        m.milliseconds as nat,
    ) + (if last {
        "}\n"@
    } else {
        "},\n"@
    })
}

/// The lines of the first `n` measurements.
pub open spec fn entries_text(data: Seq<Measurement>, n: nat) -> Seq<char>
    decreases n,
{
    if n == 0 || n > data.len() {
        Seq::empty()
    } else {
        entries_text(data, (n - 1) as nat) + entry_text(data[n - 1], n == data.len())
    }
}

/// The text of a report.
pub open spec fn report_text(
    title: Seq<char>,
    os: Seq<char>,
    arch: Seq<char>,
    data: Seq<Measurement>,
) -> Seq<char> {
    "{\n    \"title\": \"BF JIT "@ + title + " ("@ + os + " "@ + arch + ")\",\n    \"data\": [\n"@
        + entries_text(data, data.len()) + "    ]\n}\n"@
}

/// Writes a report: a title that names the program and the platform, and
/// one line for each engine with the milliseconds that it took.
pub fn output_data(title: &str, os: &str, arch: &str, data: &Vec<Measurement>) -> (s: String)
    ensures
        s@ == report_text(title@, os@, arch@, data@),
{
    let mut s = String::from_str("{\n    \"title\": \"BF JIT ");
    s.append(title);
    s.append(" (");
    s.append(os);
    s.append(" ");
    s.append(arch);
    s.append(")\",\n    \"data\": [\n");
    let ghost head = s@;
    let len = data.len();
    let mut i: usize = 0;
    while i < len
        invariant
            0 <= i <= len,
            len == data@.len(),
            s@ == head + entries_text(data@, i as nat),
        decreases len - i,
    {
        let ghost before = s@;
        s.append("        {\"implementation\": \"");
        s.append(data[i].implementation.as_str());
        s.append("\", \"milliseconds\": ");
        append_decimal(&mut s, data[i].milliseconds);
        if i == len - 1 {
            s.append("}\n");
        } else {
            s.append("},\n");
        }
        proof {
            assert(s@ =~= before + entry_text(data@[i as int], i + 1 == len));
            assert(s@ =~= head + entries_text(data@, (i + 1) as nat));
        }
        i += 1;
    }
    s.append("    ]\n}\n");
    proof {
        assert(s@ =~= report_text(title@, os@, arch@, data@));
    }
    s
}

} // verus!
