//! Reading what the region packing pass prints.

use vstd::prelude::*;
use vstd::string::StringExecFns;
use crate::analysis::si::{group_i64, read_i64};
use crate::path::texts;
use crate::pattern::{find_all, group, group_text, pattern_matches};
use crate::runner::option_text;
use crate::text::{lines, lines_of};

verus! {

/// The line that opens the report on a candidate.
pub const DATA_START: &'static str = "[RebaseDLPass] RegionPackingCandidate ===========";

/// The line that closes the report on a candidate.
pub const DATA_END: &'static str = "[RebaseDLPass] ==================================";

pub const LOC: &'static str = "!DILocation\\(line: (\\d+), column: (\\d+)";

pub const DEPTH: &'static str = "- depth: (\\d+)";

pub const MAF: &'static str = "Minimum access frequency: ([.0-9]+)";

pub const CU: &'static str = "Cache utilization: ([.0-9]+)";

pub const CB: &'static str = "Cost benefit: ([.0-9]+)";

/// A candidate for region packing. The three measures are kept as the pass
/// printed them.
#[derive(Debug, Default, PartialEq, Eq)]
pub struct PackingCandidate {
    pub line: Option<i64>,
    pub column: Option<i64>,
    pub depth: Option<i64>,
    pub min_access_frequency: Option<String>,
    pub cache_utilization: Option<String>,
    pub cost_benefit: Option<String>,
}

pub struct CandidateView {
    pub line: Option<i64>,
    pub column: Option<i64>,
    pub depth: Option<i64>,
    pub min_access_frequency: Option<Seq<char>>,
    pub cache_utilization: Option<Seq<char>>,
    pub cost_benefit: Option<Seq<char>>,
}

impl View for PackingCandidate {
    type V = CandidateView;

    open spec fn view(&self) -> CandidateView {
        CandidateView {
            line: self.line,
            column: self.column,
            depth: self.depth,
            min_access_frequency: option_text(self.min_access_frequency),
            cache_utilization: option_text(self.cache_utilization),
            cost_benefit: option_text(self.cost_benefit),
        }
    }
}

pub open spec fn candidate_views(v: Seq<PackingCandidate>) -> Seq<CandidateView> {
    Seq::new(v.len(), |i: int| v[i]@)
}

/// The indices below `n` of the lines that read `value`, in order.
pub open spec fn matching_upto(lines: Seq<Seq<char>>, value: Seq<char>, n: int) -> Seq<usize>
    decreases n,
{
    if n <= 0 {
        Seq::empty()
    } else if lines[n - 1] == value {
        matching_upto(lines, value, n - 1).push((n - 1) as usize)
    } else {
        matching_upto(lines, value, n - 1)
    }
}

/// The indices of the lines that read `value`.
pub fn matching_lines(lines: &Vec<String>, value: &str) -> (out: Vec<usize>)
    ensures
        out@ == matching_upto(texts(lines@), value@, lines.len() as int),
        forall|j: int| 0 <= j < out.len() ==> out[j] < lines.len(),
{
    let mut out: Vec<usize> = Vec::new();
    let n = lines.len();
    let wanted = value.to_owned();
    let mut i: usize = 0;
    while i < n
        invariant
            n == lines.len(),
            i <= n,
            wanted@ == value@,
            out@ == matching_upto(texts(lines@), value@, i as int),
            forall|j: int| 0 <= j < out.len() ==> out[j] < i,
        decreases n - i,
    {
        if lines[i] == wanted {
            out.push(i);
        }
        i += 1;
    }
    out
}

/// The lines `lines[from..to]` one after the other, without anything
/// between them.
pub open spec fn run_together(lines: Seq<Seq<char>>, from: int, to: int) -> Seq<char>
    decreases to - from,
{
    if from < 0 || to > lines.len() || from >= to {
        Seq::empty()
    } else {
        run_together(lines, from, to - 1) + lines[to - 1]
    }
}

fn concat_lines(lines: &Vec<String>, from: usize, to: usize) -> (out: String)
    ensures
        out@ == run_together(texts(lines@), from as int, to as int),
{
    let mut out = String::new();
    if to > lines.len() || from >= to {
        return out;
    }
    let mut k: usize = from;
    while k < to
        invariant
            from <= k <= to <= lines.len(),
            out@ == run_together(texts(lines@), from as int, k as int),
        decreases to - k,
    {
        out.append(lines[k].as_str());
        k += 1;
    }
    out
}

/// The capture groups of the first match of `pattern` in `text`.
pub open spec fn first_match(pattern: Seq<char>, text: Seq<char>) -> Option<
    Seq<Option<Seq<char>>>,
> {
    match pattern_matches(pattern, text) {
        Some(found) => if found.len() > 0 {
            Some(found[0])
        } else {
            None
        },
        None => None,
    }
}

/// The number in group `i` of the first match of `pattern` in `text`.
pub open spec fn first_number(pattern: Seq<char>, text: Seq<char>, i: int) -> Option<i64> {
    match first_match(pattern, text) {
        Some(groups) => group_i64(groups, i),
        None => None,
    }
}

/// The text of group 1 of the first match of `pattern` in `text`.
pub open spec fn first_text(pattern: Seq<char>, text: Seq<char>) -> Option<Seq<char>> {
    match first_match(pattern, text) {
        Some(groups) => group(groups, 1),
        None => None,
    }
}

fn find_number(pattern: &str, text: &str, i: usize) -> (out: Option<i64>)
    ensures
        out == first_number(pattern@, text@, i as int),
{
    match find_all(pattern, text) {
        Some(found) => {
            if found.len() > 0 {
                assert(found.deep_view()[0] == found[0].deep_view());
                read_i64(&found[0], i)
            } else {
                None
            }
        },
        None => None,
    }
}

fn find_text(pattern: &str, text: &str) -> (out: Option<String>)
    ensures
        option_text(out) == first_text(pattern@, text@),
{
    match find_all(pattern, text) {
        Some(found) => {
            if found.len() > 0 {
                assert(found.deep_view()[0] == found[0].deep_view());
                match group_text(&found[0], 1) {
                    Some(text) => Some(text.clone()),
                    None => None,
                }
            } else {
                None
            }
        },
        None => None,
    }
}

/// The candidate that the report from line `start` up to line `end` stands
/// for. Its position is read from the second line after the opening line;
/// the depth and the measures from the lines of the report run together.
/// What is not there is left out.
pub open spec fn candidate_of(lines: Seq<Seq<char>>, start: int, end: int) -> CandidateView {
    let at = if 0 <= start + 2 < lines.len() {
        lines[start + 2]
    } else {
        Seq::empty()
    };
    let located = first_number(LOC@, at, 1) is Some && first_number(LOC@, at, 2) is Some;
    let all = run_together(lines, start, end);
    CandidateView {
        line: if located {
            first_number(LOC@, at, 1)
        } else {
            None
        },
        column: if located {
            first_number(LOC@, at, 2)
        } else {
            None
        },
        depth: first_number(DEPTH@, all, 1),
        min_access_frequency: first_text(MAF@, all),
        cache_utilization: first_text(CU@, all),
        cost_benefit: first_text(CB@, all),
    }
}

/// The candidates of the reports that `starts` and `ends` delimit: opening
/// and closing lines are paired in order.
pub open spec fn candidates_of(lines: Seq<Seq<char>>, starts: Seq<usize>, ends: Seq<usize>) -> Seq<
    CandidateView,
> {
    Seq::new(
        if starts.len() <= ends.len() {
            starts.len()
        } else {
            ends.len()
        },
        |k: int| candidate_of(lines, starts[k] as int, ends[k] as int),
    )
}

/// The candidates in what the pass printed.
pub open spec fn candidates_in(input: Seq<char>) -> Seq<CandidateView> {
    let lines = lines_of(input);
    candidates_of(
        lines,
        matching_upto(lines, DATA_START@, lines.len() as int),
        matching_upto(lines, DATA_END@, lines.len() as int),
    )
}

/// Parse the candidates from what the pass printed.
pub fn parse(input: &str) -> (out: Vec<PackingCandidate>)
    ensures
        candidate_views(out@) == candidates_in(input@),
{
    // Compute the range of each data output
    let all = lines(input);
    let starts = matching_lines(&all, DATA_START);
    let ends = matching_lines(&all, DATA_END);
    let count = if starts.len() <= ends.len() {
        starts.len()
    } else {
        ends.len()
    };
    let ghost lv = texts(all@);
    let ghost want = candidates_of(lv, starts@, ends@);
    // Parse the output
    let mut acc: Vec<PackingCandidate> = Vec::new();
    let mut k: usize = 0;
    while k < count
        invariant
            k <= count,
            count <= starts.len(),
            count <= ends.len(),
            lv == texts(all@),
            forall|j: int| 0 <= j < starts.len() ==> starts[j] < all.len(),
            want == candidates_of(lv, starts@, ends@),
            want.len() == count,
            acc.len() == k,
            forall|j: int| 0 <= j < k ==> (#[trigger] acc[j])@ == want[j],
        decreases count - k,
    {
        let start = starts[k];
        let end = ends[k];
        let empty = String::new();
        let at: &str = if all.len() >= 2 && start < all.len() - 2 {
            all[start + 2].as_str()
        } else {
            empty.as_str()
        };
        let mut candidate = PackingCandidate {
            line: None,
            column: None,
            depth: None,
            min_access_frequency: None,
            cache_utilization: None,
            cost_benefit: None,
        };
        match (find_number(LOC, at, 1), find_number(LOC, at, 2)) {
            (Some(line), Some(column)) => {
                candidate.line = Some(line);
                candidate.column = Some(column);
            },
            _ => {},
        }
        let report = concat_lines(&all, start, end);
        candidate.depth = find_number(DEPTH, report.as_str(), 1);
        candidate.min_access_frequency = find_text(MAF, report.as_str());
        candidate.cache_utilization = find_text(CU, report.as_str());
        candidate.cost_benefit = find_text(CB, report.as_str());
        assert(candidate@ == want[k as int]);
        acc.push(candidate);
        k += 1;
    }
    assert(candidate_views(acc@) =~= want);
    acc
}

} // verus!
