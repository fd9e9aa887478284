//! Reading what the vectorizer and the loop passes print.

use vstd::prelude::*;
use vstd::string::StringExecFns;
use crate::analysis::command::{
    head_text, log_head, log_output, log_verdict, output_text, succeeded, verdict_text, Finished,
    DASHES,
};
use crate::path::texts;
use crate::pattern::{
    find_all, group, group_text, has_match, matches_in, pattern_matches, pattern_splits, split_by,
    Groups,
};
use crate::text::{lines, lines_of, parse_usize, usize_of};
use crate::text::{i64_of, parse_i64};

verus! {

/// A vectorization remark: position, then width, interleave count and
/// scalar interpolation count.
pub const MATCH_PATTERN: &'static str =
    "(\\d+):(\\d+): remark: vectorized loop \\(vectorization width: (\\d+), interleaved count: (\\d+), scalar interpolation count: (\\d+)\\)";

/// A line that holds a `for` loop.
pub const LOOP_PATTERN: &'static str = "for";

/// A line of the loop information pass.
pub const INFO_PATTERN: &'static str =
    "loop info: \\(line: (\\d+), col: (\\d+), ir_count: (\\d+), ir_mem: (\\d+), ir_arith: (\\d+), ir_other: (\\d+), pat_start: (\\S+), pat_step: (\\S+)\\)";

/// The pragma that asks for scalar interpolation of the loop that follows.
pub const PRAGMA: &'static str = "#pragma clang loop scalar_interpolation(enable)\n";

/// Communication between the compile and intern phases.
#[derive(Debug, PartialEq, Eq)]
pub struct Match {
    /// Path of the file, relative to the repository.
    pub file: String,
    /// What the tools printed.
    pub output: String,
}

/// Values returned from the loop information pass.
#[derive(Clone, Copy, Debug, PartialEq, Eq, Structural)]
pub struct LoopInfo {
    pub line: i64,
    pub col: i64,
    pub ir_count: i64,
    pub ir_mem: i64,
    pub ir_arith: i64,
    pub ir_other: i64,
    pub pat_start: Option<i64>,
    pub pat_step: Option<i64>,
}

/// A vectorization remark.
#[derive(Clone, Copy, Debug, PartialEq, Eq, Structural)]
pub struct Remark {
    pub line: i64,
    pub col: i64,
    pub vector: i64,
    pub width: i64,
    pub si: i64,
}

/// SI status.
#[derive(Clone, Copy, Debug, PartialEq, Eq, Hash, Structural)]
pub enum SIStatus {
    /// Not allowed because of floating point instructions.
    FloatingPoint,
    /// Not allowed because of control flow.
    ControlFlow,
    /// SI is enabled and allowed.
    Enabled,
    /// Not enabled for this loop.
    Disabled,
}

/// The key under which a status is stored.
pub fn status_key(status: SIStatus) -> (key: i64)
    ensures
        key == match status {
            SIStatus::Enabled => 0i64,
            SIStatus::Disabled => 1i64,
            SIStatus::FloatingPoint => 2i64,
            SIStatus::ControlFlow => 3i64,
        },
{
    match status {
        SIStatus::Enabled => 0,
        SIStatus::Disabled => 1,
        SIStatus::FloatingPoint => 2,
        SIStatus::ControlFlow => 3,
    }
}

/// Check if the given string contains a definition for a "for" loop.
pub fn is_for_loop(line: &str) -> (found: bool)
    ensures
        found == matches_in(LOOP_PATTERN@, line@),
{
    has_match(LOOP_PATTERN, line)
}

/// The number in capture group `i`.
pub open spec fn group_i64(groups: Seq<Option<Seq<char>>>, i: int) -> Option<i64> {
    match group(groups, i) {
        Some(text) => i64_of(text),
        None => None,
    }
}

/// The number in capture group `i`.
pub fn read_i64(groups: &Groups, i: usize) -> (out: Option<i64>)
    ensures
        out == group_i64(groups.deep_view(), i as int),
{
    match group_text(groups, i) {
        Some(text) => parse_i64(text.as_str()),
        None => None,
    }
}

/// What a field of the access pattern holds: nothing where it reads
/// `null`, else the number that it writes. `None` where it is neither.
pub open spec fn pattern_field(text: Seq<char>) -> Option<Option<i64>> {
    if text == "null"@ {
        Some(None)
    } else {
        match i64_of(text) {
            Some(v) => Some(Some(v)),
            None => None,
        }
    }
}

/// Return `None` inside if the input is null, parse otherwise.
pub fn loop_info_option(input: &str) -> (out: Option<Option<i64>>)
    ensures
        out == pattern_field(input@),
{
    proof {
        reveal_strlit("null");
    }
    let is_null = input.unicode_len() == 4 && input.get_char(0) == 'n' && input.get_char(1) == 'u'
        && input.get_char(2) == 'l' && input.get_char(3) == 'l';
    proof {
        if is_null {
            assert(input@ =~= "null"@);
        }
    }
    if is_null {
        Some(None)
    } else {
        match parse_i64(input) {
            Some(v) => Some(Some(v)),
            None => None,
        }
    }
}

pub open spec fn group_field(groups: Seq<Option<Seq<char>>>, i: int) -> Option<Option<i64>> {
    match group(groups, i) {
        Some(text) => pattern_field(text),
        None => None,
    }
}

/// The loop information that the capture groups of one match of
/// [`INFO_PATTERN`] stand for, where each group holds what it should.
pub open spec fn loop_info_of(groups: Seq<Option<Seq<char>>>) -> Option<LoopInfo> {
    if group_i64(groups, 1) is Some && group_i64(groups, 2) is Some && group_i64(groups, 3)
        is Some && group_i64(groups, 4) is Some && group_i64(groups, 5) is Some && group_i64(
        groups,
        6,
    ) is Some && group_field(groups, 7) is Some && group_field(groups, 8) is Some {
        Some(
            LoopInfo {
                line: group_i64(groups, 1).unwrap(),
                col: group_i64(groups, 2).unwrap(),
                ir_count: group_i64(groups, 3).unwrap(),
                ir_mem: group_i64(groups, 4).unwrap(),
                ir_arith: group_i64(groups, 5).unwrap(),
                ir_other: group_i64(groups, 6).unwrap(),
                pat_start: group_field(groups, 7).unwrap(),
                pat_step: group_field(groups, 8).unwrap(),
            },
        )
    } else {
        None
    }
}

fn read_field(groups: &Groups, i: usize) -> (out: Option<Option<i64>>)
    ensures
        out == group_field(groups.deep_view(), i as int),
{
    match group_text(groups, i) {
        Some(text) => loop_info_option(text.as_str()),
        None => None,
    }
}

/// The loop information in the capture groups of one match.
pub fn read_loop_info(groups: &Groups) -> (out: Option<LoopInfo>)
    ensures
        out == loop_info_of(groups.deep_view()),
{
    let line = match read_i64(groups, 1) {
        Some(v) => v,
        None => {
            return None;
        },
    };
    let col = match read_i64(groups, 2) {
        Some(v) => v,
        None => {
            return None;
        },
    };
    let ir_count = match read_i64(groups, 3) {
        Some(v) => v,
        None => {
            return None;
        },
    };
    let ir_mem = match read_i64(groups, 4) {
        Some(v) => v,
        None => {
            return None;
        },
    };
    let ir_arith = match read_i64(groups, 5) {
        Some(v) => v,
        None => {
            return None;
        },
    };
    let ir_other = match read_i64(groups, 6) {
        Some(v) => v,
        None => {
            return None;
        },
    };
    let pat_start = match read_field(groups, 7) {
        Some(v) => v,
        None => {
            return None;
        },
    };
    let pat_step = match read_field(groups, 8) {
        Some(v) => v,
        None => {
            return None;
        },
    };
    Some(LoopInfo { line, col, ir_count, ir_mem, ir_arith, ir_other, pat_start, pat_step })
}

/// The loop information of a sequence of matches, in order; a match that
/// does not hold what it should gives none.
pub open spec fn loop_infos_of(found: Seq<Seq<Option<Seq<char>>>>) -> Seq<LoopInfo>
    decreases found.len(),
{
    if found.len() == 0 {
        Seq::empty()
    } else {
        match loop_info_of(found.last()) {
            Some(info) => loop_infos_of(found.drop_last()).push(info),
            None => loop_infos_of(found.drop_last()),
        }
    }
}

/// The loop information of the matches `found` of [`INFO_PATTERN`].
pub fn loop_infos(found: &Vec<Groups>) -> (out: Vec<LoopInfo>)
    ensures
        out@ == loop_infos_of(found.deep_view()),
{
    let mut out: Vec<LoopInfo> = Vec::new();
    let n = found.len();
    let ghost fv = found.deep_view();
    let mut i: usize = 0;
    assert(fv.take(0) == Seq::<Seq<Option<Seq<char>>>>::empty());
    while i < n
        invariant
            n == found.len(),
            i <= n,
            fv == found.deep_view(),
            out@ == loop_infos_of(fv.take(i as int)),
        decreases n - i,
    {
        proof {
            assert(fv.take(i + 1).drop_last() == fv.take(i as int));
            assert(fv.take(i + 1).last() == found[i as int].deep_view());
        }
        match read_loop_info(&found[i]) {
            Some(info) => {
                out.push(info);
            },
            None => {},
        }
        i += 1;
    }
    assert(fv.take(n as int) == fv);
    out
}

/// The loop information in what the information pass printed.
pub open spec fn loop_infos_in(input: Seq<char>) -> Seq<LoopInfo> {
    match pattern_matches(INFO_PATTERN@, input) {
        Some(found) => loop_infos_of(found),
        None => Seq::empty(),
    }
}

/// Parse the loop info from `input`.
pub fn parse_loop_info(input: &str) -> (out: Vec<LoopInfo>)
    ensures
        out@ == loop_infos_in(input@),
{
    match find_all(INFO_PATTERN, input) {
        Some(found) => loop_infos(&found),
        None => Vec::new(),
    }
}

/// The remark that the capture groups of one match of [`MATCH_PATTERN`]
/// stand for, where each group holds a number.
pub open spec fn remark_of(groups: Seq<Option<Seq<char>>>) -> Option<Remark> {
    if group_i64(groups, 1) is Some && group_i64(groups, 2) is Some && group_i64(groups, 3)
        is Some && group_i64(groups, 4) is Some && group_i64(groups, 5) is Some {
        Some(
            Remark {
                line: group_i64(groups, 1).unwrap(),
                col: group_i64(groups, 2).unwrap(),
                vector: group_i64(groups, 3).unwrap(),
                width: group_i64(groups, 4).unwrap(),
                si: group_i64(groups, 5).unwrap(),
            },
        )
    } else {
        None
    }
}

/// The remark in the capture groups of one match.
pub fn read_remark(groups: &Groups) -> (out: Option<Remark>)
    ensures
        out == remark_of(groups.deep_view()),
{
    let line = match read_i64(groups, 1) {
        Some(v) => v,
        None => {
            return None;
        },
    };
    let col = match read_i64(groups, 2) {
        Some(v) => v,
        None => {
            return None;
        },
    };
    let vector = match read_i64(groups, 3) {
        Some(v) => v,
        None => {
            return None;
        },
    };
    let width = match read_i64(groups, 4) {
        Some(v) => v,
        None => {
            return None;
        },
    };
    let si = match read_i64(groups, 5) {
        Some(v) => v,
        None => {
            return None;
        },
    };
    Some(Remark { line, col, vector, width, si })
}

/// The remarks of a sequence of matches, in order.
pub open spec fn remarks_of(found: Seq<Seq<Option<Seq<char>>>>) -> Seq<Remark>
    decreases found.len(),
{
    if found.len() == 0 {
        Seq::empty()
    } else {
        match remark_of(found.last()) {
            Some(remark) => remarks_of(found.drop_last()).push(remark),
            None => remarks_of(found.drop_last()),
        }
    }
}

/// The remarks of the matches `found` of [`MATCH_PATTERN`].
pub fn remarks(found: &Vec<Groups>) -> (out: Vec<Remark>)
    ensures
        out@ == remarks_of(found.deep_view()),
{
    let mut out: Vec<Remark> = Vec::new();
    let n = found.len();
    let ghost fv = found.deep_view();
    let mut i: usize = 0;
    assert(fv.take(0) == Seq::<Seq<Option<Seq<char>>>>::empty());
    while i < n
        invariant
            n == found.len(),
            i <= n,
            fv == found.deep_view(),
            out@ == remarks_of(fv.take(i as int)),
        decreases n - i,
    {
        proof {
            assert(fv.take(i + 1).drop_last() == fv.take(i as int));
            assert(fv.take(i + 1).last() == found[i as int].deep_view());
        }
        match read_remark(&found[i]) {
            Some(remark) => {
                out.push(remark);
            },
            None => {},
        }
        i += 1;
    }
    assert(fv.take(n as int) == fv);
    out
}

/// The vectorization remarks in what the compiler printed.
pub open spec fn remarks_in(input: Seq<char>) -> Seq<Remark> {
    match pattern_matches(MATCH_PATTERN@, input) {
        Some(found) => remarks_of(found),
        None => Seq::empty(),
    }
}

/// Parse the vectorization remarks from `input`.
pub fn parse_remarks(input: &str) -> (out: Vec<Remark>)
    ensures
        out@ == remarks_in(input@),
{
    match find_all(MATCH_PATTERN, input) {
        Some(found) => remarks(&found),
        None => Vec::new(),
    }
}

/// The first of `infos` at or after `from` that is on `line`.
pub open spec fn first_on_line(infos: Seq<LoopInfo>, line: i64, from: int) -> Option<int>
    decreases infos.len() - from,
{
    if from < 0 || from >= infos.len() {
        None
    } else if infos[from].line == line {
        Some(from)
    } else {
        first_on_line(infos, line, from + 1)
    }
}

/// Search a list of loop information for a loop on `line`: the first such
/// loop is found, whatever its column.
pub fn find_loop_info(loop_info: &Vec<LoopInfo>, line: i64, _col: i64) -> (found: Option<LoopInfo>)
    ensures
        match first_on_line(loop_info@, line, 0) {
            Some(i) => 0 <= i < loop_info.len() && found == Some(loop_info@[i]),
            None => found is None,
        },
{
    let n = loop_info.len();
    let mut i: usize = 0;
    while i < n
        invariant
            n == loop_info.len(),
            i <= n,
            first_on_line(loop_info@, line, 0) == first_on_line(loop_info@, line, i as int),
        decreases n - i,
    {
        if loop_info[i].line == line {
            return Some(loop_info[i]);
        }
        i += 1;
    }
    None
}

/// The line with which the vectorizer opens its report on a loop.
pub const CHECK_PATTERN: &'static str = "LV: Checking a loop[^:]*:(\\d+):(\\d+)[^\\n]*\\n";

/// Scalar interpolation was refused for floating point instructions.
pub const FP_PATTERN: &'static str =
    "LV\\(SI\\): Not legal to interpolate due to floating point instructions";

/// Scalar interpolation was refused for control flow.
pub const CF_PATTERN: &'static str =
    "LV\\(SI\\): Not legal to interpolate due to non-interpolatable recipe";

/// Scalar interpolation is enabled.
pub const EN_PATTERN: &'static str = "LV\\(SI\\): SI enabled";

/// The status that the report on one loop shows.
pub open spec fn status_of(body: Seq<char>) -> SIStatus {
    if matches_in(FP_PATTERN@, body) {
        SIStatus::FloatingPoint
    } else if matches_in(CF_PATTERN@, body) {
        SIStatus::ControlFlow
    } else if matches_in(EN_PATTERN@, body) {
        SIStatus::Enabled
    } else {
        SIStatus::Disabled
    }
}

/// The status that the report on one loop shows.
pub fn region_status(body: &str) -> (status: SIStatus)
    ensures
        status == status_of(body@),
{
    if has_match(FP_PATTERN, body) {
        SIStatus::FloatingPoint
    } else if has_match(CF_PATTERN, body) {
        SIStatus::ControlFlow
    } else if has_match(EN_PATTERN, body) {
        SIStatus::Enabled
    } else {
        SIStatus::Disabled
    }
}

/// The status of the loop at a position.
#[derive(Clone, Copy, Debug, PartialEq, Eq, Structural)]
pub struct DebugEntry {
    pub line: i64,
    pub col: i64,
    pub status: SIStatus,
}

/// The entries that the opening lines `locs` and the parts `regions`
/// between them give: the report on the loop of opening line `i` is the
/// part after it, `regions[i + 1]`. An opening line whose position does not
/// read as two numbers, or that has no part after it, gives no entry.
pub open spec fn debug_entries(locs: Seq<Seq<Option<Seq<char>>>>, regions: Seq<Seq<char>>) -> Seq<
    DebugEntry,
>
    decreases locs.len(),
{
    if locs.len() == 0 {
        Seq::empty()
    } else {
        let before = debug_entries(locs.drop_last(), regions);
        let loc = locs.last();
        if group_i64(loc, 1) is Some && group_i64(loc, 2) is Some && locs.len() < regions.len() {
            before.push(
                DebugEntry {
                    line: group_i64(loc, 1).unwrap(),
                    col: group_i64(loc, 2).unwrap(),
                    status: status_of(regions[locs.len() as int]),
                },
            )
        } else {
            before
        }
    }
}

/// The entries of the opening lines `locs` and the parts `regions` between
/// them.
pub fn debug_info(locs: &Vec<Groups>, regions: &Vec<String>) -> (out: Vec<DebugEntry>)
    ensures
        out@ == debug_entries(locs.deep_view(), texts(regions@)),
{
    let mut out: Vec<DebugEntry> = Vec::new();
    let n = locs.len();
    let ghost lv = locs.deep_view();
    let mut i: usize = 0;
    assert(lv.take(0) == Seq::<Seq<Option<Seq<char>>>>::empty());
    while i < n
        invariant
            n == locs.len(),
            i <= n,
            lv == locs.deep_view(),
            out@ == debug_entries(lv.take(i as int), texts(regions@)),
        decreases n - i,
    {
        proof {
            assert(lv.take(i + 1).drop_last() == lv.take(i as int));
            assert(lv.take(i + 1).last() == locs[i as int].deep_view());
        }
        if i + 1 < regions.len() {
            match (read_i64(&locs[i], 1), read_i64(&locs[i], 2)) {
                (Some(line), Some(col)) => {
                    let status = region_status(regions[i + 1].as_str());
                    out.push(DebugEntry { line, col, status });
                },
                _ => {},
            }
        }
        i += 1;
    }
    assert(lv.take(n as int) == lv);
    out
}

/// The statuses in what the vectorizer printed.
pub open spec fn debug_entries_in(input: Seq<char>) -> Seq<DebugEntry> {
    match (pattern_matches(CHECK_PATTERN@, input), pattern_splits(CHECK_PATTERN@, input)) {
        (Some(locs), Some(regions)) => debug_entries(locs, regions),
        _ => Seq::empty(),
    }
}

/// Parse the vector debug information.
pub fn parse_vector_debug(input: &str) -> (out: Vec<DebugEntry>)
    ensures
        out@ == debug_entries_in(input@),
{
    match (find_all(CHECK_PATTERN, input), split_by(CHECK_PATTERN, input)) {
        (Some(locs), Some(regions)) => {
            assert(regions.deep_view() =~= texts(regions@));
            debug_info(&locs, &regions)
        },
        _ => Vec::new(),
    }
}

/// The status of the loop at a position: that of the last entry for it.
pub open spec fn status_at(entries: Seq<DebugEntry>, line: i64, col: i64) -> Option<SIStatus>
    decreases entries.len(),
{
    if entries.len() == 0 {
        None
    } else if entries.last().line == line && entries.last().col == col {
        Some(entries.last().status)
    } else {
        status_at(entries.drop_last(), line, col)
    }
}

/// The status of the loop at a position.
pub fn debug_status(entries: &Vec<DebugEntry>, line: i64, col: i64) -> (status: Option<SIStatus>)
    ensures
        status == status_at(entries@, line, col),
{
    let mut i: usize = entries.len();
    assert(entries@.take(i as int) == entries@);
    while i > 0
        invariant
            i <= entries.len(),
            status_at(entries@, line, col) == status_at(entries@.take(i as int), line, col),
        decreases i,
    {
        let ghost part = entries@.take(i as int);
        assert(part.last() == entries[i - 1]);
        assert(part.drop_last() == entries@.take(i - 1));
        if entries[i - 1].line == line && entries[i - 1].col == col {
            return Some(entries[i - 1].status);
        }
        i -= 1;
    }
    None
}

/// What is stored for one vectorized loop.
#[derive(Clone, Copy, Debug, PartialEq, Eq, Structural)]
pub struct MatchRow {
    pub remark: Remark,
    /// The loop information for the line of the remark.
    pub info: Option<LoopInfo>,
    /// The status of the loop at the position of the remark.
    pub status: Option<SIStatus>,
}

/// The loop information for `line`: that of the first loop on it.
pub open spec fn info_on(infos: Seq<LoopInfo>, line: i64) -> Option<LoopInfo> {
    match first_on_line(infos, line, 0) {
        Some(i) => Some(infos[i]),
        None => None,
    }
}

/// What is stored for the output of one file: a row for each remark.
pub open spec fn rows_of(output: Seq<char>) -> Seq<MatchRow> {
    let found = remarks_in(output);
    Seq::new(
        found.len(),
        |i: int|
            MatchRow {
                remark: found[i],
                info: info_on(loop_infos_in(output), found[i].line),
                status: status_at(debug_entries_in(output), found[i].line, found[i].col),
            },
    )
}

/// The rows to store for the output of one file.
pub fn match_rows(output: &str) -> (rows: Vec<MatchRow>)
    ensures
        rows@ == rows_of(output@),
{
    let found = parse_remarks(output);
    let infos = parse_loop_info(output);
    let debug = parse_vector_debug(output);
    let mut rows: Vec<MatchRow> = Vec::new();
    let n = found.len();
    let mut i: usize = 0;
    while i < n
        invariant
            n == found.len(),
            i <= n,
            found@ == remarks_in(output@),
            infos@ == loop_infos_in(output@),
            debug@ == debug_entries_in(output@),
            rows.len() == i,
            forall|j: int| 0 <= j < i ==> (#[trigger] rows[j]) == rows_of(output@)[j],
        decreases n - i,
    {
        let remark = found[i];
        let info = find_loop_info(&infos, remark.line, remark.col);
        let status = debug_status(&debug, remark.line, remark.col);
        rows.push(MatchRow { remark, info, status });
        i += 1;
    }
    assert(rows@ =~= rows_of(output@));
    rows
}

/// Length of the longest prefix of `s` that holds no space.
pub open spec fn word_len(s: Seq<char>) -> nat
    decreases s.len(),
{
    if s.len() == 0 || s[0] == ' ' {
        0
    } else {
        1 + word_len(s.drop_first())
    }
}

pub proof fn lemma_word_len(s: Seq<char>, n: int)
    requires
        0 <= n <= s.len(),
        forall|i: int| 0 <= i < n ==> (#[trigger] s[i]) != ' ',
        n < s.len() ==> s[n] == ' ',
    ensures
        word_len(s) == n,
    decreases n,
{
    if n > 0 {
        let t = s.drop_first();
        assert forall|i: int| 0 <= i < n - 1 implies (#[trigger] t[i]) != ' ' by {
            assert(t[i] == s[i + 1]);
        }
        lemma_word_len(t, n - 1);
    }
}

/// What stands before the first space of `line`.
pub open spec fn first_word(line: Seq<char>) -> Seq<char> {
    line.take(word_len(line) as int)
}

/// What stands before the first space of `line`.
pub fn leading_word(line: &str) -> (word: String)
    ensures
        word@ == first_word(line@),
{
    let n = line.unicode_len();
    let mut i: usize = 0;
    while i < n && line.get_char(i) != ' '
        invariant
            n == line@.len(),
            i <= n,
            forall|k: int| 0 <= k < i ==> (#[trigger] line@[k]) != ' ',
        decreases n - i,
    {
        i += 1;
    }
    proof {
        lemma_word_len(line@, i as int);
    }
    line.substring_char(0, i).to_owned()
}

/// The line numbers that the loop finder printed: of each line the number
/// before the first space, where there is one.
pub open spec fn loop_lines_of(lines: Seq<Seq<char>>) -> Seq<usize>
    decreases lines.len(),
{
    if lines.len() == 0 {
        Seq::empty()
    } else {
        match usize_of(first_word(lines.last())) {
            Some(n) => loop_lines_of(lines.drop_last()).push(n),
            None => loop_lines_of(lines.drop_last()),
        }
    }
}

/// Return the line numbers that define innermost loops, as the loop finder
/// printed them.
pub fn parse_loop_lines(output: &str) -> (out: Vec<usize>)
    ensures
        out@ == loop_lines_of(lines_of(output@)),
{
    let all = lines(output);
    let ghost lv = texts(all@);
    let mut out: Vec<usize> = Vec::new();
    let n = all.len();
    let mut i: usize = 0;
    assert(lv.take(0) == Seq::<Seq<char>>::empty());
    while i < n
        invariant
            n == all.len(),
            i <= n,
            lv == texts(all@),
            out@ == loop_lines_of(lv.take(i as int)),
        decreases n - i,
    {
        proof {
            assert(lv.take(i + 1).drop_last() == lv.take(i as int));
            assert(lv.take(i + 1).last() == all[i as int]@);
        }
        let word = leading_word(all[i].as_str());
        match parse_usize(word.as_str()) {
            Some(number) => {
                out.push(number);
            },
            None => {},
        }
        i += 1;
    }
    assert(lv.take(n as int) == lv);
    out
}

/// `sorted` with `x` put behind the last item that is not greater.
pub open spec fn insert_number(sorted: Seq<usize>, x: usize) -> Seq<usize>
    decreases sorted.len(),
{
    if sorted.len() == 0 || sorted.last() <= x {
        sorted.push(x)
    } else {
        insert_number(sorted.drop_last(), x).push(sorted.last())
    }
}

/// The numbers of `v` in ascending order.
pub open spec fn sorted_numbers(v: Seq<usize>) -> Seq<usize>
    decreases v.len(),
{
    if v.len() == 0 {
        Seq::empty()
    } else {
        insert_number(sorted_numbers(v.drop_last()), v.last())
    }
}

pub proof fn lemma_insert_number(sorted: Seq<usize>, x: usize, at: int)
    requires
        0 <= at <= sorted.len(),
        forall|j: int| at <= j < sorted.len() ==> (#[trigger] sorted[j]) > x,
        at > 0 ==> sorted[at - 1] <= x,
    ensures
        insert_number(sorted, x) == sorted.insert(at, x),
    decreases sorted.len() - at,
{
    if at == sorted.len() {
        assert(sorted.insert(at, x) == sorted.push(x));
    } else {
        let below = sorted.drop_last();
        assert forall|j: int| at <= j < below.len() implies (#[trigger] below[j]) > x by {
            assert(below[j] == sorted[j]);
        }
        if at > 0 {
            assert(below[at - 1] == sorted[at - 1]);
        }
        lemma_insert_number(below, x, at);
        assert(sorted.last() > x);
        assert(below.insert(at, x).push(sorted.last()) == sorted.insert(at, x));
    }
}

/// Sorts the numbers of `v`.
pub fn sort_numbers(v: &Vec<usize>) -> (out: Vec<usize>)
    ensures
        out@ == sorted_numbers(v@),
{
    let mut out: Vec<usize> = Vec::new();
    let n = v.len();
    let mut i: usize = 0;
    assert(v@.take(0) == Seq::<usize>::empty());
    while i < n
        invariant
            n == v.len(),
            i <= n,
            out@ == sorted_numbers(v@.take(i as int)),
        decreases n - i,
    {
        proof {
            assert(v@.take(i + 1).drop_last() == v@.take(i as int));
            assert(v@.take(i + 1).last() == v[i as int]);
        }
        let x = v[i];
        let mut at: usize = out.len();
        while at > 0 && out[at - 1] > x
            invariant
                at <= out.len(),
                forall|j: int| at <= j < out.len() ==> (#[trigger] out[j]) > x,
            decreases at,
        {
            at -= 1;
        }
        proof {
            lemma_insert_number(out@, x, at as int);
        }
        out.insert(at, x);
        i += 1;
    }
    assert(v@.take(n as int) == v@);
    out
}

/// The text from line `i` on with the pragmas put in: a line whose number
/// is the mark that the pointer `p` stands at moves the pointer on, and
/// gets the pragma before it where it holds a `for` loop. Lines are counted
/// from one, and every line ends with a newline.
pub open spec fn pragma_text(lines: Seq<Seq<char>>, marks: Seq<usize>, i: int, p: int) -> Seq<char>
    decreases lines.len() - i,
{
    if i < 0 || i >= lines.len() {
        Seq::empty()
    } else {
        let hit = 0 <= p < marks.len() && marks[p] == i + 1;
        let before = if hit && matches_in(LOOP_PATTERN@, lines[i]) {
            PRAGMA@
        } else {
            Seq::empty()
        };
        before + lines[i] + "\n"@ + pragma_text(
            lines,
            marks,
            i + 1,
            if hit {
                p + 1
            } else {
                p
            },
        )
    }
}

/// The contents of a file with the SI pragmas inserted before the loops on
/// the given lines.
pub open spec fn with_pragmas(contents: Seq<char>, pragma_lines: Seq<usize>) -> Seq<char> {
    pragma_text(lines_of(contents), sorted_numbers(pragma_lines), 0, 0)
}

/// Insert the SI pragmas into the contents of a file.
pub fn insert_pragma(contents: &str, pragma_lines: &Vec<usize>) -> (out: String)
    ensures
        out@ == with_pragmas(contents@, pragma_lines@),
{
    let marks = sort_numbers(pragma_lines);
    let all = lines(contents);
    let ghost lv = texts(all@);
    let mut acc = String::new();
    let mut pragma_i: usize = 0;
    let n = all.len();
    let mut i: usize = 0;
    assert(acc@ + pragma_text(lv, marks@, 0, 0) == pragma_text(lv, marks@, 0, 0));
    while i < n
        invariant
            n == all.len(),
            i <= n,
            pragma_i <= i,
            lv == texts(all@),
            acc@ + pragma_text(lv, marks@, i as int, pragma_i as int) == pragma_text(
                lv,
                marks@,
                0,
                0,
            ),
        decreases n - i,
    {
        let ghost start = acc@;
        let ghost rest = pragma_text(lv, marks@, i as int, pragma_i as int);
        let hit = pragma_i < marks.len() && marks[pragma_i] == i + 1;
        let line = all[i].as_str();
        let mut next = pragma_i;
        if hit {
            next = pragma_i + 1;
            if is_for_loop(line) {
                acc.append(PRAGMA);
            }
        }
        acc.append(line);
        acc.append("\n");
        proof {
            let before = if hit && matches_in(LOOP_PATTERN@, lv[i as int]) {
                PRAGMA@
            } else {
                Seq::<char>::empty()
            };
            let tail = pragma_text(lv, marks@, i + 1, next as int);
            assert(rest == before + lv[i as int] + "\n"@ + tail);
            assert(acc@ == start + before + lv[i as int] + "\n"@);
            assert(acc@ + tail == start + (before + lv[i as int] + "\n"@ + tail));
        }
        pragma_i = next;
        i += 1;
    }
    assert(acc@ + Seq::<char>::empty() == acc@);
    acc
}

/// The log of the run that finds the matches of `file`: after the output,
/// a run that succeeded logs the loop information `info` and a line of
/// dashes before its verdict.
pub open spec fn findings_text(
    file: Seq<char>,
    headers: Seq<Seq<char>>,
    output: Seq<char>,
    code: Option<i32>,
    info: Seq<char>,
) -> Seq<char> {
    head_text("Finding info for file"@, file, headers) + output_text(output) + if succeeded(
        code,
    ) {
        info + DASHES@ + "success\n"@
    } else {
        verdict_text(code)
    }
}

/// Logs the run that finds the matches of `file` and hands back what it
/// found: the output of the compiler followed by the loop information,
/// where the run succeeded.
pub fn log_findings(
    log: &mut String,
    file: &str,
    headers: &Vec<String>,
    finished: &Finished,
    info: &str,
) -> (found: Option<String>)
    ensures
        final(log)@ == old(log)@ + findings_text(
            file@,
            texts(headers@),
            finished.output@,
            finished.code,
            info@,
        ),
        match found {
            Some(text) => succeeded(finished.code) && text@ == finished.output@ + info@,
            None => !succeeded(finished.code),
        },
{
    let ghost start = log@;
    let ghost a = head_text("Finding info for file"@, file@, texts(headers@));
    let ghost b = output_text(finished.output@);
    log_head(log, "Finding info for file", file, headers);
    log_output(log, finished.output.as_str());
    if finished.succeeded() {
        log.append(info);
        log.append(DASHES);
        log.append("success\n");
        let mut text = finished.output.clone();
        text.append(info);
        proof {
            let c = info@ + DASHES@ + "success\n"@;
            assert(start + a + b + info@ + DASHES@ + "success\n"@ == start + (a + b + c));
        }
        Some(text)
    } else {
        let _ = log_verdict(log, finished.code);
        proof {
            let c = verdict_text(finished.code);
            assert(start + a + b + c == start + (a + b + c));
        }
        None
    }
}

} // verus!
