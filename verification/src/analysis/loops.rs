//! The innermost loops of a file and what the passes say about them.

use std::collections::HashMap;
use vstd::prelude::*;
use vstd::string::StringExecFns;
use crate::analysis::si::{
    debug_entries_in, is_for_loop, leading_word, loop_infos_in, parse_loop_info,
    parse_remarks, parse_vector_debug, remarks_in, sort_numbers, sorted_numbers, word_len,
    DebugEntry, LoopInfo, Remark, SIStatus, LOOP_PATTERN, PRAGMA,
};
use crate::path::texts;
use crate::pattern::matches_in;
use crate::text::{lines, lines_of, parse_usize, usize_of};

verus! {

broadcast use vstd::std_specs::hash::group_hash_axioms;

/// An innermost loop.
#[derive(Clone, Copy, Debug, PartialEq, Eq, Structural)]
pub struct Loop {
    pub row: usize,
    pub col: usize,
    /// Row after inserting the pragmas.
    pub post_row: usize,
    pub info: Option<LoopInfo>,
    pub remarks: Option<Remark>,
    pub si_status: Option<SIStatus>,
}

impl Loop {
    pub fn new(row: usize, col: usize) -> (made: Self)
        ensures
            made == (Loop { row, col, post_row: row, info: None, remarks: None, si_status: None }),
    {
        Self { row, col, post_row: row, info: None, remarks: None, si_status: None }
    }
}

/// The loops of a file, found by their row in the file as it is and by
/// their row in the file with the pragmas inserted.
pub struct Loops {
    loops: Vec<Loop>,
    by_row: HashMap<usize, usize>,
    by_pragma: HashMap<usize, usize>,
}

pub struct LoopsView {
    pub loops: Seq<Loop>,
    pub by_row: Map<usize, usize>,
    pub by_pragma: Map<usize, usize>,
}

impl View for Loops {
    type V = LoopsView;

    closed spec fn view(&self) -> LoopsView {
        LoopsView {
            loops: self.loops@,
            by_row: self.by_row@,
            by_pragma: self.by_pragma@,
        }
    }
}

/// For each row the index of the last of `loops` on it.
pub open spec fn index_by_row(loops: Seq<Loop>) -> Map<usize, usize>
    decreases loops.len(),
{
    if loops.len() == 0 {
        Map::empty()
    } else {
        index_by_row(loops.drop_last()).insert(loops.last().row, (loops.len() - 1) as usize)
    }
}

impl LoopsView {
    /// Both indices lead to loops.
    pub open spec fn wf(self) -> bool {
        &&& forall|row: usize| #[trigger]
            self.by_row.contains_key(row) ==> self.by_row[row] < self.loops.len()
        &&& forall|row: usize| #[trigger]
            self.by_pragma.contains_key(row) ==> self.by_pragma[row] < self.loops.len()
    }

    /// The loops with loop `i` moved to row `new_row` of the file with
    /// pragmas.
    pub open spec fn moved(self, i: int, new_row: usize) -> LoopsView {
        LoopsView {
            loops: self.loops.update(i, Loop { post_row: new_row, ..self.loops[i] }),
            by_row: self.by_row,
            by_pragma: self.by_pragma.remove(self.loops[i].post_row).insert(new_row, i as usize),
        }
    }

    /// The loops with the loop information `info` given to the loop that is
    /// found on its line in the file as it is.
    pub open spec fn with_info(self, info: LoopInfo) -> LoopsView {
        if 0 <= info.line <= usize::MAX && self.by_row.contains_key(info.line as usize) {
            let i = self.by_row[info.line as usize] as int;
            LoopsView { loops: self.loops.update(i, Loop { info: Some(info), ..self.loops[i] }), ..self }
        } else {
            self
        }
    }

    pub open spec fn with_infos(self, infos: Seq<LoopInfo>) -> LoopsView
        decreases infos.len(),
    {
        if infos.len() == 0 {
            self
        } else {
            self.with_infos(infos.drop_last()).with_info(infos.last())
        }
    }

    /// The loops with the status of `entry` given to the loop that is found
    /// on its line in the file with pragmas.
    pub open spec fn with_status(self, entry: DebugEntry) -> LoopsView {
        if 0 <= entry.line <= usize::MAX && self.by_pragma.contains_key(entry.line as usize) {
            let i = self.by_pragma[entry.line as usize] as int;
            LoopsView {
                loops: self.loops.update(
                    i,
                    Loop { si_status: Some(entry.status), ..self.loops[i] },
                ),
                ..self
            }
        } else {
            self
        }
    }

    pub open spec fn with_statuses(self, entries: Seq<DebugEntry>) -> LoopsView
        decreases entries.len(),
    {
        if entries.len() == 0 {
            self
        } else {
            self.with_statuses(entries.drop_last()).with_status(entries.last())
        }
    }

    /// The loops with `remark` given to the loop that is found on its line
    /// in the file with pragmas.
    pub open spec fn with_remark(self, remark: Remark) -> LoopsView {
        if 0 <= remark.line <= usize::MAX && self.by_pragma.contains_key(remark.line as usize) {
            let i = self.by_pragma[remark.line as usize] as int;
            LoopsView {
                loops: self.loops.update(i, Loop { remarks: Some(remark), ..self.loops[i] }),
                ..self
            }
        } else {
            self
        }
    }

    pub open spec fn with_remarks(self, remarks: Seq<Remark>) -> LoopsView
        decreases remarks.len(),
    {
        if remarks.len() == 0 {
            self
        } else {
            self.with_remarks(remarks.drop_last()).with_remark(remarks.last())
        }
    }
}

/// The rows of `loops`, in order.
pub open spec fn rows_of(loops: Seq<Loop>) -> Seq<usize> {
    Seq::new(loops.len(), |i: int| loops[i].row)
}

/// The text from line `i` on with the pragmas put in, and the loops with
/// the rows that they have in that text.
///
/// A line whose number is the mark that the pointer `p` stands at moves
/// the pointer on. Where it holds a `for` loop, it gets the pragma before
/// it, and the loop with the index that the pointer stood at moves down by
/// `delta`, the number of pragmas above it and its own; a row that is too
/// large to move stays.
pub open spec fn pragma_walk(
    lines: Seq<Seq<char>>,
    marks: Seq<usize>,
    i: int,
    p: int,
    delta: int,
    v: LoopsView,
) -> (Seq<char>, LoopsView)
    decreases lines.len() - i,
{
    if i < 0 || i >= lines.len() {
        (Seq::empty(), v)
    } else {
        let hit = 0 <= p < marks.len() && marks[p] == i + 1;
        let insert = hit && matches_in(LOOP_PATTERN@, lines[i]);
        let moves = insert && p < v.loops.len() && v.loops[p].row + delta <= usize::MAX;
        let rest = pragma_walk(
            lines,
            marks,
            i + 1,
            if hit {
                p + 1
            } else {
                p
            },
            if insert {
                delta + 1
            } else {
                delta
            },
            if moves {
                v.moved(p, (v.loops[p].row + delta) as usize)
            } else {
                v
            },
        );
        (
            if insert {
                PRAGMA@
            } else {
                Seq::empty()
            } + lines[i] + "\n"@ + rest.0,
            rest.1,
        )
    }
}

/// Changing a loop keeps the indices good.
pub proof fn lemma_update_keeps_wf(v: LoopsView, i: int, l: Loop)
    requires
        v.wf(),
        0 <= i < v.loops.len(),
    ensures
        (LoopsView { loops: v.loops.update(i, l), ..v }).wf(),
{
    let after = LoopsView { loops: v.loops.update(i, l), ..v };
    assert forall|row: usize| #[trigger] after.by_pragma.contains_key(row) implies
        after.by_pragma[row] < after.loops.len() by {
        assert(v.by_pragma.contains_key(row));
    }
    assert forall|row: usize| #[trigger] after.by_row.contains_key(row) implies
        after.by_row[row] < after.loops.len() by {
        assert(v.by_row.contains_key(row));
    }
}

/// What stands between the first and the second space of `line`; `None`
/// where the line holds no space.
pub open spec fn second_word(line: Seq<char>) -> Option<Seq<char>> {
    let n = word_len(line) as int;
    if n < line.len() {
        let rest = line.skip(n + 1);
        Some(rest.take(word_len(rest) as int))
    } else {
        None
    }
}

/// The loop that a line of the loop finder stands for: its first word is
/// the row and its second the column.
pub open spec fn loop_of(line: Seq<char>) -> Option<Loop> {
    match second_word(line) {
        Some(second) => {
            let row = usize_of(line.take(word_len(line) as int));
            let col = usize_of(second);
            if row is Some && col is Some {
                Some(
                    Loop {
                        row: row.unwrap(),
                        col: col.unwrap(),
                        post_row: row.unwrap(),
                        info: None,
                        remarks: None,
                        si_status: None,
                    },
                )
            } else {
                None
            }
        },
        None => None,
    }
}

/// The loops that the lines of the loop finder stand for, in order; a line
/// that is not a row and a column gives none.
pub open spec fn loops_of(lines: Seq<Seq<char>>) -> Seq<Loop>
    decreases lines.len(),
{
    if lines.len() == 0 {
        Seq::empty()
    } else {
        match loop_of(lines.last()) {
            Some(l) => loops_of(lines.drop_last()).push(l),
            None => loops_of(lines.drop_last()),
        }
    }
}

fn read_loop(line: &str) -> (out: Option<Loop>)
    ensures
        out == loop_of(line@),
{
    let n = line.unicode_len();
    let first = leading_word(line);
    let k = first.as_str().unicode_len();
    proof {
        crate::text::lemma_line_len(line@);
        assert(k == word_len(line@)) by {
            assert(first@.len() == line@.take(word_len(line@) as int).len());
            lemma_word_bound(line@);
        }
    }
    if k >= n {
        return None;
    }
    let rest = line.substring_char(k + 1, n);
    assert(rest@ == line@.skip(k + 1));
    let second = leading_word(rest);
    match (parse_usize(first.as_str()), parse_usize(second.as_str())) {
        (Some(row), Some(col)) => Some(Loop::new(row, col)),
        _ => None,
    }
}

pub proof fn lemma_word_bound(s: Seq<char>)
    ensures
        word_len(s) <= s.len(),
    decreases s.len(),
{
    if s.len() > 0 && s[0] != ' ' {
        lemma_word_bound(s.drop_first());
    }
}

impl Loops {
    /// Indexes `loops` by their rows.
    pub fn from_loops(loops: Vec<Loop>) -> (made: Self)
        ensures
            made@ == (LoopsView {
                loops: loops@,
                by_row: index_by_row(loops@),
                by_pragma: index_by_row(loops@),
            }),
            made@.wf(),
    {
        let mut by_row: HashMap<usize, usize> = HashMap::new();
        let mut by_pragma: HashMap<usize, usize> = HashMap::new();
        let n = loops.len();
        let mut i: usize = 0;
        assert(loops@.take(0) == Seq::<Loop>::empty());
        while i < n
            invariant
                n == loops.len(),
                i <= n,
                by_row@ == index_by_row(loops@.take(i as int)),
                by_pragma@ == by_row@,
                forall|row: usize| #[trigger]
                    by_row@.contains_key(row) ==> by_row@[row] < i,
            decreases n - i,
        {
            proof {
                assert(loops@.take(i + 1).drop_last() == loops@.take(i as int));
                assert(loops@.take(i + 1).last() == loops[i as int]);
            }
            by_row.insert(loops[i].row, i);
            by_pragma.insert(loops[i].row, i);
            i += 1;
        }
        assert(loops@.take(n as int) == loops@);
        Loops { loops, by_row, by_pragma }
    }

    /// The loops that the loop finder printed, a row and a column on each
    /// line.
    pub fn parse(output: &str) -> (made: Self)
        ensures
            made@.loops == loops_of(lines_of(output@)),
            made@.by_row == index_by_row(made@.loops),
            made@.by_pragma == made@.by_row,
            made@.wf(),
    {
        let all = lines(output);
        let ghost lv = texts(all@);
        let mut loops: Vec<Loop> = Vec::new();
        let n = all.len();
        let mut i: usize = 0;
        assert(lv.take(0) == Seq::<Seq<char>>::empty());
        while i < n
            invariant
                n == all.len(),
                i <= n,
                lv == texts(all@),
                loops@ == loops_of(lv.take(i as int)),
            decreases n - i,
        {
            proof {
                assert(lv.take(i + 1).drop_last() == lv.take(i as int));
                assert(lv.take(i + 1).last() == all[i as int]@);
            }
            match read_loop(all[i].as_str()) {
                Some(l) => {
                    loops.push(l);
                },
                None => {},
            }
            i += 1;
        }
        assert(lv.take(n as int) == lv);
        Self::from_loops(loops)
    }

    /// The number of loops.
    pub fn len(&self) -> (n: usize)
        ensures
            n == self@.loops.len(),
    {
        self.loops.len()
    }

    /// The loop at index `i`.
    pub fn get(&self, i: usize) -> (found: Loop)
        requires
            i < self@.loops.len(),
        ensures
            found == self@.loops[i as int],
    {
        self.loops[i]
    }

    /// Moves loop `i` to row `new_row` of the file with pragmas.
    pub fn update_row(&mut self, i: usize, new_row: usize)
        requires
            old(self)@.wf(),
            i < old(self)@.loops.len(),
        ensures
            final(self)@ == old(self)@.moved(i as int, new_row),
            final(self)@.wf(),
    {
        let mut moved = self.loops[i];
        self.by_pragma.remove(&moved.post_row);
        moved.post_row = new_row;
        self.loops.set(i, moved);
        self.by_pragma.insert(new_row, i);
        proof {
            let before = old(self)@;
            let after = self@;
            assert(after.loops.len() == before.loops.len());
            assert forall|row: usize| #[trigger] after.by_pragma.contains_key(row) implies
                after.by_pragma[row] < after.loops.len() by {
                if row != new_row {
                    assert(before.by_pragma.contains_key(row));
                }
            }
            assert forall|row: usize| #[trigger] after.by_row.contains_key(row) implies
                after.by_row[row] < after.loops.len() by {
                assert(before.by_row.contains_key(row));
            }
        }
    }

    /// Inserts the SI pragmas into the contents of a file and moves the
    /// loops to the rows that they have in the result.
    pub fn insert_pragma(&mut self, contents: &str) -> (out: String)
        requires
            old(self)@.wf(),
        ensures
            (out@, final(self)@) == pragma_walk(
                lines_of(contents@),
                sorted_numbers(rows_of(old(self)@.loops)),
                0,
                0,
                1,
                old(self)@,
            ),
            final(self)@.wf(),
    {
        let mut rows: Vec<usize> = Vec::new();
        let mut r: usize = 0;
        while r < self.loops.len()
            invariant
                r <= self.loops.len(),
                self@ == old(self)@,
                rows.len() == r,
                forall|j: int| 0 <= j < r ==> rows[j] == self@.loops[j].row,
            decreases self.loops.len() - r,
        {
            rows.push(self.loops[r].row);
            r += 1;
        }
        assert(rows@ =~= rows_of(self@.loops));
        let marks = sort_numbers(&rows);
        let all = lines(contents);
        let ghost lv = texts(all@);
        let ghost want = pragma_walk(lv, marks@, 0, 0, 1, self@);
        let mut acc = String::new();
        let mut pragma_i: usize = 0;
        let mut delta: u128 = 1;
        let n = all.len();
        let mut i: usize = 0;
        assert(acc@ + want.0 == want.0);
        while i < n
            invariant
                n == all.len(),
                i <= n,
                pragma_i <= i,
                1 <= delta <= i + 1,
                lv == texts(all@),
                self@.wf(),
                acc@ + pragma_walk(lv, marks@, i as int, pragma_i as int, delta as int, self@).0
                    == want.0,
                pragma_walk(lv, marks@, i as int, pragma_i as int, delta as int, self@).1 == want.1,
            decreases n - i,
        {
            let ghost start = acc@;
            let ghost v = self@;
            let ghost rest = pragma_walk(lv, marks@, i as int, pragma_i as int, delta as int, v);
            let hit = pragma_i < marks.len() && marks[pragma_i] == i + 1;
            let line = all[i].as_str();
            let mut next = pragma_i;
            let mut next_delta = delta;
            let mut inserted = false;
            if hit {
                next = pragma_i + 1;
                if is_for_loop(line) {
                    inserted = true;
                    acc.append(PRAGMA);
                    if pragma_i < self.loops.len() {
                        let row = self.loops[pragma_i].row as u128 + delta;
                        if row <= usize::MAX as u128 {
                            self.update_row(pragma_i, row as usize);
                        }
                    }
                    next_delta = delta + 1;
                }
            }
            acc.append(line);
            acc.append("\n");
            proof {
                let before = if inserted {
                    PRAGMA@
                } else {
                    Seq::<char>::empty()
                };
                let tail = pragma_walk(lv, marks@, i + 1, next as int, next_delta as int, self@);
                assert(rest.0 == before + lv[i as int] + "\n"@ + tail.0);
                assert(rest.1 == tail.1);
                assert(acc@ == start + before + lv[i as int] + "\n"@);
                assert(acc@ + tail.0 == start + (before + lv[i as int] + "\n"@ + tail.0));
            }
            pragma_i = next;
            delta = next_delta;
            i += 1;
        }
        assert(acc@ + Seq::<char>::empty() == acc@);
        acc
    }

    /// Gives each loop the information that the information pass printed
    /// for its line.
    pub fn set_loop_info(&mut self, info: &str)
        requires
            old(self)@.wf(),
        ensures
            final(self)@ == old(self)@.with_infos(loop_infos_in(info@)),
            final(self)@.wf(),
    {
        let infos = parse_loop_info(info);
        let n = infos.len();
        let mut k: usize = 0;
        assert(infos@.take(0) == Seq::<LoopInfo>::empty());
        while k < n
            invariant
                n == infos.len(),
                k <= n,
                self@.wf(),
                self@ == old(self)@.with_infos(infos@.take(k as int)),
            decreases n - k,
        {
            proof {
                assert(infos@.take(k + 1).drop_last() == infos@.take(k as int));
                assert(infos@.take(k + 1).last() == infos[k as int]);
            }
            let li = infos[k];
            if li.line >= 0 && li.line as u64 <= usize::MAX as u64 {
                let key = li.line as usize;
                match self.by_row.get(&key) {
                    Some(index) => {
                        let at = *index;
                        assert(self@.by_row.contains_key(key));
                        assert(at < self.loops.len());
                        let mut l = self.loops[at];
                        l.info = Some(li);
                        proof {
                            lemma_update_keeps_wf(self@, at as int, l);
                        }
                        self.loops.set(at, l);
                    },
                    None => {},
                }
            }
            k += 1;
        }
        assert(infos@.take(n as int) == infos@);
    }

    /// Gives each loop the status and the remark that the vectorizer
    /// printed for its line in the file with pragmas. Nothing is logged.
    pub fn opt_info(&mut self, output: &str, log: &mut String)
        requires
            old(self)@.wf(),
        ensures
            final(self)@ == old(self)@.with_statuses(debug_entries_in(output@)).with_remarks(
                remarks_in(output@),
            ),
            final(self)@.wf(),
            final(log)@ == old(log)@,
    {
        // Find the SI status and match with loops
        let entries = parse_vector_debug(output);
        let n = entries.len();
        let mut k: usize = 0;
        assert(entries@.take(0) == Seq::<DebugEntry>::empty());
        while k < n
            invariant
                n == entries.len(),
                k <= n,
                self@.wf(),
                self@ == old(self)@.with_statuses(entries@.take(k as int)),
            decreases n - k,
        {
            proof {
                assert(entries@.take(k + 1).drop_last() == entries@.take(k as int));
                assert(entries@.take(k + 1).last() == entries[k as int]);
            }
            let entry = entries[k];
            if entry.line >= 0 && entry.line as u64 <= usize::MAX as u64 {
                let key = entry.line as usize;
                match self.by_pragma.get(&key) {
                    Some(index) => {
                        let at = *index;
                        assert(self@.by_pragma.contains_key(key));
                        assert(at < self.loops.len());
                        let mut l = self.loops[at];
                        l.si_status = Some(entry.status);
                        proof {
                            lemma_update_keeps_wf(self@, at as int, l);
                        }
                        self.loops.set(at, l);
                    },
                    None => {},
                }
            }
            k += 1;
        }
        assert(entries@.take(n as int) == entries@);
        let ghost middle = self@;
        // Parse remarks
        let remarks = parse_remarks(output);
        let m = remarks.len();
        let mut r: usize = 0;
        assert(remarks@.take(0) == Seq::<Remark>::empty());
        while r < m
            invariant
                m == remarks.len(),
                r <= m,
                self@.wf(),
                self@ == middle.with_remarks(remarks@.take(r as int)),
            decreases m - r,
        {
            proof {
                assert(remarks@.take(r + 1).drop_last() == remarks@.take(r as int));
                assert(remarks@.take(r + 1).last() == remarks[r as int]);
            }
            let rem = remarks[r];
            if rem.line >= 0 && rem.line as u64 <= usize::MAX as u64 {
                let key = rem.line as usize;
                match self.by_pragma.get(&key) {
                    Some(index) => {
                        let at = *index;
                        assert(self@.by_pragma.contains_key(key));
                        assert(at < self.loops.len());
                        let mut l = self.loops[at];
                        l.remarks = Some(rem);
                        proof {
                            lemma_update_keeps_wf(self@, at as int, l);
                        }
                        self.loops.set(at, l);
                    },
                    None => {},
                }
            }
            r += 1;
        }
        assert(remarks@.take(m as int) == remarks@);
    }
}

} // verus!
