//! The header selector: a backtracking walk of the dependency graph that
//! yields, one at a time, the distinct sets of include directories under
//! which a source file may compile.
//!
//! The walk keeps a stack of frames. Exploring pushes frames depth-first,
//! taking for each declaration met the first candidate in discovery order;
//! backtracking pops frames up to the latest declaration with another
//! candidate left and moves on to that candidate.

use vstd::prelude::*;
use crate::canon::{canonicalize, copy_texts};
use crate::config::Config;
use crate::dep_graph::{find_from, ids, resolves, DepGraph, DepGraphView};
use crate::path::{components, dir_under, same_parts, split, texts};
use crate::types::{Declare, DeclareView, File, FileView};
use crate::walk::{
    Frame, SelectorView, all_repeats, all_unseen, alternatives, backtrack, capacity, chosen,
    chosen_once, dirs_of, ends_after, enter, explore_all, explore_frame, first_open, frame_choice,
    frame_ok, frames_ok, fresh, header_set, lemma_backtrack, lemma_backtrack_done,
    lemma_ends_after_unique, lemma_explore_all, lemma_frame_bounds, lemma_parent_bounds,
    lemma_weight_bound, lemma_weight_less, parent_of, position, reversed, seen, selection, spent,
    step_after, step_of, walk, walked, weight,
};

verus! {

/// Represents an action while searching the dependency graph. Files and
/// dependencies are held as indices into the graph.
#[derive(Debug)]
pub enum Action {
    Start,
    Forward { src: usize, dest: usize, dep: usize },
    Backward { src: usize, dest: usize },
    Many { src: usize, rest: Vec<usize>, dep: usize },
}

impl View for Action {
    type V = Frame;

    open spec fn view(&self) -> Frame {
        match self {
            Action::Start => Frame::Start,
            Action::Forward { src, dest, dep } => Frame::Forward {
                src: *src as int,
                dest: *dest as int,
                dep: *dep as int,
            },
            Action::Backward { src, dest } => Frame::Backward {
                src: *src as int,
                dest: *dest as int,
            },
            Action::Many { src, rest, dep } => Frame::Many {
                src: *src as int,
                rest: ids(rest@),
                dep: *dep as int,
            },
        }
    }
}

pub open spec fn frames(v: Seq<Action>) -> Seq<Frame> {
    Seq::new(v.len(), |i: int| v[i]@)
}

pub open spec fn text_lists(v: Seq<Vec<String>>) -> Seq<Seq<Seq<char>>> {
    Seq::new(v.len(), |i: int| texts(v[i]@))
}

/// Try all possible header configurations.
///
/// The files that were visited and the file from which each was entered
/// are read off the stack: a file is visited while a frame has chosen it.
pub struct Selector<'a> {
    // File we are selecting headers for, and its index in the graph
    file: File,
    start: Option<usize>,
    // Graph traversal
    dg: &'a DepGraph,
    stack: Vec<Action>,
    // Attempts
    tries: usize,
    once: bool,
    tried: Vec<Vec<String>>,
}

impl<'a> View for Selector<'a> {
    type V = SelectorView;

    closed spec fn view(&self) -> SelectorView {
        SelectorView {
            start: match self.start {
                Some(i) => Some(i as int),
                None => None,
            },
            stack: frames(self.stack@),
            tries: self.tries as nat,
            once: self.once,
            tried: text_lists(self.tried@),
        }
    }
}

impl<'a> Selector<'a> {
    /// The graph that the selector walks.
    pub closed spec fn graph(&self) -> DepGraphView {
        self.dg@
    }

    /// The file that the selector selects headers for.
    pub closed spec fn file(&self) -> FileView {
        self.file@
    }

    /// What holds of every selector: its graph is well formed, its start is
    /// where the graph holds its file, its stack fits the graph and is tidy,
    /// and no header set was emitted twice.
    pub closed spec fn wf(&self) -> bool {
        &&& self.fits()
        &&& crate::tidy::tidy(self@.start, self@.stack)
    }

    /// The part of well-formedness that holds between the steps of a walk.
    pub closed spec fn fits(&self) -> bool {
        &&& self.dg.wf()
        &&& self@.start == find_from(self.dg@.files, self.file@, 0)
        &&& self@.start matches Some(i) ==> 0 <= i < self.dg@.files.len()
        &&& frames_ok(self.dg@, self@.stack)
        &&& self@.stack.len() <= capacity(self.dg@)
        &&& self@.tried.no_duplicates()
    }

    /// No header set is emitted twice: the sets that a selector has emitted
    /// are pairwise distinct.
    pub proof fn lemma_emitted_once(&self)
        requires
            self.wf(),
        ensures
            self@.tried.no_duplicates(),
    {
    }

    /// What well-formedness says of the walk: the graph is well formed,
    /// the stack fits it, and the stack is tidy. With that, every choice of
    /// the walk is a header that resolves its declaration, and no file is
    /// chosen twice.
    pub proof fn lemma_walk(&self)
        requires
            self.wf(),
        ensures
            self.graph().wf(),
            frames_ok(self.graph(), self@.stack),
            crate::tidy::tidy(self@.start, self@.stack),
            self@.start == find_from(self.graph().files, self.file(), 0),
    {
    }

    /// The walk is short: the stack never holds more than twice as many
    /// frames as the graph has files, and the start frame.
    pub proof fn lemma_stack_is_short(&self)
        requires
            self.wf(),
        ensures
            self@.stack.len() <= 2 * self.graph().files.len() + 1,
    {
        crate::tidy::lemma_tidy_is_short(self.dg@, self@.start, self@.stack);
    }

    /// Create a new selector.
    pub fn new(file: File, dg: &'a DepGraph, config: &Config) -> (selector: Self)
        requires
            dg.wf(),
        ensures
            selector.wf(),
            selector.graph() == dg@,
            selector.file() == file@,
            selector@ == fresh(dg@, file@, config.miner.tries as nat),
    {
        let start = dg.index_of(&file);
        let mut stack: Vec<Action> = Vec::new();
        stack.push(Action::Start);
        let selector = Selector {
            file,
            start,
            dg,
            stack,
            tries: config.miner.tries,
            once: false,
            tried: Vec::new(),
        };
        assert(selector@.stack == seq![Frame::Start]);
        assert(selector@.tried == Seq::<Seq<Seq<char>>>::empty());
        selector
    }

    /// Whether some frame has chosen the file at `x`.
    fn is_seen(&self, x: usize) -> (found: bool)
        ensures
            found == seen(self@.stack, x as int),
    {
        let n = self.stack.len();
        let mut i: usize = 0;
        while i < n
            invariant
                n == self.stack.len(),
                i <= n,
                forall|j: int| 0 <= j < i ==> chosen(#[trigger] self@.stack[j]) != Some(x as int),
            decreases n - i,
        {
            let hit = match &self.stack[i] {
                Action::Forward { dest, .. } => *dest == x,
                Action::Many { rest, .. } => rest.len() > 0 && rest[rest.len() - 1] == x,
                _ => false,
            };
            assert(self@.stack[i as int] == self.stack[i as int]@);
            if hit {
                return true;
            }
            i += 1;
        }
        false
    }

    /// The file from which the file at `x` was entered.
    fn parent(&self, x: usize) -> (from: Option<usize>)
        ensures
            match from {
                Some(p) => parent_of(self@.stack, x as int) == Some(p as int),
                None => parent_of(self@.stack, x as int) is None,
            },
    {
        let mut i: usize = self.stack.len();
        assert(self@.stack.take(i as int) == self@.stack);
        while i > 0
            invariant
                i <= self.stack.len(),
                parent_of(self@.stack, x as int) == parent_of(
                    self@.stack.take(i as int),
                    x as int,
                ),
            decreases i,
        {
            let ghost part = self@.stack.take(i as int);
            assert(part.last() == self.stack[i - 1]@);
            assert(part.drop_last() == self@.stack.take(i - 1));
            match &self.stack[i - 1] {
                Action::Forward { src, dest, .. } => {
                    if *dest == x {
                        return Some(*src);
                    }
                },
                Action::Many { src, rest, .. } => {
                    if rest.len() > 0 && rest[rest.len() - 1] == x {
                        return Some(*src);
                    }
                },
                _ => {},
            }
            i -= 1;
        }
        None
    }

    /// Enters dependency `k` of the file at `file` unless one of its
    /// candidates has been seen.
    fn visit(&mut self, file: usize, k: usize) -> (entered: bool)
        requires
            old(self).fits(),
            file < old(self).graph().deps.len(),
            k < old(self).graph().deps[file as int].len(),
            old(self)@.stack.len() < capacity(old(self).graph()),
        ensures
            final(self).fits(),
            final(self).graph() == old(self).graph(),
            final(self).file() == old(self).file(),
            entered == all_unseen(
                old(self)@.stack,
                old(self).graph().deps[file as int][k as int].candidates,
            ),
            entered ==> final(self)@ == (SelectorView {
                stack: old(self)@.stack.push(enter(old(self).graph(), file as int, k as int)),
                ..old(self)@
            }),
            !entered ==> final(self)@ == old(self)@,
    {
        let found = self.dg.dep_candidates(file, k);
        let ghost fv = self.dg@.deps[file as int][k as int].candidates;
        let m = found.len();
        let mut c: usize = 0;
        while c < m
            invariant
                self.fits(),
                self@ == old(self)@,
                self.graph() == old(self).graph(),
                self.file() == old(self).file(),
                fv == old(self).graph().deps[file as int][k as int].candidates,
                m == found.len(),
                c <= m,
                fv == ids(found@),
                forall|j: int| 0 <= j < c ==> !seen(self@.stack, #[trigger] fv[j]),
            decreases m - c,
        {
            if self.is_seen(found[c]) {
                assert(seen(self@.stack, fv[c as int]));
                return false;
            }
            c += 1;
        }
        let ghost frame = enter(self.dg@, file as int, k as int);
        let ghost before = self@.stack;
        proof {
            assert(reversed(fv).take(fv.len() as int) == reversed(fv));
            if fv.len() == 1 {
                assert(fv == seq![fv[0]]);
            }
        }
        if m == 1 {
            self.stack.push(Action::Forward { src: file, dest: found[0], dep: k });
        } else {
            let mut rest: Vec<usize> = Vec::new();
            let mut r: usize = m;
            while r > 0
                invariant
                    m == found.len(),
                    r <= m,
                    rest.len() == m - r,
                    forall|j: int| 0 <= j < rest.len() ==> rest[j] == found[m - 1 - j],
                decreases r,
            {
                r -= 1;
                rest.push(found[r]);
            }
            assert(ids(rest@) == reversed(fv));
            self.stack.push(Action::Many { src: file, rest, dep: k });
        }
        proof {
            assert(self@.stack == before.push(frame));
            assert forall|i: int| 0 <= i < self@.stack.len() implies frame_ok(
                self.dg@,
                #[trigger] self@.stack[i],
            ) by {
                if i < before.len() {
                    assert(self@.stack[i] == before[i]);
                }
            }
        }
        true
    }

    /// Explore for the next choice of headers: one step of the walk.
    fn explore(&mut self) -> (moved: bool)
        requires
            old(self).wf(),
        ensures
            final(self).wf(),
            final(self).graph() == old(self).graph(),
            final(self).file() == old(self).file(),
            match explore_frame(old(self).graph(), old(self)@.start, old(self)@.stack) {
                Some(frame) => moved && final(self)@ == (SelectorView {
                    stack: old(self)@.stack.push(frame),
                    ..old(self)@
                }),
                None => !moved && final(self)@ == old(self)@,
            },
    {
        let n = self.stack.len();
        if n == 0 {
            return false;
        }
        let ghost before = self@;
        let ghost graph = self.dg@;
        proof {
            crate::tidy::lemma_tidy_is_short(graph, before.start, before.stack);
            crate::tidy::lemma_explore_frame_tidy(graph, before.start, before.stack);
        }
        assert(before.stack.last() == self.stack[n - 1]@);
        let at = match &self.stack[n - 1] {
            Action::Start => self.start,
            Action::Forward { dest, .. } => Some(*dest),
            Action::Backward { dest, .. } => Some(*dest),
            Action::Many { rest, .. } => if rest.len() > 0 {
                Some(rest[rest.len() - 1])
            } else {
                None
            },
        };
        let cur = match at {
            Some(cur) => cur,
            None => {
                return false;
            },
        };
        if cur >= self.dg.len() {
            return false;
        }
        let count = self.dg.dep_count(cur);
        let mut k: usize = 0;
        while k < count
            invariant
                self.wf(),
                explore_frame(graph, before.start, before.stack) matches Some(frame)
                    ==> crate::tidy::tidy(before.start, before.stack.push(frame)),
                self@ == before,
                before == old(self)@,
                self.dg@ == graph,
                graph == old(self).graph(),
                self.file() == old(self).file(),
                before.stack.len() < capacity(graph),
                n == before.stack.len(),
                n > 0,
                position(before.start, before.stack.last()) == Some(cur as int),
                cur < graph.deps.len(),
                count == graph.deps[cur as int].len(),
                k <= count,
                first_open(graph, before.stack, cur as int, 0) == first_open(
                    graph,
                    before.stack,
                    cur as int,
                    k as int,
                ),
            decreases count - k,
        {
            if self.visit(cur, k) {
                return true;
            }
            k += 1;
        }
        let top_is_start = match &self.stack[n - 1] {
            Action::Start => true,
            _ => false,
        };
        if top_is_start {
            return false;
        }
        let back_at_start = match (&self.stack[n - 1], self.start) {
            (Action::Backward { .. }, Some(s)) => s == cur,
            _ => false,
        };
        if back_at_start {
            return false;
        }
        match self.parent(cur) {
            Some(p) => {
                proof {
                    lemma_parent_bounds(graph, before.stack, cur as int);
                }
                self.stack.push(Action::Backward { src: cur, dest: p });
                proof {
                    let frame = Frame::Backward { src: cur as int, dest: p as int };
                    assert(self@.stack == before.stack.push(frame));
                    assert forall|i: int| 0 <= i < self@.stack.len() implies frame_ok(
                        graph,
                        #[trigger] self@.stack[i],
                    ) by {
                        if i < before.stack.len() {
                            assert(self@.stack[i] == before.stack[i]);
                        }
                    }
                }
                true
            },
            None => false,
        }
    }

    /// Explores until no further step is possible.
    fn explore_to_end(&mut self)
        requires
            old(self).wf(),
        ensures
            final(self).wf(),
            final(self).graph() == old(self).graph(),
            final(self).file() == old(self).file(),
            final(self)@ == (SelectorView {
                stack: explore_all(old(self).graph(), old(self)@.start, old(self)@.stack),
                ..old(self)@
            }),
    {
        let ghost graph = self.dg@;
        let ghost before = self@;
        let ghost target = explore_all(graph, before.start, before.stack);
        let mut going = true;
        while going
            invariant
                self.wf(),
                self.dg@ == graph,
                graph == old(self).graph(),
                before == old(self)@,
                self.file() == old(self).file(),
                self@ == (SelectorView { stack: self@.stack, ..before }),
                explore_all(graph, before.start, self@.stack) == target,
                target == explore_all(graph, before.start, before.stack),
                !going ==> self@.stack == target,
            decreases
                    capacity(graph) - self@.stack.len() + if going {
                        1int
                    } else {
                        0int
                    },
        {
            proof {
                crate::tidy::lemma_tidy_is_short(graph, before.start, self@.stack);
            }
            going = self.explore();
        }
    }

    /// Backtracks, and returns true if there are more choices, and false
    /// otherwise.
    fn backtrack(&mut self) -> (more: bool)
        requires
            old(self).wf(),
        ensures
            final(self).wf(),
            final(self).graph() == old(self).graph(),
            final(self).file() == old(self).file(),
            final(self)@ == (SelectorView {
                stack: backtrack(old(self)@.stack).stack,
                ..old(self)@
            }),
            more == backtrack(old(self)@.stack).more,
    {
        let ghost graph = self.dg@;
        let ghost before = self@;
        proof {
            lemma_backtrack(graph, before.stack);
            crate::tidy::lemma_backtrack_tidy(before.start, before.stack);
        }
        loop
            invariant
                self.dg.wf(),
                self.dg@ == graph,
                graph == old(self).graph(),
                before == old(self)@,
                self.file() == old(self).file(),
                self@ == (SelectorView { stack: self@.stack, ..before }),
                before.start == find_from(graph.files, self.file(), 0),
                before.start matches Some(i) ==> 0 <= i < graph.files.len(),
                before.tried.no_duplicates(),
                backtrack(self@.stack) == backtrack(before.stack),
                crate::tidy::tidy(before.start, backtrack(before.stack).stack),
                frames_ok(graph, backtrack(before.stack).stack),
                backtrack(before.stack).stack.len() <= capacity(graph),
            decreases self@.stack.len(),
        {
            let n = self.stack.len();
            if n == 0 {
                return false;
            }
            assert(self@.stack.last() == self.stack[n - 1]@);
            let top_is_start = match &self.stack[n - 1] {
                Action::Start => true,
                _ => false,
            };
            if top_is_start {
                return false;
            }
            let ghost full = self@.stack;
            let top = self.stack.pop().unwrap();
            assert(self@.stack == full.drop_last());
            match top {
                Action::Many { src, rest, dep } => {
                    if rest.len() > 1 {
                        let mut rest = rest;
                        let ghost all = ids(rest@);
                        rest.pop();
                        assert(ids(rest@) == all.drop_last());
                        self.stack.push(Action::Many { src, rest, dep });
                        assert(self@.stack == full.drop_last().push(
                            Frame::Many { src: src as int, rest: all.drop_last(), dep: dep as int },
                        ));
                        return true;
                    }
                },
                _ => {},
            }
        }
    }

    /// Return the headers from a graph traversal: each chosen file with the
    /// declaration that it satisfies.
    pub fn get_headers(&self) -> (out: Vec<(File, Declare)>)
        requires
            self.wf(),
        ensures
            picks_view(out@) == chosen_files(self.graph(), selection(self.graph(), self@.stack)),
            forall|a: int|
                0 <= a < out.len() ==> resolves(
                    (#[trigger] out[a]).0@,
                    components(out[a].1@.path),
                ),
            forall|a: int, b: int|
                0 <= a < b < out.len() ==> (#[trigger] out[a]).0@ != (#[trigger] out[b]).0@,
    {
        let ghost graph = self.dg@;
        let ghost stack = self@.stack;
        proof {
            crate::tidy::lemma_selection_picks(graph, self@.start, stack);
        }
        let mut out: Vec<(File, Declare)> = Vec::new();
        let n = self.stack.len();
        let mut i: usize = 0;
        assert(stack.take(0) == Seq::<Frame>::empty());
        assert(picks_view(out@) == chosen_files(graph, selection(graph, stack.take(0))));
        while i < n
            invariant
                self.wf(),
                graph == self.dg@,
                stack == self@.stack,
                n == self.stack.len(),
                i <= n,
                picks_view(out@) == chosen_files(graph, selection(graph, stack.take(i as int))),
            decreases n - i,
        {
            let ghost sel = selection(graph, stack.take(i as int));
            proof {
                assert(stack.take(i + 1).drop_last() == stack.take(i as int));
                assert(stack.take(i + 1).last() == self.stack[i as int]@);
                assert(frame_ok(graph, stack[i as int]));
                lemma_frame_bounds(graph, stack[i as int]);
            }
            let pick = match &self.stack[i] {
                Action::Forward { src, dest, dep } => Some((*src, *dest, *dep)),
                Action::Many { src, rest, dep } => if rest.len() > 0 {
                    Some((*src, rest[rest.len() - 1], *dep))
                } else {
                    None
                },
                _ => None,
            };
            match pick {
                Some((src, dest, dep)) => {
                    let file = self.dg.file(dest).clone();
                    let decl = self.dg.dep_declare(src, dep).clone();
                    let ghost old_out = out@;
                    out.push((file, decl));
                    proof {
                        let choice = (dest as int, graph.deps[src as int][dep as int].decl);
                        assert(frame_choice(graph, stack[i as int]) == Some(choice));
                        assert(picks_view(out@) == picks_view(old_out).push((file@, decl@)));
                        assert(chosen_files(graph, sel.push(choice)) == chosen_files(
                            graph,
                            sel,
                        ).push((graph.files[dest as int], choice.1)));
                    }
                },
                None => {
                    assert(frame_choice(graph, stack[i as int]) is None);
                },
            }
            i += 1;
        }
        assert(stack.take(n as int) == stack);
        proof {
            let sel = selection(graph, stack);
            let picks = picks_view(out@);
            assert forall|a: int| 0 <= a < out.len() implies resolves(
                (#[trigger] out[a]).0@,
                components(out[a].1@.path),
            ) by {
                assert(picks[a] == (out[a].0@, out[a].1@));
                assert(picks[a] == (graph.files[sel[a].0], sel[a].1));
            }
            assert forall|a: int, b: int| 0 <= a < b < out.len() implies (#[trigger] out[a]).0@ != (
            #[trigger] out[b]).0@ by {
                assert(picks[a] == (out[a].0@, out[a].1@));
                assert(picks[b] == (out[b].0@, out[b].1@));
                assert(picks[a] == (graph.files[sel[a].0], sel[a].1));
                assert(picks[b] == (graph.files[sel[b].0], sel[b].1));
                assert(sel[a].0 != sel[b].0);
            }
        }
        out
    }

    /// The header set of the current walk.
    fn header_dirs(&self) -> (out: Vec<String>)
        requires
            self.wf(),
        ensures
            texts(out@) == header_set(self.graph(), self@.stack),
    {
        let ghost graph = self.dg@;
        let ghost stack = self@.stack;
        let mut dirs: Vec<String> = Vec::new();
        let n = self.stack.len();
        let mut i: usize = 0;
        assert(stack.take(0) == Seq::<Frame>::empty());
        assert(texts(dirs@) == dirs_of(graph, selection(graph, stack.take(0))));
        while i < n
            invariant
                self.wf(),
                graph == self.dg@,
                stack == self@.stack,
                n == self.stack.len(),
                i <= n,
                texts(dirs@) == dirs_of(graph, selection(graph, stack.take(i as int))),
            decreases n - i,
        {
            let ghost sel = selection(graph, stack.take(i as int));
            proof {
                assert(stack.take(i + 1).drop_last() == stack.take(i as int));
                assert(stack.take(i + 1).last() == self.stack[i as int]@);
                assert(frame_ok(graph, stack[i as int]));
                lemma_frame_bounds(graph, stack[i as int]);
            }
            let pick = match &self.stack[i] {
                Action::Forward { src, dest, dep } => Some((*src, *dest, *dep)),
                Action::Many { src, rest, dep } => if rest.len() > 0 {
                    Some((*src, rest[rest.len() - 1], *dep))
                } else {
                    None
                },
                _ => None,
            };
            match pick {
                Some((src, dest, dep)) => {
                    let decl = self.dg.dep_declare(src, dep);
                    proof {
                        let choice = (dest as int, graph.deps[src as int][dep as int].decl);
                        assert(frame_choice(graph, stack[i as int]) == Some(choice));
                        assert(sel.push(choice).drop_last() == sel);
                        assert(sel.push(choice).last() == choice);
                    }
                    if decl.is_user() {
                        let whole = self.dg.file_parts(dest);
                        let tail = split(decl.path().as_str());
                        let keep = if tail.len() <= whole.len() {
                            whole.len() - tail.len()
                        } else {
                            0
                        };
                        let dir = dir_under(self.dg.root().as_str(), whole, keep);
                        assert(texts(dirs@.push(dir)) == texts(dirs@).push(dir@));
                        dirs.push(dir);
                    }
                },
                None => {
                    assert(frame_choice(graph, stack[i as int]) is None);
                },
            }
            i += 1;
        }
        assert(stack.take(n as int) == stack);
        canonicalize(dirs)
    }

    /// Returns the next header set, or `None` if none is left or the try
    /// budget is spent.
    ///
    /// Walks are made until one ends on a header set that was not emitted
    /// before; that set is recorded and costs one try. A walk that ends on
    /// a set emitted before costs nothing.
    pub fn step(&mut self) -> (out: Option<Vec<String>>)
        requires
            old(self).wf(),
        ensures
            final(self).wf(),
            final(self).graph() == old(self).graph(),
            final(self).file() == old(self).file(),
            old(self)@.tries == 0 ==> out is None && final(self)@ == old(self)@,
            match out {
                Some(set) => {
                    &&& !old(self)@.tried.contains(texts(set@))
                    &&& final(self)@.tried == old(self)@.tried.push(texts(set@))
                    &&& final(self)@.tries == old(self)@.tries - 1
                },
                None => {
                    &&& final(self)@.tried == old(self)@.tried
                    &&& final(self)@.tries == old(self)@.tries
                    &&& spent(final(self)@)
                },
            },
            (final(self)@, option_texts(out)) == step_of(old(self).graph(), old(self)@),
            out matches Some(set) ==> texts(set@) == header_set(
                final(self).graph(),
                final(self)@.stack,
            ),
            chosen_once(final(self).graph(), final(self)@.stack),
    {
        proof {
            crate::tidy::lemma_selection_picks(self.dg@, self@.start, self@.stack);
        }
        if self.tries == 0 {
            return None;
        }
        let ghost graph = self.dg@;
        let ghost v0 = self@;
        let ghost mut n: nat = 0;
        let ghost base = graph.files.len() as int + 1;
        let ghost places = capacity(graph) as nat;
        loop
            invariant
                self.wf(),
                self.dg@ == graph,
                graph == old(self).graph(),
                self.file() == old(self).file(),
                v0 == old(self)@,
                v0.tries > 0,
                base == graph.files.len() + 1,
                places == capacity(graph),
                self@ == walked(graph, v0, n),
                self@.tries == v0.tries,
                self@.tried == v0.tried,
                all_repeats(graph, v0, n),
            decreases
                    if self@.once {
                        0int
                    } else {
                        1int
                    },
                    weight(self@.stack, base, places),
        {
            let ghost before = self@;
            if self.once {
                let more = self.backtrack();
                if !more {
                    proof {
                        lemma_backtrack_done(before.stack);
                        assert(!walk(graph, before).more);
                        assert(self@ == step_after(graph, v0, n).0);
                        assert(ends_after(graph, v0, n));
                        lemma_ends_after_unique(
                            graph,
                            v0,
                            n,
                            choose|m: nat| ends_after(graph, v0, m),
                        );
                        crate::tidy::lemma_selection_picks(graph, self@.start, self@.stack);
                    }
                    return None;
                }
            }
            self.once = true;
            self.explore_to_end();
            proof {
                assert(walk(graph, before).more);
                assert(self@.stack == walk(graph, before).stack);
            }
            let dirs = self.header_dirs();
            if !self.was_tried(&dirs) {
                let kept = copy_texts(&dirs);
                let ghost old_tried = self@.tried;
                self.tried.push(kept);
                self.tries = self.tries - 1;
                proof {
                    assert(self@.tried == old_tried.push(texts(dirs@)));
                    assert(self@ == step_after(graph, v0, n).0);
                    assert(ends_after(graph, v0, n));
                    lemma_ends_after_unique(
                        graph,
                        v0,
                        n,
                        choose|m: nat| ends_after(graph, v0, m),
                    );
                    crate::tidy::lemma_selection_picks(graph, self@.start, self@.stack);
                }
                return Some(dirs);
            }
            proof {
                // The walk ended on a repeat: the stack weighs less than before.
                if before.once {
                    let back = backtrack(before.stack).stack;
                    lemma_backtrack(graph, before.stack);
                    lemma_explore_all(graph, before.start, back);
                    let end = self@.stack;
                    let at = back.len() - 1;
                    assert(end.take(at) == end.take(back.len() as int).take(at));
                    assert(end[at] == end.take(back.len() as int)[at]);
                    assert forall|i: int| 0 <= i < end.len() implies alternatives(
                        #[trigger] end[i],
                    ) < base by {
                        lemma_frame_bounds(graph, end[i]);
                    }
                    assert forall|i: int| 0 <= i < before.stack.len() implies alternatives(
                        #[trigger] before.stack[i],
                    ) < base by {
                        lemma_frame_bounds(graph, before.stack[i]);
                    }
                    lemma_weight_less(before.stack, end, at, base, places);
                    lemma_weight_bound(before.stack, base, places);
                    lemma_weight_bound(end, base, places);
                }
                assert(walked(graph, v0, n + 1) == self@);
                assert forall|j: nat| j < n + 1 implies (#[trigger] walk(
                    graph,
                    walked(graph, v0, j),
                )).more && v0.tried.contains(
                    header_set(graph, walk(graph, walked(graph, v0, j)).stack),
                ) by {
                    if j == n {
                    }
                }
                n = n + 1;
            }
        }
    }

    /// Whether the header set `dirs` was emitted before.
    fn was_tried(&self, dirs: &Vec<String>) -> (found: bool)
        ensures
            found == self@.tried.contains(texts(dirs@)),
    {
        let n = self.tried.len();
        let mut i: usize = 0;
        while i < n
            invariant
                n == self.tried.len(),
                i <= n,
                forall|j: int| 0 <= j < i ==> (#[trigger] self@.tried[j]) != texts(dirs@),
            decreases n - i,
        {
            if same_parts(&self.tried[i], dirs) {
                assert(self@.tried[i as int] == texts(dirs@));
                return true;
            }
            i += 1;
        }
        false
    }
}

pub open spec fn option_texts(out: Option<Vec<String>>) -> Option<Seq<Seq<char>>> {
    match out {
        Some(list) => Some(texts(list@)),
        None => None,
    }
}

pub open spec fn picks_view(v: Seq<(File, Declare)>) -> Seq<(FileView, DeclareView)> {
    Seq::new(v.len(), |i: int| (v[i].0@, v[i].1@))
}

/// A selection with each index replaced by the file that it stands for.
pub open spec fn chosen_files(graph: DepGraphView, picked: Seq<(int, DeclareView)>) -> Seq<
    (FileView, DeclareView),
> {
    Seq::new(picked.len(), |i: int| (graph.files[picked[i].0], picked[i].1))
}

} // verus!
