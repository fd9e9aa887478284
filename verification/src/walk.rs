//! The walk of a selector as a value: the frames of its stack, what
//! exploring and backtracking make of them, and the header set that a
//! stack stands for.

use vstd::prelude::*;
use vstd::arithmetic::power::{lemma_pow_positive, pow};
use crate::canon::{canonical, lemma_canonical};
use crate::dep_graph::{find_from, lemma_candidates, resolves, DepGraphView};
use crate::path::{components, under};
use crate::types::{DeclareType, DeclareView, FileView};

verus! {

/// One step of the walk.
pub enum Frame {
    /// The initial frame, anchored on the starting file.
    Start,
    /// Moved from `src` into `dest`, the only file that satisfies
    /// declaration `dep` of `src`.
    Forward { src: int, dest: int, dep: int },
    /// Returned from `src` to `dest`, whence `src` was entered.
    Backward { src: int, dest: int },
    /// At declaration `dep` of `src`, which several files satisfy: `rest`
    /// is the pile of those still to try, the latest discovered at the
    /// bottom; the item on top, its last, is the current choice.
    Many { src: int, rest: Seq<int>, dep: int },
}

/// The state of a selector.
pub struct SelectorView {
    /// Index of the starting file in the graph; `None` where the graph does
    /// not hold it.
    pub start: Option<int>,
    pub stack: Seq<Frame>,
    /// Header sets that may still be emitted.
    pub tries: nat,
    /// Whether a walk has been made.
    pub once: bool,
    /// The header sets emitted so far, oldest first.
    pub tried: Seq<Seq<Seq<char>>>,
}

/// The state of a selector for `file` before its first step.
pub open spec fn fresh(graph: DepGraphView, file: FileView, tries: nat) -> SelectorView {
    SelectorView {
        start: find_from(graph.files, file, 0),
        stack: seq![Frame::Start],
        tries,
        once: false,
        tried: Seq::empty(),
    }
}

/// The file that a frame has chosen for a declaration.
pub open spec fn chosen(frame: Frame) -> Option<int> {
    match frame {
        Frame::Forward { dest, .. } => Some(dest),
        Frame::Many { rest, .. } => if rest.len() > 0 {
            Some(rest.last())
        } else {
            None
        },
        _ => None,
    }
}

/// The file at which the walk stands after `top`.
pub open spec fn position(start: Option<int>, top: Frame) -> Option<int> {
    match top {
        Frame::Start => start,
        Frame::Backward { dest, .. } => Some(dest),
        _ => chosen(top),
    }
}

/// Whether file `x` is the choice of some frame of the stack.
pub open spec fn seen(stack: Seq<Frame>, x: int) -> bool {
    exists|i: int| 0 <= i < stack.len() && chosen(#[trigger] stack[i]) == Some(x)
}

/// Whether none of the files in `found` has been seen.
pub open spec fn all_unseen(stack: Seq<Frame>, found: Seq<int>) -> bool {
    forall|c: int| 0 <= c < found.len() ==> !seen(stack, #[trigger] found[c])
}

/// The first dependency of file `f` at or after `from` none of whose
/// candidates has been seen.
pub open spec fn first_open(graph: DepGraphView, stack: Seq<Frame>, f: int, from: int) -> Option<
    int,
>
    decreases graph.deps[f].len() - from,
{
    if from < 0 || from >= graph.deps[f].len() {
        None
    } else if all_unseen(stack, graph.deps[f][from].candidates) {
        Some(from)
    } else {
        first_open(graph, stack, f, from + 1)
    }
}

/// The file from which `x` was entered: the source of the topmost frame
/// that chose `x`.
pub open spec fn parent_of(stack: Seq<Frame>, x: int) -> Option<int>
    decreases stack.len(),
{
    if stack.len() == 0 {
        None
    } else if chosen(stack.last()) == Some(x) {
        match stack.last() {
            Frame::Forward { src, .. } => Some(src),
            Frame::Many { src, .. } => Some(src),
            _ => None,
        }
    } else {
        parent_of(stack.drop_last(), x)
    }
}

/// `found` from its last item to its first.
pub open spec fn reversed(found: Seq<int>) -> Seq<int> {
    Seq::new(found.len(), |j: int| found[found.len() - 1 - j])
}

/// The frame that entering dependency `k` of file `f` pushes: the
/// candidates are piled up so that the first discovered is tried first.
pub open spec fn enter(graph: DepGraphView, f: int, k: int) -> Frame {
    let found = graph.deps[f][k].candidates;
    if found.len() == 1 {
        Frame::Forward { src: f, dest: found[0], dep: k }
    } else {
        Frame::Many { src: f, rest: reversed(found), dep: k }
    }
}

/// The frame that one exploring step pushes, `None` where the walk is
/// complete: the first open dependency of the current file is entered; where
/// there is none, the walk returns to the file from which the current one
/// was entered, unless it already stands at the start.
pub open spec fn explore_frame(graph: DepGraphView, start: Option<int>, stack: Seq<Frame>) -> Option<
    Frame,
> {
    if stack.len() == 0 {
        None
    } else {
        let top = stack.last();
        match position(start, top) {
            None => None,
            Some(cur) => if cur < 0 || cur >= graph.deps.len() {
                None
            } else {
                match first_open(graph, stack, cur, 0) {
                    Some(k) => Some(enter(graph, cur, k)),
                    None => if top is Start {
                        None
                    } else if top is Backward && Some(cur) == start {
                        None
                    } else {
                        match parent_of(stack, cur) {
                            Some(p) => Some(Frame::Backward { src: cur, dest: p }),
                            None => None,
                        }
                    },
                }
            },
        }
    }
}

/// More frames than a walk ever pushes: each file is entered at most once
/// and left at most once, so a stack holds at most twice as many frames as
/// there are files, and the start frame.
pub open spec fn capacity(graph: DepGraphView) -> int {
    2 * (graph.files.len() as int) + 2
}

/// The stack once exploring has gone as far as it can. The capacity is
/// there to make the definition total: the stack of a selector never
/// reaches it.
pub open spec fn explore_all(graph: DepGraphView, start: Option<int>, stack: Seq<Frame>) -> Seq<
    Frame,
>
    decreases capacity(graph) - stack.len(),
{
    if stack.len() >= capacity(graph) {
        stack
    } else {
        match explore_frame(graph, start, stack) {
            None => stack,
            Some(frame) => explore_all(graph, start, stack.push(frame)),
        }
    }
}

/// What backtracking leaves: the stack, and whether another choice was found.
pub struct Backtracked {
    pub stack: Seq<Frame>,
    pub more: bool,
}

/// Backtracking: frames are popped down to the topmost `Many` with more than
/// one file left, whose current choice is dropped; where the start frame is
/// reached first, no choice is left.
pub open spec fn backtrack(stack: Seq<Frame>) -> Backtracked
    decreases stack.len(),
{
    if stack.len() == 0 {
        Backtracked { stack, more: false }
    } else {
        match stack.last() {
            Frame::Start => Backtracked { stack, more: false },
            Frame::Many { src, rest, dep } => if rest.len() > 1 {
                Backtracked {
                    stack: stack.drop_last().push(Frame::Many { src, rest: rest.drop_last(), dep }),
                    more: true,
                }
            } else {
                backtrack(stack.drop_last())
            },
            _ => backtrack(stack.drop_last()),
        }
    }
}

/// The file and the declaration that a frame contributes to a selection.
pub open spec fn frame_choice(graph: DepGraphView, frame: Frame) -> Option<(int, DeclareView)> {
    match frame {
        Frame::Forward { src, dest, dep } => Some((dest, graph.deps[src][dep].decl)),
        Frame::Many { src, rest, dep } => if rest.len() > 0 {
            Some((rest.last(), graph.deps[src][dep].decl))
        } else {
            None
        },
        _ => None,
    }
}

/// The headers that the walk has chosen, each with the declaration that it
/// satisfies, in the order in which they were entered.
pub open spec fn selection(graph: DepGraphView, stack: Seq<Frame>) -> Seq<(int, DeclareView)>
    decreases stack.len(),
{
    if stack.len() == 0 {
        Seq::empty()
    } else {
        match frame_choice(graph, stack.last()) {
            Some(choice) => selection(graph, stack.drop_last()).push(choice),
            None => selection(graph, stack.drop_last()),
        }
    }
}

/// Whether no file is chosen twice in the walk: no two items of the
/// selection of the stack are the same file.
pub open spec fn chosen_once(graph: DepGraphView, stack: Seq<Frame>) -> bool {
    forall|a: int, b: int|
        0 <= a < b < selection(graph, stack).len() ==> (#[trigger] selection(graph, stack)[a]).0
            != (#[trigger] selection(graph, stack)[b]).0
}

/// The include directory under which the file at `file` satisfies a
/// declaration of `declared`: the file's path below `root` without as many
/// trailing components as the declared path has.
pub open spec fn dir_of(root: Seq<char>, file: Seq<char>, declared: Seq<char>) -> Seq<char> {
    let whole = components(file);
    let tail = components(declared);
    let keep = if tail.len() <= whole.len() {
        whole.len() - tail.len()
    } else {
        0
    };
    under(root, whole.subrange(0, keep))
}

/// The include directories of a selection, one for each user declaration,
/// in the order of the selection. System declarations give none.
pub open spec fn dirs_of(graph: DepGraphView, picked: Seq<(int, DeclareView)>) -> Seq<Seq<char>>
    decreases picked.len(),
{
    if picked.len() == 0 {
        Seq::empty()
    } else {
        let (at, decl) = picked.last();
        if decl.kind == DeclareType::User {
            dirs_of(graph, picked.drop_last()).push(
                dir_of(graph.root, graph.files[at].path, decl.path),
            )
        } else {
            dirs_of(graph, picked.drop_last())
        }
    }
}

/// The header set of a stack: the canonical form of the include directories
/// of its selection.
pub open spec fn header_set(graph: DepGraphView, stack: Seq<Frame>) -> Seq<Seq<char>> {
    canonical(dirs_of(graph, selection(graph, stack)))
}

/// Whether a selector has nothing left to give: its budget is spent, or it
/// has walked and backtracking finds no choice left.
pub open spec fn spent(v: SelectorView) -> bool {
    v.tries == 0 || (v.once && !backtrack(v.stack).more)
}

/// Where backtracking finds no choice left, backtracking again changes
/// nothing.
pub proof fn lemma_backtrack_done(stack: Seq<Frame>)
    requires
        !backtrack(stack).more,
    ensures
        backtrack(backtrack(stack).stack) == backtrack(stack),
    decreases stack.len(),
{
    if stack.len() > 0 {
        match stack.last() {
            Frame::Start => {},
            Frame::Many { rest, .. } => {
                if rest.len() <= 1 {
                    lemma_backtrack_done(stack.drop_last());
                }
            },
            _ => {
                lemma_backtrack_done(stack.drop_last());
            },
        }
    }
}

/// One walk: the first explores from the start; each later one backtracks
/// to the latest open choice and explores from there. `more` is false where
/// backtracking finds no choice left.
pub open spec fn walk(graph: DepGraphView, v: SelectorView) -> Backtracked {
    if v.once {
        let back = backtrack(v.stack);
        if back.more {
            Backtracked { stack: explore_all(graph, v.start, back.stack), more: true }
        } else {
            back
        }
    } else {
        Backtracked { stack: explore_all(graph, v.start, v.stack), more: true }
    }
}

/// The state after `n` walks.
pub open spec fn walked(graph: DepGraphView, v: SelectorView, n: nat) -> SelectorView
    decreases n,
{
    if n == 0 {
        v
    } else {
        let before = walked(graph, v, (n - 1) as nat);
        SelectorView { stack: walk(graph, before).stack, once: true, ..before }
    }
}

/// Whether each of the first `n` walks from `v` ends on a header set that
/// was emitted before.
pub open spec fn all_repeats(graph: DepGraphView, v: SelectorView, n: nat) -> bool {
    forall|j: nat|
        j < n ==> (#[trigger] walk(graph, walked(graph, v, j))).more && v.tried.contains(
            header_set(graph, walk(graph, walked(graph, v, j)).stack),
        )
}

/// What a step gives whose first `n` walks end on repeats: the state after
/// it and the header set emitted.
pub open spec fn step_after(graph: DepGraphView, v: SelectorView, n: nat) -> (
    SelectorView,
    Option<Seq<Seq<char>>>,
) {
    let before = walked(graph, v, n);
    let last = walk(graph, before);
    if last.more {
        let set = header_set(graph, last.stack);
        (
            SelectorView {
                stack: last.stack,
                once: true,
                tries: (v.tries - 1) as nat,
                tried: v.tried.push(set),
                ..before
            },
            Some(set),
        )
    } else {
        (SelectorView { stack: last.stack, once: true, ..before }, None)
    }
}

/// Whether a step from `v` may end after exactly `n` repeats.
pub open spec fn ends_after(graph: DepGraphView, v: SelectorView, n: nat) -> bool {
    &&& all_repeats(graph, v, n)
    &&& step_after(graph, v, n).1 matches Some(set) ==> !v.tried.contains(set)
}

/// A step can end after one number of repeats only.
pub proof fn lemma_ends_after_unique(graph: DepGraphView, v: SelectorView, n: nat, m: nat)
    requires
        ends_after(graph, v, n),
        ends_after(graph, v, m),
    ensures
        n == m,
{
    if n < m {
        assert(walk(graph, walked(graph, v, n)).more);
    } else if m < n {
        assert(walk(graph, walked(graph, v, m)).more);
    }
}

/// What a step from `v` gives: the state after it and the header set
/// emitted. Without a try left nothing changes and nothing is emitted;
/// else walks are made until one ends on a header set that was not
/// emitted before, or no choice is left.
pub open spec fn step_of(graph: DepGraphView, v: SelectorView) -> (
    SelectorView,
    Option<Seq<Seq<char>>>,
) {
    if v.tries == 0 {
        (v, None)
    } else {
        step_after(graph, v, choose|n: nat| ends_after(graph, v, n))
    }
}

/// The state after `k` steps.
pub open spec fn stepped(graph: DepGraphView, v: SelectorView, k: nat) -> SelectorView
    decreases k,
{
    if k == 0 {
        v
    } else {
        step_of(graph, stepped(graph, v, (k - 1) as nat)).0
    }
}

/// Whether each of the first `k` steps from `v` emits a header set.
pub open spec fn all_emit(graph: DepGraphView, v: SelectorView, k: nat) -> bool {
    forall|j: nat| j < k ==> (#[trigger] step_of(graph, stepped(graph, v, j))).1 is Some
}

/// Whether `frame` fits the graph: its files and its dependency exist, a
/// `Forward` leads to the only candidate of its dependency, and the pile of
/// a `Many` holds the candidates of its dependency from the last discovered
/// up to the current choice.
pub open spec fn frame_ok(graph: DepGraphView, frame: Frame) -> bool {
    match frame {
        Frame::Start => true,
        Frame::Forward { src, dest, dep } => {
            &&& 0 <= src < graph.deps.len()
            &&& 0 <= dep < graph.deps[src].len()
            &&& graph.deps[src][dep].candidates == seq![dest]
        },
        Frame::Backward { src, dest } => {
            &&& 0 <= src < graph.deps.len()
            &&& 0 <= dest < graph.deps.len()
        },
        Frame::Many { src, rest, dep } => {
            &&& 0 <= src < graph.deps.len()
            &&& 0 <= dep < graph.deps[src].len()
            &&& 1 <= rest.len() <= graph.deps[src][dep].candidates.len()
            &&& rest == reversed(graph.deps[src][dep].candidates).take(rest.len() as int)
        },
    }
}

pub open spec fn frames_ok(graph: DepGraphView, stack: Seq<Frame>) -> bool {
    forall|i: int| 0 <= i < stack.len() ==> frame_ok(graph, #[trigger] stack[i])
}

/// The number of untried alternatives that a frame holds.
pub open spec fn alternatives(frame: Frame) -> int {
    match frame {
        Frame::Many { rest, .. } => if rest.len() > 0 {
            rest.len() - 1
        } else {
            0
        },
        _ => 0,
    }
}

/// Whether `frame` gives the include directory `dir`: it has chosen a
/// file for a user declaration, and `dir` is the directory under which that
/// file satisfies the declaration.
pub open spec fn gives(graph: DepGraphView, frame: Frame, dir: Seq<char>) -> bool {
    frame_choice(graph, frame) matches Some((at, decl)) && decl.kind == DeclareType::User && dir
        == dir_of(graph.root, graph.files[at].path, decl.path)
}

/// The choice of a fitting frame is a header of the graph that resolves the
/// declaration of the frame: its path ends with the components of the
/// declared path.
pub proof fn lemma_choice_resolves(graph: DepGraphView, frame: Frame)
    requires
        graph.wf(),
        frame_ok(graph, frame),
    ensures
        frame_choice(graph, frame) matches Some((at, decl)) ==> 0 <= at < graph.files.len()
            && resolves(graph.files[at], components(decl.path)),
{
    match frame {
        Frame::Forward { src, dest, dep } => {
            crate::dep_graph::lemma_edges_resolve(graph, src, dep);
            assert(graph.deps[src][dep].candidates[0] == dest);
        },
        Frame::Many { src, rest, dep } => {
            crate::dep_graph::lemma_edges_resolve(graph, src, dep);
            let found = graph.deps[src][dep].candidates;
            assert(rest.last() == reversed(found)[rest.len() - 1]);
            assert(rest.last() == found[found.len() - rest.len()]);
        },
        _ => {},
    }
}

/// Every item of a selection is the choice of a frame of the stack.
pub proof fn lemma_selection_from_frames(graph: DepGraphView, stack: Seq<Frame>)
    ensures
        forall|k: int|
            0 <= k < selection(graph, stack).len() ==> exists|f: int|
                0 <= f < stack.len() && frame_choice(graph, #[trigger] stack[f]) == Some(
                    #[trigger] selection(graph, stack)[k],
                ),
    decreases stack.len(),
{
    if stack.len() > 0 {
        let below = stack.drop_last();
        lemma_selection_from_frames(graph, below);
        let now = selection(graph, stack);
        let before = selection(graph, below);
        assert forall|k: int| 0 <= k < now.len() implies exists|f: int|
            0 <= f < stack.len() && frame_choice(graph, #[trigger] stack[f]) == Some(
                #[trigger] now[k],
            ) by {
            if k < before.len() {
                assert(now[k] == before[k]);
                let f = choose|f: int|
                    0 <= f < below.len() && frame_choice(graph, #[trigger] below[f]) == Some(
                        before[k],
                    );
                assert(stack[f] == below[f]);
            } else {
                assert(frame_choice(graph, stack[stack.len() - 1]) == Some(now[k]));
            }
        }
    }
}

/// Every directory of a selection is that of one of its user declarations.
pub proof fn lemma_dirs_from_selection(graph: DepGraphView, picked: Seq<(int, DeclareView)>)
    ensures
        forall|d: int|
            0 <= d < dirs_of(graph, picked).len() ==> exists|k: int|
                0 <= k < picked.len() && (#[trigger] picked[k]).1.kind == DeclareType::User
                    && (#[trigger] dirs_of(graph, picked)[d]) == dir_of(
                    graph.root,
                    graph.files[picked[k].0].path,
                    picked[k].1.path,
                ),
    decreases picked.len(),
{
    if picked.len() > 0 {
        let below = picked.drop_last();
        lemma_dirs_from_selection(graph, below);
        let now = dirs_of(graph, picked);
        let before = dirs_of(graph, below);
        assert forall|d: int| 0 <= d < now.len() implies exists|k: int|
            0 <= k < picked.len() && (#[trigger] picked[k]).1.kind == DeclareType::User && (
            #[trigger] now[d]) == dir_of(
                graph.root,
                graph.files[picked[k].0].path,
                picked[k].1.path,
            ) by {
            if d < before.len() {
                assert(now[d] == before[d]);
                let k = choose|k: int|
                    0 <= k < below.len() && (#[trigger] below[k]).1.kind == DeclareType::User
                        && before[d] == dir_of(
                        graph.root,
                        graph.files[below[k].0].path,
                        below[k].1.path,
                    );
                assert(picked[k] == below[k]);
            } else {
                let k = picked.len() - 1;
                assert(picked[k].1.kind == DeclareType::User);
            }
        }
    }
}

/// Every directory of a header set is given by a frame of the stack: it is
/// the directory under which a header chosen on the walk satisfies a user
/// declaration.
pub proof fn lemma_header_set_sound(graph: DepGraphView, stack: Seq<Frame>)
    ensures
        forall|d: int|
            0 <= d < header_set(graph, stack).len() ==> exists|f: int|
                0 <= f < stack.len() && gives(
                    graph,
                    #[trigger] stack[f],
                    #[trigger] header_set(graph, stack)[d],
                ),
{
    let picked = selection(graph, stack);
    let dirs = dirs_of(graph, picked);
    let set = header_set(graph, stack);
    lemma_canonical(dirs);
    lemma_dirs_from_selection(graph, picked);
    lemma_selection_from_frames(graph, stack);
    assert forall|d: int| 0 <= d < set.len() implies exists|f: int|
        0 <= f < stack.len() && gives(graph, #[trigger] stack[f], #[trigger] set[d]) by {
        assert(dirs.contains(set[d]));
        let j = choose|j: int| 0 <= j < dirs.len() && dirs[j] == set[d];
        let k = choose|k: int|
            0 <= k < picked.len() && (#[trigger] picked[k]).1.kind == DeclareType::User && dirs[j]
                == dir_of(graph.root, graph.files[picked[k].0].path, picked[k].1.path);
        let f = choose|f: int|
            0 <= f < stack.len() && frame_choice(graph, #[trigger] stack[f]) == Some(picked[k]);
        assert(gives(graph, stack[f], set[d]));
    }
}

/// The stack read as a number of `places` digits to base `base`, the bottom
/// frame first: each frame's digit is the number of its alternatives.
pub open spec fn weight(stack: Seq<Frame>, base: int, places: nat) -> int
    decreases stack.len(),
{
    if stack.len() == 0 || places == 0 {
        0
    } else {
        alternatives(stack[0]) * pow(base, (places - 1) as nat) + weight(
            stack.drop_first(),
            base,
            (places - 1) as nat,
        )
    }
}

/// A stack whose digits are below the base weighs less than the base to the
/// power of its places.
pub proof fn lemma_weight_bound(stack: Seq<Frame>, base: int, places: nat)
    requires
        base >= 1,
        stack.len() <= places,
        forall|i: int| 0 <= i < stack.len() ==> alternatives(#[trigger] stack[i]) < base,
    ensures
        0 <= weight(stack, base, places) < pow(base, places),
    decreases stack.len(),
{
    lemma_pow_positive(base, places);
    if stack.len() == 0 || places == 0 {
    } else {
        let rest = stack.drop_first();
        let unit = pow(base, (places - 1) as nat);
        assert forall|i: int| 0 <= i < rest.len() implies alternatives(#[trigger] rest[i])
            < base by {
            assert(rest[i] == stack[i + 1]);
        }
        lemma_weight_bound(rest, base, (places - 1) as nat);
        lemma_pow_positive(base, (places - 1) as nat);
        let d = alternatives(stack[0]);
        assert(pow(base, places) == base * unit) by {
            vstd::arithmetic::power::lemma_pow_adds(base, 1, (places - 1) as nat);
            vstd::arithmetic::power::lemma_pow1(base);
        }
        assert(0 <= d * unit && d * unit + unit <= base * unit) by (nonlinear_arith)
            requires
                0 <= d < base,
                unit > 0,
        ;
    }
}

/// Of two stacks that agree below frame `at`, the one with fewer
/// alternatives in that frame weighs less.
pub proof fn lemma_weight_less(old: Seq<Frame>, new: Seq<Frame>, at: int, base: int, places: nat)
    requires
        base >= 1,
        0 <= at < old.len(),
        at < new.len(),
        new.len() <= places,
        old.len() <= places,
        old.take(at) == new.take(at),
        alternatives(new[at]) < alternatives(old[at]),
        forall|i: int| 0 <= i < new.len() ==> alternatives(#[trigger] new[i]) < base,
        forall|i: int| 0 <= i < old.len() ==> alternatives(#[trigger] old[i]) < base,
    ensures
        weight(new, base, places) < weight(old, base, places),
    decreases at,
{
    let unit = pow(base, (places - 1) as nat);
    let old_rest = old.drop_first();
    let new_rest = new.drop_first();
    assert forall|i: int| 0 <= i < new_rest.len() implies alternatives(#[trigger] new_rest[i])
        < base by {
        assert(new_rest[i] == new[i + 1]);
    }
    assert forall|i: int| 0 <= i < old_rest.len() implies alternatives(#[trigger] old_rest[i])
        < base by {
        assert(old_rest[i] == old[i + 1]);
    }
    lemma_pow_positive(base, (places - 1) as nat);
    if at == 0 {
        lemma_weight_bound(new_rest, base, (places - 1) as nat);
        lemma_weight_bound(old_rest, base, (places - 1) as nat);
        let dn = alternatives(new[0]);
        let d = alternatives(old[0]);
        assert(dn * unit + unit <= d * unit) by (nonlinear_arith)
            requires
                dn + 1 <= d,
                unit > 0,
        ;
    } else {
        assert(old[0] == old.take(at)[0]);
        assert(new[0] == new.take(at)[0]);
        assert(old_rest.take(at - 1) == old.take(at).drop_first());
        assert(new_rest.take(at - 1) == new.take(at).drop_first());
        lemma_weight_less(old_rest, new_rest, at - 1, base, (places - 1) as nat);
    }
}

/// In a well-formed graph the choice of a fitting frame is a file of the
/// graph, and the frame holds fewer alternatives than the graph has files.
pub proof fn lemma_frame_bounds(graph: DepGraphView, frame: Frame)
    requires
        graph.wf(),
        frame_ok(graph, frame),
    ensures
        chosen(frame) matches Some(x) ==> 0 <= x < graph.files.len(),
        0 <= alternatives(frame) < graph.files.len() + 1,
{
    match frame {
        Frame::Forward { src, dest, dep } => {
            let found = graph.deps[src][dep].candidates;
            lemma_candidates(
                graph.files,
                components(graph.deps[src][dep].decl.path),
                graph.files.len() as int,
            );
            assert(found[0] == dest);
        },
        Frame::Many { src, rest, dep } => {
            let found = graph.deps[src][dep].candidates;
            lemma_candidates(
                graph.files,
                components(graph.deps[src][dep].decl.path),
                graph.files.len() as int,
            );
            assert(rest.last() == reversed(found)[rest.len() - 1]);
            assert(rest.last() == found[found.len() - rest.len()]);
        },
        _ => {},
    }
}

/// The source of the frame that chose a file is a file of the graph.
pub proof fn lemma_parent_bounds(graph: DepGraphView, stack: Seq<Frame>, x: int)
    requires
        frames_ok(graph, stack),
    ensures
        parent_of(stack, x) matches Some(p) ==> 0 <= p < graph.deps.len(),
    decreases stack.len(),
{
    if stack.len() > 0 {
        assert(frame_ok(graph, stack.last()));
        if chosen(stack.last()) != Some(x) {
            assert forall|i: int| 0 <= i < stack.drop_last().len() implies frame_ok(
                graph,
                #[trigger] stack.drop_last()[i],
            ) by {
                assert(stack.drop_last()[i] == stack[i]);
            }
            lemma_parent_bounds(graph, stack.drop_last(), x);
        }
    }
}

/// The frame that an exploring step pushes fits the graph.
pub proof fn lemma_explore_frame(graph: DepGraphView, start: Option<int>, stack: Seq<Frame>)
    requires
        graph.wf(),
        frames_ok(graph, stack),
    ensures
        explore_frame(graph, start, stack) matches Some(frame) ==> frame_ok(graph, frame),
{
    if stack.len() > 0 {
        let top = stack.last();
        match position(start, top) {
            Some(cur) => {
                if 0 <= cur < graph.deps.len() {
                    lemma_first_open(graph, stack, cur, 0);
                    lemma_parent_bounds(graph, stack, cur);
                    match first_open(graph, stack, cur, 0) {
                        Some(k) => {
                            let found = graph.deps[cur][k].candidates;
                            assert(reversed(found).take(found.len() as int) == reversed(found));
                            if found.len() == 1 {
                                assert(found == seq![found[0]]);
                            }
                        },
                        None => {},
                    }
                }
            },
            None => {},
        }
    }
}

/// The first open dependency, where there is one, is a dependency of the
/// file at or after `from`, it is open, and all between are not.
pub proof fn lemma_first_open(graph: DepGraphView, stack: Seq<Frame>, f: int, from: int)
    requires
        0 <= from,
    ensures
        match first_open(graph, stack, f, from) {
            Some(k) => from <= k < graph.deps[f].len() && all_unseen(
                stack,
                graph.deps[f][k].candidates,
            ) && forall|j: int| from <= j < k ==> !all_unseen(
                stack,
                #[trigger] graph.deps[f][j].candidates,
            ),
            None => forall|j: int|
                from <= j < graph.deps[f].len() ==> !all_unseen(
                    stack,
                    #[trigger] graph.deps[f][j].candidates,
                ),
        },
    decreases graph.deps[f].len() - from,
{
    if from < graph.deps[f].len() && !all_unseen(stack, graph.deps[f][from].candidates) {
        lemma_first_open(graph, stack, f, from + 1);
    }
}

/// Exploring only adds frames, keeps the stack fitting and within capacity.
pub proof fn lemma_explore_all(graph: DepGraphView, start: Option<int>, stack: Seq<Frame>)
    requires
        graph.wf(),
        frames_ok(graph, stack),
        stack.len() <= capacity(graph),
    ensures
        frames_ok(graph, explore_all(graph, start, stack)),
        stack.len() <= explore_all(graph, start, stack).len() <= capacity(graph),
        explore_all(graph, start, stack).take(stack.len() as int) == stack,
    decreases capacity(graph) - stack.len(),
{
    if stack.len() >= capacity(graph) {
        assert(stack.take(stack.len() as int) == stack);
    } else {
        lemma_explore_frame(graph, start, stack);
        match explore_frame(graph, start, stack) {
            None => {
                assert(stack.take(stack.len() as int) == stack);
            },
            Some(frame) => {
                let next = stack.push(frame);
                assert forall|i: int| 0 <= i < next.len() implies frame_ok(
                    graph,
                    #[trigger] next[i],
                ) by {
                    if i < stack.len() {
                        assert(next[i] == stack[i]);
                    }
                }
                lemma_explore_all(graph, start, next);
                let end = explore_all(graph, start, next);
                assert(end.take(stack.len() as int) == end.take(next.len() as int).take(
                    stack.len() as int,
                ));
                assert(next.take(stack.len() as int) == stack);
            },
        }
    }
}

/// Backtracking keeps the stack fitting and no longer than it was; where it
/// finds another choice, the stacks agree below the top frame of the new
/// one, which holds one alternative less than the frame that it replaces.
pub proof fn lemma_backtrack(graph: DepGraphView, stack: Seq<Frame>)
    requires
        frames_ok(graph, stack),
    ensures
        frames_ok(graph, backtrack(stack).stack),
        backtrack(stack).stack.len() <= stack.len(),
        backtrack(stack).more ==> {
            let new = backtrack(stack).stack;
            &&& new.len() >= 1
            &&& new.take(new.len() - 1) == stack.take(new.len() - 1)
            &&& alternatives(new.last()) < alternatives(stack[new.len() - 1])
        },
    decreases stack.len(),
{
    if stack.len() > 0 {
        let below = stack.drop_last();
        assert forall|i: int| 0 <= i < below.len() implies frame_ok(graph, #[trigger] below[i]) by {
            assert(below[i] == stack[i]);
        }
        assert(frame_ok(graph, stack.last()));
        match stack.last() {
            Frame::Start => {},
            Frame::Many { src, rest, dep } => {
                if rest.len() > 1 {
                    let found = graph.deps[src][dep].candidates;
                    let left = rest.drop_last();
                    assert(left == reversed(found).take(left.len() as int));
                    let new = below.push(Frame::Many { src, rest: left, dep });
                    assert forall|i: int| 0 <= i < new.len() implies frame_ok(
                        graph,
                        #[trigger] new[i],
                    ) by {
                        if i < below.len() {
                            assert(new[i] == below[i]);
                        }
                    }
                    assert(new.take(new.len() - 1) == stack.take(new.len() - 1));
                } else {
                    lemma_backtrack(graph, below);
                    let new = backtrack(below).stack;
                    if backtrack(below).more {
                        assert(below.take(new.len() - 1) == stack.take(new.len() - 1));
                        assert(below[new.len() - 1] == stack[new.len() - 1]);
                    }
                }
            },
            _ => {
                lemma_backtrack(graph, below);
                let new = backtrack(below).stack;
                if backtrack(below).more {
                    assert(below.take(new.len() - 1) == stack.take(new.len() - 1));
                    assert(below[new.len() - 1] == stack[new.len() - 1]);
                }
            },
        }
    }
}

} // verus!
