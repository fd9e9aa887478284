//! Why the walk of a selector is short: every file is entered at most once
//! and left at most once, so a stack never holds more than twice as many
//! frames as the graph has files, and one.
//!
//! A stack is tidy where each frame was pushed from where the walk stood:
//! a frame that enters a file starts at the current file and only has files
//! to choose from that no frame below has chosen; a frame that leaves a
//! file leads back to the file from which it was entered.

use vstd::prelude::*;
use vstd::set_lib::{lemma_int_range, lemma_len_subset, set_int_range};
use crate::dep_graph::DepGraphView;
use crate::walk::{
    backtrack, capacity, chosen, enter, explore_all, explore_frame, first_open, frame_ok,
    frames_ok, lemma_first_open, lemma_frame_bounds, parent_of, position, reversed, seen,
    selection, Frame,
};

verus! {

/// Whether `frame` may stand on top of `below`.
pub open spec fn step_ok(start: Option<int>, below: Seq<Frame>, frame: Frame) -> bool {
    &&& below.len() > 0
    &&& match frame {
        Frame::Start => false,
        Frame::Forward { src, dest, .. } => {
            &&& position(start, below.last()) == Some(src)
            &&& !seen(below, dest)
        },
        Frame::Many { src, rest, .. } => {
            &&& position(start, below.last()) == Some(src)
            &&& forall|r: int| 0 <= r < rest.len() ==> !seen(below, #[trigger] rest[r])
        },
        Frame::Backward { src, dest } => {
            &&& position(start, below.last()) == Some(src)
            &&& parent_of(below, src) == Some(dest)
            &&& !(below.last() is Start)
            &&& !(below.last() is Backward && Some(src) == start)
        },
    }
}

/// Whether the stack is tidy: it begins with the start frame, and every
/// other frame may stand on those below it.
pub open spec fn tidy(start: Option<int>, stack: Seq<Frame>) -> bool
    decreases stack.len(),
{
    if stack.len() == 0 {
        false
    } else if stack.len() == 1 {
        stack[0] is Start
    } else {
        tidy(start, stack.drop_last()) && step_ok(start, stack.drop_last(), stack.last())
    }
}

/// The number of frames that have chosen a file.
pub open spec fn entered(stack: Seq<Frame>) -> nat
    decreases stack.len(),
{
    if stack.len() == 0 {
        0
    } else if chosen(stack.last()) is Some {
        entered(stack.drop_last()) + 1
    } else {
        entered(stack.drop_last())
    }
}

/// The number of frames that lead back.
pub open spec fn left(stack: Seq<Frame>) -> nat
    decreases stack.len(),
{
    if stack.len() == 0 {
        0
    } else if stack.last() is Backward {
        left(stack.drop_last()) + 1
    } else {
        left(stack.drop_last())
    }
}

/// The files that frames of the stack have chosen.
pub open spec fn chosen_set(stack: Seq<Frame>) -> Set<int>
    decreases stack.len(),
{
    if stack.len() == 0 {
        Set::empty()
    } else {
        match chosen(stack.last()) {
            Some(x) => chosen_set(stack.drop_last()).insert(x),
            None => chosen_set(stack.drop_last()),
        }
    }
}

/// The files from the start to the current one, each entered from the one
/// before it and not left yet. `root` stands for the start.
pub open spec fn open_path(root: int, stack: Seq<Frame>) -> Seq<int>
    decreases stack.len(),
{
    if stack.len() == 0 {
        Seq::empty()
    } else {
        match stack.last() {
            Frame::Start => seq![root],
            Frame::Backward { .. } => open_path(root, stack.drop_last()).drop_last(),
            _ => match chosen(stack.last()) {
                Some(x) => open_path(root, stack.drop_last()).push(x),
                None => open_path(root, stack.drop_last()),
            },
        }
    }
}

pub open spec fn root_of(start: Option<int>) -> int {
    match start {
        Some(s) => s,
        None => -1,
    }
}

/// A frame below makes a file seen above.
pub proof fn lemma_seen_push(below: Seq<Frame>, frame: Frame, x: int)
    ensures
        seen(below, x) ==> seen(below.push(frame), x),
        chosen(frame) == Some(x) ==> seen(below.push(frame), x),
        seen(below.push(frame), x) ==> seen(below, x) || chosen(frame) == Some(x),
{
    let stack = below.push(frame);
    if seen(below, x) {
        let i = choose|i: int| 0 <= i < below.len() && chosen(#[trigger] below[i]) == Some(x);
        assert(stack[i] == below[i]);
    }
    if chosen(frame) == Some(x) {
        assert(stack[below.len() as int] == frame);
    }
    if seen(stack, x) {
        let i = choose|i: int| 0 <= i < stack.len() && chosen(#[trigger] stack[i]) == Some(x);
        if i < below.len() {
            assert(below[i] == stack[i]);
        }
    }
}

/// What holds of a tidy stack that fits a well-formed graph.
pub open spec fn walked_well(graph: DepGraphView, start: Option<int>, stack: Seq<Frame>) -> bool {
    let path = open_path(root_of(start), stack);
    let set = chosen_set(stack);
    &&& stack.len() == 1 + entered(stack) + left(stack)
    &&& path.len() == 1 + entered(stack) - left(stack)
    &&& path.len() >= 1
    &&& path[0] == root_of(start)
    &&& path.len() >= 2 ==> start == Some(path[0]) && position(start, stack.last()) == Some(
        path.last(),
    )
    &&& path.len() == 1 ==> position(start, stack.last()) == start
    &&& chosen(stack.last()) is Some ==> path.len() >= 2
    &&& forall|j: int|
        1 <= j < path.len() ==> seen(stack, #[trigger] path[j]) && parent_of(stack, path[j])
            == Some(path[j - 1])
    &&& set.finite()
    &&& set.len() == entered(stack)
    &&& forall|x: int| set.contains(x) <==> seen(stack, x)
    &&& forall|x: int| set.contains(x) ==> 0 <= x < graph.files.len()
}

/// A tidy stack that fits a well-formed graph was walked well.
pub proof fn lemma_walked_well(graph: DepGraphView, start: Option<int>, stack: Seq<Frame>)
    requires
        graph.wf(),
        frames_ok(graph, stack),
        tidy(start, stack),
    ensures
        walked_well(graph, start, stack),
    decreases stack.len(),
{
    let root = root_of(start);
    if stack.len() == 1 {
        assert(stack.drop_last().len() == 0);
        assert(stack.last() == stack[0]);
        assert(chosen(stack[0]) is None);
        assert(chosen_set(stack.drop_last()) == Set::<int>::empty());
        assert(chosen_set(stack) == Set::<int>::empty());
        assert(entered(stack.drop_last()) == 0);
        assert(left(stack.drop_last()) == 0);
        assert(!seen(stack, root)) by {
            if seen(stack, root) {
                let i = choose|i: int| 0 <= i < stack.len() && chosen(#[trigger] stack[i]) == Some(
                    root,
                );
            }
        }
        assert forall|x: int| chosen_set(stack).contains(x) <==> seen(stack, x) by {
            if seen(stack, x) {
                let i = choose|i: int| 0 <= i < stack.len() && chosen(#[trigger] stack[i]) == Some(
                    x,
                );
            }
        }
    } else {
        let below = stack.drop_last();
        let frame = stack.last();
        assert(stack == below.push(frame));
        assert forall|i: int| 0 <= i < below.len() implies frame_ok(graph, #[trigger] below[i]) by {
            assert(below[i] == stack[i]);
        }
        assert(frame_ok(graph, stack[stack.len() - 1]));
        lemma_walked_well(graph, start, below);
        lemma_frame_bounds(graph, frame);
        let path = open_path(root, below);
        let now = open_path(root, stack);
        let set = chosen_set(below);
        assert forall|x: int| seen(stack, x) <==> (seen(below, x) || chosen(frame) == Some(x)) by {
            lemma_seen_push(below, frame, x);
        }
        match frame {
            Frame::Start => {},
            Frame::Backward { src, dest } => {
                // The walk stands at `src`, which is not the start of the path.
                if path.len() == 1 {
                    // The top of `below` is no start frame and chose no file, so it
                    // leads back, and it leads back to the start.
                    assert(chosen(below.last()) is None);
                    assert(frame_ok(graph, below[below.len() - 1]));
                    assert(below.last() is Backward);
                    assert(false);
                }
                assert(path.last() == src);
                assert(parent_of(below, path[path.len() - 1]) == Some(path[path.len() - 2]));
                assert(now == path.drop_last());
                assert forall|j: int| 1 <= j < now.len() implies seen(stack, #[trigger] now[j])
                    && parent_of(stack, now[j]) == Some(now[j - 1]) by {
                    assert(now[j] == path[j]);
                    assert(now[j - 1] == path[j - 1]);
                    assert(seen(below, path[j]));
                }
                assert forall|x: int| chosen_set(stack).contains(x) <==> seen(stack, x) by {}
            },
            _ => {
                let x = chosen(frame).unwrap();
                let src = match frame {
                    Frame::Forward { src, .. } => src,
                    Frame::Many { src, .. } => src,
                    _ => 0,
                };
                assert(!seen(below, x)) by {
                    match frame {
                        Frame::Many { rest, .. } => {
                            assert(rest[rest.len() - 1] == x);
                        },
                        _ => {},
                    }
                }
                assert(now == path.push(x));
                assert(path.last() == src);
                assert(start == Some(now[0]));
                assert forall|j: int| 1 <= j < now.len() implies seen(stack, #[trigger] now[j])
                    && parent_of(stack, now[j]) == Some(now[j - 1]) by {
                    if j < path.len() {
                        assert(now[j] == path[j]);
                        assert(now[j - 1] == path[j - 1]);
                        assert(seen(below, path[j]));
                        assert(path[j] != x);
                    }
                }
                assert(!set.contains(x));
                assert forall|y: int| chosen_set(stack).contains(y) <==> seen(stack, y) by {}
            },
        }
    }
}

/// A tidy stack that fits a well-formed graph is within the capacity of
/// the graph, with room for one more frame.
pub proof fn lemma_tidy_is_short(graph: DepGraphView, start: Option<int>, stack: Seq<Frame>)
    requires
        graph.wf(),
        frames_ok(graph, stack),
        tidy(start, stack),
    ensures
        stack.len() < capacity(graph),
{
    lemma_walked_well(graph, start, stack);
    let set = chosen_set(stack);
    let n = graph.files.len() as int;
    lemma_int_range(0, n);
    assert(set.subset_of(set_int_range(0, n)));
    lemma_len_subset(set, set_int_range(0, n));
}

/// The frame that an exploring step pushes may stand on the stack.
pub proof fn lemma_explore_frame_tidy(graph: DepGraphView, start: Option<int>, stack: Seq<Frame>)
    requires
        tidy(start, stack),
    ensures
        explore_frame(graph, start, stack) matches Some(frame) ==> tidy(
            start,
            stack.push(frame),
        ),
{
    match explore_frame(graph, start, stack) {
        Some(frame) => {
            let top = stack.last();
            let cur = position(start, top).unwrap();
            assert(stack.push(frame).drop_last() == stack);
            lemma_first_open(graph, stack, cur, 0);
            match first_open(graph, stack, cur, 0) {
                Some(k) => {
                    let found = graph.deps[cur][k].candidates;
                    assert(frame == enter(graph, cur, k));
                    if found.len() == 1 {
                        assert(!seen(stack, found[0]));
                    } else {
                        assert forall|r: int| 0 <= r < found.len() implies !seen(
                            stack,
                            #[trigger] reversed(found)[r],
                        ) by {
                            assert(!seen(stack, found[found.len() - 1 - r]));
                        }
                    }
                },
                None => {},
            }
        },
        None => {},
    }
}

/// Exploring keeps a stack tidy, and the capacity never stops it: where a
/// step is possible, the stack has room for its frame.
pub proof fn lemma_explore_all_tidy(graph: DepGraphView, start: Option<int>, stack: Seq<Frame>)
    requires
        graph.wf(),
        frames_ok(graph, stack),
        tidy(start, stack),
    ensures
        tidy(start, explore_all(graph, start, stack)),
        explore_frame(graph, start, explore_all(graph, start, stack)) is None,
    decreases capacity(graph) - stack.len(),
{
    lemma_tidy_is_short(graph, start, stack);
    match explore_frame(graph, start, stack) {
        None => {},
        Some(frame) => {
            let next = stack.push(frame);
            lemma_explore_frame_tidy(graph, start, stack);
            crate::walk::lemma_explore_frame(graph, start, stack);
            assert forall|i: int| 0 <= i < next.len() implies frame_ok(graph, #[trigger] next[i]) by {
                if i < stack.len() {
                    assert(next[i] == stack[i]);
                }
            }
            lemma_explore_all_tidy(graph, start, next);
        },
    }
}

/// Backtracking keeps a stack tidy.
pub proof fn lemma_backtrack_tidy(start: Option<int>, stack: Seq<Frame>)
    requires
        tidy(start, stack),
    ensures
        tidy(start, backtrack(stack).stack),
    decreases stack.len(),
{
    if stack.len() > 1 {
        let below = stack.drop_last();
        match stack.last() {
            Frame::Start => {},
            Frame::Many { src, rest, dep } => {
                if rest.len() > 1 {
                    let left = rest.drop_last();
                    let new = below.push(Frame::Many { src, rest: left, dep });
                    assert(new.drop_last() == below);
                    assert forall|r: int| 0 <= r < left.len() implies !seen(
                        below,
                        #[trigger] left[r],
                    ) by {
                        assert(left[r] == rest[r]);
                    }
                } else {
                    lemma_backtrack_tidy(start, below);
                }
            },
            _ => {
                lemma_backtrack_tidy(start, below);
            },
        }
    }
}

/// No file is chosen twice in a walk, and every choice is a header of the
/// graph that resolves the declaration for which it was chosen: the items
/// of the selection of a tidy stack are files of the graph, they resolve
/// their declarations, and no two of them are the same file.
pub proof fn lemma_selection_picks(graph: DepGraphView, start: Option<int>, stack: Seq<Frame>)
    requires
        graph.wf(),
        frames_ok(graph, stack),
        tidy(start, stack),
    ensures
        forall|a: int|
            0 <= a < selection(graph, stack).len() ==> {
                let pick = #[trigger] selection(graph, stack)[a];
                &&& 0 <= pick.0 < graph.files.len()
                &&& seen(stack, pick.0)
                &&& crate::dep_graph::resolves(
                    graph.files[pick.0],
                    crate::path::components(pick.1.path),
                )
            },
        forall|a: int, b: int|
            0 <= a < b < selection(graph, stack).len() ==> (#[trigger] selection(
                graph,
                stack,
            )[a]).0 != (#[trigger] selection(graph, stack)[b]).0,
    decreases stack.len(),
{
    if stack.len() == 1 {
        assert(stack.drop_last().len() == 0);
        assert(selection(graph, stack.drop_last()).len() == 0);
        assert(stack.last() == stack[0]);
    } else {
        let below = stack.drop_last();
        let frame = stack.last();
        assert(stack == below.push(frame));
        assert forall|i: int| 0 <= i < below.len() implies frame_ok(graph, #[trigger] below[i]) by {
            assert(below[i] == stack[i]);
        }
        assert(frame_ok(graph, stack[stack.len() - 1]));
        lemma_selection_picks(graph, start, below);
        crate::walk::lemma_choice_resolves(graph, frame);
        let now = selection(graph, stack);
        let before = selection(graph, below);
        assert forall|a: int| 0 <= a < now.len() implies {
            let pick = #[trigger] now[a];
            &&& 0 <= pick.0 < graph.files.len()
            &&& seen(stack, pick.0)
            &&& crate::dep_graph::resolves(
                graph.files[pick.0],
                crate::path::components(pick.1.path),
            )
        } by {
            if a < before.len() {
                assert(now[a] == before[a]);
                lemma_seen_push(below, frame, before[a].0);
            } else {
                lemma_seen_push(below, frame, now[a].0);
            }
        }
        assert forall|a: int, b: int| 0 <= a < b < now.len() implies (#[trigger] now[a]).0 != (
        #[trigger] now[b]).0 by {
            assert(now[a] == before[a]);
            if b < before.len() {
                assert(now[b] == before[b]);
            } else {
                // The file chosen last was not seen below.
                assert(seen(below, before[a].0));
                match frame {
                    Frame::Many { rest, .. } => {
                        assert(rest[rest.len() - 1] == now[b].0);
                    },
                    _ => {},
                }
            }
        }
    }
}

} // verus!
