use vstd::prelude::*;
use crate::geometry::{or, spec_or, Collision};
use crate::hierarchy::{children_first, leaves, BoundingHierarchy, HierarchyNode, Node};
use crate::scalar::Scalar;
use crate::types::Range;

verus! {

/// What the slab test of the box of a node answers for a range of the ray's
/// parameter: the part of the range inside the box, or `None` on a miss.
pub type BoxTest = spec_fn(int, Range) -> Option<Range>;

/// What a primitive, named by its handle, answers for a range of the ray's
/// parameter: its hit inside the range, or `None`.
pub type HitTest = spec_fn(usize, Range) -> Option<Collision>;

/// The range in which the right child is searched: the part of the range
/// inside the parent's box, cut off at the hit of the left child if there
/// is one.
pub open spec fn right_range(clipped: Range, left: Option<Collision>) -> Range {
    match left {
        Some(c) => Range(clipped.0, c.t),
        None => clipped,
    }
}

/// The hit that the hierarchy below node `i` reports for a range. A node
/// whose box is missed reports nothing. A leaf reports what its primitive
/// does. An inner node asks the left child over the whole range and the
/// right child over the range cut off at the left hit: a hit on the right
/// is then nearer, and goes first.
pub open spec fn spec_collide(
    nodes: Seq<Node>,
    i: int,
    range: Range,
    box_test: BoxTest,
    hit_test: HitTest,
) -> Option<Collision>
    decreases i,
{
    if 0 <= i < nodes.len() {
        match box_test(i, range) {
            None => None,
            Some(clipped) => match nodes[i].data {
                HierarchyNode::Leaf(handle) => hit_test(handle, range),
                HierarchyNode::Tree(left, right) => if left < i && right < i {
                    let left_hit = spec_collide(nodes, left as int, range, box_test, hit_test);
                    let right_hit = spec_collide(
                        nodes,
                        right as int,
                        right_range(clipped, left_hit),
                        box_test,
                        hit_test,
                    );
                    spec_or(right_hit, left_hit)
                } else {
                    None
                },
            },
        }
    } else {
        None
    }
}

/// The state of a search through a list of primitives, one after the other:
/// the upper end of the range that is left, and the nearest hit so far.
pub open spec fn scan_from(
    handles: Seq<usize>,
    lower: Scalar,
    upper: Scalar,
    best: Option<Collision>,
    hit_test: HitTest,
) -> (Scalar, Option<Collision>)
    decreases handles.len(),
{
    if handles.len() == 0 {
        (upper, best)
    } else {
        match hit_test(handles[0], Range(lower, upper)) {
            Some(c) => scan_from(handles.drop_first(), lower, c.t, Some(c), hit_test),
            None => scan_from(handles.drop_first(), lower, upper, best, hit_test),
        }
    }
}

/// The nearest hit that a search through all the primitives finds: each is
/// asked over the range cut off at the nearest hit so far.
pub open spec fn linear_scan(handles: Seq<usize>, range: Range, hit_test: HitTest) -> Option<
    Collision,
> {
    scan_from(handles, range.0, range.1, None, hit_test).1
}

/// The boxes bound what is below them, as far as a search can tell: where
/// the box of a node is missed, no primitive below it is hit in the range;
/// where it is met, no primitive below it answers differently when the
/// range is cut down to the part inside the box.
pub open spec fn boxes_bound(nodes: Seq<Node>, box_test: BoxTest, hit_test: HitTest) -> bool {
    forall|i: int, range: Range, k: int|
        0 <= i < nodes.len() && 0 <= k < leaves(nodes, i).len() ==> match #[trigger] box_test(
            i,
            range,
        ) {
            None => hit_test(#[trigger] leaves(nodes, i)[k], range) is None,
            Some(clipped) => {
                &&& hit_test(leaves(nodes, i)[k], clipped) == hit_test(leaves(nodes, i)[k], range)
                &&& forall|t: Scalar| #[trigger]
                    hit_test(leaves(nodes, i)[k], Range(clipped.0, t)) == hit_test(
                        leaves(nodes, i)[k],
                        Range(range.0, t),
                    )
            },
        }
}

/// Searching a list is searching its first part and going on through the
/// rest from the state reached.
pub proof fn lemma_scan_split(
    first: Seq<usize>,
    rest: Seq<usize>,
    lower: Scalar,
    upper: Scalar,
    best: Option<Collision>,
    hit_test: HitTest,
)
    ensures
        scan_from(first + rest, lower, upper, best, hit_test) == scan_from(
            rest,
            lower,
            scan_from(first, lower, upper, best, hit_test).0,
            scan_from(first, lower, upper, best, hit_test).1,
            hit_test,
        ),
    decreases first.len(),
{
    if first.len() == 0 {
        assert(first + rest =~= rest);
    } else {
        let all = first + rest;
        assert(all[0] == first[0]);
        assert(all.drop_first() =~= first.drop_first() + rest);
        match hit_test(first[0], Range(lower, upper)) {
            Some(c) => lemma_scan_split(first.drop_first(), rest, lower, c.t, Some(c), hit_test),
            None => lemma_scan_split(first.drop_first(), rest, lower, upper, best, hit_test),
        }
    }
}

/// A search that starts with no hit ends with the upper end it started with
/// if it found nothing, and else with the parameter of the hit it found.
pub proof fn lemma_scan_upper(
    handles: Seq<usize>,
    lower: Scalar,
    upper: Scalar,
    best: Option<Collision>,
    hit_test: HitTest,
)
    requires
        best is Some ==> upper == best.unwrap().t,
    ensures
        match scan_from(handles, lower, upper, best, hit_test).1 {
            Some(c) => scan_from(handles, lower, upper, best, hit_test).0 == c.t,
            None => best is None && scan_from(handles, lower, upper, best, hit_test).0 == upper,
        },
    decreases handles.len(),
{
    if handles.len() > 0 {
        match hit_test(handles[0], Range(lower, upper)) {
            Some(c) => lemma_scan_upper(handles.drop_first(), lower, c.t, Some(c), hit_test),
            None => lemma_scan_upper(handles.drop_first(), lower, upper, best, hit_test),
        }
    }
}

/// The hit that a search starts with is what it falls back on, and changes
/// nothing else.
pub proof fn lemma_scan_fallback(
    handles: Seq<usize>,
    lower: Scalar,
    upper: Scalar,
    best: Option<Collision>,
    hit_test: HitTest,
)
    ensures
        scan_from(handles, lower, upper, best, hit_test).0 == scan_from(
            handles,
            lower,
            upper,
            None,
            hit_test,
        ).0,
        scan_from(handles, lower, upper, best, hit_test).1 == spec_or(
            scan_from(handles, lower, upper, None, hit_test).1,
            best,
        ),
    decreases handles.len(),
{
    if handles.len() > 0 {
        match hit_test(handles[0], Range(lower, upper)) {
            Some(c) => {
                lemma_scan_upper(handles.drop_first(), lower, c.t, Some(c), hit_test);
            },
            None => {
                lemma_scan_fallback(handles.drop_first(), lower, upper, best, hit_test);
            },
        }
    }
}

/// A search in which nothing is hit in the whole range finds nothing.
pub proof fn lemma_scan_misses(
    handles: Seq<usize>,
    lower: Scalar,
    upper: Scalar,
    best: Option<Collision>,
    hit_test: HitTest,
)
    requires
        forall|k: int|
            0 <= k < handles.len() ==> hit_test(#[trigger] handles[k], Range(lower, upper)) is None,
    ensures
        scan_from(handles, lower, upper, best, hit_test) == (upper, best),
    decreases handles.len(),
{
    if handles.len() > 0 {
        assert(hit_test(handles[0], Range(lower, upper)) is None);
        let rest = handles.drop_first();
        assert forall|k: int| 0 <= k < rest.len() implies hit_test(
            #[trigger] rest[k],
            Range(lower, upper),
        ) is None by {
            assert(rest[k] == handles[k + 1]);
        }
        lemma_scan_misses(rest, lower, upper, best, hit_test);
    }
}

/// Raising the lower end changes nothing in a search where no primitive
/// answers differently for it.
pub proof fn lemma_scan_lower(
    handles: Seq<usize>,
    lower: Scalar,
    raised: Scalar,
    upper: Scalar,
    best: Option<Collision>,
    hit_test: HitTest,
)
    requires
        forall|k: int, t: Scalar|
            0 <= k < handles.len() ==> #[trigger] hit_test(handles[k], Range(raised, t))
                == hit_test(handles[k], Range(lower, t)),
    ensures
        scan_from(handles, raised, upper, best, hit_test) == scan_from(
            handles,
            lower,
            upper,
            best,
            hit_test,
        ),
    decreases handles.len(),
{
    if handles.len() > 0 {
        let rest = handles.drop_first();
        assert(hit_test(handles[0], Range(raised, upper)) == hit_test(
            handles[0],
            Range(lower, upper),
        ));
        assert forall|k: int, t: Scalar| 0 <= k < rest.len() implies #[trigger] hit_test(
            rest[k],
            Range(raised, t),
        ) == hit_test(rest[k], Range(lower, t)) by {
            assert(rest[k] == handles[k + 1]);
            assert(hit_test(handles[k + 1], Range(raised, t)) == hit_test(
                handles[k + 1],
                Range(lower, t),
            ));
        }
        match hit_test(handles[0], Range(lower, upper)) {
            Some(c) => lemma_scan_lower(rest, lower, raised, c.t, Some(c), hit_test),
            None => lemma_scan_lower(rest, lower, raised, upper, best, hit_test),
        }
    }
}

/// Cutting the range down to `clipped` changes nothing in what a search
/// finds where no primitive answers differently for it.
pub proof fn lemma_scan_clipped(
    handles: Seq<usize>,
    range: Range,
    clipped: Range,
    hit_test: HitTest,
)
    requires
        forall|k: int, t: Scalar|
            0 <= k < handles.len() ==> #[trigger] hit_test(handles[k], Range(clipped.0, t))
                == hit_test(handles[k], Range(range.0, t)),
        forall|k: int|
            0 <= k < handles.len() ==> hit_test(#[trigger] handles[k], clipped) == hit_test(
                handles[k],
                range,
            ),
    ensures
        linear_scan(handles, clipped, hit_test) == linear_scan(handles, range, hit_test),
    decreases handles.len(),
{
    if handles.len() > 0 {
        let rest = handles.drop_first();
        assert(hit_test(handles[0], clipped) == hit_test(handles[0], range));
        assert(clipped == Range(clipped.0, clipped.1));
        assert(range == Range(range.0, range.1));
        assert forall|k: int, t: Scalar| 0 <= k < rest.len() implies #[trigger] hit_test(
            rest[k],
            Range(clipped.0, t),
        ) == hit_test(rest[k], Range(range.0, t)) by {
            assert(rest[k] == handles[k + 1]);
            assert(hit_test(handles[k + 1], Range(clipped.0, t)) == hit_test(
                handles[k + 1],
                Range(range.0, t),
            ));
        }
        assert forall|k: int| 0 <= k < rest.len() implies hit_test(#[trigger] rest[k], clipped)
            == hit_test(rest[k], range) by {
            assert(rest[k] == handles[k + 1]);
        }
        match hit_test(handles[0], range) {
            Some(c) => {
                lemma_scan_lower(rest, range.0, clipped.0, c.t, Some(c), hit_test);
            },
            None => {
                lemma_scan_clipped(rest, range, clipped, hit_test);
            },
        }
    }
}

/// The hierarchy changes how fast a hit is found, not which: where the
/// boxes bound what is below them, the hit that the hierarchy reports below
/// a node is the hit that a search through the primitives below it finds,
/// one after the other from left to right.
pub proof fn lemma_traversal_is_linear_scan(
    nodes: Seq<Node>,
    i: int,
    range: Range,
    box_test: BoxTest,
    hit_test: HitTest,
)
    requires
        children_first(nodes),
        0 <= i < nodes.len(),
        boxes_bound(nodes, box_test, hit_test),
    ensures
        spec_collide(nodes, i, range, box_test, hit_test) == linear_scan(
            leaves(nodes, i),
            range,
            hit_test,
        ),
    decreases i,
{
    let below = leaves(nodes, i);
    assert(range == Range(range.0, range.1));
    match box_test(i, range) {
        None => {
            assert forall|k: int| 0 <= k < below.len() implies hit_test(
                #[trigger] below[k],
                Range(range.0, range.1),
            ) is None by {
                assert(box_test(i, range) is None);
                assert(hit_test(leaves(nodes, i)[k], range) is None);
            }
            lemma_scan_misses(below, range.0, range.1, None, hit_test);
        },
        Some(clipped) => {
            match nodes[i].data {
                HierarchyNode::Leaf(handle) => {
                    assert(below.drop_first() =~= Seq::<usize>::empty());
                    assert(below[0] == handle);
                    reveal_with_fuel(scan_from, 2);
                },
                HierarchyNode::Tree(left, right) => {
                    let first = leaves(nodes, left as int);
                    let rest = leaves(nodes, right as int);
                    assert(below == first + rest);
                    lemma_traversal_is_linear_scan(nodes, left as int, range, box_test, hit_test);
                    let left_hit = spec_collide(nodes, left as int, range, box_test, hit_test);
                    let cut = right_range(clipped, left_hit);
                    lemma_traversal_is_linear_scan(nodes, right as int, cut, box_test, hit_test);
                    let state = scan_from(first, range.0, range.1, None, hit_test);
                    assert(state.1 == left_hit);
                    lemma_scan_upper(first, range.0, range.1, None, hit_test);
                    lemma_scan_split(first, rest, range.0, range.1, None, hit_test);
                    lemma_scan_fallback(rest, range.0, state.0, state.1, hit_test);
                    assert forall|k: int, t: Scalar| 0 <= k < rest.len() implies #[trigger] hit_test(
                        rest[k],
                        Range(clipped.0, t),
                    ) == hit_test(rest[k], Range(range.0, t)) by {
                        assert(box_test(i, range) == Some(clipped));
                        assert(leaves(nodes, i)[first.len() + k] == rest[k]);
                    }
                    assert forall|k: int| 0 <= k < rest.len() implies hit_test(
                        #[trigger] rest[k],
                        clipped,
                    ) == hit_test(rest[k], range) by {
                        assert(box_test(i, range) == Some(clipped));
                        assert(leaves(nodes, i)[first.len() + k] == rest[k]);
                    }
                    match left_hit {
                        Some(c) => {
                            lemma_scan_lower(rest, range.0, clipped.0, c.t, None, hit_test);
                        },
                        None => {
                            assert(clipped == Range(clipped.0, clipped.1));
                            lemma_scan_clipped(rest, range, clipped, hit_test);
                        },
                    }
                },
            }
        },
    }
}

/// What a search through the hierarchy has put aside while it is below a
/// node: the right child still to be searched, with the part of the range
/// inside the parent's box, or the hit of the left child to fall back on.
#[derive(Debug, Clone, Copy)]
pub enum Frame {
    Right { node: usize, clipped: Range },
    Keep { left: Option<Collision> },
}

/// What a search waits for: the slab test of the box of a node, the hit
/// test of a primitive, or nothing more, the result being there.
#[derive(Debug, Clone, Copy)]
pub enum Pending {
    Bounds { node: usize, range: Range },
    Primitive { handle: usize, range: Range },
    Done(Option<Collision>),
}

/// The answer to what a search waits for.
#[derive(Debug, Clone, Copy)]
pub enum Answer {
    Bounds(Option<Range>),
    Primitive(Option<Collision>),
}

/// A search for the nearest hit of one ray in a hierarchy, taken one test
/// at a time. The search says which test it waits for; whoever owns the ray
/// and the geometry makes the test and hands the answer to `step`.
#[derive(Debug)]
pub struct Traversal {
    stack: Vec<Frame>,
    pending: Pending,
}

/// A value handed back to the frames put aside: what the search waits for
/// next, and the frames that are left.
pub open spec fn spec_unwind(frames: Seq<Frame>, value: Option<Collision>) -> (Seq<Frame>, Pending)
    decreases frames.len(),
{
    if frames.len() == 0 {
        (frames, Pending::Done(value))
    } else {
        match frames.last() {
            Frame::Keep { left } => spec_unwind(frames.drop_last(), spec_or(value, left)),
            Frame::Right { node, clipped } => (
                frames.drop_last().push(Frame::Keep { left: value }),
                Pending::Bounds { node, range: right_range(clipped, value) },
            ),
        }
    }
}

/// Whether the answer is of the kind that is waited for.
pub open spec fn answers(pending: Pending, answer: Answer) -> bool {
    match (pending, answer) {
        (Pending::Bounds { .. }, Answer::Bounds(_)) => true,
        (Pending::Primitive { .. }, Answer::Primitive(_)) => true,
        _ => false,
    }
}

/// The state of a search after an answer.
pub open spec fn spec_step(
    nodes: Seq<Node>,
    frames: Seq<Frame>,
    pending: Pending,
    answer: Answer,
) -> (Seq<Frame>, Pending) {
    match (pending, answer) {
        (Pending::Bounds { node, range }, Answer::Bounds(None)) => spec_unwind(frames, None),
        (Pending::Bounds { node, range }, Answer::Bounds(Some(clipped))) => match nodes[node as int].data {
            HierarchyNode::Leaf(handle) => (frames, Pending::Primitive { handle, range }),
            HierarchyNode::Tree(left, right) => (
                frames.push(Frame::Right { node: right, clipped }),
                Pending::Bounds { node: left, range },
            ),
        },
        (Pending::Primitive { handle, range }, Answer::Primitive(hit)) => spec_unwind(frames, hit),
        _ => (frames, pending),
    }
}

/// Every node that the state names is a node of the hierarchy.
pub open spec fn state_valid(nodes: Seq<Node>, frames: Seq<Frame>, pending: Pending) -> bool {
    &&& forall|k: int|
        0 <= k < frames.len() ==> match #[trigger] frames[k] {
            Frame::Right { node, clipped } => node < nodes.len(),
            Frame::Keep { left } => true,
        }
    &&& match pending {
        Pending::Bounds { node, range } => node < nodes.len(),
        Pending::Primitive { handle, range } => true,
        Pending::Done(_) => frames.len() == 0,
    }
}

/// What the search ends with once `value` is handed back to the frames put
/// aside, if every test is answered as `box_test` and `hit_test` say.
pub open spec fn spec_resume(
    nodes: Seq<Node>,
    frames: Seq<Frame>,
    value: Option<Collision>,
    box_test: BoxTest,
    hit_test: HitTest,
) -> Option<Collision>
    decreases frames.len(),
{
    if frames.len() == 0 {
        value
    } else {
        match frames.last() {
            Frame::Keep { left } => spec_resume(
                nodes,
                frames.drop_last(),
                spec_or(value, left),
                box_test,
                hit_test,
            ),
            Frame::Right { node, clipped } => spec_resume(
                nodes,
                frames.drop_last(),
                spec_or(
                    spec_collide(
                        nodes,
                        node as int,
                        right_range(clipped, value),
                        box_test,
                        hit_test,
                    ),
                    value,
                ),
                box_test,
                hit_test,
            ),
        }
    }
}

/// What the search ends with from a state, if every test is answered as
/// `box_test` and `hit_test` say.
pub open spec fn spec_outcome(
    nodes: Seq<Node>,
    frames: Seq<Frame>,
    pending: Pending,
    box_test: BoxTest,
    hit_test: HitTest,
) -> Option<Collision> {
    match pending {
        Pending::Bounds { node, range } => spec_resume(
            nodes,
            frames,
            spec_collide(nodes, node as int, range, box_test, hit_test),
            box_test,
            hit_test,
        ),
        Pending::Primitive { handle, range } => spec_resume(
            nodes,
            frames,
            hit_test(handle, range),
            box_test,
            hit_test,
        ),
        Pending::Done(value) => value,
    }
}

/// Whether the answer is the one that `box_test` and `hit_test` give to what
/// is waited for.
pub open spec fn answer_is_true(
    pending: Pending,
    answer: Answer,
    box_test: BoxTest,
    hit_test: HitTest,
) -> bool {
    match (pending, answer) {
        (Pending::Bounds { node, range }, Answer::Bounds(clipped)) => clipped == box_test(
            node as int,
            range,
        ),
        (Pending::Primitive { handle, range }, Answer::Primitive(hit)) => hit == hit_test(
            handle,
            range,
        ),
        _ => false,
    }
}

/// Handing a value back to the frames leads to a state that names nodes of
/// the hierarchy only.
pub proof fn lemma_unwind_valid(nodes: Seq<Node>, frames: Seq<Frame>, value: Option<Collision>)
    requires
        forall|k: int|
            0 <= k < frames.len() ==> match #[trigger] frames[k] {
                Frame::Right { node, clipped } => node < nodes.len(),
                Frame::Keep { left } => true,
            },
    ensures
        state_valid(nodes, spec_unwind(frames, value).0, spec_unwind(frames, value).1),
    decreases frames.len(),
{
    if frames.len() > 0 {
        let rest = frames.drop_last();
        assert forall|k: int| 0 <= k < rest.len() implies match #[trigger] rest[k] {
            Frame::Right { node, clipped } => node < nodes.len(),
            Frame::Keep { left } => true,
        } by {
            assert(rest[k] == frames[k]);
        }
        match frames.last() {
            Frame::Keep { left } => {
                lemma_unwind_valid(nodes, rest, spec_or(value, left));
            },
            Frame::Right { node, clipped } => {
                let pushed = rest.push(Frame::Keep { left: value });
                assert(frames[frames.len() - 1] == frames.last());
                assert forall|k: int| 0 <= k < pushed.len() implies match #[trigger] pushed[k] {
                    Frame::Right { node, clipped } => node < nodes.len(),
                    Frame::Keep { left } => true,
                } by {
                    if k < rest.len() {
                        assert(pushed[k] == frames[k]);
                    }
                }
            },
        }
    }
}

/// An answer of the kind that is waited for leads to a state that names
/// nodes of the hierarchy only.
pub proof fn lemma_step_valid(nodes: Seq<Node>, frames: Seq<Frame>, pending: Pending, answer: Answer)
    requires
        children_first(nodes),
        state_valid(nodes, frames, pending),
        answers(pending, answer),
    ensures
        state_valid(
            nodes,
            spec_step(nodes, frames, pending, answer).0,
            spec_step(nodes, frames, pending, answer).1,
        ),
{
    match (pending, answer) {
        (Pending::Bounds { node, range }, Answer::Bounds(None)) => {
            lemma_unwind_valid(nodes, frames, None);
        },
        (Pending::Bounds { node, range }, Answer::Bounds(Some(clipped))) => {
            match nodes[node as int].data {
                HierarchyNode::Leaf(handle) => {},
                HierarchyNode::Tree(left, right) => {
                    let pushed = frames.push(Frame::Right { node: right, clipped });
                    assert forall|k: int| 0 <= k < pushed.len() implies match #[trigger] pushed[k] {
                        Frame::Right { node, clipped } => node < nodes.len(),
                        Frame::Keep { left } => true,
                    } by {
                        if k < frames.len() {
                            assert(pushed[k] == frames[k]);
                        }
                    }
                },
            }
        },
        (Pending::Primitive { handle, range }, Answer::Primitive(hit)) => {
            lemma_unwind_valid(nodes, frames, hit);
        },
        _ => {},
    }
}

/// Handing a value back to the frames leads to a state that ends as the
/// frames would with that value.
pub proof fn lemma_unwind(
    nodes: Seq<Node>,
    frames: Seq<Frame>,
    value: Option<Collision>,
    box_test: BoxTest,
    hit_test: HitTest,
)
    ensures
        spec_outcome(
            nodes,
            spec_unwind(frames, value).0,
            spec_unwind(frames, value).1,
            box_test,
            hit_test,
        ) == spec_resume(nodes, frames, value, box_test, hit_test),
    decreases frames.len(),
{
    if frames.len() > 0 {
        let rest = frames.drop_last();
        match frames.last() {
            Frame::Keep { left } => {
                lemma_unwind(nodes, rest, spec_or(value, left), box_test, hit_test);
            },
            Frame::Right { node, clipped } => {
                let pushed = rest.push(Frame::Keep { left: value });
                assert(pushed.last() == Frame::Keep { left: value });
                assert(pushed.drop_last() =~= rest);
            },
        }
    }
}

/// A true answer changes nothing in how the search ends.
pub proof fn lemma_step_keeps_outcome(
    nodes: Seq<Node>,
    frames: Seq<Frame>,
    pending: Pending,
    answer: Answer,
    box_test: BoxTest,
    hit_test: HitTest,
)
    requires
        children_first(nodes),
        state_valid(nodes, frames, pending),
        answer_is_true(pending, answer, box_test, hit_test),
    ensures
        spec_outcome(
            nodes,
            spec_step(nodes, frames, pending, answer).0,
            spec_step(nodes, frames, pending, answer).1,
            box_test,
            hit_test,
        ) == spec_outcome(nodes, frames, pending, box_test, hit_test),
{
    match (pending, answer) {
        (Pending::Bounds { node, range }, Answer::Bounds(None)) => {
            lemma_unwind(nodes, frames, None, box_test, hit_test);
        },
        (Pending::Bounds { node, range }, Answer::Bounds(Some(clipped))) => {
            match nodes[node as int].data {
                HierarchyNode::Leaf(handle) => {},
                HierarchyNode::Tree(left, right) => {
                    let pushed = frames.push(Frame::Right { node: right, clipped });
                    assert(pushed.last() == Frame::Right { node: right, clipped });
                    assert(pushed.drop_last() =~= frames);
                },
            }
        },
        (Pending::Primitive { handle, range }, Answer::Primitive(hit)) => {
            lemma_unwind(nodes, frames, hit, box_test, hit_test);
        },
        _ => {},
    }
}

/// A search that is answered truly at every step ends with the hit that a
/// search through all the primitives finds, one after the other in the
/// order of the leaves, where the boxes bound what is below them: from its
/// first state on, that hit is how the search ends.
pub proof fn lemma_search_finds_nearest(
    nodes: Seq<Node>,
    range: Range,
    box_test: BoxTest,
    hit_test: HitTest,
)
    requires
        nodes.len() > 0,
        nodes.len() <= usize::MAX,
        children_first(nodes),
        boxes_bound(nodes, box_test, hit_test),
    ensures
        spec_outcome(
            nodes,
            Seq::empty(),
            Pending::Bounds { node: (nodes.len() - 1) as usize, range },
            box_test,
            hit_test,
        ) == linear_scan(leaves(nodes, nodes.len() - 1), range, hit_test),
{
    lemma_traversal_is_linear_scan(nodes, nodes.len() - 1, range, box_test, hit_test);
}

/// The number of answers that the search below node `i` takes.
pub open spec fn visits(
    nodes: Seq<Node>,
    i: int,
    range: Range,
    box_test: BoxTest,
    hit_test: HitTest,
) -> nat
    decreases i,
{
    if 0 <= i < nodes.len() {
        match box_test(i, range) {
            None => 1,
            Some(clipped) => match nodes[i].data {
                HierarchyNode::Leaf(handle) => 2,
                HierarchyNode::Tree(left, right) => if left < i && right < i {
                    1 + visits(nodes, left as int, range, box_test, hit_test) + visits(
                        nodes,
                        right as int,
                        right_range(
                            clipped,
                            spec_collide(nodes, left as int, range, box_test, hit_test),
                        ),
                        box_test,
                        hit_test,
                    )
                } else {
                    1
                },
            },
        }
    } else {
        1
    }
}

/// The number of answers that the search still takes once `value` is
/// handed back to the frames put aside.
pub open spec fn spec_remaining(
    nodes: Seq<Node>,
    frames: Seq<Frame>,
    value: Option<Collision>,
    box_test: BoxTest,
    hit_test: HitTest,
) -> nat
    decreases frames.len(),
{
    if frames.len() == 0 {
        0
    } else {
        match frames.last() {
            Frame::Keep { left } => spec_remaining(
                nodes,
                frames.drop_last(),
                spec_or(value, left),
                box_test,
                hit_test,
            ),
            Frame::Right { node, clipped } => visits(
                nodes,
                node as int,
                right_range(clipped, value),
                box_test,
                hit_test,
            ) + spec_remaining(
                nodes,
                frames.drop_last(),
                spec_or(
                    spec_collide(
                        nodes,
                        node as int,
                        right_range(clipped, value),
                        box_test,
                        hit_test,
                    ),
                    value,
                ),
                box_test,
                hit_test,
            ),
        }
    }
}

/// The number of answers that the search still takes from a state.
pub open spec fn steps_left(
    nodes: Seq<Node>,
    frames: Seq<Frame>,
    pending: Pending,
    box_test: BoxTest,
    hit_test: HitTest,
) -> nat {
    match pending {
        Pending::Bounds { node, range } => visits(nodes, node as int, range, box_test, hit_test)
            + spec_remaining(
            nodes,
            frames,
            spec_collide(nodes, node as int, range, box_test, hit_test),
            box_test,
            hit_test,
        ),
        Pending::Primitive { handle, range } => 1 + spec_remaining(
            nodes,
            frames,
            hit_test(handle, range),
            box_test,
            hit_test,
        ),
        Pending::Done(_) => 0,
    }
}

/// Handing a value back to the frames leads to a state from which the
/// search takes as many answers as the frames say.
pub proof fn lemma_unwind_steps(
    nodes: Seq<Node>,
    frames: Seq<Frame>,
    value: Option<Collision>,
    box_test: BoxTest,
    hit_test: HitTest,
)
    ensures
        steps_left(
            nodes,
            spec_unwind(frames, value).0,
            spec_unwind(frames, value).1,
            box_test,
            hit_test,
        ) == spec_remaining(nodes, frames, value, box_test, hit_test),
    decreases frames.len(),
{
    if frames.len() > 0 {
        let rest = frames.drop_last();
        match frames.last() {
            Frame::Keep { left } => {
                lemma_unwind_steps(nodes, rest, spec_or(value, left), box_test, hit_test);
            },
            Frame::Right { node, clipped } => {
                let pushed = rest.push(Frame::Keep { left: value });
                assert(pushed.last() == Frame::Keep { left: value });
                assert(pushed.drop_last() =~= rest);
            },
        }
    }
}

/// The search ends: each true answer leaves one answer less to take, and a
/// search that is not over takes at least one.
pub proof fn lemma_step_counts_down(
    nodes: Seq<Node>,
    frames: Seq<Frame>,
    pending: Pending,
    answer: Answer,
    box_test: BoxTest,
    hit_test: HitTest,
)
    requires
        children_first(nodes),
        state_valid(nodes, frames, pending),
        answer_is_true(pending, answer, box_test, hit_test),
    ensures
        steps_left(
            nodes,
            spec_step(nodes, frames, pending, answer).0,
            spec_step(nodes, frames, pending, answer).1,
            box_test,
            hit_test,
        ) + 1 == steps_left(nodes, frames, pending, box_test, hit_test),
{
    match (pending, answer) {
        (Pending::Bounds { node, range }, Answer::Bounds(None)) => {
            lemma_unwind_steps(nodes, frames, None, box_test, hit_test);
        },
        (Pending::Bounds { node, range }, Answer::Bounds(Some(clipped))) => {
            match nodes[node as int].data {
                HierarchyNode::Leaf(handle) => {},
                HierarchyNode::Tree(left, right) => {
                    let pushed = frames.push(Frame::Right { node: right, clipped });
                    assert(pushed.last() == Frame::Right { node: right, clipped });
                    assert(pushed.drop_last() =~= frames);
                },
            }
        },
        (Pending::Primitive { handle, range }, Answer::Primitive(hit)) => {
            lemma_unwind_steps(nodes, frames, hit, box_test, hit_test);
        },
        _ => {},
    }
}

impl Traversal {
    /// The frames put aside, the innermost last.
    pub closed spec fn frames(&self) -> Seq<Frame> {
        self.stack@
    }

    /// What the search waits for.
    pub closed spec fn awaited(&self) -> Pending {
        self.pending
    }

    /// Every node that the search names is a node of the hierarchy.
    pub open spec fn valid(&self, tree: &BoundingHierarchy) -> bool {
        state_valid(tree@, self.frames(), self.awaited())
    }

    /// What the search waits for.
    pub fn pending(&self) -> (pending: Pending)
        ensures
            pending == self.awaited(),
    {
        self.pending
    }

    /// The result, once the search is over.
    pub fn result(&self) -> (result: Option<Option<Collision>>)
        ensures
            result == (match self.awaited() {
                Pending::Done(value) => Some(value),
                _ => None,
            }),
    {
        match self.pending {
            Pending::Done(value) => Some(value),
            _ => None,
        }
    }

    /// Hands a value back to the frames put aside.
    fn unwind(&mut self, value: Option<Collision>)
        ensures
            (final(self).frames(), final(self).awaited()) == spec_unwind(old(self).frames(), value),
    {
        let mut value = value;
        let ghost start = self.stack@;
        let ghost first = value;
        loop
            invariant_except_break
                spec_unwind(self.stack@, value) == spec_unwind(start, first),
            ensures
                (self.stack@, self.pending) == spec_unwind(start, first),
            decreases self.stack@.len(),
        {
            let ghost before = self.stack@;
            match self.stack.pop() {
                None => {
                    self.pending = Pending::Done(value);
                    break ;
                },
                Some(Frame::Keep { left }) => {
                    assert(self.stack@ == before.drop_last());
                    value = or(value, left);
                },
                Some(Frame::Right { node, clipped }) => {
                    assert(self.stack@ == before.drop_last());
                    self.stack.push(Frame::Keep { left: value });
                    let range = match value {
                        Some(c) => Range(clipped.0, c.t),
                        None => clipped,
                    };
                    self.pending = Pending::Bounds { node, range };
                    break ;
                },
            }
        }
    }

    /// Takes the answer to what the search waits for and moves on to the
    /// next test, or to the result.
    pub fn step(&mut self, tree: &BoundingHierarchy, answer: Answer)
        requires
            tree.wf(),
            old(self).valid(tree),
            answers(old(self).awaited(), answer),
        ensures
            (final(self).frames(), final(self).awaited()) == spec_step(
                tree@,
                old(self).frames(),
                old(self).awaited(),
                answer,
            ),
            final(self).valid(tree),
    {
        proof {
            lemma_step_valid(tree@, self.stack@, self.pending, answer);
        }
        match (self.pending, answer) {
            (Pending::Bounds { node, range }, Answer::Bounds(None)) => {
                self.unwind(None);
            },
            (Pending::Bounds { node, range }, Answer::Bounds(Some(clipped))) => {
                match tree.node(node).data {
                    HierarchyNode::Leaf(handle) => {
                        self.pending = Pending::Primitive { handle, range };
                    },
                    HierarchyNode::Tree(left, right) => {
                        self.stack.push(Frame::Right { node: right, clipped });
                        self.pending = Pending::Bounds { node: left, range };
                    },
                }
            },
            (Pending::Primitive { handle, range }, Answer::Primitive(hit)) => {
                self.unwind(hit);
            },
            _ => {},
        }
    }
}

impl BoundingHierarchy {
    /// Begins the search for the nearest hit of a ray in the hierarchy, for
    /// parameters of the ray inside `t_range`. The search first waits for
    /// the slab test of the root's box.
    pub fn collide(&self, t_range: Range) -> (search: Traversal)
        requires
            self.wf(),
        ensures
            search.frames() == Seq::<Frame>::empty(),
            search.awaited() == (Pending::Bounds { node: self.spec_root() as usize, range: t_range }),
            search.valid(self),
    {
        Traversal { stack: Vec::new(), pending: Pending::Bounds { node: self.root(), range: t_range } }
    }
}

/// A search for the nearest hit of one ray through a list of primitives,
/// one after the other, taken one test at a time: each primitive is asked
/// over the range cut off at the nearest hit so far.
#[derive(Debug)]
pub struct LinearScan {
    handles: Vec<usize>,
    next: usize,
    lower: Scalar,
    upper: Scalar,
    best: Option<Collision>,
}

impl LinearScan {
    /// The primitives still to be asked, in their order.
    pub closed spec fn left(&self) -> Seq<usize> {
        self.handles@.subrange(self.next as int, self.handles@.len() as int)
    }

    /// The range that is left, and the nearest hit so far.
    pub closed spec fn state(&self) -> (Range, Option<Collision>) {
        (Range(self.lower, self.upper), self.best)
    }

    /// The place of the next primitive is inside the list.
    pub closed spec fn wf(&self) -> bool {
        self.next <= self.handles@.len()
    }

    /// What the search ends with, if every primitive answers as `hit_test`
    /// says.
    pub open spec fn outcome(&self, hit_test: HitTest) -> Option<Collision> {
        scan_from(self.left(), self.state().0.0, self.state().0.1, self.state().1, hit_test).1
    }

    /// Begins a search through the primitives that the handles name, in
    /// their order, for parameters of the ray inside `t_range`.
    pub fn new(handles: Vec<usize>, t_range: Range) -> (scan: Self)
        ensures
            scan.wf(),
            scan.left() == handles@,
            scan.state() == (t_range, None::<Collision>),
    {
        let scan = Self { handles, next: 0, lower: t_range.0, upper: t_range.1, best: None };
        assert(scan.handles@.subrange(0, scan.handles@.len() as int) =~= scan.handles@);
        scan
    }

    /// The primitive to ask next and the range to ask it over, or `None`
    /// once every primitive was asked.
    pub fn pending(&self) -> (pending: Option<(usize, Range)>)
        requires
            self.wf(),
        ensures
            pending == (if self.left().len() == 0 {
                None
            } else {
                Some((self.left()[0], self.state().0))
            }),
    {
        if self.next < self.handles.len() {
            Some((self.handles[self.next], Range(self.lower, self.upper)))
        } else {
            None
        }
    }

    /// Takes the answer of the primitive that was asked: a hit becomes the
    /// nearest so far and cuts the range off at its parameter.
    pub fn step(&mut self, hit: Option<Collision>)
        requires
            old(self).wf(),
            old(self).left().len() > 0,
        ensures
            final(self).wf(),
            final(self).left() == old(self).left().drop_first(),
            final(self).state() == (match hit {
                Some(c) => (Range(old(self).state().0.0, c.t), Some(c)),
                None => old(self).state(),
            }),
    {
        let count: usize = self.handles.len();
        assert(self.left().len() == count - self.next);
        match hit {
            Some(c) => {
                self.upper = c.t;
                self.best = Some(c);
            },
            None => {},
        }
        self.next += 1;
        assert(self.handles@.subrange(self.next as int, self.handles@.len() as int)
            =~= old(self).handles@.subrange(
            old(self).next as int,
            old(self).handles@.len() as int,
        ).drop_first());
    }

    /// The nearest hit found so far: the result, once every primitive was
    /// asked.
    pub fn result(&self) -> (best: Option<Collision>)
        ensures
            best == self.state().1,
            self.left().len() == 0 ==> forall|hit_test: HitTest| best == #[trigger] self.outcome(hit_test),
    {
        self.best
    }

    /// A true answer changes nothing in how the search ends; at its
    /// beginning, it ends as the search through the whole list does.
    pub proof fn lemma_step_keeps_outcome(
        left: Seq<usize>,
        range: Range,
        best: Option<Collision>,
        hit_test: HitTest,
    )
        requires
            left.len() > 0,
        ensures
            scan_from(left, range.0, range.1, best, hit_test) == (match hit_test(left[0], range) {
                Some(c) => scan_from(left.drop_first(), range.0, c.t, Some(c), hit_test),
                None => scan_from(left.drop_first(), range.0, range.1, best, hit_test),
            }),
    {
        assert(range == Range(range.0, range.1));
    }
}

} // verus!
