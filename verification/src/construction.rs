use vstd::prelude::*;
use crate::bounding::BoundingBox;
use crate::hierarchy::{
    boxes_are_unions, children_first, joins_children, leaves, leaves_are_boxed,
    lemma_leaves_of_prefix,
    BoundingHierarchy, Heuristic, HierarchyNode, Node,
};
use crate::random::random_index;
use crate::scalar::Scalar;
use crate::sorting::{in_turn, lemma_sorted_slice, sort_range, sorted_slice};

verus! {

/// Whether the cost at (`axis`, `k`) comes before the one at (`a`, `j`) when
/// the costs are read axis by axis, each axis from its first split on.
pub open spec fn comes_before(axis: int, k: int, a: int, j: int) -> bool {
    axis < a || (axis == a && k < j)
}

/// Whether (`a`, `j`) is the place of the best cost among those that come
/// before (`axis`, `k`): a number below infinity that no cost there is
/// below, and the first such.
pub open spec fn best_among(costs: Seq<Vec<Scalar>>, axis: int, k: int, a: int, j: int) -> bool {
    &&& 0 <= a < costs.len() && 0 <= j < costs[a]@.len()
    &&& comes_before(a, j, axis, k)
    &&& costs[a]@[j].spec_lt(Scalar::spec_infinity())
    &&& forall|b: int, i: int|
        0 <= b < costs.len() && 0 <= i < costs[b]@.len() && comes_before(b, i, axis, k) ==> !(
        #[trigger] costs[b]@[i]).spec_lt(costs[a]@[j])
    &&& forall|b: int, i: int|
        0 <= b < costs.len() && 0 <= i < costs[b]@.len() && comes_before(b, i, a, j) ==> !(
        #[trigger] costs[b]@[i]).spec_le(costs[a]@[j])
}

/// Whether no cost that comes before (`axis`, `k`) is a number below
/// infinity.
pub open spec fn none_among(costs: Seq<Vec<Scalar>>, axis: int, k: int) -> bool {
    forall|b: int, i: int|
        0 <= b < costs.len() && 0 <= i < costs[b]@.len() && comes_before(b, i, axis, k) ==> !(
        #[trigger] costs[b]@[i]).spec_lt(Scalar::spec_infinity())
}

/// Picks the split of least cost. `costs[axis][k]` is the cost of cutting
/// the primitives, sorted along `axis`, behind the first `k + 1` of them.
/// The result names the axis and the number of primitives on the left. Of
/// equal costs the first counts, the axes read in turn and each from its
/// first split on. Where no cost is a number below infinity the result is
/// `(0, 0)`, which is no split.
pub fn evaluate_best_area_split(costs: &Vec<Vec<Scalar>>) -> (best: (usize, usize))
    ensures
        best.1 == 0 ==> best.0 == 0 && none_among(costs@, costs@.len() as int, 0),
        best.1 != 0 ==> best_among(
            costs@,
            costs@.len() as int,
            0,
            best.0 as int,
            best.1 - 1,
        ),
{
    let mut best_split: usize = 0;
    let mut best_axis: usize = 0;
    let mut best_cost: Scalar = Scalar::infinity();

    let mut axis: usize = 0;
    while axis < costs.len()
        invariant
            axis <= costs@.len(),
            !best_cost.nan(),
            best_split == 0 ==> best_axis == 0 && best_cost == Scalar::spec_infinity()
                && none_among(costs@, axis as int, 0),
            best_split != 0 ==> best_among(costs@, axis as int, 0, best_axis as int, best_split - 1)
                && best_cost == costs@[best_axis as int]@[best_split - 1],
        decreases costs@.len() - axis,
    {
        let row = &costs[axis];
        let mut k: usize = 0;
        while k < row.len()
            invariant
                axis < costs@.len(),
                row@ == costs@[axis as int]@,
                k <= row@.len(),
                !best_cost.nan(),
                best_split == 0 ==> best_axis == 0 && best_cost == Scalar::spec_infinity()
                    && none_among(costs@, axis as int, k as int),
                best_split != 0 ==> best_among(
                    costs@,
                    axis as int,
                    k as int,
                    best_axis as int,
                    best_split - 1,
                ) && best_cost == costs@[best_axis as int]@[best_split - 1],
            decreases row@.len() - k,
        {
            let total_cost = row[k];
            let ghost old_axis = best_axis;
            let ghost old_split = best_split;
            let ghost old_cost = best_cost;
            if total_cost.lt(best_cost) {
                best_axis = axis;
                best_split = k + 1;
                best_cost = total_cost;
                proof {
                    assert forall|b: int, i: int|
                        0 <= b < costs@.len() && 0 <= i < costs@[b]@.len() && comes_before(
                            b,
                            i,
                            axis as int,
                            k + 1,
                        ) implies !(#[trigger] costs@[b]@[i]).spec_lt(total_cost) by {
                        if comes_before(b, i, axis as int, k as int) {
                            if old_split == 0 {
                            } else {
                            }
                        }
                    }
                    assert forall|b: int, i: int|
                        0 <= b < costs@.len() && 0 <= i < costs@[b]@.len() && comes_before(
                            b,
                            i,
                            axis as int,
                            k as int,
                        ) implies !(#[trigger] costs@[b]@[i]).spec_le(total_cost) by {
                        if old_split == 0 {
                        } else {
                        }
                    }
                }
            } else {
                proof {
                    if old_split != 0 {
                        assert forall|b: int, i: int|
                            0 <= b < costs@.len() && 0 <= i < costs@[b]@.len() && comes_before(
                                b,
                                i,
                                axis as int,
                                k + 1,
                            ) implies !(#[trigger] costs@[b]@[i]).spec_lt(old_cost) by {
                            if comes_before(b, i, axis as int, k as int) {
                            }
                        }
                    }
                }
            }
            k += 1;
        }
        proof {
            if best_split == 0 {
                assert forall|b: int, i: int|
                    0 <= b < costs@.len() && 0 <= i < costs@[b]@.len() && comes_before(
                        b,
                        i,
                        axis + 1,
                        0,
                    ) implies !(#[trigger] costs@[b]@[i]).spec_lt(Scalar::spec_infinity()) by {
                    assert(comes_before(b, i, axis as int, k as int));
                }
            } else {
                assert forall|b: int, i: int|
                    0 <= b < costs@.len() && 0 <= i < costs@[b]@.len() && comes_before(
                        b,
                        i,
                        axis + 1,
                        0,
                    ) implies !(#[trigger] costs@[b]@[i]).spec_lt(
                    costs@[best_axis as int]@[best_split - 1],
                ) by {
                    assert(comes_before(b, i, axis as int, k as int));
                }
            }
        }
        axis += 1;
    }

    (best_axis, best_split)
}

/// What is left to do while a hierarchy is built: to build the subtree
/// over the entries `lo..hi` of the order, or to join the two subtrees
/// built last under a new node.
#[derive(Debug, Clone, Copy, PartialEq, Eq, Structural)]
pub enum Task {
    Build { lo: usize, hi: usize },
    Join,
}

/// A subtree that is built: the place of its root among the nodes, and the
/// entries `lo..hi` of the order that its leaves hold, from left to right.
#[derive(Debug, Clone, Copy, PartialEq, Eq, Structural)]
pub struct Built {
    pub node: usize,
    pub lo: usize,
    pub hi: usize,
}

/// Whether the tasks, the topmost last, can be carried out one after the
/// other when `count` subtrees are built and reach up to entry `reach`:
/// each subtree to build begins where the built ones end, each join finds
/// two subtrees, and one subtree over all `n` entries is left.
pub open spec fn runnable(tasks: Seq<Task>, count: int, reach: int, n: int) -> bool
    decreases tasks.len(),
{
    if tasks.len() == 0 {
        count == 1 && reach == n
    } else {
        match tasks.last() {
            Task::Join => count >= 2 && runnable(tasks.drop_last(), count - 1, reach, n),
            Task::Build { lo, hi } => lo == reach && lo < hi <= n && runnable(
                tasks.drop_last(),
                count + 1,
                hi as int,
                n,
            ),
        }
    }
}

/// The built subtree `k` ends where the next one begins.
pub open spec fn adjoins(built: Seq<Built>, k: int) -> bool {
    built[k].hi == built[k + 1].lo
}

/// The built subtrees lie side by side from the first entry on.
pub open spec fn tiled(built: Seq<Built>, n: int) -> bool {
    &&& forall|k: int| 0 <= k < built.len() ==> (#[trigger] built[k]).lo < built[k].hi <= n
    &&& built.len() > 0 ==> built[0].lo == 0
    &&& forall|k: int| 0 <= k < built.len() - 1 ==> #[trigger] adjoins(built, k)
}

/// The entry up to which the built subtrees reach.
pub open spec fn reach(built: Seq<Built>) -> int {
    if built.len() == 0 {
        0
    } else {
        built.last().hi as int
    }
}

/// Each built subtree holds its entries of the order, from left to right.
pub open spec fn holds_order(nodes: Seq<Node>, built: Seq<Built>, order: Seq<usize>) -> bool {
    forall|k: int|
        0 <= k < built.len() ==> (#[trigger] built[k]).node < nodes.len() && leaves(
            nodes,
            built[k].node as int,
        ) == order.subrange(built[k].lo as int, built[k].hi as int)
}

/// The order names each of the `n` primitives once.
pub open spec fn names_each_once(order: Seq<usize>, n: int) -> bool {
    &&& order.len() == n
    &&& forall|i: int| 0 <= i < order.len() ==> #[trigger] order[i] < n
    &&& order.no_duplicates()
}

/// A node put behind the others holds what its kind says: a leaf its
/// primitive, an inner node what its children hold.
pub proof fn lemma_push_node_leaves(nodes: Seq<Node>, node: Node)
    requires
        match node.data {
            HierarchyNode::Leaf(handle) => true,
            HierarchyNode::Tree(left, right) => left < nodes.len() && right < nodes.len(),
        },
    ensures
        leaves(nodes.push(node), nodes.len() as int) == (match node.data {
            HierarchyNode::Leaf(handle) => seq![handle],
            HierarchyNode::Tree(left, right) => leaves(nodes, left as int) + leaves(
                nodes,
                right as int,
            ),
        }),
{
    let longer = nodes.push(node);
    assert(longer[nodes.len() as int] == node);
    match node.data {
        HierarchyNode::Leaf(handle) => {},
        HierarchyNode::Tree(left, right) => {
            lemma_leaves_of_prefix(nodes, longer, left as int);
            lemma_leaves_of_prefix(nodes, longer, right as int);
        },
    }
}

/// A node put behind the others, with the box that its kind asks for,
/// keeps the list in shape.
pub proof fn lemma_push_node(nodes: Seq<Node>, node: Node, boxes: Seq<BoundingBox>)
    requires
        children_first(nodes),
        leaves_are_boxed(nodes, boxes),
        boxes_are_unions(nodes),
        match node.data {
            HierarchyNode::Leaf(handle) => handle < boxes.len() && node.bounds
                == boxes[handle as int],
            HierarchyNode::Tree(left, right) => left < nodes.len() && right < nodes.len()
                && node.bounds == nodes[left as int].bounds.spec_union(
                &nodes[right as int].bounds,
            ),
        },
    ensures
        children_first(nodes.push(node)),
        leaves_are_boxed(nodes.push(node), boxes),
        boxes_are_unions(nodes.push(node)),
{
    let longer = nodes.push(node);
    assert forall|i: int| 0 <= i < longer.len() implies match (#[trigger] longer[i]).data {
        HierarchyNode::Leaf(_) => true,
        HierarchyNode::Tree(left, right) => left < i && right < i,
    } by {
        if i < nodes.len() {
            assert(longer[i] == nodes[i]);
        }
    }
    assert forall|i: int| 0 <= i < longer.len() implies match (#[trigger] longer[i]).data {
        HierarchyNode::Leaf(handle) => handle < boxes.len() && longer[i].bounds
            == boxes[handle as int],
        HierarchyNode::Tree(_, _) => true,
    } by {
        if i < nodes.len() {
            assert(longer[i] == nodes[i]);
        }
    }
    assert forall|i: int| 0 <= i < longer.len() implies #[trigger] joins_children(longer, i) by {
        if i < nodes.len() {
            assert(longer[i] == nodes[i]);
            assert(joins_children(nodes, i));
            match nodes[i].data {
                HierarchyNode::Leaf(_) => {},
                HierarchyNode::Tree(left, right) => {
                    assert(longer[left as int] == nodes[left as int]);
                    assert(longer[right as int] == nodes[right as int]);
                },
            }
        } else {
            match node.data {
                HierarchyNode::Leaf(_) => {},
                HierarchyNode::Tree(left, right) => {
                    assert(longer[left as int] == nodes[left as int]);
                    assert(longer[right as int] == nodes[right as int]);
                },
            }
        }
    }
}

/// The leaf for the primitive that entry `at` of the order names.
pub open spec fn leaf_node(order: Seq<usize>, boxes: Seq<BoundingBox>, at: int) -> Node {
    Node { bounds: boxes[order[at] as int], data: HierarchyNode::Leaf(order[at]) }
}

/// The node that joins the nodes at `left` and `right`: its box is the
/// union of theirs.
pub open spec fn join_node(nodes: Seq<Node>, left: usize, right: usize) -> Node {
    Node {
        bounds: nodes[left as int].bounds.spec_union(&nodes[right as int].bounds),
        data: HierarchyNode::Tree(left, right),
    }
}

/// The nodes and the built subtrees after the two subtrees built last are
/// joined under a new node.
pub open spec fn after_join(nodes: Seq<Node>, built: Seq<Built>) -> (Seq<Node>, Seq<Built>) {
    let right = built.last();
    let left = built[built.len() - 2];
    (
        nodes.push(join_node(nodes, left.node, right.node)),
        built.subrange(0, built.len() - 2).push(
            Built { node: nodes.len() as usize, lo: left.lo, hi: right.hi },
        ),
    )
}

/// The nodes and the built subtrees after a leaf is made for entry `lo`.
pub open spec fn after_leaf(
    nodes: Seq<Node>,
    built: Seq<Built>,
    order: Seq<usize>,
    boxes: Seq<BoundingBox>,
    lo: usize,
    hi: usize,
) -> (Seq<Node>, Seq<Built>) {
    (
        nodes.push(leaf_node(order, boxes, lo as int)),
        built.push(Built { node: nodes.len() as usize, lo, hi }),
    )
}

/// The nodes and the built subtrees after the entries `lo` and `lo + 1` are
/// made two leaves under a node that joins them.
pub open spec fn after_pair(
    nodes: Seq<Node>,
    built: Seq<Built>,
    order: Seq<usize>,
    boxes: Seq<BoundingBox>,
    lo: usize,
    hi: usize,
) -> (Seq<Node>, Seq<Built>) {
    let two = nodes.push(leaf_node(order, boxes, lo as int)).push(leaf_node(order, boxes, lo + 1));
    (
        two.push(join_node(two, nodes.len() as usize, (nodes.len() + 1) as usize)),
        built.push(Built { node: (nodes.len() + 2) as usize, lo, hi }),
    )
}

/// The nodes, the built subtrees and the tasks after every task is carried
/// out that needs no choice: a join, or a subtree over one or two entries.
pub open spec fn spec_advance(
    nodes: Seq<Node>,
    built: Seq<Built>,
    tasks: Seq<Task>,
    order: Seq<usize>,
    boxes: Seq<BoundingBox>,
) -> (Seq<Node>, Seq<Built>, Seq<Task>)
    decreases tasks.len(),
{
    if tasks.len() == 0 {
        (nodes, built, tasks)
    } else {
        match tasks.last() {
            Task::Join => if built.len() >= 2 {
                let next = after_join(nodes, built);
                spec_advance(next.0, next.1, tasks.drop_last(), order, boxes)
            } else {
                (nodes, built, tasks)
            },
            Task::Build { lo, hi } => if hi - lo == 1 {
                let next = after_leaf(nodes, built, order, boxes, lo, hi);
                spec_advance(next.0, next.1, tasks.drop_last(), order, boxes)
            } else if hi - lo == 2 {
                let next = after_pair(nodes, built, order, boxes, lo, hi);
                spec_advance(next.0, next.1, tasks.drop_last(), order, boxes)
            } else {
                (nodes, built, tasks)
            },
        }
    }
}

/// A new subtree put behind the first `keep` built ones, where they end,
/// leaves the built subtrees side by side.
pub proof fn lemma_tiled_push(built: Seq<Built>, keep: int, new: Built, n: int)
    requires
        tiled(built, n),
        0 <= keep <= built.len(),
        new.lo == reach(built.subrange(0, keep)),
        new.lo < new.hi <= n,
    ensures
        tiled(built.subrange(0, keep).push(new), n),
        reach(built.subrange(0, keep).push(new)) == new.hi,
{
    let kept = built.subrange(0, keep);
    let out = kept.push(new);
    assert forall|k: int| 0 <= k < out.len() implies (#[trigger] out[k]).lo < out[k].hi <= n by {
        if k < keep {
            assert(out[k] == built[k]);
        }
    }
    assert forall|k: int| 0 <= k < out.len() - 1 implies #[trigger] adjoins(out, k) by {
        assert(out[k] == built[k]);
        if k + 1 < keep {
            assert(out[k + 1] == built[k + 1]);
            assert(adjoins(built, k));
        } else {
            assert(kept.last() == built[keep - 1]);
        }
    }
    if keep > 0 {
        assert(out[0] == built[0]);
    }
}

/// A new subtree that holds its entries, put behind the first `keep` built
/// ones after nodes were added, leaves each built subtree with its entries.
pub proof fn lemma_holds_order_push(
    nodes: Seq<Node>,
    longer: Seq<Node>,
    built: Seq<Built>,
    keep: int,
    new: Built,
    order: Seq<usize>,
)
    requires
        holds_order(nodes, built, order),
        0 <= keep <= built.len(),
        nodes.len() <= longer.len(),
        forall|k: int| 0 <= k < nodes.len() ==> nodes[k] == longer[k],
        new.node < longer.len(),
        leaves(longer, new.node as int) == order.subrange(new.lo as int, new.hi as int),
    ensures
        holds_order(longer, built.subrange(0, keep).push(new), order),
{
    let out = built.subrange(0, keep).push(new);
    assert forall|k: int| 0 <= k < out.len() implies (#[trigger] out[k]).node < longer.len()
        && leaves(longer, out[k].node as int) == order.subrange(
        out[k].lo as int,
        out[k].hi as int,
    ) by {
        if k < keep {
            assert(out[k] == built[k]);
            lemma_leaves_of_prefix(nodes, longer, built[k].node as int);
        }
    }
}

/// Two leaves under a node that joins them, made for two entries where the
/// built subtrees end, leave the nodes in shape and the built subtrees side
/// by side, each with its entries.
pub proof fn lemma_after_pair(
    nodes: Seq<Node>,
    built: Seq<Built>,
    order: Seq<usize>,
    boxes: Seq<BoundingBox>,
    lo: usize,
    hi: usize,
)
    requires
        children_first(nodes),
        leaves_are_boxed(nodes, boxes),
        boxes_are_unions(nodes),
        tiled(built, boxes.len() as int),
        holds_order(nodes, built, order),
        names_each_once(order, boxes.len() as int),
        lo == reach(built),
        hi == lo + 2,
        hi <= boxes.len(),
        nodes.len() + 2 <= usize::MAX,
    ensures
        children_first(after_pair(nodes, built, order, boxes, lo, hi).0),
        leaves_are_boxed(after_pair(nodes, built, order, boxes, lo, hi).0, boxes),
        boxes_are_unions(after_pair(nodes, built, order, boxes, lo, hi).0),
        tiled(after_pair(nodes, built, order, boxes, lo, hi).1, boxes.len() as int),
        holds_order(
            after_pair(nodes, built, order, boxes, lo, hi).0,
            after_pair(nodes, built, order, boxes, lo, hi).1,
            order,
        ),
        reach(after_pair(nodes, built, order, boxes, lo, hi).1) == lo + 2,
        after_pair(nodes, built, order, boxes, lo, hi).0.len() == nodes.len() + 3,
        after_pair(nodes, built, order, boxes, lo, hi).1.last().node == nodes.len() + 2,
        after_pair(nodes, built, order, boxes, lo, hi).1.len() == built.len() + 1,
{
    let left = leaf_node(order, boxes, lo as int);
    let right = leaf_node(order, boxes, lo + 1);
    let one = nodes.push(left);
    let two = one.push(right);
    let at = nodes.len() as usize;
    let top = join_node(two, at, (at + 1) as usize);
    let three = two.push(top);
    let new = Built { node: (nodes.len() + 2) as usize, lo, hi };
    let keep = built.len() as int;
    assert(built.subrange(0, keep) =~= built);
    lemma_push_node(nodes, left, boxes);
    lemma_push_node(one, right, boxes);
    lemma_push_node_leaves(nodes, left);
    lemma_push_node_leaves(one, right);
    assert(two[at as int] == left);
    assert(two[at + 1] == right);
    lemma_push_node(two, top, boxes);
    lemma_push_node_leaves(two, top);
    lemma_leaves_of_prefix(one, two, at as int);
    assert(leaves(three, at + 2) == seq![order[lo as int]] + seq![order[lo + 1]]);
    assert(order.subrange(lo as int, lo + 2) =~= seq![order[lo as int]] + seq![order[lo + 1]]);
    assert forall|k: int| 0 <= k < nodes.len() implies nodes[k] == three[k] by {}
    lemma_tiled_push(built, keep, new, boxes.len() as int);
    lemma_holds_order_push(nodes, three, built, keep, new, order);
}

/// What the building of a hierarchy waits for: the costs of the splits of
/// the entries `lo..hi`, the lengths of the box around them, the axis to
/// sort them along, or nothing more.
#[derive(Debug, Clone, Copy, PartialEq, Eq, Structural)]
pub enum Request {
    Costs { lo: usize, hi: usize },
    Lengths { lo: usize, hi: usize },
    Axis { lo: usize, hi: usize },
    Ready,
}

/// The answer to what the building waits for. `Costs` holds, for each of
/// the three axes, the cost of each split of the entries as
/// `arrangement` lays them out for that axis: first the cost of one entry
/// on the left, last that of two entries on the right.
#[derive(Debug)]
pub enum Reply {
    Costs(Vec<Vec<Scalar>>),
    Lengths(Scalar, Scalar, Scalar),
    Axis(usize),
}

/// The building of a hierarchy over the primitives of a scene, which are
/// named by their places in the list of their boxes. The sorting, the
/// choice of each split and the tree are made here; what needs arithmetic on
/// the numbers is asked for, one request at a time.
#[derive(Debug)]
pub struct Construction {
    boxes: Vec<BoundingBox>,
    keys_x: Vec<i128>,
    keys_y: Vec<i128>,
    keys_z: Vec<i128>,
    heuristic: Heuristic,
    order: Vec<usize>,
    nodes: Vec<Node>,
    tasks: Vec<Task>,
    built: Vec<Built>,
}

/// The key of each box on an axis: its lower end there, in the total order
/// of the patterns.
pub open spec fn axis_keys(boxes: Seq<BoundingBox>, axis: usize, keys: Seq<i128>) -> bool {
    &&& keys.len() == boxes.len()
    &&& forall|i: int|
        0 <= i < boxes.len() ==> #[trigger] keys[i] == boxes[i].extent(axis).0.total_rank()
}

/// The request that the topmost task stands for under a heuristic.
pub open spec fn spec_request(tasks: Seq<Task>, heuristic: Heuristic) -> Request {
    if tasks.len() == 0 {
        Request::Ready
    } else {
        match tasks.last() {
            Task::Join => Request::Ready,
            Task::Build { lo, hi } => match heuristic {
                Heuristic::SurfaceArea => Request::Costs { lo, hi },
                Heuristic::LongestAxis => Request::Lengths { lo, hi },
                Heuristic::RandomAxis => Request::Axis { lo, hi },
            },
        }
    }
}

/// The order after its entries `lo..hi` are sorted along the axes x, y and
/// z in turn, up to `axis`: each sort starts from what the one before left.
pub open spec fn arranged(
    order: Seq<usize>,
    lo: int,
    hi: int,
    keys: (Seq<i128>, Seq<i128>, Seq<i128>),
    axis: usize,
) -> Seq<usize> {
    let first = sorted_slice(order, lo, hi, keys.0);
    if axis == 0 {
        first
    } else if axis == 1 {
        sorted_slice(first, lo, hi, keys.1)
    } else {
        sorted_slice(sorted_slice(first, lo, hi, keys.1), lo, hi, keys.2)
    }
}

/// The order after a split along `axis` is chosen for its entries `lo..hi`.
/// Under the surface area heuristic the entries were sorted along all three
/// axes in turn while the costs were taken, and are sorted along the chosen
/// axis from there; otherwise they are sorted along the chosen axis only.
pub open spec fn rearranged(
    order: Seq<usize>,
    lo: int,
    hi: int,
    keys: (Seq<i128>, Seq<i128>, Seq<i128>),
    heuristic: Heuristic,
    axis: usize,
) -> Seq<usize> {
    let by = if axis == 0 {
        keys.0
    } else if axis == 1 {
        keys.1
    } else {
        keys.2
    };
    match heuristic {
        Heuristic::SurfaceArea => sorted_slice(arranged(order, lo, hi, keys, 2), lo, hi, by),
        _ => sorted_slice(order, lo, hi, by),
    }
}

/// The tasks after the topmost, a subtree over `lo..hi`, is split behind
/// its first `mid` entries: the left part is built first, then the right
/// part, then the two are joined.
pub open spec fn split_tasks(tasks: Seq<Task>, lo: usize, hi: usize, mid: usize) -> Seq<Task> {
    tasks.drop_last().push(Task::Join).push(Task::Build { lo: (lo + mid) as usize, hi }).push(
        Task::Build { lo, hi: (lo + mid) as usize },
    )
}

/// How much choosing is left at most: for each subtree still to build, one
/// less than the number of its entries.
pub open spec fn work_left(tasks: Seq<Task>) -> nat
    decreases tasks.len(),
{
    if tasks.len() == 0 {
        0
    } else {
        match tasks.last() {
            Task::Join => work_left(tasks.drop_last()),
            Task::Build { lo, hi } => work_left(tasks.drop_last()) + (if hi > lo {
                (hi - lo - 1) as nat
            } else {
                0
            }),
        }
    }
}

/// Carrying out tasks that need no choice leaves no more choosing than
/// there was.
pub proof fn lemma_advance_work(
    nodes: Seq<Node>,
    built: Seq<Built>,
    tasks: Seq<Task>,
    order: Seq<usize>,
    boxes: Seq<BoundingBox>,
)
    ensures
        work_left(spec_advance(nodes, built, tasks, order, boxes).2) <= work_left(tasks),
    decreases tasks.len(),
{
    if tasks.len() > 0 {
        match tasks.last() {
            Task::Join => if built.len() >= 2 {
                let next = after_join(nodes, built);
                lemma_advance_work(next.0, next.1, tasks.drop_last(), order, boxes);
            },
            Task::Build { lo, hi } => if hi - lo == 1 {
                let next = after_leaf(nodes, built, order, boxes, lo, hi);
                lemma_advance_work(next.0, next.1, tasks.drop_last(), order, boxes);
            } else if hi - lo == 2 {
                let next = after_pair(nodes, built, order, boxes, lo, hi);
                lemma_advance_work(next.0, next.1, tasks.drop_last(), order, boxes);
            },
        }
    }
}

/// A split leaves less choosing than there was: the building comes to an
/// end.
pub proof fn lemma_split_work(tasks: Seq<Task>, lo: usize, hi: usize, mid: usize)
    requires
        tasks.len() > 0,
        tasks.last() == (Task::Build { lo, hi }),
        1 <= mid < hi - lo,
    ensures
        work_left(split_tasks(tasks, lo, hi, mid)) + 1 == work_left(tasks),
{
    let rest = tasks.drop_last();
    let one = rest.push(Task::Join);
    let two = one.push(Task::Build { lo: (lo + mid) as usize, hi });
    let three = two.push(Task::Build { lo, hi: (lo + mid) as usize });
    assert(one.drop_last() =~= rest);
    assert(two.drop_last() =~= one);
    assert(three.drop_last() =~= two);
    assert(one.last() == Task::Join);
    assert(two.last() == Task::Build { lo: (lo + mid) as usize, hi });
    assert(three.last() == Task::Build { lo, hi: (lo + mid) as usize });
    assert(work_left(tasks) == work_left(rest) + (hi - lo - 1));
    assert(work_left(one) == work_left(rest));
    assert(work_left(two) == work_left(one) + (hi - (lo + mid) - 1));
    assert(work_left(three) == work_left(two) + (mid - 1));
    assert(three == split_tasks(tasks, lo, hi, mid));
}

/// No built subtree reaches beyond the last.
pub proof fn lemma_tiled_within(built: Seq<Built>, n: int, k: int)
    requires
        tiled(built, n),
        0 <= k < built.len(),
    ensures
        built[k].hi <= reach(built),
    decreases built.len() - k,
{
    if k < built.len() - 1 {
        assert(adjoins(built, k));
        lemma_tiled_within(built, n, k + 1);
    }
}

/// Sorting entries behind the built subtrees leaves each of them with its
/// entries.
pub proof fn lemma_holds_order_sorted(
    nodes: Seq<Node>,
    built: Seq<Built>,
    order: Seq<usize>,
    lo: int,
    hi: int,
    keys: Seq<i128>,
    n: int,
)
    requires
        holds_order(nodes, built, order),
        tiled(built, n),
        names_each_once(order, n),
        reach(built) <= lo <= hi <= n,
    ensures
        holds_order(nodes, built, sorted_slice(order, lo, hi, keys)),
        names_each_once(sorted_slice(order, lo, hi, keys), n),
{
    let out = sorted_slice(order, lo, hi, keys);
    lemma_sorted_slice(order, lo, hi, keys, n);
    assert forall|k: int| 0 <= k < built.len() implies (#[trigger] built[k]).node < nodes.len()
        && leaves(nodes, built[k].node as int) == out.subrange(
        built[k].lo as int,
        built[k].hi as int,
    ) by {
        lemma_tiled_within(built, n, k);
        assert(out.subrange(built[k].lo as int, built[k].hi as int) =~= order.subrange(
            built[k].lo as int,
            built[k].hi as int,
        )) by {
            assert forall|i: int| built[k].lo <= i < built[k].hi implies out[i] == order[i] by {
                assert(out[i] == sorted_slice(order, lo, hi, keys)[i]);
            }
        }
    }
}

impl Construction {
    /// The boxes of the primitives.
    pub closed spec fn boxes(&self) -> Seq<BoundingBox> {
        self.boxes@
    }

    /// The keys of the boxes on the axes x, y and z.
    pub closed spec fn keys(&self) -> (Seq<i128>, Seq<i128>, Seq<i128>) {
        (self.keys_x@, self.keys_y@, self.keys_z@)
    }

    /// The keys of the boxes on one axis.
    pub open spec fn keys_of(&self, axis: usize) -> Seq<i128> {
        if axis == 0 {
            self.keys().0
        } else if axis == 1 {
            self.keys().1
        } else {
            self.keys().2
        }
    }

    /// How the axis of a split is chosen.
    pub closed spec fn heuristic(&self) -> Heuristic {
        self.heuristic
    }

    /// The primitives in the order in which the leaves will hold them.
    pub closed spec fn order(&self) -> Seq<usize> {
        self.order@
    }

    /// The nodes made so far.
    pub closed spec fn nodes(&self) -> Seq<Node> {
        self.nodes@
    }

    /// What is left to do, the next task last.
    pub closed spec fn tasks(&self) -> Seq<Task> {
        self.tasks@
    }

    /// The subtrees built and not yet joined, from left to right.
    pub closed spec fn built(&self) -> Seq<Built> {
        self.built@
    }

    /// What holds of the state between any two tasks.
    pub open spec fn inv(&self) -> bool {
        &&& self.boxes().len() > 0
        &&& axis_keys(self.boxes(), 0, self.keys().0)
        &&& axis_keys(self.boxes(), 1, self.keys().1)
        &&& axis_keys(self.boxes(), 2, self.keys().2)
        &&& names_each_once(self.order(), self.boxes().len() as int)
        &&& children_first(self.nodes())
        &&& leaves_are_boxed(self.nodes(), self.boxes())
        &&& boxes_are_unions(self.nodes())
        &&& tiled(self.built(), self.boxes().len() as int)
        &&& holds_order(self.nodes(), self.built(), self.order())
        &&& self.built().len() > 0 ==> self.built().last().node == self.nodes().len() - 1
        &&& 2 * self.boxes().len() <= usize::MAX
        &&& self.nodes().len() + self.built().len() == 2 * reach(self.built())
        &&& runnable(
            self.tasks(),
            self.built().len() as int,
            reach(self.built()),
            self.boxes().len() as int,
        )
    }

    /// The state is in order, and the next task, if there is one, needs a
    /// choice: it is a subtree over three entries or more.
    pub open spec fn wf(&self) -> bool {
        &&& self.inv()
        &&& self.tasks().len() > 0 ==> match self.tasks().last() {
            Task::Join => false,
            Task::Build { lo, hi } => hi - lo >= 3,
        }
    }

    /// What the building waits for.
    pub open spec fn awaited(&self) -> Request {
        spec_request(self.tasks(), self.heuristic())
    }


    /// Joins the two subtrees built last under a new node.
    fn join_top(&mut self)
        requires
            old(self).inv(),
            old(self).tasks().len() > 0,
            old(self).tasks().last() == Task::Join,
        ensures
            final(self).inv(),
            final(self).boxes() == old(self).boxes(),
            final(self).keys() == old(self).keys(),
            final(self).heuristic() == old(self).heuristic(),
            final(self).order() == old(self).order(),
            final(self).tasks() == old(self).tasks().drop_last(),
            old(self).built().len() >= 2,
            (final(self).nodes(), final(self).built()) == after_join(
                old(self).nodes(),
                old(self).built(),
            ),
    {
        let ghost nodes0 = self.nodes@;
        let ghost built0 = self.built@;
        let ghost n = self.boxes@.len() as int;
        self.tasks.pop();
        let count: usize = self.built.len();
        let right = self.built[count - 1];
        let left = self.built[count - 2];
        self.built.pop();
        self.built.pop();
        let bounds = self.nodes[left.node].bounds.union(&self.nodes[right.node].bounds);
        let node = Node { bounds, data: HierarchyNode::Tree(left.node, right.node) };
        let at: usize = self.nodes.len();
        let new = Built { node: at, lo: left.lo, hi: right.hi };
        self.nodes.push(node);
        self.built.push(new);
        proof {
            let keep = count - 2;
            assert(adjoins(built0, count - 2));
            assert(self.built@ =~= built0.subrange(0, keep).push(new));
            assert(node == join_node(nodes0, left.node, right.node));
            lemma_push_node(nodes0, node, self.boxes@);
            lemma_push_node_leaves(nodes0, node);
            assert(self.order@.subrange(left.lo as int, left.hi as int) + self.order@.subrange(
                right.lo as int,
                right.hi as int,
            ) =~= self.order@.subrange(left.lo as int, right.hi as int));
            if keep > 0 {
                assert(built0.subrange(0, keep).last() == built0[keep - 1]);
                assert(adjoins(built0, keep - 1));
            }
            lemma_tiled_push(built0, keep, new, n);
            lemma_holds_order_push(nodes0, self.nodes@, built0, keep, new, self.order@);
        }
    }

    /// Makes the leaf for a subtree over one entry.
    fn build_leaf(&mut self, lo: usize, hi: usize)
        requires
            old(self).inv(),
            old(self).tasks().len() > 0,
            old(self).tasks().last() == (Task::Build { lo, hi }),
            hi - lo == 1,
        ensures
            final(self).inv(),
            final(self).boxes() == old(self).boxes(),
            final(self).keys() == old(self).keys(),
            final(self).heuristic() == old(self).heuristic(),
            final(self).order() == old(self).order(),
            final(self).tasks() == old(self).tasks().drop_last(),
            (final(self).nodes(), final(self).built()) == after_leaf(
                old(self).nodes(),
                old(self).built(),
                old(self).order(),
                old(self).boxes(),
                lo,
                hi,
            ),
    {
        let ghost nodes0 = self.nodes@;
        let ghost built0 = self.built@;
        let ghost n = self.boxes@.len() as int;
        self.tasks.pop();
        let handle: usize = self.order[lo];
        let node = Node { bounds: self.boxes[handle], data: HierarchyNode::Leaf(handle) };
        let at: usize = self.nodes.len();
        let new = Built { node: at, lo, hi };
        self.nodes.push(node);
        self.built.push(new);
        proof {
            let keep = built0.len() as int;
            assert(built0.subrange(0, keep) =~= built0);
            assert(node == leaf_node(self.order@, self.boxes@, lo as int));
            lemma_push_node(nodes0, node, self.boxes@);
            lemma_push_node_leaves(nodes0, node);
            assert(self.order@.subrange(lo as int, lo + 1) =~= seq![handle]);
            lemma_tiled_push(built0, keep, new, n);
            lemma_holds_order_push(nodes0, self.nodes@, built0, keep, new, self.order@);
        }
    }

    /// Makes the two leaves and the node above them for a subtree over two
    /// entries.
    fn build_pair(&mut self, lo: usize, hi: usize)
        requires
            old(self).inv(),
            old(self).tasks().len() > 0,
            old(self).tasks().last() == (Task::Build { lo, hi }),
            hi - lo == 2,
        ensures
            final(self).inv(),
            final(self).boxes() == old(self).boxes(),
            final(self).keys() == old(self).keys(),
            final(self).heuristic() == old(self).heuristic(),
            final(self).order() == old(self).order(),
            final(self).tasks() == old(self).tasks().drop_last(),
            (final(self).nodes(), final(self).built()) == after_pair(
                old(self).nodes(),
                old(self).built(),
                old(self).order(),
                old(self).boxes(),
                lo,
                hi,
            ),
    {
        let ghost nodes0 = self.nodes@;
        let ghost built0 = self.built@;
        let ghost n = self.boxes@.len() as int;
        self.tasks.pop();
        let first: usize = self.order[lo];
        let second: usize = self.order[lo + 1];
        let left = Node { bounds: self.boxes[first], data: HierarchyNode::Leaf(first) };
        let right = Node { bounds: self.boxes[second], data: HierarchyNode::Leaf(second) };
        let at: usize = self.nodes.len();
        let top = Node {
            bounds: left.bounds.union(&right.bounds),
            data: HierarchyNode::Tree(at, at + 1),
        };
        let new = Built { node: at + 2, lo, hi };
        proof {
            assert(left == leaf_node(self.order@, self.boxes@, lo as int));
            assert(right == leaf_node(self.order@, self.boxes@, lo + 1));
            let two = nodes0.push(left).push(right);
            assert(two[at as int] == left);
            assert(two[at + 1] == right);
            assert(top == join_node(two, at, (at + 1) as usize));
            lemma_after_pair(nodes0, built0, self.order@, self.boxes@, lo, hi);
        }
        self.nodes.push(left);
        self.nodes.push(right);
        self.nodes.push(top);
        self.built.push(new);
    }

    /// Carries out every task that needs no choice.
    fn advance(&mut self)
        requires
            old(self).inv(),
        ensures
            final(self).wf(),
            final(self).boxes() == old(self).boxes(),
            final(self).keys() == old(self).keys(),
            final(self).heuristic() == old(self).heuristic(),
            final(self).order() == old(self).order(),
            (final(self).nodes(), final(self).built(), final(self).tasks()) == spec_advance(
                old(self).nodes(),
                old(self).built(),
                old(self).tasks(),
                old(self).order(),
                old(self).boxes(),
            ),
    {
        let ghost start = (self.nodes@, self.built@, self.tasks@);
        loop
            invariant_except_break
                self.inv(),
                self.boxes() == old(self).boxes(),
                self.keys() == old(self).keys(),
                self.heuristic() == old(self).heuristic(),
                self.order() == old(self).order(),
                spec_advance(self.nodes@, self.built@, self.tasks@, self.order@, self.boxes@)
                    == spec_advance(start.0, start.1, start.2, self.order@, self.boxes@),
            ensures
                self.wf(),
                self.boxes() == old(self).boxes(),
                self.keys() == old(self).keys(),
                self.heuristic() == old(self).heuristic(),
                self.order() == old(self).order(),
                (self.nodes@, self.built@, self.tasks@) == spec_advance(
                    start.0,
                    start.1,
                    start.2,
                    self.order@,
                    self.boxes@,
                ),
            decreases self.tasks@.len(),
        {
            let pending: usize = self.tasks.len();
            if pending == 0 {
                break ;
            }
            let task = self.tasks[pending - 1];
            match task {
                Task::Join => {
                    self.join_top();
                },
                Task::Build { lo, hi } => {
                    if hi - lo == 1 {
                        self.build_leaf(lo, hi);
                    } else if hi - lo == 2 {
                        self.build_pair(lo, hi);
                    } else {
                        break ;
                    }
                },
            }
        }
    }

    /// Sorts the entries `lo..hi` of the order, which lie behind the built
    /// subtrees, along an axis.
    fn sort_slice(&mut self, lo: usize, hi: usize, axis: usize)
        requires
            old(self).inv(),
            reach(old(self).built()) <= lo <= hi <= old(self).boxes().len(),
            axis <= 2,
        ensures
            final(self).inv(),
            final(self).boxes() == old(self).boxes(),
            final(self).keys() == old(self).keys(),
            final(self).heuristic() == old(self).heuristic(),
            final(self).nodes() == old(self).nodes(),
            final(self).built() == old(self).built(),
            final(self).tasks() == old(self).tasks(),
            final(self).order() == sorted_slice(
                old(self).order(),
                lo as int,
                hi as int,
                old(self).keys_of(axis),
            ),
    {
        proof {
            lemma_holds_order_sorted(
                self.nodes@,
                self.built@,
                self.order@,
                lo as int,
                hi as int,
                self.keys_of(axis),
                self.boxes@.len() as int,
            );
        }
        if axis == 0 {
            sort_range(&mut self.order, lo, hi, &self.keys_x);
        } else if axis == 1 {
            sort_range(&mut self.order, lo, hi, &self.keys_y);
        } else {
            sort_range(&mut self.order, lo, hi, &self.keys_z);
        }
    }

    /// What the building waits for: the costs of the splits of some
    /// entries, the lengths of the box around them, an axis, or nothing.
    pub fn request(&self) -> (request: Request)
        ensures
            request == self.awaited(),
    {
        let pending: usize = self.tasks.len();
        if pending == 0 {
            return Request::Ready;
        }
        match self.tasks[pending - 1] {
            Task::Join => Request::Ready,
            Task::Build { lo, hi } => match self.heuristic {
                Heuristic::SurfaceArea => Request::Costs { lo, hi },
                Heuristic::LongestAxis => Request::Lengths { lo, hi },
                Heuristic::RandomAxis => Request::Axis { lo, hi },
            },
        }
    }

    /// The box of the primitive with the given handle.
    pub fn bounds_of(&self, handle: usize) -> (bounds: BoundingBox)
        requires
            handle < self.boxes().len(),
        ensures
            bounds == self.boxes()[handle as int],
    {
        self.boxes[handle]
    }
}

/// The box around the primitives that the handles name: the union of their
/// boxes, begun with the box that holds nothing.
pub open spec fn union_of(boxes: Seq<BoundingBox>, handles: Seq<usize>) -> BoundingBox
    decreases handles.len(),
{
    if handles.len() == 0 {
        BoundingBox::spec_empty()
    } else {
        union_of(boxes, handles.drop_last()).spec_union(&boxes[handles.last() as int])
    }
}

impl Construction {
    /// The entries `lo..hi` of the order that the topmost task is about.
    pub open spec fn span(&self) -> (usize, usize) {
        match self.tasks().last() {
            Task::Build { lo, hi } => (lo, hi),
            Task::Join => (0, 0),
        }
    }

    /// Whether the reply is of the kind that is waited for and can be used:
    /// costs come as three rows, one for each axis, with one cost for each
    /// split that leaves at least one entry on the left and two on the
    /// right, and some cost is a number below infinity; an axis is 0, 1 or 2.
    pub open spec fn fits(&self, reply: &Reply) -> bool {
        match (self.awaited(), reply) {
            (Request::Costs { lo, hi }, Reply::Costs(costs)) => {
                &&& costs@.len() == 3
                &&& forall|a: int| 0 <= a < 3 ==> (#[trigger] costs@[a])@.len() == hi - lo - 2
                &&& !none_among(costs@, 3, 0)
            },
            (Request::Lengths { lo, hi }, Reply::Lengths(_, _, _)) => true,
            (Request::Axis { lo, hi }, Reply::Axis(axis)) => *axis <= 2,
            _ => false,
        }
    }

    /// Whether the reply makes the building split along `axis` behind the
    /// first `mid` entries: the split of least cost, or the middle of the
    /// entries along the longest axis or along the axis given.
    pub open spec fn chosen(&self, reply: &Reply, axis: usize, mid: usize) -> bool {
        match (self.awaited(), reply) {
            (Request::Costs { lo, hi }, Reply::Costs(costs)) => mid >= 1 && best_among(
                costs@,
                3,
                0,
                axis as int,
                mid - 1,
            ),
            (Request::Lengths { lo, hi }, Reply::Lengths(width, height, depth)) => axis
                == BoundingBox::spec_longest_axis(*width, *height, *depth) && mid == (hi - lo) / 2,
            (Request::Axis { lo, hi }, Reply::Axis(given)) => axis == *given && mid == (hi - lo)
                / 2,
            _ => false,
        }
    }

    /// Takes the reply to what the building waits for, splits the entries
    /// that the request was about, and goes on until the next request.
    /// Returns the axis and the number of entries on the left of the split.
    pub fn supply(&mut self, reply: Reply) -> (cut: (usize, usize))
        requires
            old(self).wf(),
            old(self).fits(&reply),
        ensures
            old(self).chosen(&reply, cut.0, cut.1),
            work_left(final(self).tasks()) < work_left(old(self).tasks()),
            final(self).wf(),
            final(self).boxes() == old(self).boxes(),
            final(self).keys() == old(self).keys(),
            final(self).heuristic() == old(self).heuristic(),
            final(self).order() == rearranged(
                old(self).order(),
                old(self).span().0 as int,
                old(self).span().1 as int,
                old(self).keys(),
                old(self).heuristic(),
                cut.0,
            ),
            (final(self).nodes(), final(self).built(), final(self).tasks()) == spec_advance(
                old(self).nodes(),
                old(self).built(),
                split_tasks(old(self).tasks(), old(self).span().0, old(self).span().1, cut.1),
                final(self).order(),
                old(self).boxes(),
            ),
    {
        let pending: usize = self.tasks.len();
        let (lo, hi) = match self.tasks[pending - 1] {
            Task::Build { lo, hi } => (lo, hi),
            Task::Join => (0, 0),
        };
        let (axis, mid) = match reply {
            Reply::Costs(costs) => {
                let best = evaluate_best_area_split(&costs);
                assert(best.1 != 0);
                best
            },
            Reply::Lengths(width, height, depth) => (
                BoundingBox::longest_axis(width, height, depth),
                (hi - lo) / 2,
            ),
            Reply::Axis(given) => (given, (hi - lo) / 2),
        };
        assert(axis <= 2 && 1 <= mid < hi - lo);
        match self.heuristic {
            Heuristic::SurfaceArea => {
                self.sort_slice(lo, hi, 0);
                self.sort_slice(lo, hi, 1);
                self.sort_slice(lo, hi, 2);
            },
            _ => {},
        }
        self.sort_slice(lo, hi, axis);
        let ghost tasks0 = self.tasks@;
        self.tasks.pop();
        self.tasks.push(Task::Join);
        self.tasks.push(Task::Build { lo: lo + mid, hi });
        self.tasks.push(Task::Build { lo, hi: lo + mid });
        proof {
            let n = self.boxes@.len() as int;
            let count = self.built@.len() as int;
            let rest = tasks0.drop_last();
            let one = rest.push(Task::Join);
            let two = one.push(Task::Build { lo: (lo + mid) as usize, hi });
            let three = two.push(Task::Build { lo, hi: (lo + mid) as usize });
            assert(self.tasks@ == three);
            assert(three == split_tasks(tasks0, lo, hi, mid));
            assert(runnable(rest, count + 1, hi as int, n));
            assert(one.drop_last() =~= rest);
            assert(runnable(one, count + 2, hi as int, n));
            assert(two.drop_last() =~= one);
            assert(runnable(two, count + 1, lo + mid, n));
            assert(three.drop_last() =~= two);
            assert(runnable(three, count, lo as int, n));
            lemma_split_work(tasks0, lo, hi, mid);
            lemma_advance_work(self.nodes@, self.built@, three, self.order@, self.boxes@);
        }
        self.advance();
        (axis, mid)
    }

    /// Draws an axis at random where the building waits for one, and goes
    /// on as `supply` does with that axis. Returns the axis and the number
    /// of entries on the left of the split.
    pub fn supply_random_axis(&mut self) -> (cut: (usize, usize))
        requires
            old(self).wf(),
            old(self).awaited() is Axis,
        ensures
            cut.0 <= 2,
            old(self).chosen(&Reply::Axis(cut.0), cut.0, cut.1),
            work_left(final(self).tasks()) < work_left(old(self).tasks()),
            final(self).wf(),
            final(self).boxes() == old(self).boxes(),
            final(self).keys() == old(self).keys(),
            final(self).heuristic() == old(self).heuristic(),
            final(self).order() == rearranged(
                old(self).order(),
                old(self).span().0 as int,
                old(self).span().1 as int,
                old(self).keys(),
                old(self).heuristic(),
                cut.0,
            ),
            (final(self).nodes(), final(self).built(), final(self).tasks()) == spec_advance(
                old(self).nodes(),
                old(self).built(),
                split_tasks(old(self).tasks(), old(self).span().0, old(self).span().1, cut.1),
                final(self).order(),
                old(self).boxes(),
            ),
    {
        let axis: usize = random_index(3);
        self.supply(Reply::Axis(axis))
    }

    /// The entries that the request is about, as they stand after they are
    /// sorted along the axes x, y and z in turn, up to `axis`. The costs of
    /// the splits along `axis` are taken on this arrangement.
    pub fn arrangement(&self, axis: usize) -> (entries: Vec<usize>)
        requires
            self.wf(),
            self.tasks().len() > 0,
            axis <= 2,
        ensures
            entries@ == arranged(
                self.order(),
                self.span().0 as int,
                self.span().1 as int,
                self.keys(),
                axis,
            ).subrange(self.span().0 as int, self.span().1 as int),
    {
        let pending: usize = self.tasks.len();
        let (lo, hi) = match self.tasks[pending - 1] {
            Task::Build { lo, hi } => (lo, hi),
            Task::Join => (0, 0),
        };
        let n: usize = self.order.len();
        let mut copy: Vec<usize> = Vec::new();
        let mut i: usize = 0;
        while i < n
            invariant
                n == self.order@.len(),
                i <= n,
                copy@ == self.order@.subrange(0, i as int),
            decreases n - i,
        {
            copy.push(self.order[i]);
            assert(self.order@.subrange(0, i as int).push(self.order@[i as int])
                =~= self.order@.subrange(0, i + 1));
            i += 1;
        }
        assert(copy@ =~= self.order@);
        proof {
            let count = self.boxes@.len() as int;
            lemma_sorted_slice(self.order@, lo as int, hi as int, self.keys_x@, count);
            let first = sorted_slice(self.order@, lo as int, hi as int, self.keys_x@);
            lemma_sorted_slice(first, lo as int, hi as int, self.keys_y@, count);
            let second = sorted_slice(first, lo as int, hi as int, self.keys_y@);
            lemma_sorted_slice(second, lo as int, hi as int, self.keys_z@, count);
        }
        sort_range(&mut copy, lo, hi, &self.keys_x);
        if axis >= 1 {
            sort_range(&mut copy, lo, hi, &self.keys_y);
        }
        if axis >= 2 {
            sort_range(&mut copy, lo, hi, &self.keys_z);
        }
        let mut entries: Vec<usize> = Vec::new();
        let mut k: usize = lo;
        while k < hi
            invariant
                lo <= k <= hi <= copy@.len(),
                entries@ == copy@.subrange(lo as int, k as int),
            decreases hi - k,
        {
            entries.push(copy[k]);
            assert(copy@.subrange(lo as int, k as int).push(copy@[k as int]) =~= copy@.subrange(
                lo as int,
                k + 1,
            ));
            k += 1;
        }
        entries
    }

    /// The box around the entries that the request is about.
    pub fn slice_bounds(&self) -> (bounds: BoundingBox)
        requires
            self.wf(),
            self.tasks().len() > 0,
        ensures
            bounds == union_of(
                self.boxes(),
                self.order().subrange(self.span().0 as int, self.span().1 as int),
            ),
    {
        let pending: usize = self.tasks.len();
        let (lo, hi) = match self.tasks[pending - 1] {
            Task::Build { lo, hi } => (lo, hi),
            Task::Join => (0, 0),
        };
        let mut bounds = BoundingBox::empty();
        let mut k: usize = lo;
        assert(self.order@.subrange(lo as int, lo as int) =~= Seq::<usize>::empty());
        while k < hi
            invariant
                lo <= k <= hi <= self.order@.len(),
                self.order@.len() == self.boxes@.len(),
                forall|i: int| 0 <= i < self.order@.len() ==> #[trigger] self.order@[i] < self.boxes@.len(),
                bounds == union_of(self.boxes@, self.order@.subrange(lo as int, k as int)),
            decreases hi - k,
        {
            let ghost next = self.order@.subrange(lo as int, k + 1);
            assert(next.drop_last() =~= self.order@.subrange(lo as int, k as int));
            assert(next.last() == self.order@[k as int]);
            bounds = bounds.union(&self.boxes[self.order[k]]);
            k += 1;
        }
        bounds
    }

    /// Whether the hierarchy is built.
    pub fn is_ready(&self) -> (ready: bool)
        ensures
            ready == (self.tasks().len() == 0),
    {
        self.tasks.len() == 0
    }

    /// The hierarchy, once nothing is left to do, and the handles of the
    /// primitives in the order in which its leaves hold them from left to
    /// right. Every primitive is held by one leaf, with its own box; the box
    /// of every other node is the union of the boxes of its children.
    pub fn finish(self) -> (done: (BoundingHierarchy, Vec<usize>))
        requires
            self.wf(),
            self.tasks().len() == 0,
        ensures
            done.0.wf(),
            done.0@ == self.nodes(),
            done.1@ == self.order(),
            leaves(done.0@, done.0.spec_root()) == done.1@,
            names_each_once(done.1@, self.boxes().len() as int),
            done.0@.len() == 2 * self.boxes().len() - 1,
            leaves_are_boxed(done.0@, self.boxes()),
            boxes_are_unions(done.0@),
    {
        proof {
            assert(self.built@.len() == 1);
            assert(self.built@.last() == self.built@[0]);
            assert(self.order@.subrange(0, self.order@.len() as int) =~= self.order@);
        }
        (BoundingHierarchy::from_ordered(self.nodes), self.order)
    }
}

/// The building of a hierarchy over one primitive ends at once, with a
/// leaf whose box is the box of that primitive.
pub proof fn lemma_single_primitive(boxes: Seq<BoundingBox>)
    requires
        boxes.len() == 1,
    ensures
        spec_advance(
            Seq::empty(),
            Seq::empty(),
            seq![Task::Build { lo: 0, hi: 1 }],
            in_turn(1),
            boxes,
        ) == (
            seq![Node { bounds: boxes[0], data: HierarchyNode::Leaf(0) }],
            seq![Built { node: 0, lo: 0, hi: 1 }],
            Seq::<Task>::empty(),
        ),
{
    let tasks = seq![Task::Build { lo: 0, hi: 1 }];
    let nodes = Seq::<Node>::empty();
    let built = Seq::<Built>::empty();
    let next = after_leaf(nodes, built, in_turn(1), boxes, 0, 1);
    assert(tasks.last() == Task::Build { lo: 0, hi: 1 });
    assert(tasks.drop_last() =~= Seq::<Task>::empty());
    assert(next.0 =~= seq![Node { bounds: boxes[0], data: HierarchyNode::Leaf(0) }]);
    assert(next.1 =~= seq![Built { node: 0, lo: 0, hi: 1 }]);
    reveal_with_fuel(spec_advance, 2);
}

/// The building of a hierarchy over two primitives ends at once, with two
/// leaves under a node whose box is the union of their boxes.
pub proof fn lemma_two_primitives(boxes: Seq<BoundingBox>)
    requires
        boxes.len() == 2,
    ensures
        spec_advance(
            Seq::empty(),
            Seq::empty(),
            seq![Task::Build { lo: 0, hi: 2 }],
            in_turn(2),
            boxes,
        ) == (
            seq![
                Node { bounds: boxes[0], data: HierarchyNode::Leaf(0) },
                Node { bounds: boxes[1], data: HierarchyNode::Leaf(1) },
                Node { bounds: boxes[0].spec_union(&boxes[1]), data: HierarchyNode::Tree(0, 1) },
            ],
            seq![Built { node: 2, lo: 0, hi: 2 }],
            Seq::<Task>::empty(),
        ),
{
    let tasks = seq![Task::Build { lo: 0, hi: 2 }];
    let nodes = Seq::<Node>::empty();
    let built = Seq::<Built>::empty();
    let next = after_pair(nodes, built, in_turn(2), boxes, 0, 2);
    assert(tasks.last() == Task::Build { lo: 0, hi: 2 });
    assert(tasks.drop_last() =~= Seq::<Task>::empty());
    assert(next.0 =~= seq![
        Node { bounds: boxes[0], data: HierarchyNode::Leaf(0) },
        Node { bounds: boxes[1], data: HierarchyNode::Leaf(1) },
        Node { bounds: boxes[0].spec_union(&boxes[1]), data: HierarchyNode::Tree(0, 1) },
    ]);
    assert(next.1 =~= seq![Built { node: 2, lo: 0, hi: 2 }]);
    reveal_with_fuel(spec_advance, 2);
}

/// The best split is one: no two places are both the place of the best
/// cost.
pub proof fn lemma_best_is_one(costs: Seq<Vec<Scalar>>, a: int, j: int, b: int, i: int)
    requires
        best_among(costs, costs.len() as int, 0, a, j),
        best_among(costs, costs.len() as int, 0, b, i),
    ensures
        a == b && j == i,
{
    if comes_before(a, j, b, i) {
        assert(!(costs[a]@[j]).spec_le(costs[b]@[i]));
        assert(!(costs[b]@[i]).spec_lt(costs[a]@[j]));
    } else if comes_before(b, i, a, j) {
        assert(!(costs[b]@[i]).spec_le(costs[a]@[j]));
        assert(!(costs[a]@[j]).spec_lt(costs[b]@[i]));
    }
}

/// The keys of the boxes on one axis.
fn keys_on_axis(boxes: &Vec<BoundingBox>, axis: usize) -> (keys: Vec<i128>)
    requires
        axis <= 2,
    ensures
        axis_keys(boxes@, axis, keys@),
{
    let mut keys: Vec<i128> = Vec::new();
    let mut i: usize = 0;
    while i < boxes.len()
        invariant
            axis <= 2,
            i <= boxes@.len(),
            keys@.len() == i,
            forall|k: int| 0 <= k < i ==> #[trigger] keys@[k] == boxes@[k].extent(axis).0.total_rank(),
        decreases boxes@.len() - i,
    {
        keys.push(boxes[i].axis_key(axis) as i128);
        i += 1;
    }
    keys
}

impl BoundingHierarchy {
    /// Begins to build a hierarchy over the primitives with the given
    /// boxes, which are named by their places in the list, with splits
    /// chosen by the surface area heuristic.
    pub fn from_vec(boxes: Vec<BoundingBox>) -> (building: Construction)
        requires
            0 < boxes@.len(),
            2 * boxes@.len() <= usize::MAX,
        ensures
            building.wf(),
            building.boxes() == boxes@,
            building.heuristic() == Heuristic::SurfaceArea,
            building.order() == in_turn(boxes@.len()),
            (building.nodes(), building.built(), building.tasks()) == spec_advance(
                Seq::empty(),
                Seq::empty(),
                seq![Task::Build { lo: 0, hi: boxes@.len() as usize }],
                in_turn(boxes@.len()),
                boxes@,
            ),
    {
        Self::from_vec_with_heuristic(boxes, Heuristic::SurfaceArea)
    }

    /// Begins to build a hierarchy with splits chosen by the surface area
    /// heuristic.
    pub fn from_vec_with_surface_area(boxes: Vec<BoundingBox>) -> (building: Construction)
        requires
            0 < boxes@.len(),
            2 * boxes@.len() <= usize::MAX,
        ensures
            building.wf(),
            building.boxes() == boxes@,
            building.heuristic() == Heuristic::SurfaceArea,
            building.order() == in_turn(boxes@.len()),
            (building.nodes(), building.built(), building.tasks()) == spec_advance(
                Seq::empty(),
                Seq::empty(),
                seq![Task::Build { lo: 0, hi: boxes@.len() as usize }],
                in_turn(boxes@.len()),
                boxes@,
            ),
    {
        Self::from_vec_with_heuristic(boxes, Heuristic::SurfaceArea)
    }

    /// Begins to build a hierarchy over the primitives with the given
    /// boxes, which are named by their places in the list. One primitive
    /// gives a leaf and two give two leaves under one node, at once; with
    /// more the building waits for what its heuristic needs.
    pub fn from_vec_with_heuristic(boxes: Vec<BoundingBox>, heuristic: Heuristic) -> (building:
        Construction)
        requires
            0 < boxes@.len(),
            2 * boxes@.len() <= usize::MAX,
        ensures
            building.wf(),
            building.boxes() == boxes@,
            building.heuristic() == heuristic,
            building.order() == in_turn(boxes@.len()),
            (building.nodes(), building.built(), building.tasks()) == spec_advance(
                Seq::empty(),
                Seq::empty(),
                seq![Task::Build { lo: 0, hi: boxes@.len() as usize }],
                in_turn(boxes@.len()),
                boxes@,
            ),
    {
        let n: usize = boxes.len();
        let keys_x = keys_on_axis(&boxes, 0);
        let keys_y = keys_on_axis(&boxes, 1);
        let keys_z = keys_on_axis(&boxes, 2);
        let mut order: Vec<usize> = Vec::new();
        let mut i: usize = 0;
        while i < n
            invariant
                i <= n,
                order@.len() == i,
                forall|k: int| 0 <= k < i ==> #[trigger] order@[k] == k,
            decreases n - i,
        {
            order.push(i);
            i += 1;
        }
        assert(order@ =~= in_turn(n as nat));
        let mut tasks: Vec<Task> = Vec::new();
        tasks.push(Task::Build { lo: 0, hi: n });
        assert(tasks@ =~= seq![Task::Build { lo: 0, hi: n }]);
        let mut building = Construction {
            boxes,
            keys_x,
            keys_y,
            keys_z,
            heuristic,
            order,
            nodes: Vec::new(),
            tasks,
            built: Vec::new(),
        };
        proof {
            let only = building.tasks@;
            assert(only.last() == Task::Build { lo: 0, hi: n });
            assert(only.drop_last() =~= Seq::<Task>::empty());
            assert(runnable(only.drop_last(), 1, n as int, n as int));
            assert(runnable(only, 0, 0, n as int));
        }
        building.advance();
        building
    }
}

} // verus!
