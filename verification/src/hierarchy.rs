use vstd::prelude::*;
use crate::bounding::BoundingBox;

verus! {

/// What a node of the hierarchy holds: the handle of one primitive, or the
/// places of its two children among the nodes.
#[derive(Debug, Clone, Copy, PartialEq, Eq, Structural)]
pub enum HierarchyNode {
    Leaf(usize),
    Tree(usize, usize),
}

/// A node with the box that bounds everything below it.
#[derive(Debug, Clone, Copy, PartialEq, Eq, Structural)]
pub struct Node {
    pub bounds: BoundingBox,
    pub data: HierarchyNode,
}

/// How the splitting axis of a node is chosen when a hierarchy is built.
#[derive(Debug, Clone, Copy, PartialEq, Eq, Structural)]
pub enum Heuristic {
    RandomAxis,
    LongestAxis,
    SurfaceArea,
}

/// A binary tree of bounding boxes over the primitives of a scene. The
/// nodes lie in one list, children before their parent, the root last; it
/// is built once and only read afterwards.
#[derive(Debug)]
pub struct BoundingHierarchy {
    nodes: Vec<Node>,
}

/// Every child stands before its parent in the list.
pub open spec fn children_first(nodes: Seq<Node>) -> bool {
    forall|i: int|
        0 <= i < nodes.len() ==> match (#[trigger] nodes[i]).data {
            HierarchyNode::Leaf(_) => true,
            HierarchyNode::Tree(left, right) => left < i && right < i,
        }
}

/// The handles of the primitives below node `i`, from left to right.
pub open spec fn leaves(nodes: Seq<Node>, i: int) -> Seq<usize>
    decreases i,
{
    if 0 <= i < nodes.len() {
        match nodes[i].data {
            HierarchyNode::Leaf(handle) => seq![handle],
            HierarchyNode::Tree(left, right) => if left < i && right < i {
                leaves(nodes, left as int) + leaves(nodes, right as int)
            } else {
                Seq::empty()
            },
        }
    } else {
        Seq::empty()
    }
}

/// The box of node `i`, if it is an inner node, is the union of the boxes
/// of its children.
pub open spec fn joins_children(nodes: Seq<Node>, i: int) -> bool {
    match nodes[i].data {
        HierarchyNode::Leaf(_) => true,
        HierarchyNode::Tree(left, right) => 0 <= left < nodes.len() && 0 <= right < nodes.len()
            && nodes[i].bounds == nodes[left as int].bounds.spec_union(&nodes[right as int].bounds),
    }
}

/// The box of every inner node is the union of the boxes of its children.
pub open spec fn boxes_are_unions(nodes: Seq<Node>) -> bool {
    forall|i: int| 0 <= i < nodes.len() ==> #[trigger] joins_children(nodes, i)
}

/// The box of every leaf is the box of its primitive.
pub open spec fn leaves_are_boxed(nodes: Seq<Node>, boxes: Seq<BoundingBox>) -> bool {
    forall|i: int|
        0 <= i < nodes.len() ==> match (#[trigger] nodes[i]).data {
            HierarchyNode::Leaf(handle) => handle < boxes.len() && nodes[i].bounds
                == boxes[handle as int],
            HierarchyNode::Tree(_, _) => true,
        }
}

/// What is below a node does not change when nodes are added behind it.
pub proof fn lemma_leaves_of_prefix(nodes: Seq<Node>, longer: Seq<Node>, i: int)
    requires
        0 <= i < nodes.len() <= longer.len(),
        forall|k: int| 0 <= k < nodes.len() ==> nodes[k] == longer[k],
    ensures
        leaves(longer, i) == leaves(nodes, i),
    decreases i,
{
    match nodes[i].data {
        HierarchyNode::Leaf(_) => {},
        HierarchyNode::Tree(left, right) => {
            if left < i && right < i {
                lemma_leaves_of_prefix(nodes, longer, left as int);
                lemma_leaves_of_prefix(nodes, longer, right as int);
            }
        },
    }
}

impl BoundingHierarchy {
    /// The nodes, children before parents, the root last.
    pub closed spec fn view(&self) -> Seq<Node> {
        self.nodes@
    }

    /// There is a root, and every child stands before its parent.
    pub open spec fn wf(&self) -> bool {
        self@.len() > 0 && children_first(self@)
    }

    /// The place of the root.
    pub open spec fn spec_root(&self) -> int {
        self@.len() - 1
    }

    /// The hierarchy of one primitive: a leaf with the primitive's box.
    pub fn new(handle: usize, bounds: BoundingBox) -> (tree: Self)
        ensures
            tree.wf(),
            tree@ == seq![Node { bounds, data: HierarchyNode::Leaf(handle) }],
            leaves(tree@, tree.spec_root()) == seq![handle],
    {
        let mut nodes: Vec<Node> = Vec::new();
        nodes.push(Node { bounds, data: HierarchyNode::Leaf(handle) });
        Self { nodes }
    }

    /// The hierarchy of two primitives: two leaves under a root whose box is
    /// the union of theirs.
    pub fn pair(left: usize, left_bounds: BoundingBox, right: usize, right_bounds: BoundingBox) -> (tree:
        Self)
        ensures
            tree.wf(),
            tree@.len() == 3,
            tree@[0] == (Node { bounds: left_bounds, data: HierarchyNode::Leaf(left) }),
            tree@[1] == (Node { bounds: right_bounds, data: HierarchyNode::Leaf(right) }),
            tree@[2].data == HierarchyNode::Tree(0, 1),
            tree@[2].bounds == left_bounds.spec_union(&right_bounds),
            leaves(tree@, tree.spec_root()) == seq![left, right],
            boxes_are_unions(tree@),
    {
        let mut nodes: Vec<Node> = Vec::new();
        nodes.push(Node { bounds: left_bounds, data: HierarchyNode::Leaf(left) });
        nodes.push(Node { bounds: right_bounds, data: HierarchyNode::Leaf(right) });
        nodes.push(
            Node { bounds: left_bounds.union(&right_bounds), data: HierarchyNode::Tree(0, 1) },
        );
        proof {
            reveal_with_fuel(leaves, 3);
            assert(leaves(nodes@, 2) =~= seq![left, right]);
            assert forall|i: int| 0 <= i < nodes@.len() implies #[trigger] joins_children(
                nodes@,
                i,
            ) by {}
        }
        Self { nodes }
    }

    /// The hierarchy with the given nodes, which are known to be in order.
    pub(crate) fn from_ordered(nodes: Vec<Node>) -> (tree: Self)
        requires
            nodes@.len() > 0,
            children_first(nodes@),
        ensures
            tree.wf(),
            tree@ == nodes@,
    {
        Self { nodes }
    }

    /// The number of nodes.
    pub fn len(&self) -> (n: usize)
        ensures
            n == self@.len(),
    {
        self.nodes.len()
    }

    /// The place of the root among the nodes.
    pub fn root(&self) -> (root: usize)
        requires
            self.wf(),
        ensures
            root == self.spec_root(),
    {
        self.nodes.len() - 1
    }

    /// The node at place `i`.
    pub fn node(&self, i: usize) -> (node: Node)
        requires
            i < self@.len(),
        ensures
            node == self@[i as int],
    {
        self.nodes[i]
    }

    /// The box that bounds the whole hierarchy: the box of the root.
    pub fn bounding_box(&self) -> (bounds: BoundingBox)
        requires
            self.wf(),
        ensures
            bounds == self@[self.spec_root()].bounds,
    {
        self.nodes[self.nodes.len() - 1].bounds
    }
}

} // verus!
