//! Trees of tiles: the generic parent and child form of a layout.

use crate::layout::{
    child_linked, children_linked, children_ordered, parent_linked, parents_linked, Layout,
    NodeView,
};
use crate::tile::Tile;
use ego_tree::{NodeId, Tree};
use vstd::prelude::*;

verus! {

/// `ego_tree::Tree`: a tree of values. Nothing of its inside is known but
/// what its functions say.
#[verifier::external_type_specification]
#[verifier::external_body]
#[verifier::reject_recursive_types(T)]
pub struct ExTree<T>(Tree<T>);

/// `ego_tree::NodeId`: the name of a node of a tree.
#[verifier::external_type_specification]
#[verifier::external_body]
pub struct ExNodeId(NodeId);

/// What the tree holds: for each node, in the order in which the nodes were
/// added to the tree, its tile, the position of its parent, if it has one,
/// and the positions of its children, from the first child to the last.
pub uninterp spec fn tree_nodes(tree: Tree<Tile>) -> Seq<(Tile, Option<int>, Seq<int>)>;

/// The position in its tree of the node that the id names, counting from 0
/// in the order in which the nodes were added.
pub uninterp spec fn node_position(id: NodeId) -> int;

/// The nodes of a tree with one more node, added as the last child of the
/// node at the position `parent`.
pub open spec fn appended(nodes: Seq<(Tile, Option<int>, Seq<int>)>, parent: int, tile: Tile) -> Seq<
    (Tile, Option<int>, Seq<int>),
> {
    nodes.update(
        parent,
        (nodes[parent].0, nodes[parent].1, nodes[parent].2.push(nodes.len() as int)),
    ).push((tile, Some(parent), Seq::empty()))
}

/// `Tree::new`: a tree of one node, the root, which holds the tile.
#[verifier::external_body]
pub(crate) fn tree_new(tile: Tile) -> (tree: Tree<Tile>)
    ensures
        tree_nodes(tree) == seq![(tile, None::<int>, Seq::<int>::empty())],
{
    Tree::new(tile)
}

/// `Tree::root` and `NodeRef::id`: the id of the root, which is the first node.
#[verifier::external_body]
pub(crate) fn tree_root_id(tree: &Tree<Tile>) -> (id: NodeId)
    ensures
        node_position(id) == 0,
{
    tree.root().id()
}

/// `Tree::get_mut`, `NodeMut::append` and `NodeMut::id`: a new node with the
/// tile becomes the last child of the node that the id names, and its id is
/// handed out. The new node is the last of the tree's nodes.
#[verifier::external_body]
pub(crate) fn tree_append(tree: &mut Tree<Tile>, parent: NodeId, tile: Tile) -> (id: NodeId)
    requires
        0 <= node_position(parent) < tree_nodes(*old(tree)).len(),
    ensures
        node_position(id) == tree_nodes(*old(tree)).len(),
        tree_nodes(*final(tree)) == appended(tree_nodes(*old(tree)), node_position(parent), tile),
{
    tree.get_mut(parent).unwrap().append(tile).id()
}

/// The children as positions.
pub open spec fn positions(children: Seq<usize>) -> Seq<int> {
    children.map_values(|child: usize| child as int)
}

/// The parent as a position.
pub open spec fn parent_position(parent: Option<usize>) -> Option<int> {
    match parent {
        Some(parent) => Some(parent as int),
        None => None,
    }
}

/// The nodes of a layout as the nodes of a tree.
pub open spec fn tree_of(nodes: Seq<NodeView>) -> Seq<(Tile, Option<int>, Seq<int>)> {
    nodes.map_values(
        |node: NodeView| (node.tile, parent_position(node.parent), positions(node.children)),
    )
}

/// The first `k` nodes of a layout as the nodes of a tree, each with those of
/// its children that are among them: its first `progress[i]` children.
pub open spec fn grown_to(
    nodes: Seq<NodeView>,
    tree: Seq<(Tile, Option<int>, Seq<int>)>,
    progress: Seq<int>,
    k: int,
) -> bool {
    &&& tree.len() == k
    &&& progress.len() == k
    &&& forall|i: int|
        0 <= i < k ==> {
            &&& (#[trigger] tree[i]).0 == nodes[i].tile
            &&& tree[i].1 == parent_position(nodes[i].parent)
            &&& 0 <= progress[i] <= nodes[i].children.len()
            &&& tree[i].2 == positions(nodes[i].children.take(progress[i]))
            &&& forall|j: int| 0 <= j < progress[i] ==> #[trigger] nodes[i].children[j] < k
            &&& forall|j: int|
                progress[i] <= j < nodes[i].children.len() ==> #[trigger] nodes[i].children[j] >= k
        }
}

/// Appending the next node of a layout to the tree of its first nodes gives
/// the tree of its first nodes and the next.
pub proof fn lemma_grown(
    nodes: Seq<NodeView>,
    tree: Seq<(Tile, Option<int>, Seq<int>)>,
    progress: Seq<int>,
    k: int,
)
    requires
        0 < k < nodes.len() <= usize::MAX,
        parents_linked(nodes),
        children_linked(nodes),
        children_ordered(nodes),
        grown_to(nodes, tree, progress, k),
    ensures
        grown_to(
            nodes,
            appended(tree, nodes[k].parent.unwrap() as int, nodes[k].tile),
            progress.update(
                nodes[k].parent.unwrap() as int,
                progress[nodes[k].parent.unwrap() as int] + 1,
            ).push(0),
            k + 1,
        ),
{
    assert(parent_linked(nodes, k));
    let p = nodes[k].parent.unwrap() as int;
    let after = appended(tree, p, nodes[k].tile);
    let advanced = progress.update(p, progress[p] + 1).push(0);
    let list = nodes[p].children;
    assert(list.contains(k as usize));
    let at = choose|at: int| 0 <= at < list.len() && list[at] == k as usize;
    let m = progress[p];
    assert(tree[p].0 == nodes[p].tile);
    // The next node is the next child of its parent.
    assert(at >= m) by {
        if at < m {
            assert(list[at] < k);
        }
    }
    assert(list[m] >= k);
    assert(at == m) by {
        if m < at {
            assert(list[m] < list[at]);
        }
    }
    assert forall|i: int| 0 <= i < k + 1 implies {
        &&& (#[trigger] after[i]).0 == nodes[i].tile
        &&& after[i].1 == parent_position(nodes[i].parent)
        &&& 0 <= advanced[i] <= nodes[i].children.len()
        &&& after[i].2 == positions(nodes[i].children.take(advanced[i]))
        &&& forall|j: int| 0 <= j < advanced[i] ==> #[trigger] nodes[i].children[j] < k + 1
        &&& forall|j: int|
            advanced[i] <= j < nodes[i].children.len() ==> #[trigger] nodes[i].children[j] >= k + 1
    } by {
        if i == k {
            assert(positions(nodes[i].children.take(0)) =~= Seq::<int>::empty());
            assert forall|j: int| 0 <= j < nodes[i].children.len() implies #[trigger] nodes[i].children[j]
                >= k + 1 by {
                assert(child_linked(nodes, i, j));
            }
        } else if i == p {
            assert(tree[i].0 == nodes[i].tile);
            assert(positions(list.take(m + 1)) =~= positions(list.take(m)).push(k));
            assert forall|j: int| m + 1 <= j < list.len() implies #[trigger] list[j] >= k + 1 by {
                assert(list[m] < list[j]);
            }
            assert forall|j: int| 0 <= j < m + 1 implies #[trigger] list[j] < k + 1 by {
                if j < m {
                    assert(list[j] < k);
                }
            }
        } else {
            assert(tree[i].0 == nodes[i].tile);
            assert forall|j: int| advanced[i] <= j < nodes[i].children.len() implies #[trigger] nodes[i].children[j]
                >= k + 1 by {
                assert(nodes[i].children[j] >= k);
                if nodes[i].children[j] == k {
                    assert(child_linked(nodes, i, j));
                }
            }
            assert forall|j: int| 0 <= j < advanced[i] implies #[trigger] nodes[i].children[j] < k
                + 1 by {
                assert(nodes[i].children[j] < k);
            }
        }
    }
}

impl Layout {
    /// The nodes are linked to each other as attaching links them.
    pub open spec fn linked(&self) -> bool {
        &&& self.nodes@.len() > 0 ==> self.nodes@[0].parent.is_none()
        &&& parents_linked(self.node_views())
        &&& children_linked(self.node_views())
        &&& children_ordered(self.node_views())
    }

    /// Creates a tree of the layout's tiles, with the nodes and the children
    /// of each node in the layout's order; `None` for an empty layout.
    pub fn to_tree(&self) -> (tree: Option<Tree<Tile>>)
        requires
            self.linked(),
        ensures
            match tree {
                Some(tree) => self.nodes@.len() > 0 && tree_nodes(tree) == tree_of(self.node_views()),
                None => self.nodes@.len() == 0,
            },
    {
        if self.nodes.len() == 0 {
            return None;
        }
        let ghost nodes = self.node_views();
        // Map from layout node index to the id of the node in the tree
        let mut node_ids: Vec<NodeId> = Vec::new();
        let mut tree = tree_new(self.nodes[0].tile);
        let root_id = tree_root_id(&tree);
        node_ids.push(root_id);
        let ghost progress = seq![0int];
        proof {
            assert(nodes[0] == self.nodes@[0]@);
            assert(positions(nodes[0].children.take(0)) =~= Seq::<int>::empty());
            assert forall|j: int| 0 <= j < nodes[0].children.len() implies #[trigger] nodes[0].children[j]
                >= 1 by {
                assert(child_linked(nodes, 0, j));
            }
            assert(grown_to(nodes, tree_nodes(tree), progress, 1));
        }
        // Build the tree by processing nodes in order
        let mut index: usize = 1;
        while index < self.nodes.len()
            invariant
                1 <= index <= self.nodes@.len(),
                nodes == self.node_views(),
                self.linked(),
                node_ids@.len() == index,
                forall|i: int| 0 <= i < index ==> node_position(#[trigger] node_ids@[i]) == i,
                grown_to(nodes, tree_nodes(tree), progress, index as int),
            decreases self.nodes@.len() - index,
        {
            let node = &self.nodes[index];
            proof {
                assert(nodes[index as int] == node@);
                assert(parent_linked(nodes, index as int));
                lemma_grown(nodes, tree_nodes(tree), progress, index as int);
            }
            match node.parent {
                Some(parent_index) => {
                    let parent_id = node_ids[parent_index];
                    let child_id = tree_append(&mut tree, parent_id, node.tile);
                    node_ids.push(child_id);
                    proof {
                        progress = progress.update(parent_index as int, progress[parent_index as int] + 1).push(0);
                    }
                },
                None => {},
            }
            index = index + 1;
        }
        proof {
            assert forall|i: int| 0 <= i < nodes.len() implies tree_nodes(tree)[i] == tree_of(nodes)[i] by {
                assert(tree_nodes(tree)[i].0 == nodes[i].tile);
                let list = nodes[i].children;
                assert(progress[i] == list.len()) by {
                    if progress[i] < list.len() {
                        assert(list[progress[i]] >= nodes.len());
                        assert(child_linked(nodes, i, progress[i]));
                    }
                }
                assert(list.take(list.len() as int) =~= list);
            }
            assert(tree_nodes(tree) =~= tree_of(nodes));
        }
        Some(tree)
    }
}

} // verus!
