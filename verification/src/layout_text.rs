//! The text of a layout: a chain of tiles, where a tile with several children
//! is followed by a group of chains.

use crate::layout::{child_linked, children_linked, Layout, NodeView};
use crate::text::{append_decimal, decimal};
use crate::tile::Tile;
use vstd::prelude::*;
use vstd::string::StringExecFns;

verus! {

/// A tree of tiles: a tile and the trees of its children, in their order.
pub struct TileTree {
    pub tile: Tile,
    pub children: Seq<TileTree>,
}

/// The value of the tile that is written first: the connected one.
pub open spec fn near_value(tile: Tile, open: int) -> int {
    if open == tile.lo() {
        tile.lo()
    } else {
        tile.hi()
    }
}

/// The value of the tile that is written second: the one that its children connect to.
pub open spec fn far_value(tile: Tile, open: int) -> int {
    if open == tile.lo() {
        tile.hi()
    } else {
        tile.lo()
    }
}

/// The text of a tile that is connected by the value `open`: that value,
/// a bar, and the tile's other value.
pub open spec fn tile_text(tile: Tile, open: int) -> Seq<char> {
    decimal(near_value(tile, open) as nat) + seq!['|'] + decimal(far_value(tile, open) as nat)
}

/// The text of a chain: its first tile, and what follows it. One child
/// follows after a dash; several children follow as a group in parentheses,
/// after an equals sign.
pub open spec fn chain_text(tree: TileTree, open: int) -> Seq<char>
    decreases tree, 1int,
{
    tile_text(tree.tile, open) + if tree.children.len() == 0 {
        Seq::<char>::empty()
    } else if tree.children.len() == 1 {
        seq!['-'] + chain_text(tree.children[0], far_value(tree.tile, open))
    } else {
        seq!['=', '('] + group_text(tree, tree.children.len() as int, far_value(tree.tile, open))
            + seq![')']
    }
}

/// The text of the first `upto` children of a tree as chains, with commas between them.
pub open spec fn group_text(tree: TileTree, upto: int, open: int) -> Seq<char>
    decreases tree, 0int, upto,
{
    if 0 < upto <= tree.children.len() {
        group_text(tree, upto - 1, open) + (if upto > 1 {
            seq![',']
        } else {
            Seq::<char>::empty()
        }) + chain_text(tree.children[upto - 1], open)
    } else {
        Seq::<char>::empty()
    }
}

/// The tree of tiles below a node of a layout, the node's tile at its root.
pub open spec fn subtree(nodes: Seq<NodeView>, i: int) -> TileTree
    decreases nodes.len() - i, nodes[i].children.len() + 1,
    when children_linked(nodes) && 0 <= i < nodes.len()
{
    TileTree { tile: nodes[i].tile, children: subtrees(nodes, i, nodes[i].children.len() as int) }
}

/// The trees of tiles below the first `upto` children of a node of a layout.
pub open spec fn subtrees(nodes: Seq<NodeView>, i: int, upto: int) -> Seq<TileTree>
    decreases nodes.len() - i, upto,
    when children_linked(nodes) && 0 <= i < nodes.len() && upto <= nodes[i].children.len()
{
    if upto <= 0 {
        Seq::<TileTree>::empty()
    } else if child_linked(nodes, i, upto - 1) {
        subtrees(nodes, i, upto - 1).push(subtree(nodes, nodes[i].children[upto - 1] as int))
    } else {
        Seq::<TileTree>::empty()
    }
}

/// The trees below the children of a node are the trees below each child, in order.
pub proof fn lemma_subtrees(nodes: Seq<NodeView>, i: int, upto: int)
    requires
        children_linked(nodes),
        0 <= i < nodes.len(),
        0 <= upto <= nodes[i].children.len(),
    ensures
        subtrees(nodes, i, upto).len() == upto,
        forall|k: int|
            0 <= k < upto ==> #[trigger] subtrees(nodes, i, upto)[k] == subtree(
                nodes,
                nodes[i].children[k] as int,
            ),
    decreases upto,
{
    if upto > 0 {
        assert(child_linked(nodes, i, upto - 1));
        lemma_subtrees(nodes, i, upto - 1);
    }
}

/// The tree below a node has the node's tile at its root and the trees below
/// the node's children as its children.
pub proof fn lemma_subtree(nodes: Seq<NodeView>, i: int)
    requires
        children_linked(nodes),
        0 <= i < nodes.len(),
    ensures
        subtree(nodes, i).tile == nodes[i].tile,
        subtree(nodes, i).children.len() == nodes[i].children.len(),
        forall|k: int|
            0 <= k < nodes[i].children.len() ==> #[trigger] subtree(nodes, i).children[k] == subtree(
                nodes,
                nodes[i].children[k] as int,
            ),
{
    lemma_subtrees(nodes, i, nodes[i].children.len() as int);
}

impl Layout {
    /// The text of the layout: nothing for an empty layout, else the chain
    /// that starts with the root.
    pub open spec fn text(&self) -> Seq<char> {
        if self.nodes@.len() == 0 {
            Seq::<char>::empty()
        } else {
            chain_text(subtree(self.node_views(), 0), self.nodes@[0].tile.hi())
        }
    }

    /// Returns the text of the chain that starts with a node, which is
    /// connected by the value `open`.
    fn fmt_r(&self, index: usize, open: u8) -> (text: String)
        requires
            children_linked(self.node_views()),
            index < self.nodes@.len(),
        ensures
            text@ == chain_text(subtree(self.node_views(), index as int), open as int),
        decreases self.nodes@.len() - index,
    {
        let ghost nodes = self.node_views();
        let ghost tree = subtree(nodes, index as int);
        let node = &self.nodes[index];
        proof {
            assert(nodes[index as int] == node@);
            lemma_subtree(nodes, index as int);
            node.tile.lemma_pips();
        }
        let (a, b) = node.tile.as_tuple();
        // Swap if necessary (tiles are added left-to-right)
        let (a, b) = if open == a {
            (a, b)
        } else {
            (b, a)
        };
        let mut result = String::from_str("");
        append_decimal(&mut result, a as usize);
        result.append("|");
        append_decimal(&mut result, b as usize);
        proof {
            reveal_strlit("");
            reveal_strlit("|");
            reveal_strlit("-");
            reveal_strlit("=(");
            reveal_strlit(",");
            reveal_strlit(")");
            assert(result@ =~= tile_text(node.tile, open as int));
        }
        let ghost head = result@;
        // Add the children recursively
        let count = node.children.len();
        if count == 1 {
            proof {
                assert(child_linked(nodes, index as int, 0));
            }
            result.append("-");
            let child = self.fmt_r(node.children[0], b);
            result.append(child.as_str());
            proof {
                assert("-"@ =~= seq!['-']);
                assert(result@ =~= chain_text(tree, open as int));
            }
        } else if count > 1 {
            result.append("=(");
            let mut i: usize = 0;
            while i < count
                invariant
                    i <= count == node.children@.len(),
                    count > 1,
                    children_linked(nodes),
                    nodes == self.node_views(),
                    index < self.nodes@.len(),
                    nodes[index as int] == node@,
                    tree == subtree(nodes, index as int),
                    tree.children.len() == count,
                    forall|k: int|
                        0 <= k < count ==> #[trigger] tree.children[k] == subtree(
                            nodes,
                            node.children@[k] as int,
                        ),
                    result@ == head + "=("@ + group_text(tree, i as int, b as int),
                decreases count - i,
            {
                proof {
                    assert(child_linked(nodes, index as int, i as int));
                    reveal_strlit(",");
                }
                let ghost before = result@;
                if i > 0 {
                    result.append(",");
                }
                let child = self.fmt_r(node.children[i], b);
                result.append(child.as_str());
                proof {
                    assert(","@ =~= seq![',']);
                    assert(result@ =~= head + "=("@ + group_text(tree, i + 1, b as int));
                }
                i = i + 1;
            }
            result.append(")");
            proof {
                assert("=("@ =~= seq!['=', '(']);
                assert(")"@ =~= seq![')']);
                assert(result@ =~= chain_text(tree, open as int));
            }
        } else {
            proof {
                assert(result@ =~= chain_text(tree, open as int));
            }
        }
        result
    }

    /// Returns the text of the layout, such as `6|6-6|3=(3|1,3|5-5|2)`; the
    /// empty text for an empty layout.
    pub fn to_string(&self) -> (text: String)
        requires
            children_linked(self.node_views()),
            self.nodes@.len() > 0 ==> self.nodes@[0].tile.is_double_spec(),
        ensures
            text@ == self.text(),
    {
        if self.nodes.len() == 0 {
            proof {
                reveal_strlit("");
            }
            return String::from_str("");
        }
        let root = &self.nodes[0];
        let (_, b) = root.tile.as_tuple();
        self.fmt_r(0, b)
    }
}

} // verus!
