//! How attaching a tile changes what the links of a layout leave open.

use crate::layout::{
    attached_tree, child_linked, child_on_low, children_linked, children_ordered, connections_fit,
    connections_fit_at, node_in_range, parent_linked, parents_linked, derived_count, derived_total, high_links, links_in_range,
    low_children, low_links, parent_on_high, parent_on_low, NodeView,
};
use crate::tile::Tile;
use vstd::prelude::*;

verus! {

/// The value of the new tile that is connected to the parent: its smaller
/// value where the parent's tile carries that, else its larger value.
pub open spec fn matched_value(parent_tile: Tile, tile: Tile) -> int {
    if parent_tile.has(tile.lo()) {
        tile.lo()
    } else {
        tile.hi()
    }
}

/// The value of the new tile that stays open: the one that is not connected.
pub open spec fn opened_value(parent_tile: Tile, tile: Tile) -> int {
    if parent_tile.has(tile.lo()) {
        tile.hi()
    } else {
        tile.lo()
    }
}

/// The number of open ends that a tile brings: two for a double, else one.
pub open spec fn opened_count(tile: Tile) -> int {
    if tile.is_double_spec() {
        2
    } else {
        1
    }
}

/// The nodes of a layout that holds one tile.
pub open spec fn attach_root(tile: Tile) -> Seq<NodeView> {
    seq![NodeView { tile, parent: None, children: Seq::empty() }]
}

/// The nodes after a tile was attached to the node `p`.
#[verifier::opaque]
pub open spec fn attach_child(nodes: Seq<NodeView>, tile: Tile, p: int) -> Seq<NodeView> {
    nodes.update(
        p,
        NodeView {
            tile: nodes[p].tile,
            parent: nodes[p].parent,
            children: nodes[p].children.push(nodes.len() as usize),
        },
    ).push(NodeView { tile, parent: Some(p as usize), children: Seq::empty() })
}

/// The children on a node's low side are counted from the node's tile, its
/// first children and their tiles alone.
pub proof fn lemma_low_children_frame(a: Seq<NodeView>, b: Seq<NodeView>, i: int, k: int)
    requires
        0 <= i < a.len(),
        i < b.len(),
        0 <= k <= a[i].children.len(),
        k <= b[i].children.len(),
        a[i].tile == b[i].tile,
        forall|j: int|
            0 <= j < k ==> a[i].children[j] == #[trigger] b[i].children[j] && a[i].children[j]
                < a.len() && a[i].children[j] < b.len() && a[a[i].children[j] as int].tile
                == b[a[i].children[j] as int].tile,
    ensures
        low_children(a, i, k) == low_children(b, i, k),
        0 <= low_children(a, i, k) <= k,
    decreases k,
{
    if k > 0 {
        assert forall|j: int| 0 <= j < k - 1 implies a[i].children[j] == #[trigger] b[i].children[j]
            && a[i].children[j] < a.len() && a[i].children[j] < b.len() && a[a[i].children[j] as int].tile
            == b[a[i].children[j] as int].tile by {
            assert(0 <= j < k);
        }
        lemma_low_children_frame(a, b, i, k - 1);
        assert(a[i].children[k - 1] == b[i].children[k - 1]);
    }
}

/// The number of children on a node's low side lies between none and all.
pub proof fn lemma_low_children_bounds(nodes: Seq<NodeView>, i: int, k: int)
    requires
        0 <= k,
    ensures
        0 <= low_children(nodes, i, k) <= k,
    decreases k,
{
    if k > 0 {
        lemma_low_children_bounds(nodes, i, k - 1);
    }
}

/// Where two layouts leave the same open at each of the first `n` nodes, but
/// for one node that differs by `delta`, the totals differ by `delta`.
pub proof fn lemma_total_frame(
    a: Seq<NodeView>,
    b: Seq<NodeView>,
    value: int,
    n: int,
    p: int,
    delta: int,
)
    requires
        0 <= n,
        forall|i: int|
            0 <= i < n ==> #[trigger] derived_count(b, i, value) == derived_count(a, i, value) + if i
                == p {
                delta
            } else {
                0
            },
    ensures
        derived_total(b, value, n) == derived_total(a, value, n) + if 0 <= p < n {
            delta
        } else {
            0
        },
    decreases n,
{
    if n > 0 {
        lemma_total_frame(a, b, value, n - 1, p, delta);
        assert(derived_count(b, n - 1, value) == derived_count(a, n - 1, value) + if n - 1 == p {
            delta
        } else {
            0
        });
    }
}

/// Where nothing is open less than zero times, a total of zero means that the
/// value is open at no node.
pub proof fn lemma_total_zero(nodes: Seq<NodeView>, value: int, n: int)
    requires
        0 <= n,
        forall|i: int| 0 <= i < n ==> #[trigger] derived_count(nodes, i, value) >= 0,
    ensures
        derived_total(nodes, value, n) >= 0,
        derived_total(nodes, value, n) == 0 ==> forall|i: int|
            0 <= i < n ==> #[trigger] derived_count(nodes, i, value) == 0,
    decreases n,
{
    if n > 0 {
        lemma_total_zero(nodes, value, n - 1);
        assert(derived_count(nodes, n - 1, value) >= 0);
    }
}

/// A layout of one double is a tree, with the double's value open twice.
pub proof fn lemma_attach_root(tile: Tile)
    requires
        tile.is_double_spec(),
    ensures
        links_in_range(attach_root(tile)),
        attached_tree(attach_root(tile)),
        forall|value: int| #[trigger]
            derived_count(attach_root(tile), 0, value) == if value == tile.lo() {
                2int
            } else {
                0int
            },
        forall|value: int| #[trigger]
            derived_total(attach_root(tile), value, 1) == if value == tile.lo() {
                2int
            } else {
                0int
            },
{
    let nodes = attach_root(tile);
    assert(nodes[0].children.len() == 0);
    assert(low_children(nodes, 0, 0) == 0);
    assert(low_links(nodes, 0) == 1);
    assert(node_in_range(nodes, 0));
    assert(connections_fit_at(nodes, 0));
    assert forall|value: int| #[trigger]
        derived_total(nodes, value, 1) == if value == tile.lo() {
            2int
        } else {
            0int
        } by {
        assert(derived_total(nodes, value, 0) == 0);
        assert(derived_total(nodes, value, 1) == derived_total(nodes, value, 0) + derived_count(
            nodes,
            0,
            value,
        ));
    }
}

/// What attaching a tile to the node `p` changes in the nodes: `p` gets the
/// new node as its last child, the new node stands at the end.
pub proof fn lemma_attach_child_nodes(nodes: Seq<NodeView>, tile: Tile, p: int)
    requires
        0 <= p < nodes.len(),
    ensures
        attach_child(nodes, tile, p).len() == nodes.len() + 1,
        attach_child(nodes, tile, p)[nodes.len() as int] == (NodeView {
            tile,
            parent: Some(p as usize),
            children: Seq::empty(),
        }),
        attach_child(nodes, tile, p)[p].children == nodes[p].children.push(nodes.len() as usize),
        attach_child(nodes, tile, p)[p].tile == nodes[p].tile,
        attach_child(nodes, tile, p)[p].parent == nodes[p].parent,
{
    reveal(attach_child);
}

/// Attaching a tile to the node `p` leaves every other node as it was.
pub proof fn lemma_attach_child_other(nodes: Seq<NodeView>, tile: Tile, p: int, i: int)
    requires
        0 <= p < nodes.len(),
        0 <= i < nodes.len(),
    ensures
        attach_child(nodes, tile, p)[i].tile == nodes[i].tile,
        attach_child(nodes, tile, p)[i].parent == nodes[i].parent,
        i != p ==> attach_child(nodes, tile, p)[i] == nodes[i],
{
    reveal(attach_child);
}

/// Attaching a tile to the node `p` leaves the earlier children of every node
/// on the sides on which they were.
proof fn lemma_attach_child_low_children(nodes: Seq<NodeView>, tile: Tile, p: int, i: int)
    requires
        links_in_range(nodes),
        0 <= p < nodes.len(),
        0 <= i < nodes.len(),
    ensures
        low_children(attach_child(nodes, tile, p), i, nodes[i].children.len() as int)
            == low_children(nodes, i, nodes[i].children.len() as int),
{
    let after = attach_child(nodes, tile, p);
    lemma_attach_child_nodes(nodes, tile, p);
    lemma_attach_child_other(nodes, tile, p, i);
    assert(node_in_range(nodes, i));
    assert forall|j: int| 0 <= j < nodes[i].children.len() implies nodes[i].children[j]
        == #[trigger] after[i].children[j] && nodes[i].children[j] < nodes.len()
        && nodes[i].children[j] < after.len() && nodes[nodes[i].children[j] as int].tile
        == after[nodes[i].children[j] as int].tile by {
        assert(nodes[i].children[j] < nodes.len());
        lemma_attach_child_other(nodes, tile, p, nodes[i].children[j] as int);
    }
    lemma_low_children_frame(nodes, after, i, nodes[i].children.len() as int);
}

/// Attaching a tile to the node `p` leaves the parent of every earlier node
/// on the side on which it was.
proof fn lemma_attach_child_parent_side(nodes: Seq<NodeView>, tile: Tile, p: int, i: int)
    requires
        links_in_range(nodes),
        0 <= p < nodes.len(),
        0 <= i < nodes.len(),
    ensures
        parent_on_low(attach_child(nodes, tile, p), i) == parent_on_low(nodes, i),
        parent_on_high(attach_child(nodes, tile, p), i) == parent_on_high(nodes, i),
{
    lemma_attach_child_other(nodes, tile, p, i);
    assert(node_in_range(nodes, i));
    match nodes[i].parent {
        Some(q) => {
            assert(q < nodes.len());
            lemma_attach_child_other(nodes, tile, p, q as int);
        },
        None => {},
    }
}

/// Attaching a tile to the node `p` leaves the connections of every other
/// earlier node as they were.
pub proof fn lemma_attach_child_links_other(nodes: Seq<NodeView>, tile: Tile, p: int, i: int)
    requires
        links_in_range(nodes),
        0 <= p < nodes.len(),
        0 <= i < nodes.len(),
        i != p,
    ensures
        low_links(attach_child(nodes, tile, p), i) == low_links(nodes, i),
        high_links(attach_child(nodes, tile, p), i) == high_links(nodes, i),
{
    lemma_attach_child_other(nodes, tile, p, i);
    lemma_attach_child_low_children(nodes, tile, p, i);
    lemma_attach_child_parent_side(nodes, tile, p, i);
}

/// Attaching a tile to the node `p` adds one connection to `p`, on its low
/// side where the tile carries the smaller value of `p`, else on its high
/// side; the new node has the one connection to its parent.
pub proof fn lemma_attach_child_links(nodes: Seq<NodeView>, tile: Tile, p: int)
    requires
        links_in_range(nodes),
        0 <= p < nodes.len(),
        nodes.len() < usize::MAX,
    ensures
        low_links(attach_child(nodes, tile, p), p) == low_links(nodes, p) + if tile.has(
            nodes[p].tile.lo(),
        ) {
            1int
        } else {
            0int
        },
        high_links(attach_child(nodes, tile, p), p) == high_links(nodes, p) + if tile.has(
            nodes[p].tile.lo(),
        ) {
            0int
        } else {
            1int
        },
        low_links(attach_child(nodes, tile, p), nodes.len() as int) == if nodes[p].tile.has(
            tile.lo(),
        ) {
            1int
        } else {
            0int
        },
        high_links(attach_child(nodes, tile, p), nodes.len() as int) == if nodes[p].tile.has(
            tile.lo(),
        ) {
            0int
        } else {
            1int
        },
{
    let after = attach_child(nodes, tile, p);
    let n = nodes.len() as int;
    lemma_attach_child_nodes(nodes, tile, p);
    lemma_attach_child_low_children(nodes, tile, p, p);
    lemma_attach_child_parent_side(nodes, tile, p, p);
    let k = nodes[p].children.len() as int;
    assert(after[p].children.len() == k + 1);
    assert(after[p].children[k] == n as usize);
    assert(low_children(after, p, k + 1) == low_children(after, p, k) + if child_on_low(
        after,
        p,
        after[p].children[k] as int,
    ) {
        1int
    } else {
        0int
    });
    assert(child_on_low(after, p, n) == tile.has(nodes[p].tile.lo()));
    assert(after[n].children.len() == 0);
    assert(low_children(after, n, 0) == 0);
    assert(after[n].parent == Some(p as usize));
}

/// Attaching a tile to a node at which its matched value is open takes one
/// open end of the matched value from that node, and opens the tile's other
/// value at the new node: twice for a double, else once.
pub proof fn lemma_attach_child_counts(nodes: Seq<NodeView>, tile: Tile, p: int)
    requires
        links_in_range(nodes),
        0 <= p < nodes.len(),
        nodes.len() < usize::MAX,
        derived_count(nodes, p, matched_value(nodes[p].tile, tile)) > 0,
    ensures
        nodes[p].tile.has(matched_value(nodes[p].tile, tile)),
        tile.has(nodes[p].tile.lo()) <==> matched_value(nodes[p].tile, tile) == nodes[p].tile.lo(),
        forall|i: int, value: int|
            0 <= i < nodes.len() ==> #[trigger] derived_count(attach_child(nodes, tile, p), i, value)
                == derived_count(nodes, i, value) - if i == p && value == matched_value(
                nodes[p].tile,
                tile,
            ) {
                1int
            } else {
                0int
            },
        forall|value: int| #[trigger]
            derived_count(attach_child(nodes, tile, p), nodes.len() as int, value) == if value
                == opened_value(nodes[p].tile, tile) {
                opened_count(tile)
            } else {
                0
            },
{
    let after = attach_child(nodes, tile, p);
    let n = nodes.len() as int;
    let parent_tile = nodes[p].tile;
    let matched = matched_value(parent_tile, tile);
    let opened = opened_value(parent_tile, tile);
    tile.lemma_pips();
    parent_tile.lemma_pips();
    lemma_attach_child_nodes(nodes, tile, p);
    lemma_attach_child_links(nodes, tile, p);
    lemma_low_children_bounds(nodes, p, nodes[p].children.len() as int);
    assert(parent_tile.has(matched));
    assert forall|i: int, value: int| 0 <= i < n implies #[trigger] derived_count(after, i, value)
        == derived_count(nodes, i, value) - if i == p && value == matched {
        1int
    } else {
        0int
    } by {
        lemma_attach_child_other(nodes, tile, p, i);
        if i != p {
            lemma_attach_child_links_other(nodes, tile, p, i);
        }
    }
    assert forall|value: int| #[trigger]
        derived_count(after, n, value) == if value == opened {
            opened_count(tile)
        } else {
            0
        } by {
        assert(after[n].tile == tile);
    }
}

/// Attaching a tile to a node at which its matched value is open changes the
/// totals by the end that it takes and the ends that it opens.
pub proof fn lemma_attach_child_totals(nodes: Seq<NodeView>, tile: Tile, p: int)
    requires
        links_in_range(nodes),
        0 <= p < nodes.len(),
        nodes.len() < usize::MAX,
        derived_count(nodes, p, matched_value(nodes[p].tile, tile)) > 0,
    ensures
        forall|value: int| #[trigger]
            derived_total(attach_child(nodes, tile, p), value, nodes.len() as int + 1)
                == derived_total(nodes, value, nodes.len() as int) - (if value == matched_value(
                nodes[p].tile,
                tile,
            ) {
                1int
            } else {
                0int
            }) + (if value == opened_value(nodes[p].tile, tile) {
                opened_count(tile)
            } else {
                0
            }),
{
    let after = attach_child(nodes, tile, p);
    let n = nodes.len() as int;
    let matched = matched_value(nodes[p].tile, tile);
    let opened = opened_value(nodes[p].tile, tile);
    lemma_attach_child_counts(nodes, tile, p);
    assert forall|value: int| #[trigger]
        derived_total(after, value, n + 1) == derived_total(nodes, value, n) - (if value == matched {
            1int
        } else {
            0int
        }) + (if value == opened {
            opened_count(tile)
        } else {
            0
        }) by {
        lemma_total_frame(
            nodes,
            after,
            value,
            n,
            p,
            if value == matched {
                -1
            } else {
                0
            },
        );
        assert(derived_total(after, value, n + 1) == derived_total(after, value, n) + derived_count(
            after,
            n,
            value,
        ));
    }
}

/// Attaching a tile to a node at which its matched value is open keeps the
/// links in range.
pub proof fn lemma_attach_child_in_range(nodes: Seq<NodeView>, tile: Tile, p: int)
    requires
        links_in_range(nodes),
        0 <= p < nodes.len(),
        nodes.len() < usize::MAX,
    ensures
        links_in_range(attach_child(nodes, tile, p)),
{
    let after = attach_child(nodes, tile, p);
    let n = nodes.len() as int;
    lemma_attach_child_nodes(nodes, tile, p);
    assert forall|i: int| 0 <= i < after.len() implies #[trigger] node_in_range(after, i) by {
        if i < n {
            lemma_attach_child_other(nodes, tile, p, i);
            assert(node_in_range(nodes, i));
            assert forall|k: int| 0 <= k < after[i].children.len() implies #[trigger] after[i].children[k]
                < after.len() by {
                if i == p {
                    if k < nodes[p].children.len() {
                        assert(after[i].children[k] == nodes[i].children[k]);
                    }
                } else {
                    assert(after[i].children[k] == nodes[i].children[k]);
                }
            }
        }
    }
}

/// Attaching a tile to a node keeps every later node linked to its parent.
proof fn lemma_attach_child_parents(nodes: Seq<NodeView>, tile: Tile, p: int)
    requires
        links_in_range(nodes),
        parents_linked(nodes),
        0 <= p < nodes.len(),
        nodes.len() < usize::MAX,
        tile.has(nodes[p].tile.lo()) || tile.has(nodes[p].tile.hi()),
    ensures
        parents_linked(attach_child(nodes, tile, p)),
{
    let after = attach_child(nodes, tile, p);
    let n = nodes.len() as int;
    lemma_attach_child_nodes(nodes, tile, p);
    assert forall|i: int| 0 < i < after.len() implies #[trigger] parent_linked(after, i) by {
        if i < n {
            lemma_attach_child_other(nodes, tile, p, i);
            assert(parent_linked(nodes, i));
            let q = nodes[i].parent.unwrap() as int;
            lemma_attach_child_other(nodes, tile, p, q);
            assert(nodes[q].children.contains(i as usize));
            let k = choose|k: int| 0 <= k < nodes[q].children.len() && nodes[q].children[k] == i as usize;
            if q == p {
                assert(after[q].children[k] == i as usize);
            }
        } else {
            assert(after[p].children[nodes[p].children.len() as int] == i as usize);
        }
    }
}

/// Attaching a tile to a node keeps every child linked to the node that lists it.
proof fn lemma_attach_child_children(nodes: Seq<NodeView>, tile: Tile, p: int)
    requires
        links_in_range(nodes),
        children_linked(nodes),
        children_ordered(nodes),
        0 <= p < nodes.len(),
        nodes.len() < usize::MAX,
    ensures
        children_linked(attach_child(nodes, tile, p)),
        children_ordered(attach_child(nodes, tile, p)),
{
    let after = attach_child(nodes, tile, p);
    let n = nodes.len() as int;
    lemma_attach_child_nodes(nodes, tile, p);
    assert forall|i: int, k: int|
        0 <= i < after.len() && 0 <= k < after[i].children.len() implies #[trigger] child_linked(
        after,
        i,
        k,
    ) by {
        if i == p {
            if k < nodes[p].children.len() {
                assert(child_linked(nodes, i, k));
                assert(after[i].children[k] == nodes[i].children[k]);
                lemma_attach_child_other(nodes, tile, p, nodes[i].children[k] as int);
            }
        } else if i < n {
            lemma_attach_child_other(nodes, tile, p, i);
            assert(child_linked(nodes, i, k));
            lemma_attach_child_other(nodes, tile, p, nodes[i].children[k] as int);
        }
    }
    assert forall|i: int, k: int, l: int|
        0 <= i < after.len() && 0 <= k < l < after[i].children.len() implies #[trigger] after[i].children[k]
        < #[trigger] after[i].children[l] by {
        if i == p {
            assert(after[i].children[k] == nodes[i].children[k]);
            if l < nodes[p].children.len() {
                assert(after[i].children[l] == nodes[i].children[l]);
            } else {
                assert(child_linked(nodes, i, k));
            }
        } else if i < n {
            lemma_attach_child_other(nodes, tile, p, i);
        }
    }
}

/// Attaching a tile to a node at which its matched value is open leaves no
/// node with more connections than its tile has room for.
proof fn lemma_attach_child_fit(nodes: Seq<NodeView>, tile: Tile, p: int)
    requires
        links_in_range(nodes),
        connections_fit(nodes),
        0 <= p < nodes.len(),
        nodes.len() < usize::MAX,
        derived_count(nodes, p, matched_value(nodes[p].tile, tile)) > 0,
    ensures
        connections_fit(attach_child(nodes, tile, p)),
{
    let after = attach_child(nodes, tile, p);
    let n = nodes.len() as int;
    let parent_tile = nodes[p].tile;
    tile.lemma_pips();
    parent_tile.lemma_pips();
    lemma_attach_child_nodes(nodes, tile, p);
    lemma_attach_child_links(nodes, tile, p);
    lemma_low_children_bounds(nodes, p, nodes[p].children.len() as int);
    assert forall|i: int| 0 <= i < after.len() implies #[trigger] connections_fit_at(after, i) by {
        if i < n {
            lemma_attach_child_other(nodes, tile, p, i);
            assert(connections_fit_at(nodes, i));
            if i != p {
                lemma_attach_child_links_other(nodes, tile, p, i);
            }
        }
    }
}

/// Attaching a tile to a node at which its matched value is open keeps the
/// shape of a tree that grew by attaching tiles.
pub proof fn lemma_attach_child_tree(nodes: Seq<NodeView>, tile: Tile, p: int)
    requires
        links_in_range(nodes),
        attached_tree(nodes),
        0 <= p < nodes.len(),
        nodes.len() < usize::MAX,
        derived_count(nodes, p, matched_value(nodes[p].tile, tile)) > 0,
    ensures
        attached_tree(attach_child(nodes, tile, p)),
{
    tile.lemma_pips();
    nodes[p].tile.lemma_pips();
    lemma_attach_child_nodes(nodes, tile, p);
    lemma_attach_child_other(nodes, tile, p, 0);
    lemma_attach_child_parents(nodes, tile, p);
    lemma_attach_child_children(nodes, tile, p);
    lemma_attach_child_fit(nodes, tile, p);
}

} // verus!
