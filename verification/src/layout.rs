//! The layout of played tiles: a tree of tiles together with an index of the
//! ends that are still open.

use crate::configuration::Configuration;
use crate::layout_lemmas::{
    attach_child, attach_root, lemma_attach_child_counts, lemma_attach_child_in_range,
    lemma_attach_child_nodes, lemma_attach_child_other, lemma_attach_child_totals,
    lemma_attach_child_tree, lemma_attach_root, lemma_total_zero, matched_value, opened_count,
    opened_value,
};
use crate::open_ends::{
    entries_at, lemma_occurrences_positive, lemma_first_position, lemma_occurrences_remove_first, no_entries, occurrences, open_entries, open_get_vec,
    open_get_vec_mut, open_insert, open_keys, open_new, open_remove, remove_first,
    values_contain,
};
use crate::rules::MAX_PIPS;
use crate::tile::Tile;
use multimap::MultiMap;
use vstd::prelude::*;

verus! {

/// A node in the layout: one placed tile and its links.
#[derive(Debug, Clone)]
pub struct LayoutNode {
    /// The tile
    pub tile: Tile,
    /// Index of the node's parent, `None` indicates this is the root node
    pub parent: Option<usize>,
    /// Indexes of the child nodes attached to this tile
    pub children: Vec<usize>,
}

/// What a node holds.
pub struct NodeView {
    pub tile: Tile,
    pub parent: Option<usize>,
    pub children: Seq<usize>,
}

impl View for LayoutNode {
    type V = NodeView;

    open spec fn view(&self) -> NodeView {
        NodeView { tile: self.tile, parent: self.parent, children: self.children@ }
    }
}

/// What a sequence of nodes holds.
pub open spec fn node_views(nodes: Seq<LayoutNode>) -> Seq<NodeView> {
    nodes.map_values(|node: LayoutNode| node@)
}

/// The links of a node lead to nodes of the sequence.
pub open spec fn node_in_range(nodes: Seq<NodeView>, i: int) -> bool {
    &&& match nodes[i].parent {
        Some(p) => p < nodes.len(),
        None => true,
    }
    &&& forall|k: int| 0 <= k < nodes[i].children.len() ==> #[trigger] nodes[i].children[k] < nodes.len()
}

/// The links of every node lead to nodes of the sequence.
pub open spec fn links_in_range(nodes: Seq<NodeView>) -> bool {
    forall|i: int| 0 <= i < nodes.len() ==> #[trigger] node_in_range(nodes, i)
}

/// Whether the child of a node is connected to the node's low side: it is
/// where the child's tile carries the node's smaller value.
pub open spec fn child_on_low(nodes: Seq<NodeView>, i: int, child: int) -> bool {
    nodes[child].tile.has(nodes[i].tile.lo())
}

/// The number of the node's first `k` children that are connected to its low side.
pub open spec fn low_children(nodes: Seq<NodeView>, i: int, k: int) -> int
    decreases k,
{
    if k <= 0 {
        0
    } else {
        low_children(nodes, i, k - 1) + if child_on_low(nodes, i, nodes[i].children[k - 1] as int) {
            1int
        } else {
            0int
        }
    }
}

/// The number of connections that the node's parent makes to its low side. The
/// root, where it is a double, counts as connected once.
pub open spec fn parent_on_low(nodes: Seq<NodeView>, i: int) -> int {
    match nodes[i].parent {
        Some(p) => if nodes[p as int].tile.has(nodes[i].tile.lo()) {
            1
        } else {
            0
        },
        None => if nodes[i].tile.is_double_spec() {
            1
        } else {
            0
        },
    }
}

/// The number of connections that the node's parent makes to its high side.
pub open spec fn parent_on_high(nodes: Seq<NodeView>, i: int) -> int {
    match nodes[i].parent {
        Some(p) => 1 - parent_on_low(nodes, i),
        None => 0,
    }
}

/// The number of connections to the node's low side.
pub open spec fn low_links(nodes: Seq<NodeView>, i: int) -> int {
    parent_on_low(nodes, i) + low_children(nodes, i, nodes[i].children.len() as int)
}

/// The number of connections to the node's high side.
pub open spec fn high_links(nodes: Seq<NodeView>, i: int) -> int {
    parent_on_high(nodes, i) + nodes[i].children.len() - low_children(
        nodes,
        i,
        nodes[i].children.len() as int,
    )
}

/// How often a value is open at a node, going by the node's links alone. A
/// double has three connections of its one value; another tile has one
/// connection on each side.
pub open spec fn derived_count(nodes: Seq<NodeView>, i: int, value: int) -> int {
    let tile = nodes[i].tile;
    if tile.is_double_spec() {
        if value == tile.lo() {
            3 - low_links(nodes, i)
        } else {
            0
        }
    } else {
        (if value == tile.lo() && low_links(nodes, i) == 0 {
            1int
        } else {
            0int
        }) + (if value == tile.hi() && high_links(nodes, i) == 0 {
            1int
        } else {
            0int
        })
    }
}

/// How often a value is open at the first `n` nodes together.
pub open spec fn derived_total(nodes: Seq<NodeView>, value: int, n: int) -> int
    decreases n,
{
    if n <= 0 {
        0
    } else {
        derived_total(nodes, value, n - 1) + derived_count(nodes, n - 1, value)
    }
}

/// The node comes after its parent, is listed among its parent's children,
/// and shares a value with its parent's tile.
pub open spec fn parent_linked(nodes: Seq<NodeView>, i: int) -> bool {
    &&& nodes[i].parent.is_some()
    &&& nodes[i].parent.unwrap() < i
    &&& nodes[nodes[i].parent.unwrap() as int].children.contains(i as usize)
    &&& nodes[i].tile.has(nodes[nodes[i].parent.unwrap() as int].tile.lo()) || nodes[i].tile.has(
        nodes[nodes[i].parent.unwrap() as int].tile.hi(),
    )
}

/// Every node but the first is linked to its parent.
pub open spec fn parents_linked(nodes: Seq<NodeView>) -> bool {
    forall|i: int| 0 < i < nodes.len() ==> #[trigger] parent_linked(nodes, i)
}

/// The child number `k` of a node comes after the node, and has the node as its parent.
pub open spec fn child_linked(nodes: Seq<NodeView>, i: int, k: int) -> bool {
    &&& i < nodes[i].children[k] < nodes.len()
    &&& nodes[nodes[i].children[k] as int].parent == Some(i as usize)
}

/// Every child is linked to the node that lists it.
pub open spec fn children_linked(nodes: Seq<NodeView>) -> bool {
    forall|i: int, k: int|
        0 <= i < nodes.len() && 0 <= k < nodes[i].children.len() ==> #[trigger] child_linked(
            nodes,
            i,
            k,
        )
}

/// The children of every node are listed in the order in which they were attached.
pub open spec fn children_ordered(nodes: Seq<NodeView>) -> bool {
    forall|i: int, k: int, l: int|
        0 <= i < nodes.len() && 0 <= k < l < nodes[i].children.len() ==> #[trigger] nodes[i].children[k]
            < #[trigger] nodes[i].children[l]
}

/// A double carries all its connections on its one value, its parent's and
/// two more at most; another tile carries at most one connection on each side.
pub open spec fn connections_fit_at(nodes: Seq<NodeView>, i: int) -> bool {
    if nodes[i].tile.is_double_spec() {
        low_links(nodes, i) == 1 + nodes[i].children.len() && nodes[i].children.len() <= 2
    } else {
        low_links(nodes, i) <= 1 && high_links(nodes, i) <= 1
    }
}

/// No node has more connections than its tile has room for.
pub open spec fn connections_fit(nodes: Seq<NodeView>) -> bool {
    forall|i: int| 0 <= i < nodes.len() ==> #[trigger] connections_fit_at(nodes, i)
}

/// The shape of a tree that grew by attaching tiles: the root is a double
/// without a parent, and the nodes are linked to each other as attaching
/// links them.
pub open spec fn attached_tree(nodes: Seq<NodeView>) -> bool {
    &&& nodes.len() > 0 ==> nodes[0].parent.is_none() && nodes[0].tile.is_double_spec()
    &&& parents_linked(nodes)
    &&& children_linked(nodes)
    &&& children_ordered(nodes)
    &&& connections_fit(nodes)
}

/// The layout of dominoes: the placed tiles and how they are connected, with
/// the ends at which a further tile can be attached.
#[derive(Debug, Clone)]
pub struct Layout {
    /// All tiles in the layout with their connectivity information
    pub nodes: Vec<LayoutNode>,
    /// Open ends: node index -> open values. A double may have the same value twice.
    pub open: MultiMap<usize, u8>,
    /// The number of open ends for each value
    pub end_counts: Vec<u8>,
}

impl Layout {
    /// The nodes of the layout.
    pub open spec fn node_views(&self) -> Seq<NodeView> {
        node_views(self.nodes@)
    }

    /// The values that are open at a node.
    pub open spec fn open_at(&self, node: int) -> Seq<u8> {
        entries_at(self.open, node)
    }

    /// How often a value is open at a node.
    pub open spec fn open_count_at(&self, node: int, value: int) -> nat {
        occurrences(self.open_at(node), value)
    }

    /// The largest value that a tile of this layout may carry.
    pub open spec fn max_value(&self) -> int {
        self.end_counts@.len() - 1
    }

    /// The node indices that have an open end with the value.
    pub open spec fn nodes_with_open_end_spec(&self, value: int) -> Set<int> {
        Set::new(|i: int| 0 <= i < self.nodes@.len() && self.open_count_at(i, value) > 0)
    }

    /// The index of open ends agrees with the nodes: a value is open at a node
    /// as often as the node's links leave it open, the index has no key without
    /// a value, and the count of each value is its total over the nodes.
    pub open spec fn indexed(&self) -> bool {
        &&& links_in_range(self.node_views())
        &&& forall|i: int|
            0 <= i < self.nodes@.len() ==> (#[trigger] self.nodes@[i]).tile.hi() <= self.max_value()
        &&& forall|key: usize| #[trigger]
            open_entries(self.open).dom().contains(key) ==> key < self.nodes@.len() && open_entries(
                self.open,
            )[key].len() > 0
        &&& forall|i: int, value: int|
            0 <= i < self.nodes@.len() && 0 <= value <= u8::MAX ==> #[trigger] self.open_count_at(
                i,
                value,
            ) == derived_count(self.node_views(), i, value)
        &&& forall|value: int|
            0 <= value < self.end_counts@.len() ==> #[trigger] self.end_counts@[value]
                == derived_total(self.node_views(), value, self.nodes@.len() as int)
    }

    /// The layout grew by attaching tiles, and its index agrees with its nodes.
    pub open spec fn wf(&self) -> bool {
        &&& 1 <= self.end_counts@.len() <= MAX_PIPS + 1
        &&& self.indexed()
        &&& attached_tree(self.node_views())
    }

    /// Creates a new empty layout.
    pub fn new(configuration: &Configuration) -> (layout: Layout)
        requires
            configuration@.wf(),
        ensures
            layout.wf(),
            layout.nodes@.len() == 0,
            layout.end_counts@.len() == configuration@.set_id + 1,
            forall|value: int| 0 <= value < layout.end_counts@.len() ==> layout.end_counts@[value] == 0,
            open_entries(layout.open) == no_entries(),
    {
        let mut end_counts: Vec<u8> = Vec::new();
        let size: usize = configuration.set_id() as usize + 1;
        while end_counts.len() < size
            invariant
                end_counts@.len() <= size,
                forall|value: int| 0 <= value < end_counts@.len() ==> end_counts@[value] == 0,
            decreases size - end_counts@.len(),
        {
            end_counts.push(0);
        }
        let layout = Layout { nodes: Vec::new(), open: open_new(), end_counts };
        assert(layout.node_views().len() == 0);
        layout
    }

    /// Returns `true` if the layout is empty.
    pub fn is_empty(&self) -> (empty: bool)
        ensures
            empty == (self.nodes@.len() == 0),
    {
        self.nodes.len() == 0
    }

    /// Returns the number of open ends in the layout for the specified end value.
    pub fn open_count(&self, end: u8) -> (count: u8)
        requires
            end < self.end_counts@.len(),
        ensures
            count == self.end_counts@[end as int],
            self.indexed() ==> count == derived_total(
                self.node_views(),
                end as int,
                self.nodes@.len() as int,
            ),
    {
        self.end_counts[end as usize]
    }

    /// Attaches a tile to the layout: as the first tile, which must be a
    /// double, or to an existing node at which the tile's matched value is
    /// open. Returns the value that the tile leaves open and the number of
    /// open ends that it created.
    pub fn attach(&mut self, tile: Tile, parent_index: Option<usize>) -> (created: (u8, u8))
        requires
            old(self).wf(),
            tile.hi() <= old(self).max_value(),
            old(self).nodes@.len() < usize::MAX,
            match parent_index {
                Some(p) => {
                    &&& p < old(self).nodes@.len()
                    &&& old(self).open_count_at(
                        p as int,
                        matched_value(old(self).nodes@[p as int].tile, tile),
                    ) > 0
                    &&& old(self).end_counts@[opened_value(old(self).nodes@[p as int].tile, tile)]
                        + opened_count(tile) <= u8::MAX
                },
                None => old(self).nodes@.len() == 0 && tile.is_double_spec(),
            },
        ensures
            final(self).wf(),
            match parent_index {
                Some(p) => attached_to(*old(self), *final(self), tile, p as int)
                    && created.0 == opened_value(old(self).nodes@[p as int].tile, tile),
                None => attached_first(*old(self), *final(self), tile) && created.0 == tile.lo(),
            },
            created.1 == opened_count(tile),
    {
        let (a, b) = tile.as_tuple();
        let ghost before = *self;
        match parent_index {
            Some(parent_index) => {
                let (parent_a, parent_b) = self.nodes[parent_index].tile.as_tuple();
                // Determine the matched and open values
                let (matched_value, open_value) = if parent_a == a || parent_b == a {
                    (a, b)
                } else {
                    (b, a)
                };
                proof {
                    tile.lemma_pips();
                    before.nodes@[parent_index as int].tile.lemma_pips();
                }
                // Add a new tile node to the layout
                let tile_index = self.nodes.len();
                self.nodes.push(LayoutNode { tile, parent: Some(parent_index), children: Vec::new() });
                // Add the open ends. If the tile is a double, add twice.
                let open_count: u8 = if tile.is_double() {
                    2
                } else {
                    1
                };
                open_insert(&mut self.open, tile_index, open_value);
                if open_count == 2 {
                    open_insert(&mut self.open, tile_index, open_value);
                }
                let opened_before = self.end_counts[open_value as usize];
                self.end_counts[open_value as usize] = opened_before + open_count;
                // Remove the parent's open end from the open list
                proof {
                    assert(entries_at(self.open, parent_index as int) == entries_at(
                        before.open,
                        parent_index as int,
                    ));
                }
                self.remove_from_open(parent_index, matched_value);
                proof {
                    before.lemma_matched_counted(tile, parent_index as int);
                }
                let matched_before = self.end_counts[matched_value as usize];
                self.end_counts[matched_value as usize] = matched_before - 1;
                // Add the new tile node's index to the parent's list of children
                self.nodes[parent_index].children.push(tile_index);
                proof {
                    reveal(attach_child);
                    assert(self.node_views() =~~= attach_child(
                        before.node_views(),
                        tile,
                        parent_index as int,
                    ));
                    assert(entries_at(before.open, tile_index as int) =~= Seq::<u8>::empty());
                    assert(open_entries(self.open) =~~= removed_entry(
                        open_entries(before.open).insert(tile_index, new_entries(tile, open_value)),
                        parent_index,
                        matched_value,
                    ));
                    before.lemma_attached_to(*self, tile, parent_index as int);
                }
                (open_value, open_count)
            },
            None => {
                // The first tile is a special case: both ends are open.
                self.nodes.push(LayoutNode { tile, parent: None, children: Vec::new() });
                open_insert(&mut self.open, 0, a);
                open_insert(&mut self.open, 0, a);
                proof {
                    tile.lemma_pips();
                    assert(before.end_counts@[a as int] == derived_total(before.node_views(), a as int, 0));
                }
                let opened_before = self.end_counts[a as usize];
                self.end_counts[a as usize] = opened_before + 2;
                proof {
                    assert(self.node_views() =~~= attach_root(tile));
                    assert(entries_at(before.open, 0) =~= Seq::<u8>::empty());
                    assert(open_entries(self.open) =~~= open_entries(before.open).insert(
                        0,
                        new_entries(tile, a),
                    ));
                    before.lemma_attached_first(*self, tile);
                }
                (a, 2)
            },
        }
    }

    /// Returns the indices of the nodes that have an open end with the
    /// specified value, each once, in no particular order.
    pub fn get_nodes_with_open_end(&self, end_value: u8) -> (nodes: Vec<usize>)
        requires
            self.indexed(),
            end_value < self.end_counts@.len(),
        ensures
            nodes@.no_duplicates(),
            forall|i: usize|
                nodes@.contains(i) <==> self.nodes_with_open_end_spec(end_value as int).contains(
                    i as int,
                ),
    {
        let mut found: Vec<usize> = Vec::new();
        // Quick return if there are no open ends with that value
        if self.end_counts[end_value as usize] == 0 {
            proof {
                self.lemma_counts_not_negative(end_value as int);
                lemma_total_zero(self.node_views(), end_value as int, self.nodes@.len() as int);
                assert forall|i: usize|
                    self.nodes_with_open_end_spec(end_value as int).contains(i as int) implies found@.contains(
                    i,
                ) by {
                    assert(self.open_count_at(i as int, end_value as int) == derived_count(
                        self.node_views(),
                        i as int,
                        end_value as int,
                    ));
                }
            }
            return found;
        }
        let keys = open_keys(&self.open);
        let mut k: usize = 0;
        while k < keys.len()
            invariant
                k <= keys@.len(),
                keys@.no_duplicates(),
                forall|key: usize| keys@.contains(key) <==> open_entries(self.open).dom().contains(key),
                forall|key: usize| #[trigger]
                    open_entries(self.open).dom().contains(key) ==> key < self.nodes@.len(),
                found@.no_duplicates(),
                forall|i: usize|
                    found@.contains(i) <==> (exists|j: int| 0 <= j < k && keys@[j] == i)
                        && self.open_count_at(i as int, end_value as int) > 0,
            decreases keys@.len() - k,
        {
            let key = keys[k];
            assert(keys@.contains(key));
            let ghost before = found@;
            match open_get_vec(&self.open, key) {
                Some(values) => {
                    if values_contain(values, end_value) {
                        found.push(key);
                        assert(found@.no_duplicates()) by {
                            if before.contains(key) {
                                let j = choose|j: int| 0 <= j < k && keys@[j] == key;
                                assert(keys@[j] == keys@[k as int]);
                            }
                        }
                    }
                },
                None => {},
            }
            assert forall|i: usize|
                found@.contains(i) <==> (exists|j: int| 0 <= j < k + 1 && keys@[j] == i)
                    && self.open_count_at(i as int, end_value as int) > 0 by {
                if found@.contains(i) {
                    if before.contains(i) {
                        let j = choose|j: int| 0 <= j < k && keys@[j] == i;
                        assert(0 <= j < k + 1 && keys@[j] == i);
                    } else {
                        let at = choose|at: int| 0 <= at < found@.len() && found@[at] == i;
                        if at < before.len() {
                            assert(before[at] == i);
                        }
                        assert(i == key);
                        assert(0 <= k < k + 1 && keys@[k as int] == i);
                    }
                }
                if (exists|j: int| 0 <= j < k + 1 && keys@[j] == i) && self.open_count_at(
                    i as int,
                    end_value as int,
                ) > 0 {
                    let j = choose|j: int| 0 <= j < k + 1 && keys@[j] == i;
                    if j < k {
                        assert(before.contains(i));
                        let at = choose|at: int| 0 <= at < before.len() && before[at] == i;
                        assert(found@[at] == i);
                    } else {
                        assert(i == key);
                        assert(found@[found@.len() - 1] == i);
                    }
                }
            }
            k = k + 1;
        }
        proof {
            assert forall|i: usize|
                found@.contains(i) <==> self.nodes_with_open_end_spec(end_value as int).contains(
                    i as int,
                ) by {
                if self.nodes_with_open_end_spec(end_value as int).contains(i as int) {
                    lemma_occurrences_positive(self.open_at(i as int), end_value as int);
                    assert(open_entries(self.open).dom().contains(i));
                    assert(keys@.contains(i));
                    let j = choose|j: int| 0 <= j < keys@.len() && keys@[j] == i;
                    assert(0 <= j < k && keys@[j] == i);
                }
                if found@.contains(i) {
                    lemma_occurrences_positive(self.open_at(i as int), end_value as int);
                    assert(open_entries(self.open).dom().contains(i));
                }
            }
        }
        found
    }

    /// Removes a value from the open list of a node. Where the node has the
    /// value twice, only the first entry is removed; a node that is left
    /// without a value leaves the index.
    pub fn remove_from_open(&mut self, parent: usize, value: u8)
        requires
            old(self).open_count_at(parent as int, value as int) > 0,
        ensures
            final(self).nodes == old(self).nodes,
            final(self).end_counts == old(self).end_counts,
            open_entries(final(self).open) == removed_entry(open_entries(old(self).open), parent, value),
    {
        proof {
            lemma_occurrences_positive(self.open_at(parent as int), value as int);
        }
        let ghost before = open_entries(self.open);
        let mut emptied = false;
        match open_get_vec_mut(&mut self.open, parent) {
            Some(values) => {
                let ghost found = choose|i: int| 0 <= i < values@.len() && values@[i] == value;
                let count: usize = values.len();
                let mut position: usize = 0;
                while values[position] != value
                    invariant
                        position <= found < values@.len() == count,
                        values@[found] == value,
                        forall|j: int| 0 <= j < position ==> values@[j] != value,
                    decreases values@.len() - position,
                {
                    position = position + 1;
                }
                proof {
                    lemma_first_position(values@, value);
                }
                values.remove(position);
                emptied = values.len() == 0;
            },
            None => {},
        }
        if emptied {
            open_remove(&mut self.open, parent);
            assert(open_entries(self.open) =~= before.remove(parent));
        }
    }
}

/// The entries that a new tile brings: its open value, twice for a double.
pub open spec fn new_entries(tile: Tile, value: u8) -> Seq<u8> {
    if tile.is_double_spec() {
        seq![value, value]
    } else {
        seq![value]
    }
}

/// `after` is `before` with the tile attached to the node `p`: the new node
/// stands at the end, as the last child of `p`; the matched value is open once
/// less, at `p`; the tile's other value is open at the new node.
pub open spec fn attached_to(before: Layout, after: Layout, tile: Tile, p: int) -> bool {
    let matched = matched_value(before.nodes@[p].tile, tile);
    let opened = opened_value(before.nodes@[p].tile, tile);
    &&& after.node_views() == attach_child(before.node_views(), tile, p)
    &&& after.end_counts@.len() == before.end_counts@.len()
    &&& forall|value: int|
        0 <= value < after.end_counts@.len() ==> #[trigger] after.end_counts@[value]
            == before.end_counts@[value] - (if value == matched {
            1int
        } else {
            0int
        }) + (if value == opened {
            opened_count(tile)
        } else {
            0
        })
    &&& open_entries(after.open) == removed_entry(
        open_entries(before.open).insert(
            before.nodes@.len() as usize,
            new_entries(tile, opened as u8),
        ),
        p as usize,
        matched as u8,
    )
}

/// `after` is the empty layout `before` with the double as its first tile,
/// whose value is open twice.
pub open spec fn attached_first(before: Layout, after: Layout, tile: Tile) -> bool {
    &&& after.node_views() == attach_root(tile)
    &&& after.end_counts@.len() == before.end_counts@.len()
    &&& forall|value: int|
        0 <= value < after.end_counts@.len() ==> #[trigger] after.end_counts@[value] == if value
            == tile.lo() {
            2int
        } else {
            0int
        }
    &&& open_entries(after.open) == open_entries(before.open).insert(
        0,
        new_entries(tile, tile.lo() as u8),
    )
}

impl Layout {
    /// A value that is open at a node is counted among the open ends.
    pub proof fn lemma_matched_counted(self, tile: Tile, p: int)
        requires
            self.indexed(),
            0 <= p < self.nodes@.len(),
            self.open_count_at(p, matched_value(self.nodes@[p].tile, tile)) > 0,
        ensures
            0 <= matched_value(self.nodes@[p].tile, tile) < self.end_counts@.len(),
            self.end_counts@[matched_value(self.nodes@[p].tile, tile)] > 0,
    {
        let nodes = self.node_views();
        let matched = matched_value(self.nodes@[p].tile, tile);
        tile.lemma_pips();
        self.nodes@[p].tile.lemma_pips();
        assert(nodes[p].tile == self.nodes@[p].tile);
        assert(self.open_count_at(p, matched) == derived_count(nodes, p, matched));
        self.lemma_counts_not_negative(matched);
        lemma_total_above(nodes, matched, self.nodes@.len() as int, p);
    }

    /// No value is open less than zero times at a node.
    pub proof fn lemma_counts_not_negative(self, value: int)
        requires
            self.indexed(),
        ensures
            forall|i: int|
                0 <= i < self.nodes@.len() ==> #[trigger] derived_count(self.node_views(), i, value)
                    >= 0,
    {
        assert forall|i: int| 0 <= i < self.nodes@.len() implies #[trigger] derived_count(
            self.node_views(),
            i,
            value,
        ) >= 0 by {
            if 0 <= value <= u8::MAX {
                assert(self.open_count_at(i, value) == derived_count(self.node_views(), i, value));
            } else {
                self.node_views()[i].tile.lemma_pips();
                assert(derived_count(self.node_views(), i, value) == 0);
            }
        }
    }

    /// Attaching a tile to a node at which its matched value is open keeps the
    /// layout well-formed.
    pub proof fn lemma_attached_to(self, after: Layout, tile: Tile, p: int)
        requires
            self.wf(),
            tile.hi() <= self.max_value(),
            self.nodes@.len() < usize::MAX,
            0 <= p < self.nodes@.len(),
            self.open_count_at(p, matched_value(self.nodes@[p].tile, tile)) > 0,
            attached_to(self, after, tile, p),
        ensures
            after.wf(),
    {
        let nodes = self.node_views();
        let grown = after.node_views();
        let n = self.nodes@.len() as int;
        let matched = matched_value(self.nodes@[p].tile, tile);
        let opened = opened_value(self.nodes@[p].tile, tile);
        tile.lemma_pips();
        self.nodes@[p].tile.lemma_pips();
        assert(nodes[p].tile == self.nodes@[p].tile);
        assert(self.open_count_at(p, matched) == derived_count(nodes, p, matched));
        lemma_attach_child_nodes(nodes, tile, p);
        lemma_attach_child_in_range(nodes, tile, p);
        lemma_attach_child_tree(nodes, tile, p);
        lemma_attach_child_counts(nodes, tile, p);
        lemma_attach_child_totals(nodes, tile, p);
        assert(after.nodes@.len() == n + 1);
        assert forall|i: int| 0 <= i < after.nodes@.len() implies (#[trigger] after.nodes@[i]).tile.hi()
            <= after.max_value() by {
            assert(grown[i].tile == after.nodes@[i].tile);
            if i < n {
                lemma_attach_child_other(nodes, tile, p, i);
                assert(nodes[i].tile == self.nodes@[i].tile);
            }
        }
        let inserted = open_entries(self.open).insert(n as usize, new_entries(tile, opened as u8));
        lemma_occurrences_positive(self.open_at(p), matched);
        assert(inserted[p as usize] == open_entries(self.open)[p as usize]);
        assert forall|key: usize| #[trigger]
            open_entries(after.open).dom().contains(key) implies key < after.nodes@.len()
            && open_entries(after.open)[key].len() > 0 by {
            if key != n as usize && key != p as usize {
                assert(open_entries(self.open).dom().contains(key));
            }
        }
        assert forall|i: int, value: int|
            0 <= i < after.nodes@.len() && 0 <= value <= u8::MAX implies #[trigger] after.open_count_at(
            i,
            value,
        ) == derived_count(grown, i, value) by {
            if i == n {
                assert(after.open_at(i) == new_entries(tile, opened as u8));
                reveal_with_fuel(occurrences, 3);
                assert(seq![opened as u8, opened as u8].drop_last() =~= seq![opened as u8]);
            } else if i == p {
                lemma_occurrences_remove_first(self.open_at(p), matched as u8, value);
                if remove_first(self.open_at(p), matched as u8).len() == 0 {
                    assert(after.open_at(i) =~= Seq::<u8>::empty());
                    assert(remove_first(self.open_at(p), matched as u8) =~= Seq::<u8>::empty());
                } else {
                    assert(after.open_at(i) == remove_first(self.open_at(p), matched as u8));
                }
                assert(self.open_count_at(i, value) == derived_count(nodes, i, value));
            } else {
                assert(after.open_at(i) == self.open_at(i));
                assert(self.open_count_at(i, value) == derived_count(nodes, i, value));
            }
        }
    }

    /// Placing a double as the first tile of an empty layout keeps the layout well-formed.
    pub proof fn lemma_attached_first(self, after: Layout, tile: Tile)
        requires
            self.wf(),
            tile.hi() <= self.max_value(),
            self.nodes@.len() == 0,
            tile.is_double_spec(),
            attached_first(self, after, tile),
        ensures
            after.wf(),
    {
        let grown = after.node_views();
        tile.lemma_pips();
        lemma_attach_root(tile);
        assert(after.nodes@.len() == 1);
        assert(grown[0].tile == after.nodes@[0].tile);
        assert forall|key: usize| #[trigger]
            open_entries(after.open).dom().contains(key) implies key < after.nodes@.len()
            && open_entries(after.open)[key].len() > 0 by {
            if key != 0 {
                assert(open_entries(self.open).dom().contains(key));
            }
        }
        assert forall|i: int, value: int|
            0 <= i < after.nodes@.len() && 0 <= value <= u8::MAX implies #[trigger] after.open_count_at(
            i,
            value,
        ) == derived_count(grown, i, value) by {
            assert(after.open_at(0) == new_entries(tile, tile.lo() as u8));
            reveal_with_fuel(occurrences, 3);
            assert(seq![tile.lo() as u8, tile.lo() as u8].drop_last() =~= seq![tile.lo() as u8]);
        }
    }
}

/// What is open at one node is at most what is open in total.
pub proof fn lemma_total_above(nodes: Seq<NodeView>, value: int, n: int, p: int)
    requires
        0 <= p < n,
        forall|i: int| 0 <= i < n ==> #[trigger] derived_count(nodes, i, value) >= 0,
    ensures
        derived_total(nodes, value, n) >= derived_count(nodes, p, value),
    decreases n,
{
    lemma_total_zero(nodes, value, n - 1);
    if p < n - 1 {
        lemma_total_above(nodes, value, n - 1, p);
    }
}

/// The entries without the first occurrence of a value at a key. A key that
/// is left without a value leaves the entries.
pub open spec fn removed_entry(entries: Map<usize, Seq<u8>>, key: usize, value: u8) -> Map<
    usize,
    Seq<u8>,
> {
    let rest = remove_first(entries[key], value);
    if rest.len() == 0 {
        entries.remove(key)
    } else {
        entries.insert(key, rest)
    }
}

} // verus!
