//! The structural form of a layout: its nodes and the largest value of its
//! set, without the index of open ends, which is rebuilt from the nodes.

use crate::layout::{
    connections_fit_at, derived_count, derived_total, high_links, links_in_range, low_children,
    low_links, node_in_range, node_views, parent_on_high, parent_on_low, Layout, LayoutNode,
    NodeView,
};
use crate::layout_lemmas::{lemma_low_children_bounds};
use crate::open_ends::{
    entries_at, lemma_occurrences_push, no_entries, occurrences, open_clear, open_entries,
    open_insert, open_new,
};
use crate::rules::{lemma_triangle_monotonic, ordinal_of, triangle, MAX_PIPS};
use crate::text::{append_decimal, decimal};
use crate::tile::Tile;
use vstd::prelude::*;
use vstd::string::StringExecFns;

verus! {

/// Why the nodes of a layout do not fit together.
#[derive(Debug, Clone, Copy, PartialEq, Eq, Structural)]
pub enum LayoutError {
    /// The largest value of the set is larger than the library supports.
    SetTooLarge,
    /// A value of the node's tile is larger than the largest value of the set.
    ValueOutOfRange { node: usize },
    /// The node has more than two children.
    TooManyChildren { node: usize },
    /// The node's parent, or one of its children, is not a node of the layout.
    LinkOutOfRange { node: usize },
    /// The node's tile is no double, has a parent, and has more than one child.
    NonDoubleTooManyChildren { node: usize },
    /// With this node the open ends of a value become more than can be counted.
    TooManyOpenEnds { node: usize },
}

impl LayoutError {
    /// The message that describes the error.
    pub open spec fn text(self) -> Seq<char> {
        match self {
            LayoutError::SetTooLarge => "The set is larger than a double-"@ + decimal(MAX_PIPS as nat)
                + " set"@,
            LayoutError::ValueOutOfRange { node } => "Tile node "@ + decimal(node as nat)
                + " has a value that is not in the set"@,
            LayoutError::TooManyChildren { node } => "Tile node "@ + decimal(node as nat)
                + " has more than 2 children"@,
            LayoutError::LinkOutOfRange { node } => "Tile node "@ + decimal(node as nat)
                + " is linked to a node that does not exist"@,
            LayoutError::NonDoubleTooManyChildren { node } => "Non-double tile node "@ + decimal(
                node as nat,
            ) + " has more than 1 child"@,
            LayoutError::TooManyOpenEnds { node } => "Tile node "@ + decimal(node as nat)
                + " opens more ends of a value than can be counted"@,
        }
    }

    /// Returns the message that describes the error.
    pub fn message(&self) -> (text: String)
        ensures
            text@ == self.text(),
    {
        match *self {
            LayoutError::SetTooLarge => {
                let mut text = String::from_str("The set is larger than a double-");
                append_decimal(&mut text, MAX_PIPS as usize);
                text.append(" set");
                text
            },
            LayoutError::ValueOutOfRange { node } => {
                let mut text = String::from_str("Tile node ");
                append_decimal(&mut text, node);
                text.append(" has a value that is not in the set");
                text
            },
            LayoutError::TooManyChildren { node } => {
                let mut text = String::from_str("Tile node ");
                append_decimal(&mut text, node);
                text.append(" has more than 2 children");
                text
            },
            LayoutError::LinkOutOfRange { node } => {
                let mut text = String::from_str("Tile node ");
                append_decimal(&mut text, node);
                text.append(" is linked to a node that does not exist");
                text
            },
            LayoutError::NonDoubleTooManyChildren { node } => {
                let mut text = String::from_str("Non-double tile node ");
                append_decimal(&mut text, node);
                text.append(" has more than 1 child");
                text
            },
            LayoutError::TooManyOpenEnds { node } => {
                let mut text = String::from_str("Tile node ");
                append_decimal(&mut text, node);
                text.append(" opens more ends of a value than can be counted");
                text
            },
        }
    }
}

/// What is wrong with a node, going by the nodes before it and its own links;
/// `None` where nothing is.
pub open spec fn node_fault(nodes: Seq<NodeView>, max_value: int, i: int) -> Option<LayoutError> {
    let node = nodes[i];
    if node.children.len() > 2 {
        Some(LayoutError::TooManyChildren { node: i as usize })
    } else if !node_in_range(nodes, i) {
        Some(LayoutError::LinkOutOfRange { node: i as usize })
    } else if !node.tile.is_double_spec() && node.parent.is_some() && node.children.len() > 1 {
        Some(LayoutError::NonDoubleTooManyChildren { node: i as usize })
    } else if node.tile.hi() > max_value {
        Some(LayoutError::ValueOutOfRange { node: i as usize })
    } else if derived_total(nodes, node.tile.lo(), i + 1) > u8::MAX || derived_total(
        nodes,
        node.tile.hi(),
        i + 1,
    ) > u8::MAX {
        Some(LayoutError::TooManyOpenEnds { node: i as usize })
    } else {
        None
    }
}

/// Nothing is wrong with any node.
pub open spec fn no_fault(nodes: Seq<NodeView>, max_value: int) -> bool {
    forall|i: int| 0 <= i < nodes.len() ==> (#[trigger] node_fault(nodes, max_value, i)).is_none()
}

/// The error is what is wrong with the first node with which something is.
pub open spec fn first_fault(nodes: Seq<NodeView>, max_value: int, error: LayoutError) -> bool {
    exists|i: int|
        0 <= i < nodes.len() && #[trigger] node_fault(nodes, max_value, i) == Some(error) && forall|
            j: int,
        |
            0 <= j < i ==> (#[trigger] node_fault(nodes, max_value, j)).is_none()
}

/// Counts the connections to the low side and to the high side of a node.
fn count_connections(nodes: &Vec<LayoutNode>, i: usize) -> (result: Result<(u8, u8), LayoutError>)
    requires
        i < nodes@.len(),
    ensures
        match result {
            Ok((low, high)) => {
                &&& nodes@[i as int].children@.len() <= 2
                &&& node_in_range(node_views(nodes@), i as int)
                &&& low == low_links(node_views(nodes@), i as int)
                &&& high == high_links(node_views(nodes@), i as int)
            },
            Err(error) => if nodes@[i as int].children@.len() > 2 {
                error == (LayoutError::TooManyChildren { node: i })
            } else {
                !node_in_range(node_views(nodes@), i as int) && error == (
                LayoutError::LinkOutOfRange { node: i })
            },
        },
{
    let ghost views = node_views(nodes@);
    let node = &nodes[i];
    assert(views[i as int] == node@);
    // A tile can have up to 2 children.
    if node.children.len() > 2 {
        return Err(LayoutError::TooManyChildren { node: i });
    }
    let (a, _) = node.tile.as_tuple();
    let mut low: u8 = 0;
    let mut high: u8 = 0;
    // Count the parent connection
    match node.parent {
        Some(parent_index) => {
            if parent_index >= nodes.len() {
                return Err(LayoutError::LinkOutOfRange { node: i });
            }
            assert(views[parent_index as int] == nodes@[parent_index as int]@);
            let (parent_a, parent_b) = nodes[parent_index].tile.as_tuple();
            if a == parent_a || a == parent_b {
                low = low + 1;
            } else {
                high = high + 1;
            }
        },
        None => {
            // A double at the root has an implicit parent connection
            if node.tile.is_double() {
                low = low + 1;
            }
        },
    }
    // Count the child connections
    let mut k: usize = 0;
    while k < node.children.len()
        invariant
            i < nodes@.len(),
            views == node_views(nodes@),
            node == nodes@[i as int],
            views[i as int] == node@,
            node.children@.len() <= 2,
            k <= node.children@.len(),
            a == node.tile.lo(),
            low == parent_on_low(views, i as int) + low_children(views, i as int, k as int),
            high == parent_on_high(views, i as int) + k - low_children(views, i as int, k as int),
            0 <= low_children(views, i as int, k as int) <= k,
            forall|j: int| 0 <= j < k ==> #[trigger] node.children@[j] < nodes@.len(),
        decreases node.children@.len() - k,
    {
        let child_index = node.children[k];
        if child_index >= nodes.len() {
            assert(!node_in_range(views, i as int)) by {
                assert(views[i as int].children[k as int] >= views.len());
            }
            return Err(LayoutError::LinkOutOfRange { node: i });
        }
        assert(views[child_index as int] == nodes@[child_index as int]@);
        let (child_a, child_b) = nodes[child_index].tile.as_tuple();
        if a == child_a || a == child_b {
            low = low + 1;
        } else {
            high = high + 1;
        }
        k = k + 1;
    }
    Ok((low, high))
}

impl Layout {
    /// Rebuilds the index of open ends and the counts from the nodes alone:
    /// whatever of a node's connections is not taken by its parent or by a
    /// child is open. Fails where the nodes do not fit together.
    pub fn rebuild_open_and_end_counts(&mut self) -> (result: Result<(), LayoutError>)
        ensures
            final(self).nodes == old(self).nodes,
            final(self).end_counts@.len() == old(self).end_counts@.len(),
            match result {
                Ok(()) => final(self).indexed() && no_fault(
                    old(self).node_views(),
                    old(self).max_value(),
                ),
                Err(error) => first_fault(old(self).node_views(), old(self).max_value(), error),
            },
    {
        let ghost views = self.node_views();
        let ghost max_value = self.max_value();
        open_clear(&mut self.open);
        let mut value: usize = 0;
        while value < self.end_counts.len()
            invariant
                value <= self.end_counts@.len(),
                self.nodes == old(self).nodes,
                self.end_counts@.len() == old(self).end_counts@.len(),
                open_entries(self.open) == no_entries(),
                forall|v: int| 0 <= v < value ==> self.end_counts@[v] == 0,
            decreases self.end_counts@.len() - value,
        {
            self.end_counts[value] = 0;
            value = value + 1;
        }
        let count = self.nodes.len();
        let mut i: usize = 0;
        while i < count
            invariant
                i <= count == self.nodes@.len(),
                self.nodes == old(self).nodes,
                views == self.node_views(),
                self.end_counts@.len() == old(self).end_counts@.len(),
                max_value == self.max_value(),
                forall|j: int| 0 <= j < i ==> (#[trigger] node_fault(views, max_value, j)).is_none(),
                forall|key: usize| #[trigger]
                    open_entries(self.open).dom().contains(key) ==> key < i && open_entries(
                        self.open,
                    )[key].len() > 0,
                forall|j: int, v: int|
                    0 <= j < i && 0 <= v <= u8::MAX ==> #[trigger] occurrences(
                        entries_at(self.open, j),
                        v,
                    ) == derived_count(views, j, v),
                forall|v: int|
                    0 <= v < self.end_counts@.len() ==> #[trigger] self.end_counts@[v]
                        == derived_total(views, v, i as int),
            decreases count - i,
        {
            let ghost entries_before = open_entries(self.open);
            let ghost counts_before = self.end_counts@;
            proof {
                assert forall|j: int, v: int| 0 <= j < i && 0 <= v <= u8::MAX implies #[trigger] occurrences(
                    entries_at_of(entries_before, j),
                    v,
                ) == derived_count(views, j, v) by {
                    assert(entries_at(self.open, j) == entries_at_of(entries_before, j));
                }
                assert forall|v: int| 0 <= v < counts_before.len() implies #[trigger] counts_before[v]
                    == derived_total(views, v, i as int) by {
                    assert(self.end_counts@[v] == derived_total(views, v, i as int));
                }
            }
            let (low, high) = match count_connections(&self.nodes, i) {
                Ok(connections) => connections,
                Err(error) => {
                    return Err(error);
                },
            };
            let tile = self.nodes[i].tile;
            let has_parent = self.nodes[i].parent.is_some();
            let child_count = self.nodes[i].children.len();
            let (a, b) = tile.as_tuple();
            proof {
                assert(views[i as int] == self.nodes@[i as int]@);
                tile.lemma_pips();
                lemma_low_children_bounds(views, i as int, child_count as int);
                assert forall|v: int| #[trigger]
                    derived_total(views, v, i + 1) == derived_total(views, v, i as int)
                        + derived_count(views, i as int, v) by {}
            }
            if a == b {
                // A double has three connections of its one value.
                if b as usize >= self.end_counts.len() {
                    return Err(LayoutError::ValueOutOfRange { node: i });
                }
                let remaining: u8 = 3 - low;
                if self.end_counts[a as usize] > u8::MAX - remaining {
                    return Err(LayoutError::TooManyOpenEnds { node: i });
                }
                let mut inserted: u8 = 0;
                while inserted < remaining
                    invariant
                        inserted <= remaining <= 3,
                        i < usize::MAX,
                        self.nodes == old(self).nodes,
                        self.end_counts@ == counts_before,
                        forall|key: usize| #[trigger]
                            open_entries(self.open).dom().contains(key) ==> key <= i && open_entries(
                                self.open,
                            )[key].len() > 0,
                        forall|j: int|
                            0 <= j < i ==> #[trigger] entries_at(self.open, j) == entries_at_of(
                                entries_before,
                                j,
                            ),
                        forall|v: int| #[trigger]
                            occurrences(entries_at(self.open, i as int), v) == if v == a {
                                inserted as int
                            } else {
                                0
                            },
                    decreases remaining - inserted,
                {
                    proof {
                        assert forall|v: int| #[trigger]
                            occurrences(entries_at(self.open, i as int).push(a), v) == if v == a {
                                inserted + 1
                            } else {
                                0
                            } by {
                            lemma_occurrences_push(entries_at(self.open, i as int), a, v);
                        }
                    }
                    let ghost previous = self.open;
                    open_insert(&mut self.open, i, a);
                    inserted = inserted + 1;
                    proof {
                        assert forall|j: int| 0 <= j < i implies #[trigger] entries_at(self.open, j)
                            == entries_at_of(entries_before, j) by {
                            assert(entries_at(previous, j) == entries_at_of(entries_before, j));
                        }
                    }
                }
                let before = self.end_counts[a as usize];
                self.end_counts[a as usize] = before + remaining;
            } else {
                // Another tile has one connection on each side.
                if has_parent && child_count > 1 {
                    return Err(LayoutError::NonDoubleTooManyChildren { node: i });
                }
                if b as usize >= self.end_counts.len() {
                    return Err(LayoutError::ValueOutOfRange { node: i });
                }
                if low == 0 && self.end_counts[a as usize] == u8::MAX {
                    return Err(LayoutError::TooManyOpenEnds { node: i });
                }
                if high == 0 && self.end_counts[b as usize] == u8::MAX {
                    return Err(LayoutError::TooManyOpenEnds { node: i });
                }
                proof {
                    assert(entries_at(self.open, i as int) =~= Seq::<u8>::empty());
                }
                if low == 0 {
                    proof {
                        assert forall|v: int| #[trigger]
                            occurrences(entries_at(self.open, i as int).push(a), v) == if v == a {
                                1int
                            } else {
                                0
                            } by {
                            lemma_occurrences_push(entries_at(self.open, i as int), a, v);
                        }
                    }
                    open_insert(&mut self.open, i, a);
                    let before = self.end_counts[a as usize];
                    self.end_counts[a as usize] = before + 1;
                }
                if high == 0 {
                    proof {
                        assert forall|v: int| #[trigger]
                            occurrences(entries_at(self.open, i as int).push(b), v) == occurrences(
                                entries_at(self.open, i as int),
                                v,
                            ) + if v == b {
                                1int
                            } else {
                                0
                            } by {
                            lemma_occurrences_push(entries_at(self.open, i as int), b, v);
                        }
                    }
                    open_insert(&mut self.open, i, b);
                    let before = self.end_counts[b as usize];
                    self.end_counts[b as usize] = before + 1;
                }
            }
            proof {
                assert(derived_total(views, tile.lo(), i + 1) == counts_before[tile.lo()]
                    + derived_count(views, i as int, tile.lo()));
                assert(derived_total(views, tile.hi(), i + 1) == counts_before[tile.hi()]
                    + derived_count(views, i as int, tile.hi()));
                assert(node_fault(views, max_value, i as int).is_none());
                assert forall|j: int, v: int| 0 <= j < i + 1 && 0 <= v <= u8::MAX implies #[trigger] occurrences(
                    entries_at(self.open, j),
                    v,
                ) == derived_count(views, j, v) by {
                    if j < i {
                        assert(entries_at(self.open, j) == entries_at_of(entries_before, j));
                    }
                }
                assert forall|v: int| 0 <= v < self.end_counts@.len() implies #[trigger] self.end_counts@[v]
                    == derived_total(views, v, i + 1) by {
                    assert(0 <= v < counts_before.len());
                    assert(counts_before[v] == derived_total(views, v, i as int));
                }
            }
            i = i + 1;
        }
        proof {
            assert(links_in_range(views)) by {
                assert forall|j: int| 0 <= j < views.len() implies #[trigger] node_in_range(views, j) by {
                    assert(node_fault(views, max_value, j).is_none());
                }
            }
            assert forall|j: int| 0 <= j < self.nodes@.len() implies (#[trigger] self.nodes@[j]).tile.hi()
                <= self.max_value() by {
                assert(node_fault(views, max_value, j).is_none());
                assert(views[j] == self.nodes@[j]@);
            }
        }
        Ok(())
    }
}

/// The values at a key of the entries; none where the entries lack the key.
pub open spec fn entries_at_of(entries: Map<usize, Seq<u8>>, key: int) -> Seq<u8> {
    if 0 <= key <= usize::MAX && entries.dom().contains(key as usize) {
        entries[key as usize]
    } else {
        Seq::empty()
    }
}

/// A node in the structural form of a layout.
#[derive(Debug, PartialEq, Eq)]
pub struct StructuralNode {
    /// The two values of the tile
    pub tile: (u8, u8),
    /// Index of the node's parent; the root has none
    pub parent: Option<usize>,
    /// Indexes of the node's children, in their order
    pub children: Vec<usize>,
}

/// The structural form of a layout: its nodes and the largest value of its set.
#[derive(Debug, PartialEq, Eq)]
pub struct StructuralLayout {
    /// The nodes, the root first
    pub nodes: Vec<StructuralNode>,
    /// The largest value of the set
    pub set_id: usize,
}

/// What a node of the structural form holds.
pub struct StructuralNodeView {
    pub tile: (u8, u8),
    pub parent: Option<usize>,
    pub children: Seq<usize>,
}

impl View for StructuralNode {
    type V = StructuralNodeView;

    open spec fn view(&self) -> StructuralNodeView {
        StructuralNodeView { tile: self.tile, parent: self.parent, children: self.children@ }
    }
}

/// What the structural form of a layout holds.
pub struct StructuralLayoutView {
    pub nodes: Seq<StructuralNodeView>,
    pub set_id: usize,
}

impl View for StructuralLayout {
    type V = StructuralLayoutView;

    open spec fn view(&self) -> StructuralLayoutView {
        StructuralLayoutView {
            nodes: self.nodes@.map_values(|node: StructuralNode| node@),
            set_id: self.set_id,
        }
    }
}

/// The tile with the two values, in either order.
pub open spec fn tile_of(pair: (u8, u8)) -> Tile {
    if pair.0 <= pair.1 {
        Tile { ordinal: ordinal_of(pair.0 as int, pair.1 as int) as u8 }
    } else {
        Tile { ordinal: ordinal_of(pair.1 as int, pair.0 as int) as u8 }
    }
}

/// The node of a layout that a node of the structural form stands for.
pub open spec fn restored_node(node: StructuralNodeView) -> NodeView {
    NodeView { tile: tile_of(node.tile), parent: node.parent, children: node.children }
}

/// The node of the structural form that stands for a node of a layout.
pub open spec fn stored_node(node: NodeView) -> StructuralNodeView {
    StructuralNodeView { tile: node.tile.pips(), parent: node.parent, children: node.children }
}

/// Both values of the node's tile are values that the library supports.
pub open spec fn values_supported(node: StructuralNodeView) -> bool {
    node.tile.0 <= MAX_PIPS && node.tile.1 <= MAX_PIPS
}

impl StructuralLayoutView {
    /// The nodes of the layout that the form stands for.
    pub open spec fn restored_nodes(self) -> Seq<NodeView> {
        self.nodes.map_values(|node: StructuralNodeView| restored_node(node))
    }

    /// Why the form stands for no layout: the set is too large, or a tile has
    /// a value that the library does not support, or the nodes do not fit
    /// together. Of several reasons the first in this order counts, and of
    /// several nodes the first.
    pub open spec fn fault(self, error: LayoutError) -> bool {
        if self.set_id > MAX_PIPS {
            error == LayoutError::SetTooLarge
        } else if exists|i: int| 0 <= i < self.nodes.len() && !values_supported(#[trigger] self.nodes[i]) {
            exists|i: int|
                0 <= i < self.nodes.len() && !values_supported(#[trigger] self.nodes[i]) && error == (
                LayoutError::ValueOutOfRange { node: i as usize }) && forall|j: int|
                    0 <= j < i ==> values_supported(#[trigger] self.nodes[j])
        } else {
            first_fault(self.restored_nodes(), self.set_id as int, error)
        }
    }

    /// The form stands for a layout.
    pub open spec fn accepted(self) -> bool {
        &&& self.set_id <= MAX_PIPS
        &&& forall|i: int| 0 <= i < self.nodes.len() ==> values_supported(#[trigger] self.nodes[i])
        &&& no_fault(self.restored_nodes(), self.set_id as int)
    }
}

/// Returns the tile with the two values, in either order.
pub fn make_tile(pair: (u8, u8)) -> (tile: Tile)
    requires
        pair.0 <= MAX_PIPS,
        pair.1 <= MAX_PIPS,
    ensures
        tile == tile_of(pair),
        tile.has(pair.0 as int),
        tile.has(pair.1 as int),
        tile.is_double_spec() <==> pair.0 == pair.1,
{
    proof {
        lemma_supported_ordinal(pair.0 as int, pair.1 as int);
        lemma_supported_ordinal(pair.1 as int, pair.0 as int);
    }
    let tile = Tile::from(pair);
    proof {
        tile.lemma_pips();
        tile_of(pair).lemma_pips();
        crate::rules::lemma_tuple_of_unique(tile_of(pair).ordinal as int, tile.lo(), tile.hi());
    }
    tile
}

/// Copies a list of node indices.
fn copy_indices(indices: &Vec<usize>) -> (copy: Vec<usize>)
    ensures
        copy@ == indices@,
{
    let mut copy: Vec<usize> = Vec::new();
    let mut k: usize = 0;
    while k < indices.len()
        invariant
            k <= indices@.len(),
            copy@ == indices@.take(k as int),
        decreases indices@.len() - k,
    {
        copy.push(indices[k]);
        assert(indices@.take(k as int).push(indices@[k as int]) =~= indices@.take(k + 1));
        k = k + 1;
    }
    assert(indices@.take(k as int) =~= indices@);
    copy
}

impl Layout {
    /// The structural form of the layout.
    pub open spec fn structural(&self) -> StructuralLayoutView {
        StructuralLayoutView {
            nodes: self.node_views().map_values(|node: NodeView| stored_node(node)),
            set_id: if self.end_counts@.len() == 0 {
                0usize
            } else {
                (self.end_counts@.len() - 1) as usize
            },
        }
    }

    /// Returns the structural form of the layout: each node's tile, parent and
    /// children, and the largest value of the set.
    pub fn serialize(&self) -> (form: StructuralLayout)
        ensures
            form@ == self.structural(),
    {
        let mut nodes: Vec<StructuralNode> = Vec::new();
        let mut i: usize = 0;
        while i < self.nodes.len()
            invariant
                i <= self.nodes@.len(),
                nodes@.len() == i,
                forall|j: int| 0 <= j < i ==> (#[trigger] nodes@[j])@ == stored_node(self.nodes@[j]@),
            decreases self.nodes@.len() - i,
        {
            let node = &self.nodes[i];
            nodes.push(
                StructuralNode {
                    tile: node.tile.as_tuple(),
                    parent: node.parent,
                    children: copy_indices(&node.children),
                },
            );
            i = i + 1;
        }
        let set_id = if self.end_counts.len() == 0 {
            0
        } else {
            self.end_counts.len() - 1
        };
        let form = StructuralLayout { nodes, set_id };
        assert(form@.nodes =~= self.structural().nodes);
        form
    }

    /// Builds the layout that a structural form stands for. The index of open
    /// ends and the counts are rebuilt from the nodes alone.
    pub fn deserialize(form: &StructuralLayout) -> (result: Result<Layout, LayoutError>)
        ensures
            match result {
                Ok(layout) => {
                    &&& form@.accepted()
                    &&& layout.indexed()
                    &&& layout.node_views() == form@.restored_nodes()
                    &&& layout.end_counts@.len() == form.set_id + 1
                },
                Err(error) => form@.fault(error),
            },
    {
        if form.set_id > MAX_PIPS as usize {
            return Err(LayoutError::SetTooLarge);
        }
        let mut nodes: Vec<LayoutNode> = Vec::new();
        let mut i: usize = 0;
        while i < form.nodes.len()
            invariant
                i <= form.nodes@.len(),
                form.set_id <= MAX_PIPS,
                nodes@.len() == i,
                forall|j: int| 0 <= j < i ==> values_supported(#[trigger] form@.nodes[j]),
                forall|j: int| 0 <= j < i ==> (#[trigger] nodes@[j])@ == restored_node(form@.nodes[j]),
            decreases form.nodes@.len() - i,
        {
            let node = &form.nodes[i];
            assert(form@.nodes[i as int] == node@);
            if node.tile.0 > MAX_PIPS || node.tile.1 > MAX_PIPS {
                proof {
                    let at = i as int;
                    assert(0 <= at < form@.nodes.len() && !values_supported(form@.nodes[at]));
                }
                return Err(LayoutError::ValueOutOfRange { node: i });
            }
            // Create the tile, supporting either order of its values
            let tile = make_tile(node.tile);
            nodes.push(LayoutNode { tile, parent: node.parent, children: copy_indices(&node.children) });
            i = i + 1;
        }
        let mut end_counts: Vec<u8> = Vec::new();
        while end_counts.len() <= form.set_id
            invariant
                end_counts@.len() <= form.set_id + 1,
                form.set_id <= MAX_PIPS,
            decreases form.set_id + 1 - end_counts@.len(),
        {
            end_counts.push(0);
        }
        let mut layout = Layout { nodes, open: open_new(), end_counts };
        assert(layout.node_views() =~= form@.restored_nodes());
        match layout.rebuild_open_and_end_counts() {
            Ok(()) => Ok(layout),
            Err(error) => Err(error),
        }
    }
}

/// A tile of two supported values has an ordinal.
pub proof fn lemma_supported_ordinal(a: int, b: int)
    requires
        0 <= a <= MAX_PIPS,
        0 <= b <= MAX_PIPS,
    ensures
        a <= b ==> 0 <= ordinal_of(a, b) < 253,
{
    if a <= b {
        lemma_triangle_monotonic(0, b);
        lemma_triangle_monotonic(b, 21);
        assert(triangle(21) == 231) by (nonlinear_arith);
        assert(triangle(0) == 0) by (nonlinear_arith);
    }
}

/// What is open at the first nodes is at most what is open at all.
pub proof fn lemma_total_monotonic(nodes: Seq<NodeView>, value: int, i: int, n: int)
    requires
        0 <= i <= n,
        forall|j: int| 0 <= j < n ==> #[trigger] derived_count(nodes, j, value) >= 0,
    ensures
        derived_total(nodes, value, i) <= derived_total(nodes, value, n),
    decreases n - i,
{
    if i < n {
        lemma_total_monotonic(nodes, value, i, n - 1);
        assert(derived_count(nodes, n - 1, value) >= 0);
    }
}

/// Round trip: the structural form of a well-formed layout is accepted and
/// stands for the layout's own nodes; and a layout with these nodes whose
/// index was rebuilt from them has the same count of open ends for every
/// value, and the same nodes with an open end of every value.
pub proof fn lemma_structural_round_trip(layout: Layout, restored: Layout)
    requires
        layout.wf(),
        restored.indexed(),
        restored.node_views() == layout.structural().restored_nodes(),
        restored.end_counts@.len() == layout.structural().set_id + 1,
    ensures
        layout.structural().accepted(),
        restored.node_views() == layout.node_views(),
        restored.wf(),
        restored.end_counts@ == layout.end_counts@,
        forall|value: int|
            0 <= value <= u8::MAX ==> #[trigger] restored.nodes_with_open_end_spec(value)
                == layout.nodes_with_open_end_spec(value),
{
    let nodes = layout.node_views();
    let form = layout.structural();
    let max_value = layout.max_value();
    assert(form.restored_nodes() =~= nodes) by {
        assert forall|i: int| 0 <= i < nodes.len() implies form.restored_nodes()[i] == nodes[i] by {
            let tile = nodes[i].tile;
            tile.lemma_pips();
            assert(tile == layout.nodes@[i].tile);
            assert(tile_of(tile.pips()).ordinal == tile.ordinal);
        }
    }
    assert forall|i: int| 0 <= i < form.nodes.len() implies values_supported(#[trigger] form.nodes[i]) by {
        nodes[i].tile.lemma_pips();
        assert(nodes[i].tile == layout.nodes@[i].tile);
    }
    assert forall|i: int| 0 <= i < nodes.len() implies (#[trigger] node_fault(nodes, max_value, i)).is_none() by {
        let tile = nodes[i].tile;
        tile.lemma_pips();
        assert(tile == layout.nodes@[i].tile);
        assert(connections_fit_at(nodes, i));
        assert(node_in_range(nodes, i));
        lemma_low_children_bounds(nodes, i, nodes[i].children.len() as int);
        layout.lemma_counts_not_negative(tile.lo());
        layout.lemma_counts_not_negative(tile.hi());
        lemma_total_monotonic(nodes, tile.lo(), i + 1, nodes.len() as int);
        lemma_total_monotonic(nodes, tile.hi(), i + 1, nodes.len() as int);
        assert(layout.end_counts@[tile.lo()] == derived_total(nodes, tile.lo(), nodes.len() as int));
        assert(layout.end_counts@[tile.hi()] == derived_total(nodes, tile.hi(), nodes.len() as int));
    }
    assert(restored.end_counts@ =~= layout.end_counts@);
    assert forall|value: int| 0 <= value <= u8::MAX implies #[trigger] restored.nodes_with_open_end_spec(
        value,
    ) == layout.nodes_with_open_end_spec(value) by {
        assert forall|i: int|
            restored.nodes_with_open_end_spec(value).contains(i)
                == layout.nodes_with_open_end_spec(value).contains(i) by {
            if 0 <= i < nodes.len() {
                assert(restored.open_count_at(i, value) == derived_count(nodes, i, value));
                assert(layout.open_count_at(i, value) == derived_count(nodes, i, value));
            }
        }
        assert(restored.nodes_with_open_end_spec(value) =~= layout.nodes_with_open_end_spec(value));
    }
}

} // verus!
