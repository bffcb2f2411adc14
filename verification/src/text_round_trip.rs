//! The text of a layout read back: parsing the text that a layout is written
//! as yields the layout's tree of tiles.

use crate::layout::{
    attached_tree, child_linked, child_on_low, connections_fit_at, links_in_range,
    low_children, node_in_range, parent_linked, parent_on_low, Layout,
    NodeView,
};
use crate::layout_form::tile_of;
use crate::layout_lemmas::lemma_low_children_bounds;
use crate::layout_parser::{
    chain_parse, digits_end, group_parse, is_space, layout_parse, number_value, rest_parse,
    skip_spaces, tile_parse, tile_token, Parsed, TileParsed, TileToken,
};
use crate::layout_text::{
    chain_text, far_value, group_text, lemma_subtree, near_value, subtree, tile_text, TileTree,
};
use crate::rules::MAX_PIPS;
use crate::text::{decimal, digit_char, digit_value, is_digit};
use crate::tile::Tile;
use vstd::prelude::*;

verus! {

/// The text stands in `s` from the position `pos` on.
pub open spec fn holds_at(s: Seq<char>, pos: int, text: Seq<char>) -> bool {
    &&& 0 <= pos
    &&& pos + text.len() <= s.len()
    &&& forall|i: int| 0 <= i < text.len() ==> s[pos + i] == #[trigger] text[i]
}

/// Where a text of two parts stands, its parts stand one after the other.
pub proof fn lemma_holds_parts(s: Seq<char>, pos: int, first: Seq<char>, second: Seq<char>)
    requires
        holds_at(s, pos, first + second),
    ensures
        holds_at(s, pos, first),
        holds_at(s, pos + first.len(), second),
{
    let whole = first + second;
    assert forall|i: int| 0 <= i < first.len() implies s[pos + i] == #[trigger] first[i] by {
        assert(whole[i] == first[i]);
    }
    assert forall|i: int| 0 <= i < second.len() implies s[pos + first.len() + i] == #[trigger] second[i] by {
        assert(whole[first.len() + i] == second[i]);
    }
}

/// The decimal text of a number consists of digits.
pub proof fn lemma_decimal_digits(n: nat)
    ensures
        decimal(n).len() >= 1,
        forall|i: int| 0 <= i < decimal(n).len() ==> is_digit(#[trigger] decimal(n)[i]),
    decreases n,
{
    if n >= 10 {
        lemma_decimal_digits(n / 10);
    }
}

/// The digits of the decimal text of a number write the number.
pub proof fn lemma_decimal_value(s: Seq<char>, pos: int, n: nat)
    requires
        holds_at(s, pos, decimal(n)),
    ensures
        number_value(s, pos, pos + decimal(n).len()) == n,
    decreases n,
{
    let text = decimal(n);
    let end = pos + text.len();
    if n < 10 {
        assert(text[0] == digit_char(n as int));
        assert(s[pos + 0] == text[0]);
        assert(number_value(s, pos, pos) == 0);
        assert(number_value(s, pos, pos + 1) == number_value(s, pos, pos) * 10 + digit_value(
            s[pos],
        ));
    } else {
        let rest = decimal(n / 10);
        assert(text == rest.push(digit_char((n % 10) as int)));
        assert(text =~= rest + seq![digit_char((n % 10) as int)]);
        lemma_holds_parts(s, pos, rest, seq![digit_char((n % 10) as int)]);
        lemma_decimal_value(s, pos, n / 10);
        assert(text[text.len() - 1] == digit_char((n % 10) as int));
        assert(s[pos + (text.len() - 1)] == text[text.len() - 1]);
        assert(number_value(s, pos, end) == number_value(s, pos, end - 1) * 10 + digit_value(
            s[end - 1],
        ));
    }
}

/// Digits that are followed by no digit end where they are followed.
pub proof fn lemma_digits_run(s: Seq<char>, pos: int, count: int)
    requires
        0 <= pos,
        0 <= count,
        pos + count <= s.len(),
        forall|i: int| pos <= i < pos + count ==> is_digit(s[i]),
        pos + count == s.len() || !is_digit(s[pos + count]),
    ensures
        digits_end(s, pos) == pos + count,
    decreases count,
{
    if count > 0 {
        lemma_digits_run(s, pos + 1, count - 1);
    }
}

/// Where no white space stands, none is skipped.
pub proof fn lemma_no_space(s: Seq<char>, pos: int)
    requires
        pos >= s.len() || pos < 0 || !is_space(s[pos]),
    ensures
        skip_spaces(s, pos) == pos,
{
}

/// The character belongs to the text of a layout, and is no white space.
pub open spec fn is_mark(c: char) -> bool {
    is_digit(c) || c == '|' || c == '-' || c == '=' || c == '(' || c == ')' || c == ','
}

/// No character of the text of a layout is white space.
pub proof fn lemma_mark_no_space(c: char)
    requires
        is_mark(c),
    ensures
        !is_space(c),
{
}

/// The text of a tile that is followed by no digit is read as the tile.
pub proof fn lemma_tile_round_trip(s: Seq<char>, pos: int, tile: Tile, open: int, expected: Option<u8>)
    requires
        tile.hi() <= MAX_PIPS,
        tile.has(open),
        holds_at(s, pos, tile_text(tile, open)),
        pos + tile_text(tile, open).len() == s.len() || (is_mark(s[pos + tile_text(tile, open).len()])
            && !is_digit(s[pos + tile_text(tile, open).len()])),
        expected.is_none() || expected == Some(open as u8),
    ensures
        tile_parse(s, pos, expected) == (TileParsed::Tile {
            from: near_value(tile, open) as u8,
            to: far_value(tile, open) as u8,
            end: pos + tile_text(tile, open).len(),
        }),
        tile_of((near_value(tile, open) as u8, far_value(tile, open) as u8)) == tile,
        near_value(tile, open) == open,
        0 <= far_value(tile, open) <= MAX_PIPS,
        tile_text(tile, open).len() >= 3,
{
    tile.lemma_pips();
    let near = near_value(tile, open);
    let far = far_value(tile, open);
    let first = decimal(near as nat);
    let second = decimal(far as nat);
    let text = tile_text(tile, open);
    let end = pos + text.len();
    lemma_decimal_digits(near as nat);
    lemma_decimal_digits(far as nat);
    assert(text =~= first + (seq!['|'] + second));
    lemma_holds_parts(s, pos, first, seq!['|'] + second);
    lemma_holds_parts(s, pos + first.len(), seq!['|'], second);
    let bar = pos + first.len();
    let second_start = bar + 1;
    assert(seq!['|'][0] == '|');
    assert(s[bar + 0] == seq!['|'][0]);
    assert forall|i: int| pos <= i < pos + first.len() implies is_digit(s[i]) by {
        assert(s[pos + (i - pos)] == first[i - pos]);
    }
    assert forall|i: int| second_start <= i < second_start + second.len() implies is_digit(s[i]) by {
        assert(s[second_start + (i - second_start)] == second[i - second_start]);
    }
    lemma_digits_run(s, pos, first.len() as int);
    lemma_digits_run(s, second_start, second.len() as int);
    assert(is_digit(s[pos]));
    lemma_mark_no_space(s[pos]);
    lemma_no_space(s, pos);
    lemma_mark_no_space(s[bar]);
    lemma_no_space(s, bar);
    assert(is_digit(s[second_start]));
    lemma_mark_no_space(s[second_start]);
    lemma_no_space(s, second_start);
    lemma_decimal_value(s, pos, near as nat);
    lemma_decimal_value(s, second_start, far as nat);
    assert(tile_token(s, pos) == Some(
        TileToken { first_end: bar, second_start, end: second_start + second.len() },
    ));
    // The tile of the two values is the tile.
    let made = tile_of((near as u8, far as u8));
    crate::layout_form::lemma_supported_ordinal(tile.lo(), tile.hi());
    assert(made.ordinal == tile.ordinal);
}

/// The tree can be written as a chain that is read back: its tile carries
/// the value that connects it; a double has no children or several, three at
/// most; another tile has one child at most; and its children can be read
/// back after its other value.
pub open spec fn readable(tree: TileTree, open: int) -> bool
    decreases tree, 1int,
{
    &&& tree.tile.hi() <= MAX_PIPS
    &&& tree.tile.has(open)
    &&& if tree.tile.is_double_spec() {
        tree.children.len() == 0 || 2 <= tree.children.len() <= 3
    } else {
        tree.children.len() <= 1
    }
    &&& readable_children(tree, tree.children.len() as int, far_value(tree.tile, open))
}

/// The first `upto` children of the tree can be read back after the value `open`.
pub open spec fn readable_children(tree: TileTree, upto: int, open: int) -> bool
    decreases tree, 0int, upto,
{
    if 0 < upto <= tree.children.len() {
        readable_children(tree, upto - 1, open) && readable(tree.children[upto - 1], open)
    } else {
        true
    }
}

/// Each of the first children of a tree whose first children can be read back can be.
pub proof fn lemma_readable_child(tree: TileTree, upto: int, open: int, k: int)
    requires
        readable_children(tree, upto, open),
        0 <= k < upto <= tree.children.len(),
    ensures
        readable(tree.children[k], open),
    decreases upto,
{
    if k < upto - 1 {
        lemma_readable_child(tree, upto - 1, open, k);
    }
}

/// The first children of a tree can be read back where each of them can be.
pub proof fn lemma_readable_children(tree: TileTree, upto: int, open: int)
    requires
        0 <= upto <= tree.children.len(),
        forall|k: int| 0 <= k < upto ==> readable(#[trigger] tree.children[k], open),
    ensures
        readable_children(tree, upto, open),
    decreases upto,
{
    if upto > 0 {
        lemma_readable_children(tree, upto - 1, open);
    }
}

/// The text of the children of a tree from the child `from` on, with commas
/// between them and the parenthesis that ends the group.
pub open spec fn group_rest_text(tree: TileTree, from: int, open: int) -> Seq<char>
    decreases tree, 0int, tree.children.len() - from,
{
    if 0 <= from < tree.children.len() {
        chain_text(tree.children[from], open) + if from + 1 < tree.children.len() {
            seq![','] + group_rest_text(tree, from + 1, open)
        } else {
            seq![')']
        }
    } else {
        Seq::<char>::empty()
    }
}

/// The text of a group is the text of its first children, a comma where
/// there are any, and the text of the others with the end of the group.
pub proof fn lemma_group_split(tree: TileTree, from: int, open: int)
    requires
        0 <= from < tree.children.len(),
    ensures
        group_text(tree, tree.children.len() as int, open) + seq![')'] == group_text(tree, from, open)
            + (if from > 0 {
            seq![',']
        } else {
            Seq::<char>::empty()
        }) + group_rest_text(tree, from, open),
    decreases tree.children.len() - from,
{
    let count = tree.children.len() as int;
    let separator = if from > 0 {
        seq![',']
    } else {
        Seq::<char>::empty()
    };
    if from + 1 < count {
        lemma_group_split(tree, from + 1, open);
        assert(group_text(tree, from + 1, open) == group_text(tree, from, open) + separator
            + chain_text(tree.children[from], open));
        assert(group_text(tree, from + 1, open) + seq![','] + group_rest_text(tree, from + 1, open)
            =~= group_text(tree, from, open) + separator + group_rest_text(tree, from, open));
    } else {
        assert(group_text(tree, count, open) == group_text(tree, from, open) + separator
            + chain_text(tree.children[from], open));
        assert(group_text(tree, count, open) + seq![')'] =~= group_text(tree, from, open) + separator
            + group_rest_text(tree, from, open));
    }
}

/// The text of a chain starts with a digit.
pub proof fn lemma_chain_starts(tree: TileTree, open: int)
    ensures
        chain_text(tree, open).len() >= 3,
        is_digit(chain_text(tree, open)[0]),
{
    let near = near_value(tree.tile, open);
    let far = far_value(tree.tile, open);
    lemma_decimal_digits(near as nat);
    lemma_decimal_digits(far as nat);
    let head = tile_text(tree.tile, open);
    assert(head.len() >= 3);
    assert(head[0] == decimal(near as nat)[0]);
    assert(chain_text(tree, open)[0] == head[0]);
}

/// The text of a readable tree, followed by nothing or by what ends a chain
/// of a group, is read back as the tree.
pub proof fn lemma_chain_round_trip(
    s: Seq<char>,
    pos: int,
    tree: TileTree,
    open: int,
    expected: Option<u8>,
)
    requires
        readable(tree, open),
        0 <= open <= MAX_PIPS,
        holds_at(s, pos, chain_text(tree, open)),
        pos + chain_text(tree, open).len() == s.len() || s[pos + chain_text(tree, open).len()] == ','
            || s[pos + chain_text(tree, open).len()] == ')',
        expected.is_none() || expected == Some(open as u8),
    ensures
        chain_parse(s, pos, expected) == (Parsed::Trees {
            trees: seq![tree],
            end: pos + chain_text(tree, open).len(),
        }),
    decreases tree, 1int,
{
    let tile = tree.tile;
    let head = tile_text(tile, open);
    let far = far_value(tile, open);
    let count = tree.children.len() as int;
    let text = chain_text(tree, open);
    let tail = if count == 0 {
        Seq::<char>::empty()
    } else if count == 1 {
        seq!['-'] + chain_text(tree.children[0], far)
    } else {
        seq!['=', '('] + group_text(tree, count, far) + seq![')']
    };
    assert(text == head + tail);
    lemma_holds_parts(s, pos, head, tail);
    let after = pos + head.len();
    if count > 0 {
        assert(s[after + 0] == tail[0]);
    }
    lemma_tile_round_trip(s, pos, tile, open, expected);
    let from = near_value(tile, open) as u8;
    let to = far as u8;
    if after < s.len() {
        lemma_mark_no_space(s[after]);
    }
    lemma_no_space(s, after);
    if count == 0 {
        assert(tree.children =~= Seq::<TileTree>::empty());
        assert(rest_parse(s, after, from, to) == (Parsed::Trees {
            trees: Seq::<TileTree>::empty(),
            end: after,
        }));
    } else if count == 1 {
        let child = tree.children[0];
        lemma_readable_child(tree, count, far, 0);
        lemma_holds_parts(s, after, seq!['-'], chain_text(child, far));
        assert(tail.len() == 1 + chain_text(child, far).len());
        lemma_chain_round_trip(s, after + 1, child, far, Some(to));
        assert(tree.children =~= seq![child]);
        assert(rest_parse(s, after, from, to) == chain_parse(s, after + 1, Some(to)));
    } else {
        let group = group_text(tree, count, far) + seq![')'];
        assert(tail =~= seq!['=', '('] + group);
        lemma_holds_parts(s, after, seq!['=', '('], group);
        assert(seq!['=', '('][1] == '(');
        assert(s[after + 1] == seq!['=', '('][1]);
        lemma_mark_no_space(s[after + 1]);
        lemma_no_space(s, after + 1);
        lemma_group_split(tree, 0, far);
        assert(group_text(tree, 0, far) =~= Seq::<char>::empty());
        assert(group =~= group_rest_text(tree, 0, far));
        lemma_group_round_trip(s, after + 2, tree, 0, far, Seq::empty());
        assert(Seq::<TileTree>::empty() + tree.children.subrange(0, count) =~= tree.children);
        assert(rest_parse(s, after, from, to) == group_parse(s, after + 2, to, Seq::empty()));
    }
    assert(seq![TileTree { tile: tile_of((from, to)), children: tree.children }] =~= seq![tree]);
}

/// The text of the children of a readable double from the child `from` on,
/// with the end of the group, is read back as those children.
pub proof fn lemma_group_round_trip(
    s: Seq<char>,
    pos: int,
    tree: TileTree,
    from: int,
    open: int,
    parsed: Seq<TileTree>,
)
    requires
        0 <= open <= MAX_PIPS,
        0 <= from < tree.children.len() <= 3,
        parsed.len() == from,
        readable_children(tree, tree.children.len() as int, open),
        holds_at(s, pos, group_rest_text(tree, from, open)),
    ensures
        group_parse(s, pos, open as u8, parsed) == (Parsed::Trees {
            trees: parsed + tree.children.subrange(from, tree.children.len() as int),
            end: pos + group_rest_text(tree, from, open).len(),
        }),
    decreases tree, 0int, tree.children.len() - from,
{
    let count = tree.children.len() as int;
    let child = tree.children[from];
    let first = chain_text(child, open);
    let rest = if from + 1 < count {
        seq![','] + group_rest_text(tree, from + 1, open)
    } else {
        seq![')']
    };
    assert(group_rest_text(tree, from, open) == first + rest);
    lemma_holds_parts(s, pos, first, rest);
    let after = pos + first.len();
    assert(s[after + 0] == rest[0]);
    lemma_readable_child(tree, count, open, from);
    lemma_chain_round_trip(s, pos, child, open, Some(open as u8));
    lemma_mark_no_space(s[after]);
    lemma_no_space(s, after);
    lemma_chain_starts(child, open);
    let all = parsed + seq![child];
    if from + 1 < count {
        lemma_holds_parts(s, after, seq![','], group_rest_text(tree, from + 1, open));
        lemma_group_round_trip(s, after + 1, tree, from + 1, open, all);
        assert(all + tree.children.subrange(from + 1, count) =~= parsed + tree.children.subrange(
            from,
            count,
        ));
    } else {
        assert(all =~= parsed + tree.children.subrange(from, count));
    }
}

/// A child of a node is on the node's low side where its tile carries the
/// node's smaller value; the children on the low side are counted one by one.
proof fn lemma_low_children_step(nodes: Seq<NodeView>, i: int, k: int)
    requires
        0 < k,
    ensures
        low_children(nodes, i, k) == low_children(nodes, i, k - 1) + if child_on_low(
            nodes,
            i,
            nodes[i].children[k - 1] as int,
        ) {
            1int
        } else {
            0int
        },
{
}

/// What connects a child to its parent in a tree that grew by attaching
/// tiles: where the parent is written after the value `open`, the child
/// carries the parent's other value, and that value is the child's smaller
/// one just where the child's parent is connected to the child's low side.
proof fn lemma_child_connection(nodes: Seq<NodeView>, i: int, k: int, open: int)
    requires
        links_in_range(nodes),
        attached_tree(nodes),
        0 <= i < nodes.len(),
        0 <= k < nodes[i].children.len(),
        nodes[i].tile.has(open),
        i == 0 || (open == nodes[i].tile.lo() <==> parent_on_low(nodes, i) == 1),
    ensures
        nodes[nodes[i].children[k] as int].tile.has(far_value(nodes[i].tile, open)),
        far_value(nodes[i].tile, open) == nodes[nodes[i].children[k] as int].tile.lo()
            <==> parent_on_low(nodes, nodes[i].children[k] as int) == 1,
{
    let tile = nodes[i].tile;
    let c = nodes[i].children[k] as int;
    let child = nodes[c].tile;
    let far = far_value(tile, open);
    tile.lemma_pips();
    child.lemma_pips();
    assert(child_linked(nodes, i, k));
    assert(parent_linked(nodes, c));
    assert(connections_fit_at(nodes, i));
    assert(node_in_range(nodes, i));
    let count = nodes[i].children.len() as int;
    lemma_low_children_bounds(nodes, i, count);
    if tile.is_double_spec() {
        // All children of a double are on its one value.
        lemma_all_low(nodes, i, count, k);
    } else {
        assert(i != 0);
        assert(parent_linked(nodes, i));
        assert(count == 1) by {
            lemma_low_children_bounds(nodes, i, count);
        }
        assert(k == 0);
        lemma_low_children_step(nodes, i, 1);
        assert(low_children(nodes, i, 0) == 0);
    }
}

/// Where all children of a node are counted on its low side, each is there.
proof fn lemma_all_low(nodes: Seq<NodeView>, i: int, count: int, k: int)
    requires
        0 <= k < count <= nodes[i].children.len(),
        low_children(nodes, i, count) == count,
    ensures
        child_on_low(nodes, i, nodes[i].children[k] as int),
    decreases count,
{
    lemma_low_children_bounds(nodes, i, count - 1);
    lemma_low_children_step(nodes, i, count);
    if k < count - 1 {
        lemma_all_low(nodes, i, count - 1, k);
    }
}

/// No double of the layout has exactly one child.
pub open spec fn doubles_branch(nodes: Seq<NodeView>) -> bool {
    forall|i: int|
        0 <= i < nodes.len() && (#[trigger] nodes[i]).tile.is_double_spec() ==> nodes[i].children.len()
            != 1
}

/// The tree below a node of a layout that grew by attaching tiles can be
/// read back, where no double has exactly one child.
pub proof fn lemma_subtree_readable(nodes: Seq<NodeView>, i: int, open: int)
    requires
        links_in_range(nodes),
        attached_tree(nodes),
        doubles_branch(nodes),
        forall|j: int| 0 <= j < nodes.len() ==> (#[trigger] nodes[j]).tile.hi() <= MAX_PIPS,
        0 <= i < nodes.len(),
        nodes[i].tile.has(open),
        i == 0 || (open == nodes[i].tile.lo() <==> parent_on_low(nodes, i) == 1),
    ensures
        readable(subtree(nodes, i), open),
    decreases nodes.len() - i,
{
    let tree = subtree(nodes, i);
    let tile = nodes[i].tile;
    let far = far_value(tile, open);
    let count = nodes[i].children.len() as int;
    lemma_subtree(nodes, i);
    tile.lemma_pips();
    assert(connections_fit_at(nodes, i));
    lemma_low_children_bounds(nodes, i, count);
    assert forall|k: int| 0 <= k < count implies readable(#[trigger] tree.children[k], far) by {
        let c = nodes[i].children[k] as int;
        assert(child_linked(nodes, i, k));
        lemma_child_connection(nodes, i, k, open);
        lemma_subtree_readable(nodes, c, far);
    }
    lemma_readable_children(tree, count, far);
    if !tile.is_double_spec() {
        assert(i != 0);
        assert(parent_linked(nodes, i));
    }
}

/// Text round trip: the text of a well-formed layout in which no double has
/// exactly one child is parsed as the layout's own tree of tiles.
pub proof fn lemma_text_round_trip(layout: Layout)
    requires
        layout.wf(),
        layout.nodes@.len() > 0,
        doubles_branch(layout.node_views()),
    ensures
        layout_parse(layout.text()) == (Parsed::Trees {
            trees: seq![subtree(layout.node_views(), 0)],
            end: layout.text().len() as int,
        }),
{
    let nodes = layout.node_views();
    let root = nodes[0].tile;
    let text = layout.text();
    root.lemma_pips();
    assert(root == layout.nodes@[0].tile);
    assert forall|j: int| 0 <= j < nodes.len() implies (#[trigger] nodes[j]).tile.hi() <= MAX_PIPS by {
        assert(nodes[j].tile == layout.nodes@[j].tile);
    }
    lemma_subtree_readable(nodes, 0, root.hi());
    assert(holds_at(text, 0, text));
    lemma_chain_round_trip(text, 0, subtree(nodes, 0), root.hi(), None);
    lemma_no_space(text, text.len() as int);
}

} // verus!
