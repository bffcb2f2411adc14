//! Generation of a layout from the tiles of a boneyard.

use crate::boneyard::Boneyard;
use crate::configuration::Configuration;
use crate::dominoes_state::lemma_attached_ordinals;
use crate::hand::{find_tile, lemma_position_of, position_of};
use crate::layout::{attached_to, Layout};
use crate::layout_lemmas::{
    attach_root, lemma_attach_child_nodes, matched_value, opened_count, opened_value,
};
use crate::open_ends::{
    lemma_occurrences_positive, lemma_occurrences_push, lemma_occurrences_remove, occurrences,
};
use crate::tile::Tile;
use crate::zhash::ordinals_of;
use vstd::prelude::*;

verus! {

/// The ordinals of the tiles, in their order.
pub open spec fn ordinals(tiles: Seq<Tile>) -> Seq<u8> {
    tiles.map_values(|tile: Tile| tile.ordinal)
}

/// A value is open at some node of the layout.
pub open spec fn open_somewhere(layout: &Layout, value: int) -> bool {
    exists|i: int| 0 <= i < layout.nodes@.len() && #[trigger] layout.open_count_at(i, value) > 0
}

/// The node is one at which the tile can be attached: one with the tile's
/// smaller value open, or, where that value is open nowhere, one with the
/// tile's larger value open.
pub open spec fn attachable_at(layout: &Layout, tile: Tile, index: int) -> bool {
    &&& 0 <= index < layout.nodes@.len()
    &&& if open_somewhere(layout, tile.lo()) {
        layout.open_count_at(index, tile.lo()) > 0
    } else {
        layout.open_count_at(index, tile.hi()) > 0
    }
}

/// The tile can be attached at some node of the layout.
pub open spec fn attachable(layout: &Layout, tile: Tile) -> bool {
    open_somewhere(layout, tile.lo()) || open_somewhere(layout, tile.hi())
}

/// Returns the index of a node in the layout where the tile can be attached,
/// if any: a node with an open end for the tile's first value, else for its second.
pub fn can_attach(layout: &Layout, tile: &Tile) -> (index: Option<usize>)
    requires
        layout.indexed(),
        tile.hi() <= layout.max_value(),
    ensures
        match index {
            Some(index) => attachable_at(layout, *tile, index as int),
            None => !attachable(layout, *tile),
        },
{
    proof {
        tile.lemma_pips();
    }
    let (a, b) = tile.as_tuple();
    let first = layout.get_nodes_with_open_end(a);
    if first.len() > 0 {
        assert(first@.contains(first@[0]));
        assert(layout.nodes_with_open_end_spec(a as int).contains(first@[0] as int));
        return Some(first[0]);
    }
    assert(!open_somewhere(layout, a as int)) by {
        if open_somewhere(layout, a as int) {
            let i = choose|i: int| 0 <= i < layout.nodes@.len() && #[trigger] layout.open_count_at(i, a as int) > 0;
            assert(layout.nodes_with_open_end_spec(a as int).contains(i));
            assert(first@.contains(i as usize));
        }
    }
    let second = layout.get_nodes_with_open_end(b);
    if second.len() > 0 {
        assert(second@.contains(second@[0]));
        assert(layout.nodes_with_open_end_spec(b as int).contains(second@[0] as int));
        return Some(second[0]);
    }
    assert(!open_somewhere(layout, b as int)) by {
        if open_somewhere(layout, b as int) {
            let i = choose|i: int| 0 <= i < layout.nodes@.len() && #[trigger] layout.open_count_at(i, b as int) > 0;
            assert(layout.nodes_with_open_end_spec(b as int).contains(i));
            assert(second@.contains(i as usize));
        }
    }
    None
}

/// The tile is one that the search looks at, and it can be attached.
pub open spec fn playable(layout: &Layout, tile: Tile, doubles_only: bool) -> bool {
    (!doubles_only || tile.is_double_spec()) && attachable(layout, tile)
}

/// Finds the first tile in the hand that can be attached to the layout, and
/// the index of a node where it can be attached. With `doubles_only`, only
/// doubles are looked at.
pub fn find_playable_tile(layout: &Layout, hand: &Vec<Tile>, doubles_only: bool) -> (found: Option<
    (Tile, usize),
>)
    requires
        layout.indexed(),
        forall|k: int| 0 <= k < hand@.len() ==> (#[trigger] hand@[k]).hi() <= layout.max_value(),
    ensures
        match found {
            Some((tile, index)) => exists|k: int|
                {
                    &&& 0 <= k < hand@.len()
                    &&& #[trigger] hand@[k] == tile
                    &&& playable(layout, tile, doubles_only)
                    &&& attachable_at(layout, tile, index as int)
                    &&& forall|j: int| 0 <= j < k ==> !playable(layout, #[trigger] hand@[j], doubles_only)
                },
            None => forall|k: int| 0 <= k < hand@.len() ==> !playable(layout, #[trigger] hand@[k], doubles_only),
        },
{
    let mut k: usize = 0;
    while k < hand.len()
        invariant
            k <= hand@.len(),
            layout.indexed(),
            forall|j: int| 0 <= j < hand@.len() ==> (#[trigger] hand@[j]).hi() <= layout.max_value(),
            forall|j: int| 0 <= j < k ==> !playable(layout, #[trigger] hand@[j], doubles_only),
        decreases hand@.len() - k,
    {
        let tile = hand[k];
        if !doubles_only || tile.is_double() {
            match can_attach(layout, &tile) {
                Some(index) => {
                    assert(hand@[k as int] == tile);
                    assert(layout.open_count_at(index as int, tile.lo()) > 0 || layout.open_count_at(
                        index as int,
                        tile.hi(),
                    ) > 0);
                    return Some((tile, index));
                },
                None => {},
            }
        }
        k = k + 1;
    }
    None
}

/// Removes the first occurrence of the tile from the hand, if there is one:
/// the last tile of the hand takes its place.
pub fn find_and_remove_tile(hand: &mut Vec<Tile>, tile: Tile)
    ensures
        old(hand)@.contains(tile) ==> final(hand)@ == old(hand)@.update(
            position_of(old(hand)@, tile),
            old(hand)@.last(),
        ).drop_last(),
        !old(hand)@.contains(tile) ==> final(hand)@ == old(hand)@,
{
    match find_tile(hand, tile) {
        Some(position) => {
            hand.swap_remove(position);
        },
        None => {},
    }
}

/// Changing the value at a position takes one occurrence of the old value
/// away and adds one of the new value.
pub proof fn lemma_occurrences_update(values: Seq<u8>, position: int, new: u8, value: int)
    requires
        0 <= position < values.len(),
    ensures
        occurrences(values.update(position, new), value) + (if values[position] == value {
            1int
        } else {
            0int
        }) == occurrences(values, value) + if new == value {
            1int
        } else {
            0int
        },
    decreases values.len(),
{
    if position == values.len() - 1 {
        assert(values.update(position, new).drop_last() =~= values.drop_last());
    } else {
        lemma_occurrences_update(values.drop_last(), position, new, value);
        assert(values.update(position, new).drop_last() =~= values.drop_last().update(position, new));
    }
}

/// A value put in front adds one occurrence of that value.
pub proof fn lemma_occurrences_front(values: Seq<u8>, added: u8, value: int)
    ensures
        occurrences(values.insert(0, added), value) == occurrences(values, value) + if added == value {
            1int
        } else {
            0int
        },
    decreases values.len(),
{
    if values.len() == 0 {
        assert(values.insert(0, added) =~= values.push(added));
        lemma_occurrences_push(values, added, value);
    } else {
        lemma_occurrences_front(values.drop_last(), added, value);
        assert(values.insert(0, added).drop_last() =~= values.drop_last().insert(0, added));
        assert(values.insert(0, added).last() == values.last());
    }
}

/// The counts of the open ends of the first `n` values added up.
pub open spec fn counts_sum(counts: Seq<u8>, n: int) -> int
    decreases n,
{
    if n <= 0 {
        0
    } else {
        counts_sum(counts, n - 1) + counts[n - 1]
    }
}

/// Counts of zero add up to zero.
pub proof fn lemma_counts_sum_zero(counts: Seq<u8>, n: int)
    requires
        0 <= n <= counts.len(),
        forall|value: int| 0 <= value < counts.len() ==> counts[value] == 0,
    ensures
        counts_sum(counts, n) == 0,
    decreases n,
{
    if n > 0 {
        lemma_counts_sum_zero(counts, n - 1);
    }
}

/// Each count is at most the sum of the counts.
pub proof fn lemma_counts_sum_above(counts: Seq<u8>, n: int, value: int)
    requires
        0 <= value < n <= counts.len(),
    ensures
        counts[value] <= counts_sum(counts, n),
        0 <= counts_sum(counts, n),
    decreases n,
{
    lemma_counts_sum_not_negative(counts, n - 1);
    if value < n - 1 {
        lemma_counts_sum_above(counts, n - 1, value);
    }
}

/// A sum of counts is not negative.
pub proof fn lemma_counts_sum_not_negative(counts: Seq<u8>, n: int)
    ensures
        0 <= counts_sum(counts, n),
    decreases n,
{
    if n > 0 {
        lemma_counts_sum_not_negative(counts, n - 1);
    }
}

/// Where counts differ at two values at most, their sums differ by those differences.
pub proof fn lemma_counts_sum_change(
    before: Seq<u8>,
    after: Seq<u8>,
    n: int,
    first: int,
    first_change: int,
    second: int,
    second_change: int,
)
    requires
        0 <= n <= before.len() == after.len(),
        forall|value: int|
            0 <= value < n ==> #[trigger] after[value] == before[value] + (if value == first {
                first_change
            } else {
                0
            }) + (if value == second {
                second_change
            } else {
                0
            }),
    ensures
        counts_sum(after, n) == counts_sum(before, n) + (if 0 <= first < n {
            first_change
        } else {
            0
        }) + (if 0 <= second < n {
            second_change
        } else {
            0
        }),
    decreases n,
{
    if n > 0 {
        lemma_counts_sum_change(before, after, n - 1, first, first_change, second, second_change);
        assert(after[n - 1] == before[n - 1] + (if n - 1 == first {
            first_change
        } else {
            0
        }) + (if n - 1 == second {
            second_change
        } else {
            0
        }));
    }
}

/// The tiles that are in play: those of the layout, of the hand and of the
/// boneyard, are the tiles of the boneyard at the start, each as often.
pub open spec fn in_play(layout: &Layout, hand: Seq<Tile>, pile: Seq<Tile>, start: Seq<Tile>) -> bool {
    forall|value: int|
        0 <= value <= u8::MAX ==> #[trigger] occurrences(ordinals(start), value) == occurrences(
            ordinals_of(layout.nodes@),
            value,
        ) + occurrences(ordinals(hand), value) + occurrences(ordinals(pile), value)
}

/// Generates a layout from the tiles of a boneyard: the first double that is
/// drawn becomes the root; then, again and again, the first tile that was
/// drawn and can be attached is attached, doubles first where they are
/// prioritized, and a further tile is drawn where none can be. The layout is
/// done when it holds `max_size` tiles or the boneyard is empty.
pub fn generate_layout(
    configuration: &Configuration,
    boneyard: Boneyard,
    max_size: usize,
    prioritize_doubles: bool,
) -> (layout: Layout)
    requires
        configuration@.wf(),
        boneyard.wf(),
        boneyard@.len() <= 253,
        forall|value: int| 0 <= value <= u8::MAX ==> occurrences(ordinals(boneyard@), value) <= 1,
        forall|k: int| 0 <= k < boneyard@.len() ==> (#[trigger] boneyard@[k]).hi() <= configuration@.set_id,
    ensures
        layout.wf(),
        layout.end_counts@.len() == configuration@.set_id + 1,
        layout.nodes@.len() <= boneyard@.len(),
        layout.nodes@.len() <= max_size || layout.nodes@.len() <= 2,
        forall|value: int|
            0 <= value <= u8::MAX ==> occurrences(ordinals_of(layout.nodes@), value) <= occurrences(
                ordinals(boneyard@),
                value,
            ),
{
    let ghost start = boneyard@;
    let mut boneyard = boneyard;
    let mut layout = Layout::new(configuration);
    let mut hand: Vec<Tile> = Vec::new();
    let mut size: usize = 0;
    proof {
        assert(ordinals_of(layout.nodes@) =~= Seq::<u8>::empty());
        assert(ordinals(hand@) =~= Seq::<u8>::empty());
    }
    // Draw from the boneyard until a double is found and play it.
    proof {
        lemma_counts_sum_zero(layout.end_counts@, layout.end_counts@.len() as int);
    }
    loop
        invariant_except_break
            layout.nodes@.len() == 0,
            size == 0,
            counts_sum(layout.end_counts@, layout.end_counts@.len() as int) == 0,
            hand@.len() + boneyard@.len() == start.len(),
        invariant
            boneyard.wf(),
            layout.wf(),
            start.len() <= 253,
            layout.end_counts@.len() == configuration@.set_id + 1,
            in_play(&layout, hand@, boneyard@, start),
            forall|k: int| 0 <= k < hand@.len() ==> (#[trigger] hand@[k]).hi() <= configuration@.set_id,
            forall|k: int| 0 <= k < boneyard@.len() ==> (#[trigger] boneyard@[k]).hi() <= configuration@.set_id,
        ensures
            boneyard.wf(),
            layout.wf(),
            size == layout.nodes@.len() <= 1,
            layout.end_counts@.len() == configuration@.set_id + 1,
            counts_sum(layout.end_counts@, layout.end_counts@.len() as int) <= layout.nodes@.len() + 1,
            layout.nodes@.len() + hand@.len() + boneyard@.len() == start.len() <= 253,
            in_play(&layout, hand@, boneyard@, start),
            forall|k: int| 0 <= k < hand@.len() ==> (#[trigger] hand@[k]).hi() <= configuration@.set_id,
            forall|k: int| 0 <= k < boneyard@.len() ==> (#[trigger] boneyard@[k]).hi() <= configuration@.set_id,
        decreases boneyard@.len(),
    {
        let ghost pile = boneyard@;
        let ghost held = hand@;
        let ghost empty = layout;
        match boneyard.draw() {
            Some(tile) => {
                proof {
                    assert(pile[0] == tile);
                    assert forall|k: int| 0 <= k < boneyard@.len() implies (#[trigger] boneyard@[k]).hi()
                        <= configuration@.set_id by {
                        assert(boneyard@[k] == pile[k + 1]);
                    }
                    assert(ordinals(pile.drop_first()) =~= ordinals(pile).remove(0));
                    assert forall|value: int| 0 <= value <= u8::MAX implies #[trigger] occurrences(
                        ordinals(pile),
                        value,
                    ) == occurrences(ordinals(boneyard@), value) + if tile.ordinal == value {
                        1int
                    } else {
                        0int
                    } by {
                        lemma_occurrences_remove(ordinals(pile), 0, value);
                    }
                }
                if tile.is_double() {
                    layout.attach(tile, None);
                    size = size + 1;
                    proof {
                        assert(attach_root(tile).len() == 1);
                        assert(layout.node_views().len() == layout.nodes@.len());
                        assert(attach_root(tile)[0].tile == tile);
                        assert(layout.node_views()[0].tile == layout.nodes@[0].tile);
                        assert(ordinals_of(layout.nodes@) =~= Seq::<u8>::empty().push(tile.ordinal));
                        assert forall|value: int| 0 <= value <= u8::MAX implies #[trigger] occurrences(
                            ordinals(start),
                            value,
                        ) == occurrences(ordinals_of(layout.nodes@), value) + occurrences(
                            ordinals(hand@),
                            value,
                        ) + occurrences(ordinals(boneyard@), value) by {
                            lemma_occurrences_push(Seq::<u8>::empty(), tile.ordinal, value);
                            assert(occurrences(ordinals(start), value) == occurrences(
                                ordinals_of(empty.nodes@),
                                value,
                            ) + occurrences(ordinals(held), value) + occurrences(ordinals(pile), value));
                            assert(ordinals_of(empty.nodes@) =~= Seq::<u8>::empty());
                        }
                        tile.lemma_pips();
                        lemma_counts_sum_change(
                            empty.end_counts@,
                            layout.end_counts@,
                            layout.end_counts@.len() as int,
                            tile.lo(),
                            2,
                            -1,
                            0,
                        );
                    }
                    break ;
                } else {
                    hand.push(tile);
                    proof {
                        assert(ordinals(hand@) =~= ordinals(held).push(tile.ordinal));
                        assert forall|value: int| 0 <= value <= u8::MAX implies #[trigger] occurrences(
                            ordinals(start),
                            value,
                        ) == occurrences(ordinals_of(layout.nodes@), value) + occurrences(
                            ordinals(hand@),
                            value,
                        ) + occurrences(ordinals(boneyard@), value) by {
                            lemma_occurrences_push(ordinals(held), tile.ordinal, value);
                            assert(occurrences(ordinals(start), value) == occurrences(
                                ordinals_of(layout.nodes@),
                                value,
                            ) + occurrences(ordinals(held), value) + occurrences(ordinals(pile), value));
                        }
                    }
                }
            },
            None => {
                break ;
            },
        }
    }
    // Continue drawing and playing tiles until the layout reaches the desired size or the boneyard is empty
    loop
        invariant_except_break
            size < max_size || size <= 1,
        invariant
            boneyard.wf(),
            layout.wf(),
            size == layout.nodes@.len(),
            layout.end_counts@.len() == configuration@.set_id + 1,
            counts_sum(layout.end_counts@, layout.end_counts@.len() as int) <= layout.nodes@.len() + 1,
            layout.nodes@.len() + hand@.len() + boneyard@.len() == start.len() <= 253,
            in_play(&layout, hand@, boneyard@, start),
            forall|value: int| 0 <= value <= u8::MAX ==> occurrences(ordinals(start), value) <= 1,
            forall|k: int| 0 <= k < hand@.len() ==> (#[trigger] hand@[k]).hi() <= configuration@.set_id,
            forall|k: int| 0 <= k < boneyard@.len() ==> (#[trigger] boneyard@[k]).hi() <= configuration@.set_id,
        ensures
            size <= max_size || size <= 2,
        decreases boneyard@.len(),
    {
        // Repeatedly go through the hand and attach any tile to the layout until no more can be attached
        let mut made_progress = true;
        while made_progress
            invariant_except_break
                size < max_size || size <= 1,
            invariant
                boneyard.wf(),
                layout.wf(),
                size == layout.nodes@.len(),
                layout.end_counts@.len() == configuration@.set_id + 1,
                counts_sum(layout.end_counts@, layout.end_counts@.len() as int) <= layout.nodes@.len()
                    + 1,
                layout.nodes@.len() + hand@.len() + boneyard@.len() == start.len() <= 253,
                in_play(&layout, hand@, boneyard@, start),
                forall|value: int| 0 <= value <= u8::MAX ==> occurrences(ordinals(start), value) <= 1,
                forall|k: int| 0 <= k < hand@.len() ==> (#[trigger] hand@[k]).hi() <= configuration@.set_id,
                forall|k: int|
                    0 <= k < boneyard@.len() ==> (#[trigger] boneyard@[k]).hi() <= configuration@.set_id,
            ensures
                size <= max_size || size <= 2,
            decreases
                    hand@.len() + if made_progress {
                        1int
                    } else {
                        0int
                    },
        {
            // Find the first tile in the hand that can be attached to the layout
            let found = if prioritize_doubles {
                match find_playable_tile(&layout, &hand, true) {
                    Some(found) => Some(found),
                    None => find_playable_tile(&layout, &hand, false),
                }
            } else {
                find_playable_tile(&layout, &hand, false)
            };
            match found {
                Some((tile, index)) => {
                    let ghost before = layout;
                    let ghost held = hand@;
                    proof {
                        lemma_attach_ready(&layout, hand@, boneyard@, start, tile, index as int);
                    }
                    // Attach the tile to the layout at the found index
                    layout.attach(tile, Some(index));
                    size = size + 1;
                    // Remove the tile from the hand
                    find_and_remove_tile(&mut hand, tile);
                    proof {
                        lemma_attach_done(before, &layout, held, hand@, boneyard@, start, tile, index as int);
                    }
                    if size >= max_size {
                        break ;
                    }
                },
                None => {
                    made_progress = false;
                },
            }
        }
        if size >= max_size {
            break ;
        }
        // Try to draw a tile from the boneyard and add it to the hand
        let ghost pile = boneyard@;
        let ghost held = hand@;
        match boneyard.draw() {
            Some(tile) => {
                // Add the tile to the front of the hand since none of the other tiles could be played
                hand.insert(0, tile);
                proof {
                    assert(pile[0] == tile);
                    assert forall|k: int| 0 <= k < boneyard@.len() implies (#[trigger] boneyard@[k]).hi()
                        <= configuration@.set_id by {
                        assert(boneyard@[k] == pile[k + 1]);
                    }
                    assert forall|k: int| 0 <= k < hand@.len() implies (#[trigger] hand@[k]).hi()
                        <= configuration@.set_id by {
                        if k > 0 {
                            assert(hand@[k] == held[k - 1]);
                        }
                    }
                    assert(ordinals(pile.drop_first()) =~= ordinals(pile).remove(0));
                    assert(ordinals(hand@) =~= ordinals(held).insert(0, tile.ordinal));
                    assert forall|value: int| 0 <= value <= u8::MAX implies #[trigger] occurrences(
                        ordinals(start),
                        value,
                    ) == occurrences(ordinals_of(layout.nodes@), value) + occurrences(
                        ordinals(hand@),
                        value,
                    ) + occurrences(ordinals(boneyard@), value) by {
                        lemma_occurrences_remove(ordinals(pile), 0, value);
                        lemma_occurrences_front(ordinals(held), tile.ordinal, value);
                        assert(occurrences(ordinals(start), value) == occurrences(
                            ordinals_of(layout.nodes@),
                            value,
                        ) + occurrences(ordinals(held), value) + occurrences(ordinals(pile), value));
                    }
                }
            },
            None => {
                // No more tiles in boneyard
                break ;
            },
        }
    }
    proof {
        assert forall|value: int| 0 <= value <= u8::MAX implies occurrences(
            ordinals_of(layout.nodes@),
            value,
        ) <= occurrences(ordinals(start), value) by {
            assert(occurrences(ordinals(start), value) == occurrences(ordinals_of(layout.nodes@), value)
                + occurrences(ordinals(hand@), value) + occurrences(ordinals(boneyard@), value));
        }
    }
    layout
}

/// A tile of the hand that can be attached at a node of a layout of other
/// tiles meets what attaching asks for.
pub proof fn lemma_attach_ready(
    layout: &Layout,
    hand: Seq<Tile>,
    pile: Seq<Tile>,
    start: Seq<Tile>,
    tile: Tile,
    index: int,
)
    requires
        layout.wf(),
        hand.contains(tile),
        tile.hi() <= layout.max_value(),
        attachable_at(layout, tile, index),
        layout.open_count_at(index, tile.lo()) > 0 || layout.open_count_at(index, tile.hi()) > 0,
        in_play(layout, hand, pile, start),
        forall|value: int| 0 <= value <= u8::MAX ==> occurrences(ordinals(start), value) <= 1,
        counts_sum(layout.end_counts@, layout.end_counts@.len() as int) <= layout.nodes@.len() + 1,
        layout.nodes@.len() + hand.len() + pile.len() == start.len() <= 253,
    ensures
        layout.open_count_at(index, matched_value(layout.nodes@[index].tile, tile)) > 0,
        layout.end_counts@[opened_value(layout.nodes@[index].tile, tile)] + opened_count(tile)
            <= u8::MAX,
        layout.nodes@[index].tile != tile,
{
    tile.lemma_pips();
    let parent_tile = layout.nodes@[index].tile;
    parent_tile.lemma_pips();
    // The tile is in the hand, so it is not in the layout.
    let at = choose|at: int| 0 <= at < hand.len() && hand[at] == tile;
    assert(ordinals(hand)[at] == tile.ordinal);
    lemma_occurrences_positive(ordinals(hand), tile.ordinal as int);
    assert(occurrences(ordinals(start), tile.ordinal as int) == occurrences(
        ordinals_of(layout.nodes@),
        tile.ordinal as int,
    ) + occurrences(ordinals(hand), tile.ordinal as int) + occurrences(
        ordinals(pile),
        tile.ordinal as int,
    ));
    lemma_occurrences_positive(ordinals_of(layout.nodes@), tile.ordinal as int);
    if parent_tile == tile {
        assert(ordinals_of(layout.nodes@)[index] == tile.ordinal);
    }
    if layout.open_count_at(index, tile.lo()) > 0 {
        layout.lemma_open_end_matches(tile, index, tile.lo());
    } else {
        layout.lemma_open_end_matches(tile, index, tile.hi());
    }
    lemma_counts_sum_above(
        layout.end_counts@,
        layout.end_counts@.len() as int,
        opened_value(parent_tile, tile),
    );
}

/// After a tile of the hand was attached and taken from the hand, the tiles
/// in play are the same, and the open ends are still few.
pub proof fn lemma_attach_done(
    before: Layout,
    layout: &Layout,
    held: Seq<Tile>,
    hand: Seq<Tile>,
    pile: Seq<Tile>,
    start: Seq<Tile>,
    tile: Tile,
    index: int,
)
    requires
        before.wf(),
        layout.wf(),
        0 <= index < before.nodes@.len(),
        tile.hi() <= before.max_value(),
        before.open_count_at(index, matched_value(before.nodes@[index].tile, tile)) > 0,
        attached_to(before, *layout, tile, index),
        held.contains(tile),
        hand == held.update(position_of(held, tile), held.last()).drop_last(),
        in_play(&before, held, pile, start),
        counts_sum(before.end_counts@, before.end_counts@.len() as int) <= before.nodes@.len() + 1,
        forall|k: int| 0 <= k < held.len() ==> (#[trigger] held[k]).hi() <= before.max_value(),
    ensures
        layout.nodes@.len() == before.nodes@.len() + 1,
        hand.len() + 1 == held.len(),
        in_play(layout, hand, pile, start),
        counts_sum(layout.end_counts@, layout.end_counts@.len() as int) <= layout.nodes@.len() + 1,
        forall|k: int| 0 <= k < hand.len() ==> (#[trigger] hand[k]).hi() <= before.max_value(),
{
    tile.lemma_pips();
    before.nodes@[index].tile.lemma_pips();
    before.lemma_matched_counted(tile, index);
    lemma_attached_ordinals(before, *layout, tile, index);
    lemma_attach_child_nodes(before.node_views(), tile, index);
    assert(layout.node_views().len() == layout.nodes@.len());
    assert(before.node_views().len() == before.nodes@.len());
    lemma_position_of(held, tile);
    let position = position_of(held, tile);
    assert forall|k: int| 0 <= k < hand.len() implies (#[trigger] hand[k]).hi() <= before.max_value() by {
        if k == position {
            assert(hand[k] == held.last());
            assert(held[held.len() - 1].hi() <= before.max_value());
        } else {
            assert(hand[k] == held[k]);
        }
    }
    assert(ordinals(hand) =~= ordinals(held).update(position, ordinals(held).last()).drop_last());
    assert forall|value: int| 0 <= value <= u8::MAX implies #[trigger] occurrences(
        ordinals(start),
        value,
    ) == occurrences(ordinals_of(layout.nodes@), value) + occurrences(ordinals(hand), value)
        + occurrences(ordinals(pile), value) by {
        let all = ordinals(held);
        lemma_occurrences_push(ordinals_of(before.nodes@), tile.ordinal, value);
        lemma_occurrences_update(all, position, all.last(), value);
        let swapped = all.update(position, all.last());
        assert(swapped.last() == all.last());
        assert(occurrences(swapped, value) == occurrences(swapped.drop_last(), value) + if swapped.last()
            == value {
            1nat
        } else {
            0nat
        });
        assert(all[position] == tile.ordinal);
        assert(occurrences(ordinals(start), value) == occurrences(ordinals_of(before.nodes@), value)
            + occurrences(ordinals(held), value) + occurrences(ordinals(pile), value));
    }
    lemma_counts_sum_change(
        before.end_counts@,
        layout.end_counts@,
        before.end_counts@.len() as int,
        matched_value(before.nodes@[index].tile, tile),
        -1,
        opened_value(before.nodes@[index].tile, tile),
        opened_count(tile),
    );
}

/// Generates a random layout: a layout from a shuffled boneyard of all tiles
/// of the configuration's set.
pub fn generate_random_layout(configuration: &Configuration, max_size: usize, prioritize_doubles: bool) -> (layout:
    Layout)
    requires
        configuration@.wf(),
    ensures
        layout.wf(),
        layout.end_counts@.len() == configuration@.set_id + 1,
        layout.nodes@.len() <= configuration@.tiles.len(),
        layout.nodes@.len() <= max_size || layout.nodes@.len() <= 2,
        forall|value: int|
            0 <= value <= u8::MAX ==> occurrences(ordinals_of(layout.nodes@), value) <= 1,
{
    let boneyard = Boneyard::new(configuration);
    let ghost pile = boneyard@;
    proof {
        lemma_shuffled_set(configuration@.tiles, pile, configuration@.set_id as int);
    }
    let layout = generate_layout(configuration, boneyard, max_size, prioritize_doubles);
    proof {
        assert forall|value: int| 0 <= value <= u8::MAX implies occurrences(
            ordinals_of(layout.nodes@),
            value,
        ) <= 1 by {
            assert(occurrences(ordinals(pile), value) <= 1);
        }
    }
    layout
}

/// The tiles of a set in any order are as many as the set's, each occurs
/// once at most, and none has a value above the set's largest.
pub proof fn lemma_shuffled_set(tiles: Seq<Tile>, shuffled: Seq<Tile>, set_id: int)
    requires
        0 <= set_id <= crate::rules::MAX_PIPS,
        tiles.len() == crate::rules::set_size_spec(set_id),
        forall|i: int| 0 <= i < tiles.len() ==> #[trigger] tiles[i].ordinal == i,
        shuffled.to_multiset() == tiles.to_multiset(),
    ensures
        shuffled.len() == tiles.len() <= 253,
        forall|value: int| 0 <= value <= u8::MAX ==> occurrences(ordinals(shuffled), value) <= 1,
        forall|k: int| 0 <= k < shuffled.len() ==> (#[trigger] shuffled[k]).hi() <= set_id,
{
    broadcast use vstd::seq_lib::group_to_multiset_ensures;

    crate::rules::lemma_triangle_monotonic(set_id + 1, 22);
    assert(crate::rules::triangle(22) == 253) by (nonlinear_arith);
    assert(shuffled.len() == shuffled.to_multiset().len());
    assert(tiles.len() == tiles.to_multiset().len());
    assert forall|k: int| 0 <= k < shuffled.len() implies (#[trigger] shuffled[k]).hi() <= set_id by {
        let tile = shuffled[k];
        assert(shuffled.to_multiset().count(tile) > 0);
        assert(tiles.to_multiset().count(tile) > 0);
        assert(tiles.contains(tile));
        let i = choose|i: int| 0 <= i < tiles.len() && tiles[i] == tile;
        tile.lemma_pips();
        if tile.hi() > set_id {
            crate::rules::lemma_triangle_monotonic(set_id + 1, tile.hi());
        }
    }
    assert(tiles.no_duplicates()) by {
        assert forall|i: int, j: int| 0 <= i < tiles.len() && 0 <= j < tiles.len() && i != j implies tiles[i]
            != tiles[j] by {
            assert(tiles[i].ordinal == i && tiles[j].ordinal == j);
        }
    }
    tiles.lemma_multiset_has_no_duplicates();
    shuffled.lemma_multiset_has_no_duplicates_conv();
    assert forall|value: int| 0 <= value <= u8::MAX implies occurrences(ordinals(shuffled), value) <= 1 by {
        lemma_occurrences_distinct(shuffled, value);
    }
}

/// Among tiles that are all different, an ordinal occurs once at most.
pub proof fn lemma_occurrences_distinct(tiles: Seq<Tile>, value: int)
    requires
        tiles.no_duplicates(),
    ensures
        occurrences(ordinals(tiles), value) <= 1,
    decreases tiles.len(),
{
    if tiles.len() > 0 {
        let rest = tiles.drop_last();
        assert(rest.no_duplicates());
        lemma_occurrences_distinct(rest, value);
        assert(ordinals(tiles).drop_last() =~= ordinals(rest));
        if tiles.last().ordinal == value {
            lemma_occurrences_positive(ordinals(rest), value);
            if occurrences(ordinals(rest), value) > 0 {
                let i = choose|i: int| 0 <= i < ordinals(rest).len() && ordinals(rest)[i] == value;
                assert(tiles[i].ordinal == tiles[tiles.len() - 1].ordinal);
                assert(tiles[i] == tiles[tiles.len() - 1]);
            }
        }
    }
}

} // verus!
