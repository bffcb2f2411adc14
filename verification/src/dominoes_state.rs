//! The state of a game of dominoes: the layout, the boneyard, whose turn it
//! is, and the fingerprint of the layout.

use crate::boneyard::Boneyard;
use crate::configuration::Configuration;
use crate::layout::{attached_first, attached_to, derived_count, derived_total, Layout, NodeView};
use crate::layout_lemmas::{
    attach_child, attach_root, lemma_attach_child_nodes, lemma_attach_child_other, lemma_total_zero,
    matched_value, opened_count, opened_value,
};
use crate::tile::Tile;
use crate::zhash::{ends_part, ordinals_of, tiles_part, ZHash, ZTable, END_CONSTANTS};
use vstd::prelude::*;

verus! {

/// The state of a game for two players.
#[derive(Debug, Clone)]
pub struct DominoesState {
    /// The layout of played tiles
    pub layout: Layout,
    /// The tiles that can still be drawn
    pub boneyard: Boneyard,
    /// The player who moves next
    pub whose_turn: u8,
    /// The fingerprint of the layout
    pub fingerprint: ZHash,
    /// The number of passes in a row
    pub consecutive_passes: u8,
    /// The game is over
    pub game_is_over: bool,
    /// The winner of a game that is over, if there is one
    pub winner: Option<u8>,
}

/// Where something is open in total, it is open at some node.
pub proof fn lemma_total_positive(nodes: Seq<NodeView>, value: int, n: int)
    requires
        0 <= n,
        forall|i: int| 0 <= i < n ==> #[trigger] derived_count(nodes, i, value) >= 0,
        derived_total(nodes, value, n) > 0,
    ensures
        exists|i: int| 0 <= i < n && #[trigger] derived_count(nodes, i, value) > 0,
{
    lemma_total_zero(nodes, value, n);
    if forall|i: int| 0 <= i < n ==> #[trigger] derived_count(nodes, i, value) == 0 {
        lemma_sum_of_zeros(nodes, value, n);
    }
}

/// What is open at no node is not open in total.
proof fn lemma_sum_of_zeros(nodes: Seq<NodeView>, value: int, n: int)
    requires
        0 <= n,
        forall|i: int| 0 <= i < n ==> #[trigger] derived_count(nodes, i, value) == 0,
    ensures
        derived_total(nodes, value, n) == 0,
    decreases n,
{
    if n > 0 {
        lemma_sum_of_zeros(nodes, value, n - 1);
        assert(derived_count(nodes, n - 1, value) == 0);
    }
}

/// A change of one count changes the constants of the ends by the constant of
/// the old count and the constant of the new count.
pub proof fn lemma_ends_part_update(table: &ZTable, counts: Seq<u8>, value: int, count: u8, n: int)
    requires
        table.wf(),
        0 <= value < counts.len() <= END_CONSTANTS,
        0 <= n <= counts.len(),
    ensures
        ends_part(table, counts.update(value, count), n) == if value < n {
            ends_part(table, counts, n) ^ (table.end_constant(value, counts[value] as int)
                ^ table.end_constant(value, count as int))
        } else {
            ends_part(table, counts, n)
        },
    decreases n,
{
    if n > 0 {
        lemma_ends_part_update(table, counts, value, count, n - 1);
        table.lemma_zero_count(n - 1);
        let rest = ends_part(table, counts, n - 1);
        let before = table.end_constant(value, counts[value] as int);
        let after = table.end_constant(value, count as int);
        if value == n - 1 {
            assert((rest ^ before) ^ (before ^ after) == rest ^ after) by (bit_vector);
        } else if value < n - 1 {
            let term = if counts[n - 1] > 0 {
                table.end_constant(n - 1, counts[n - 1] as int)
            } else {
                0
            };
            assert((rest ^ (before ^ after)) ^ term == (rest ^ term) ^ (before ^ after)) by (bit_vector);
        }
    }
}

impl Layout {
    /// Where a value of a tile is open at a node whose tile is another one,
    /// that value is the one that connects the tile to the node.
    pub proof fn lemma_open_end_matches(self, tile: Tile, p: int, end: int)
        requires
            self.indexed(),
            0 <= p < self.nodes@.len(),
            0 <= end <= u8::MAX,
            self.open_count_at(p, end) > 0,
            tile.has(end),
            self.nodes@[p].tile != tile,
        ensures
            matched_value(self.nodes@[p].tile, tile) == end,
    {
        let parent_tile = self.nodes@[p].tile;
        tile.lemma_pips();
        parent_tile.lemma_pips();
        assert(self.node_views()[p].tile == parent_tile);
        assert(self.open_count_at(p, end) == derived_count(self.node_views(), p, end));
        assert(parent_tile.has(end));
        if matched_value(parent_tile, tile) != end {
            if parent_tile.lo() == tile.lo() && parent_tile.hi() == tile.hi() {
                parent_tile.lemma_same_pips(tile);
            }
        }
    }
}

/// After a tile was attached, the tiles of the layout are its earlier tiles
/// and the new one.
pub proof fn lemma_attached_ordinals(before: Layout, after: Layout, tile: Tile, p: int)
    requires
        0 <= p < before.nodes@.len(),
        after.node_views() == attach_child(before.node_views(), tile, p),
    ensures
        ordinals_of(after.nodes@) == ordinals_of(before.nodes@).push(tile.ordinal),
{
    lemma_attach_child_nodes(before.node_views(), tile, p);
    assert(after.nodes@.len() == before.nodes@.len() + 1);
    assert forall|i: int| 0 <= i < after.nodes@.len() implies ordinals_of(after.nodes@)[i]
        == ordinals_of(before.nodes@).push(tile.ordinal)[i] by {
        assert(after.node_views()[i].tile == after.nodes@[i].tile);
        if i < before.nodes@.len() {
            lemma_attach_child_other(before.node_views(), tile, p, i);
            assert(before.node_views()[i].tile == before.nodes@[i].tile);
        }
    }
    assert(ordinals_of(after.nodes@) =~= ordinals_of(before.nodes@).push(tile.ordinal));
}

/// The fingerprint after a tile was played on a node: updated for the tile,
/// the end that it took and the ends that it opened, it has moved with the
/// fingerprint from scratch.
pub proof fn lemma_played(
    table: &ZTable,
    before: Layout,
    after: Layout,
    tile: Tile,
    p: int,
    start: u64,
    finish: u64,
)
    requires
        table.wf(),
        before.wf(),
        0 <= p < before.nodes@.len(),
        tile.hi() <= before.max_value(),
        before.open_count_at(p, matched_value(before.nodes@[p].tile, tile)) > 0,
        attached_to(before, after, tile, p),
        finish == ((start ^ table.tile_constant(tile.ordinal as int)) ^ (table.end_constant(
            matched_value(before.nodes@[p].tile, tile),
            before.end_counts@[matched_value(before.nodes@[p].tile, tile)] as int,
        ) ^ table.end_constant(
            matched_value(before.nodes@[p].tile, tile),
            before.end_counts@[matched_value(before.nodes@[p].tile, tile)] - 1,
        ))) ^ (table.end_constant(
            opened_value(before.nodes@[p].tile, tile),
            after.end_counts@[opened_value(before.nodes@[p].tile, tile)] - opened_count(tile),
        ) ^ table.end_constant(
            opened_value(before.nodes@[p].tile, tile),
            after.end_counts@[opened_value(before.nodes@[p].tile, tile)] as int,
        )),
    ensures
        finish ^ ZHash::of_state(table, &after, 0) == start ^ ZHash::of_state(table, &before, 0),
        start == ZHash::of_state(table, &before, 0) ==> finish == ZHash::of_state(table, &after, 0),
{
    let matched = matched_value(before.nodes@[p].tile, tile);
    let opened = opened_value(before.nodes@[p].tile, tile);
    tile.lemma_pips();
    before.nodes@[p].tile.lemma_pips();
    before.lemma_matched_counted(tile, p);
    lemma_attached_ordinals(before, after, tile, p);
    let counts = before.end_counts@;
    let taken = counts.update(matched, (counts[matched] - 1) as u8);
    let n = counts.len() as int;
    assert(after.end_counts@ =~= taken.update(opened, after.end_counts@[opened]));
    lemma_ends_part_update(table, counts, matched, (counts[matched] - 1) as u8, n);
    lemma_ends_part_update(table, taken, opened, after.end_counts@[opened], n);
    assert(taken[opened] == after.end_counts@[opened] - opened_count(tile));
    let tiles = tiles_part(table, ordinals_of(before.nodes@));
    let ends = ends_part(table, counts, n);
    let added = table.tile_constant(tile.ordinal as int);
    let took = table.end_constant(matched, counts[matched] as int) ^ table.end_constant(
        matched,
        counts[matched] - 1,
    );
    let gave = table.end_constant(opened, taken[opened] as int) ^ table.end_constant(
        opened,
        after.end_counts@[opened] as int,
    );
    assert(ordinals_of(before.nodes@).push(tile.ordinal).drop_last() =~= ordinals_of(before.nodes@));
    assert(tiles_part(table, ordinals_of(after.nodes@)) == tiles ^ added);
    assert(ends_part(table, after.end_counts@, n) == (ends ^ took) ^ gave);
    assert((((start ^ added) ^ took) ^ gave) ^ (((tiles ^ added) ^ ((ends ^ took) ^ gave)) ^ 0) == start ^ ((
    tiles ^ ends) ^ 0)) by (bit_vector);
    assert(((((tiles ^ ends) ^ 0) ^ added) ^ took) ^ gave == ((tiles ^ added) ^ ((ends ^ took) ^ gave)) ^ 0)
        by (bit_vector);
}

/// The fingerprint after the first tile was played: updated for the tile and
/// the two ends that it opened, it has moved with the fingerprint from scratch.
pub proof fn lemma_played_first(
    table: &ZTable,
    before: Layout,
    after: Layout,
    tile: Tile,
    start: u64,
    finish: u64,
)
    requires
        table.wf(),
        before.wf(),
        before.nodes@.len() == 0,
        tile.is_double_spec(),
        tile.hi() <= before.max_value(),
        attached_first(before, after, tile),
        finish == (start ^ table.tile_constant(tile.ordinal as int)) ^ (table.end_constant(
            tile.lo(),
            0,
        ) ^ table.end_constant(tile.lo(), 2)),
    ensures
        finish ^ ZHash::of_state(table, &after, 0) == start ^ ZHash::of_state(table, &before, 0),
        start == ZHash::of_state(table, &before, 0) ==> finish == ZHash::of_state(table, &after, 0),
{
    tile.lemma_pips();
    let counts = before.end_counts@;
    let n = counts.len() as int;
    let value = tile.lo();
    assert(counts[value] == derived_total(before.node_views(), value, 0));
    assert forall|v: int| 0 <= v < n implies counts[v] == 0 by {
        assert(counts[v] == derived_total(before.node_views(), v, 0));
    }
    assert(after.end_counts@ =~= counts.update(value, 2));
    lemma_ends_part_update(table, counts, value, 2, n);
    assert(attach_root(tile).len() == 1);
    assert(after.node_views().len() == after.nodes@.len());
    assert(after.nodes@.len() == 1);
    assert(attach_root(tile)[0].tile == tile);
    assert(after.node_views()[0].tile == after.nodes@[0].tile);
    assert(ordinals_of(after.nodes@) =~= ordinals_of(before.nodes@).push(tile.ordinal));
    assert(ordinals_of(before.nodes@).push(tile.ordinal).drop_last() =~= ordinals_of(before.nodes@));
    let tiles = tiles_part(table, ordinals_of(before.nodes@));
    let ends = ends_part(table, counts, n);
    let added = table.tile_constant(tile.ordinal as int);
    let gave = table.end_constant(value, 0) ^ table.end_constant(value, 2);
    assert(tiles_part(table, ordinals_of(after.nodes@)) == tiles ^ added);
    assert(ends_part(table, after.end_counts@, n) == ends ^ gave);
    assert(((start ^ added) ^ gave) ^ (((tiles ^ added) ^ (ends ^ gave)) ^ 0) == start ^ ((tiles ^ ends) ^ 0))
        by (bit_vector);
    assert((((tiles ^ ends) ^ 0) ^ added) ^ gave == ((tiles ^ added) ^ (ends ^ gave)) ^ 0) by (bit_vector);
}

impl DominoesState {
    /// The layout is well-formed, and no tile before the first was drawn.
    pub open spec fn wf(&self) -> bool {
        self.layout.wf() && self.boneyard.wf()
    }

    /// Whether the tile can be played: on an empty layout a double can; on
    /// another layout a tile can on an end that it carries and that is open
    /// somewhere, or, where no end is named, on any open end that it carries.
    pub open spec fn can_play_tile_spec(&self, tile: Tile, end: Option<u8>) -> bool {
        if self.layout.nodes@.len() > 0 {
            match end {
                Some(end) => tile.has(end as int) && self.layout.end_counts@[end as int] > 0,
                None => self.layout.end_counts@[tile.lo()] > 0 || self.layout.end_counts@[tile.hi()]
                    > 0,
            }
        } else {
            tile.is_double_spec()
        }
    }

    /// Creates the state at the start of a game: an empty layout, a shuffled
    /// boneyard of all tiles, and the first player to move.
    pub fn new(configuration: &Configuration) -> (state: DominoesState)
        requires
            configuration@.wf(),
        ensures
            state.wf(),
            state.layout.nodes@.len() == 0,
            state.layout.end_counts@.len() == configuration@.set_id + 1,
            state.boneyard@.to_multiset() == configuration@.tiles.to_multiset(),
            state.whose_turn == 0,
            state.fingerprint@ == ZHash::START,
            state.consecutive_passes == 0,
            !state.game_is_over,
            state.winner.is_none(),
    {
        DominoesState {
            layout: Layout::new(configuration),
            boneyard: Boneyard::new(configuration),
            whose_turn: 0,
            fingerprint: ZHash::new(ZHash::START),
            consecutive_passes: 0,
            game_is_over: false,
            winner: None,
        }
    }

    /// Returns the fingerprint of the state as a number.
    pub fn fingerprint(&self) -> (value: u64)
        ensures
            value == self.fingerprint@,
    {
        self.fingerprint.into()
    }

    /// Returns the player who moves next.
    pub fn whose_turn(&self) -> (player: u8)
        ensures
            player == self.whose_turn,
    {
        self.whose_turn
    }

    /// Returns `true` if the game is over.
    pub fn is_terminal(&self) -> (over: bool)
        ensures
            over == self.game_is_over,
    {
        self.game_is_over
    }

    /// Checks whether the tile can be played on the given end, or on any end
    /// where none is given.
    pub fn can_play_tile(&self, tile: &Tile, end: Option<u8>) -> (playable: bool)
        requires
            tile.hi() <= self.layout.max_value(),
            self.layout.nodes@.len() == 0 ==> end.is_none(),
        ensures
            playable == self.can_play_tile_spec(*tile, end),
    {
        proof {
            tile.lemma_pips();
        }
        if !self.layout.is_empty() {
            let (a, b) = tile.as_tuple();
            match end {
                Some(end) => {
                    // If an end is specified, it must match that end and the end must be open somewhere
                    (a == end || b == end) && self.layout.end_counts[end as usize] > 0
                },
                None => {
                    // If no end is specified, the tile must match any of the open ends
                    self.layout.end_counts[a as usize] > 0 || self.layout.end_counts[b as usize] > 0
                },
            }
        } else {
            // If the layout is empty, a double can be played
            tile.is_double()
        }
    }

    /// Draws a tile from the boneyard, if one is left.
    pub fn draw_tile(&mut self) -> (tile: Option<Tile>)
        requires
            old(self).boneyard.wf(),
        ensures
            final(self).boneyard.wf(),
            final(self).layout == old(self).layout,
            final(self).whose_turn == old(self).whose_turn,
            final(self).fingerprint == old(self).fingerprint,
            final(self).consecutive_passes == old(self).consecutive_passes,
            final(self).game_is_over == old(self).game_is_over,
            final(self).winner == old(self).winner,
            match tile {
                Some(tile) => old(self).boneyard@.len() > 0 && tile == old(self).boneyard@[0] && final(self).boneyard@ == old(self).boneyard@.drop_first(),
                None => old(self).boneyard@.len() == 0 && final(self).boneyard@ == old(self).boneyard@,
            },
    {
        self.boneyard.draw()
    }

    /// Plays a tile: on the first node that has the given end open, in the
    /// order in which the index lists its nodes, or as the first tile of an
    /// empty layout. The fingerprint is updated for the new tile, for the end
    /// that the tile took, and for the ends that it opened.
    pub fn play_tile(&mut self, table: &ZTable, tile: Tile, end: Option<u8>)
        requires
            table.wf(),
            old(self).layout.wf(),
            old(self).layout.nodes@.len() < usize::MAX,
            tile.hi() <= old(self).layout.max_value(),
            old(self).layout.nodes@.len() == 0 <==> end.is_none(),
            old(self).can_play_tile_spec(tile, end),
            forall|i: int|
                0 <= i < old(self).layout.nodes@.len() ==> (#[trigger] old(self).layout.nodes@[i]).tile
                    != tile,
            forall|value: int|
                0 <= value < old(self).layout.end_counts@.len() ==> old(self).layout.end_counts@[value] + opened_count(tile) < END_CONSTANTS,
        ensures
            final(self).layout.wf(),
            match end {
                Some(end) => exists|p: int|
                    0 <= p < old(self).layout.nodes@.len() && old(self).layout.open_count_at(
                        p,
                        end as int,
                    ) > 0 && #[trigger] attached_to(old(self).layout, final(self).layout, tile, p),
                None => attached_first(old(self).layout, final(self).layout, tile),
            },
            final(self).fingerprint@ ^ ZHash::of_state(table, &final(self).layout, 0) == old(self).fingerprint@ ^ ZHash::of_state(table, &old(self).layout, 0),
            old(self).fingerprint@ == ZHash::of_state(table, &old(self).layout, 0) ==> final(self).fingerprint@ == ZHash::of_state(table, &final(self).layout, 0),
            final(self).consecutive_passes == 0,
            final(self).boneyard == old(self).boneyard,
            final(self).whose_turn == old(self).whose_turn,
            final(self).game_is_over == old(self).game_is_over,
            final(self).winner == old(self).winner,
    {
        let ghost before = self.layout;
        let ghost start = self.fingerprint@;
        proof {
            tile.lemma_pips();
        }
        match end {
            Some(matched_end) => {
                // Find the index of a node with a matching open end
                proof {
                    before.lemma_counts_not_negative(matched_end as int);
                    lemma_total_positive(
                        before.node_views(),
                        matched_end as int,
                        before.nodes@.len() as int,
                    );
                    let i = choose|i: int|
                        0 <= i < before.nodes@.len() && #[trigger] derived_count(
                            before.node_views(),
                            i,
                            matched_end as int,
                        ) > 0;
                    assert(before.open_count_at(i, matched_end as int) == derived_count(
                        before.node_views(),
                        i,
                        matched_end as int,
                    ));
                    assert(before.nodes_with_open_end_spec(matched_end as int).contains(i));
                }
                let parents = self.layout.get_nodes_with_open_end(matched_end);
                proof {
                    let i = choose|i: int| before.nodes_with_open_end_spec(matched_end as int).contains(i);
                    assert(parents@.contains(i as usize));
                }
                let parent_index = parents[0];
                proof {
                    assert(parents@.contains(parent_index));
                    assert(before.nodes_with_open_end_spec(matched_end as int).contains(
                        parent_index as int,
                    ));
                    before.lemma_open_end_matches(tile, parent_index as int, matched_end as int);
                }
                let matched_before = self.layout.open_count(matched_end);
                // Place the tile in the layout
                let (new_end, new_end_change) = self.layout.attach(tile, Some(parent_index));
                // Update the fingerprint for the new tile
                self.fingerprint.add_tile(table, tile.ordinal);
                // Update the fingerprint for the end that the tile took
                self.fingerprint.change_end_count(table, matched_end, matched_before, matched_before - 1);
                // Update the fingerprint for the ends that the tile opened
                let new_end_count = self.layout.open_count(new_end);
                self.fingerprint.change_end_count(
                    table,
                    new_end,
                    new_end_count - new_end_change,
                    new_end_count,
                );
                proof {
                    lemma_played(table, before, self.layout, tile, parent_index as int, start, self.fingerprint@);
                }
            },
            None => {
                // Place the tile in the layout
                let (new_end, new_end_change) = self.layout.attach(tile, None);
                // Update the fingerprint for the new tile
                self.fingerprint.add_tile(table, tile.ordinal);
                // Update the fingerprint for the new end count
                self.fingerprint.change_end_count(table, new_end, 0, new_end_change);
                proof {
                    lemma_played_first(table, before, self.layout, tile, start, self.fingerprint@);
                }
            },
        }
        // A tile was played: no passes in a row
        self.update_consecutive_passes(false);
    }

    /// Marks the game as over, with its winner if there is one.
    pub fn mark_game_over(&mut self, winner: Option<u8>)
        ensures
            final(self).game_is_over,
            final(self).winner == winner,
            final(self).layout == old(self).layout,
            final(self).boneyard == old(self).boneyard,
            final(self).whose_turn == old(self).whose_turn,
            final(self).fingerprint == old(self).fingerprint,
            final(self).consecutive_passes == old(self).consecutive_passes,
    {
        self.game_is_over = true;
        self.winner = winner;
    }

    /// Passes the turn: one more pass in a row.
    pub fn pass(&mut self)
        requires
            old(self).consecutive_passes < u8::MAX,
        ensures
            final(self).consecutive_passes == old(self).consecutive_passes + 1,
            final(self).layout == old(self).layout,
            final(self).boneyard == old(self).boneyard,
            final(self).whose_turn == old(self).whose_turn,
            final(self).fingerprint == old(self).fingerprint,
            final(self).game_is_over == old(self).game_is_over,
            final(self).winner == old(self).winner,
    {
        self.update_consecutive_passes(true);
    }

    /// Increments the number of passes in a row, or resets it.
    fn update_consecutive_passes(&mut self, increment: bool)
        requires
            increment ==> old(self).consecutive_passes < u8::MAX,
        ensures
            final(self).consecutive_passes == if increment {
                old(self).consecutive_passes + 1
            } else {
                0
            },
            final(self).layout == old(self).layout,
            final(self).boneyard == old(self).boneyard,
            final(self).whose_turn == old(self).whose_turn,
            final(self).fingerprint == old(self).fingerprint,
            final(self).game_is_over == old(self).game_is_over,
            final(self).winner == old(self).winner,
    {
        self.consecutive_passes = if increment {
            self.consecutive_passes + 1
        } else {
            0
        };
    }
}

} // verus!
