//! Players: what every player offers, and the human player's hand and choices.

use crate::action::Action;
use crate::configuration::Configuration;
use crate::dominoes_state::DominoesState;
use crate::hand::Hand;
use crate::tile::Tile;
use crate::zhash::{ZHash, ZTable, END_CONSTANTS};
use crate::layout_lemmas::opened_count;
use vstd::prelude::*;

verus! {

/// What a player of the game offers.
pub trait Player {
    /// Resets the player for a new game.
    fn reset(&mut self);

    /// Sets the player up at the start of a game.
    fn set_up(&mut self, state: &mut DominoesState);

    /// Takes the player's turn: returns the action taken and the state after it.
    fn my_turn(&mut self, state: &DominoesState) -> (Action, DominoesState);

    /// Returns `true` if the player can play a tile.
    fn has_playable_tile(&self, state: &DominoesState) -> bool;

    /// Returns the player's hand.
    fn hand(&self) -> &Hand;

    /// Returns the highest double in the player's hand, if there is one:
    /// the highest double of the hand that `hand` hands out.
    fn highest_double(&self) -> (highest: Option<Tile>)
        ensures
            exists|hand: &Hand| #[trigger]
                call_ensures(Self::hand, (self,), hand) && is_highest_double(hand@, highest),
    {
        let hand = self.hand();
        highest_double_in(hand.tiles())
    }

    /// Returns the player's name.
    fn name(&self) -> &str;

    /// Returns the player's ID.
    fn id(&self) -> u8;
}

/// The tile is the double with the highest value among the tiles; there is
/// none where no tile is a double.
pub open spec fn is_highest_double(tiles: Seq<Tile>, highest: Option<Tile>) -> bool {
    match highest {
        Some(highest) => {
            &&& tiles.contains(highest)
            &&& highest.is_double_spec()
            &&& forall|i: int|
                0 <= i < tiles.len() && (#[trigger] tiles[i]).is_double_spec() ==> tiles[i].lo()
                    <= highest.lo()
        },
        None => forall|i: int| 0 <= i < tiles.len() ==> !(#[trigger] tiles[i]).is_double_spec(),
    }
}

/// Returns the double with the highest value among the tiles, if there is one.
pub fn highest_double_in(tiles: &[Tile]) -> (highest: Option<Tile>)
    ensures
        is_highest_double(tiles@, highest),
{
    let mut highest: Option<Tile> = None;
    let mut i: usize = 0;
    while i < tiles.len()
        invariant
            i <= tiles@.len(),
            match highest {
                Some(highest) => {
                    &&& exists|j: int| 0 <= j < i && tiles@[j] == highest
                    &&& highest.is_double_spec()
                    &&& forall|j: int|
                        0 <= j < i && (#[trigger] tiles@[j]).is_double_spec() ==> tiles@[j].lo()
                            <= highest.lo()
                },
                None => forall|j: int| 0 <= j < i ==> !(#[trigger] tiles@[j]).is_double_spec(),
            },
        decreases tiles@.len() - i,
    {
        let tile = tiles[i];
        if tile.is_double() {
            let higher = match highest {
                Some(current) => tile.as_tuple().0 >= current.as_tuple().0,
                None => true,
            };
            if higher {
                highest = Some(tile);
                assert(tiles@[i as int] == tile);
            }
        }
        i = i + 1;
    }
    highest
}

/// A player at the console: an ID, a name, and a hand.
#[derive(Debug)]
pub struct HumanPlayer<'a> {
    player_id: u8,
    configuration: &'a Configuration,
    hand: Hand,
    name: String,
}

impl<'a> HumanPlayer<'a> {
    /// The tiles in the player's hand.
    pub closed spec fn tiles(&self) -> Seq<Tile> {
        self.hand@
    }

    /// The player's ID.
    pub closed spec fn id_spec(&self) -> u8 {
        self.player_id
    }

    /// The player's name.
    pub closed spec fn name_spec(&self) -> Seq<char> {
        self.name@
    }

    /// The configuration of the player's game.
    pub closed spec fn configuration_spec(&self) -> &'a Configuration {
        self.configuration
    }

    /// The state has an open end, or room for a first tile, for a tile of the hand.
    pub open spec fn has_playable_tile_spec(&self, state: &DominoesState) -> bool {
        exists|i: int|
            0 <= i < self.tiles().len() && state.can_play_tile_spec(#[trigger] self.tiles()[i], None)
    }

    /// Creates a player with an empty hand.
    pub fn new(player_id: u8, configuration: &'a Configuration, name: &str) -> (player: HumanPlayer<'a>)
        ensures
            player.id_spec() == player_id,
            player.configuration_spec() == configuration,
            player.name_spec() == name@,
            player.tiles() == Seq::<Tile>::empty(),
    {
        HumanPlayer { player_id, configuration, hand: Hand::new(), name: name.to_owned() }
    }

    /// Empties the player's hand for a new game.
    pub fn reset(&mut self)
        ensures
            final(self).tiles() == Seq::<Tile>::empty(),
            final(self).id_spec() == old(self).id_spec(),
            final(self).name_spec() == old(self).name_spec(),
            final(self).configuration_spec() == old(self).configuration_spec(),
    {
        self.hand = Hand::new();
    }

    /// Draws the starting hand from the boneyard: as many tiles as the
    /// configuration gives a player at the start.
    pub fn set_up(&mut self, state: &mut DominoesState)
        requires
            old(state).boneyard.wf(),
            old(state).boneyard@.len() >= old(self).configuration_spec()@.starting_hand_size,
        ensures
            final(state).boneyard.wf(),
            final(state).layout == old(state).layout,
            final(state).fingerprint == old(state).fingerprint,
            final(state).whose_turn == old(state).whose_turn,
            final(state).consecutive_passes == old(state).consecutive_passes,
            final(state).game_is_over == old(state).game_is_over,
            final(state).winner == old(state).winner,
            final(self).tiles() == old(self).tiles() + old(state).boneyard@.take(
                old(self).configuration_spec()@.starting_hand_size as int,
            ),
            final(state).boneyard@ == old(state).boneyard@.skip(
                old(self).configuration_spec()@.starting_hand_size as int,
            ),
            final(self).id_spec() == old(self).id_spec(),
            final(self).name_spec() == old(self).name_spec(),
            final(self).configuration_spec() == old(self).configuration_spec(),
    {
        let hand_size = self.configuration.starting_hand_size();
        let ghost pile = state.boneyard@;
        let mut drawn: usize = 0;
        assert(pile.take(0) =~= Seq::<Tile>::empty());
        assert(pile.skip(0) =~= pile);
        while drawn < hand_size
            invariant
                drawn <= hand_size <= pile.len(),
                state.boneyard.wf(),
                state.layout == old(state).layout,
                state.fingerprint == old(state).fingerprint,
                state.whose_turn == old(state).whose_turn,
                state.consecutive_passes == old(state).consecutive_passes,
                state.game_is_over == old(state).game_is_over,
                state.winner == old(state).winner,
                self.hand@ == old(self).hand@ + pile.take(drawn as int),
                state.boneyard@ == pile.skip(drawn as int),
                self.player_id == old(self).player_id,
                self.name == old(self).name,
                self.configuration == old(self).configuration,
            decreases hand_size - drawn,
        {
            match state.draw_tile() {
                Some(tile) => {
                    self.hand.add_tile(tile);
                },
                None => {},
            }
            assert(pile.skip(drawn as int).drop_first() =~= pile.skip(drawn + 1));
            assert(pile.take(drawn + 1) =~= pile.take(drawn as int).push(pile[drawn as int]));
            assert(self.hand@ =~= old(self).hand@ + pile.take(drawn + 1));
            drawn = drawn + 1;
        }
    }

    /// Returns `true` if a tile of the hand can be played.
    pub fn has_playable_tile(&self, state: &DominoesState) -> (playable: bool)
        requires
            forall|i: int|
                0 <= i < self.tiles().len() ==> (#[trigger] self.tiles()[i]).hi()
                    <= state.layout.max_value(),
        ensures
            playable == self.has_playable_tile_spec(state),
    {
        let tiles = self.hand.tiles();
        let mut i: usize = 0;
        while i < tiles.len()
            invariant
                i <= tiles@.len(),
                tiles@ == self.tiles(),
                forall|j: int|
                    0 <= j < self.tiles().len() ==> (#[trigger] self.tiles()[j]).hi()
                        <= state.layout.max_value(),
                forall|j: int| 0 <= j < i ==> !state.can_play_tile_spec(#[trigger] self.tiles()[j], None),
            decreases tiles@.len() - i,
        {
            if state.can_play_tile(&tiles[i], None) {
                assert(state.can_play_tile_spec(self.tiles()[i as int], None));
                return true;
            }
            i = i + 1;
        }
        false
    }

    /// Returns the player's hand.
    pub fn hand(&self) -> (hand: &Hand)
        ensures
            hand@ == self.tiles(),
    {
        &self.hand
    }

    /// Returns the player's hand, to add or remove tiles.
    pub fn hand_mut(&mut self) -> (hand: &mut Hand)
        ensures
            hand@ == old(self).tiles(),
            final(self).tiles() == final(hand)@,
            final(self).id_spec() == old(self).id_spec(),
            final(self).name_spec() == old(self).name_spec(),
            final(self).configuration_spec() == old(self).configuration_spec(),
    {
        &mut self.hand
    }

    /// Returns the player's name.
    pub fn name(&self) -> (name: &str)
        ensures
            name@ == self.name_spec(),
    {
        self.name.as_str()
    }

    /// Returns the player's ID.
    pub fn id(&self) -> (id: u8)
        ensures
            id == self.id_spec(),
    {
        self.player_id
    }

    /// Returns the configuration of the player's game.
    pub fn configuration(&self) -> (configuration: &'a Configuration)
        ensures
            configuration == self.configuration_spec(),
    {
        self.configuration
    }

    /// The turn of a player who can play no tile: draws a tile into the hand,
    /// or passes where the boneyard is empty.
    pub fn draw_or_pass(&mut self, state: &mut DominoesState) -> (action: Action)
        requires
            old(state).boneyard.wf(),
            old(state).consecutive_passes < u8::MAX,
        ensures
            final(state).boneyard.wf(),
            final(state).layout == old(state).layout,
            final(state).fingerprint == old(state).fingerprint,
            final(self).id_spec() == old(self).id_spec(),
            final(self).name_spec() == old(self).name_spec(),
            final(self).configuration_spec() == old(self).configuration_spec(),
            action.player_id == old(self).id_spec(),
            action.tile_played.is_none(),
            match action.tile_drawn {
                Some(tile) => {
                    &&& old(state).boneyard@.len() > 0
                    &&& tile == old(state).boneyard@[0]
                    &&& final(state).boneyard@ == old(state).boneyard@.drop_first()
                    &&& final(self).tiles() == old(self).tiles().push(tile)
                    &&& final(state).consecutive_passes == old(state).consecutive_passes
                },
                None => {
                    &&& old(state).boneyard@.len() == 0
                    &&& final(state).boneyard@ == old(state).boneyard@
                    &&& final(self).tiles() == old(self).tiles()
                    &&& final(state).consecutive_passes == old(state).consecutive_passes + 1
                },
            },
    {
        // Draw a tile from the boneyard, but if the boneyard is empty, the player must pass
        match state.draw_tile() {
            Some(tile) => {
                self.hand.add_tile(tile);
                Action::draw(self.player_id, tile)
            },
            None => {
                state.pass();
                Action::pass(self.player_id)
            },
        }
    }

    /// The turn of a player who chose a tile of the hand and an end that it
    /// can be played on: takes the tile from the hand and plays it.
    pub fn play(&mut self, state: &mut DominoesState, table: &ZTable, tile: Tile, end: Option<u8>) -> (action:
        Action)
        requires
            table.wf(),
            old(self).tiles().contains(tile),
            old(state).layout.wf(),
            old(state).layout.nodes@.len() < usize::MAX,
            tile.hi() <= old(state).layout.max_value(),
            old(state).layout.nodes@.len() == 0 <==> end.is_none(),
            old(state).can_play_tile_spec(tile, end),
            forall|i: int|
                0 <= i < old(state).layout.nodes@.len() ==> (#[trigger] old(state).layout.nodes@[i]).tile
                    != tile,
            forall|value: int|
                0 <= value < old(state).layout.end_counts@.len() ==> old(state).layout.end_counts@[value] + opened_count(tile) < END_CONSTANTS,
        ensures
            final(state).layout.wf(),
            final(state).layout.nodes@.len() == old(state).layout.nodes@.len() + 1,
            old(state).fingerprint@ == ZHash::of_state(table, &old(state).layout, 0) ==> final(state).fingerprint@ == ZHash::of_state(table, &final(state).layout, 0),
            final(state).boneyard == old(state).boneyard,
            final(state).consecutive_passes == 0,
            final(self).tiles() == old(self).tiles().remove(
                crate::hand::position_of(old(self).tiles(), tile),
            ),
            action == (Action { player_id: old(self).id_spec(), tile_drawn: None, tile_played: Some(
                (tile, end),
            ) }),
    {
        proof {
            tile.lemma_pips();
        }
        self.hand.remove_tile(&tile);
        let ghost before = state.layout;
        state.play_tile(table, tile, end);
        proof {
            match end {
                Some(end) => {
                    let p = choose|p: int|
                        0 <= p < before.nodes@.len() && before.open_count_at(p, end as int) > 0
                            && #[trigger] crate::layout::attached_to(before, state.layout, tile, p);
                    crate::layout_lemmas::lemma_attach_child_nodes(before.node_views(), tile, p);
                },
                None => {
                    assert(crate::layout_lemmas::attach_root(tile).len() == 1);
                    assert(state.layout.node_views().len() == state.layout.nodes@.len());
                },
            }
            assert(state.layout.node_views().len() == state.layout.nodes@.len());
            assert(before.node_views().len() == before.nodes@.len());
        }
        Action::play(self.player_id, tile, end)
    }
}

/// Generates the possible responses to a state. None are generated yet.
#[derive(Debug, Clone, Copy)]
pub struct DominoesResponseGenerator;

impl DominoesResponseGenerator {
    /// Creates a response generator.
    pub fn new() -> (generator: DominoesResponseGenerator) {
        DominoesResponseGenerator
    }

    /// Returns the actions that are possible in the state: none yet.
    pub fn generate(&self, state: &DominoesState) -> (actions: Vec<Action>)
        ensures
            actions@.len() == 0,
    {
        Vec::new()
    }
}

impl Default for DominoesResponseGenerator {
    fn default() -> (generator: DominoesResponseGenerator) {
        DominoesResponseGenerator::new()
    }
}

/// Plays a game out from a state to value the state.
#[derive(Debug, Clone, Copy)]
pub struct DominoesRollout;

impl DominoesRollout {
    /// Creates a rollout.
    pub fn new() -> (rollout: DominoesRollout) {
        DominoesRollout
    }
}

impl Default for DominoesRollout {
    fn default() -> (rollout: DominoesRollout) {
        DominoesRollout::new()
    }
}

/// Values a state from what can be seen in it.
#[derive(Debug, Clone, Copy)]
pub struct DominoesEvaluator {}

impl DominoesEvaluator {
    /// Creates an evaluator.
    pub fn new() -> (evaluator: DominoesEvaluator) {
        DominoesEvaluator {  }
    }
}

} // verus!
