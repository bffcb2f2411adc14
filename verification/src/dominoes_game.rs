//! A game of dominoes for two players at the console: the players, the
//! history, and the decisions that depend on the variation.

use crate::action::{Action, History};
use crate::configuration::Configuration;
use crate::dominoes_state::DominoesState;
use crate::hand::total_score;
use crate::player::{highest_double_in, is_highest_double, HumanPlayer};
use crate::rules::Variation;
use crate::tile::Tile;
use vstd::prelude::*;

verus! {

/// The first player's ID.
pub const ALICE: u8 = 0;

/// The second player's ID.
pub const BOB: u8 = 1;

/// A game between two human players.
pub struct DominoesGame<'a> {
    configuration: &'a Configuration,
    alice: HumanPlayer<'a>,
    bob: HumanPlayer<'a>,
    history: History,
}

/// Who starts: in the Traditional variation the player with the highest
/// double, the second player where both have the same, and nobody where
/// neither has a double; in the other variations the player whose turn it is.
pub open spec fn starting_player_spec(
    variation: Variation,
    alice: Option<Tile>,
    bob: Option<Tile>,
    whose_turn: u8,
) -> Option<u8> {
    if variation == Variation::Traditional {
        match (alice, bob) {
            (Some(a), Some(b)) => if a.ordinal > b.ordinal {
                Some(ALICE)
            } else {
                Some(BOB)
            },
            (Some(_), None) => Some(ALICE),
            (None, Some(_)) => Some(BOB),
            (None, None) => None,
        }
    } else {
        Some(whose_turn)
    }
}

/// Determines who starts, from the highest double of each player. `None`
/// means that nobody can start and the players must draw again.
pub fn starting_player(variation: Variation, alice: Option<Tile>, bob: Option<Tile>, whose_turn: u8) -> (first:
    Option<u8>)
    ensures
        first == starting_player_spec(variation, alice, bob, whose_turn),
{
    match variation {
        Variation::Traditional => {
            match (alice, bob) {
                (Some(a), Some(b)) => {
                    // Both players have doubles, highest starts
                    if a.ordinal > b.ordinal {
                        Some(ALICE)
                    } else {
                        Some(BOB)
                    }
                },
                (Some(_), None) => Some(ALICE),
                (None, Some(_)) => Some(BOB),
                (None, None) => None,
            }
        },
        _ => Some(whose_turn),
    }
}

/// Whether the game is over, and who won. In the Traditional variation the
/// game is over when a hand is empty, which wins, or when every player has
/// passed in a row, where the lower score wins and equal scores are a draw.
/// In the other variations the game is over, as a draw, when every player
/// has passed in a row.
pub open spec fn game_over_spec(
    variation: Variation,
    alice: Seq<Tile>,
    alice_id: u8,
    bob: Seq<Tile>,
    bob_id: u8,
    consecutive_passes: u8,
    num_players: usize,
) -> Option<Option<u8>> {
    if variation == Variation::Traditional {
        if alice.len() == 0 {
            Some(Some(alice_id))
        } else if bob.len() == 0 {
            Some(Some(bob_id))
        } else if consecutive_passes >= num_players {
            if total_score(alice) < total_score(bob) {
                Some(Some(ALICE))
            } else if total_score(bob) < total_score(alice) {
                Some(Some(BOB))
            } else {
                Some(None)
            }
        } else {
            None
        }
    } else if consecutive_passes >= num_players {
        Some(None)
    } else {
        None
    }
}

/// Whether the turn is over after an action: in the Traditional variation
/// after any action that drew no tile; in the other variations after a tile
/// was played or none was drawn.
pub open spec fn turn_over_spec(variation: Variation, action: Action) -> bool {
    if variation == Variation::Traditional {
        action.tile_drawn.is_none()
    } else {
        action.tile_played.is_some() || action.tile_drawn.is_none()
    }
}

impl<'a> DominoesGame<'a> {
    /// The configuration of the game.
    pub closed spec fn configuration_spec(&self) -> &'a Configuration {
        self.configuration
    }

    /// The first player.
    pub closed spec fn alice_spec(&self) -> HumanPlayer<'a> {
        self.alice
    }

    /// The second player.
    pub closed spec fn bob_spec(&self) -> HumanPlayer<'a> {
        self.bob
    }

    /// The actions taken so far.
    pub closed spec fn actions(&self) -> Seq<Action> {
        self.history@
    }

    /// Creates a game between Alice and Bob, with empty hands and no history.
    pub fn new(configuration: &'a Configuration) -> (game: DominoesGame<'a>)
        ensures
            game.configuration_spec() == configuration,
            game.alice_spec().id_spec() == ALICE,
            game.bob_spec().id_spec() == BOB,
            game.alice_spec().name_spec() == "Alice"@,
            game.bob_spec().name_spec() == "Bob"@,
            game.alice_spec().tiles() == Seq::<Tile>::empty(),
            game.bob_spec().tiles() == Seq::<Tile>::empty(),
            game.alice_spec().configuration_spec() == configuration,
            game.bob_spec().configuration_spec() == configuration,
            game.actions() == Seq::<Action>::empty(),
    {
        DominoesGame {
            configuration,
            alice: HumanPlayer::new(ALICE, configuration, "Alice"),
            bob: HumanPlayer::new(BOB, configuration, "Bob"),
            history: History::new(),
        }
    }

    /// Returns the configuration of the game.
    pub fn configuration(&self) -> (configuration: &'a Configuration)
        ensures
            configuration == self.configuration_spec(),
    {
        self.configuration
    }

    /// Returns the first player.
    pub fn alice(&self) -> (player: &HumanPlayer<'a>)
        ensures
            *player == self.alice_spec(),
    {
        &self.alice
    }

    /// Returns the second player.
    pub fn bob(&self) -> (player: &HumanPlayer<'a>)
        ensures
            *player == self.bob_spec(),
    {
        &self.bob
    }

    /// Returns the first player, to take a turn.
    pub fn alice_mut(&mut self) -> (player: &mut HumanPlayer<'a>)
        ensures
            *player == old(self).alice_spec(),
            final(self).alice_spec() == *final(player),
            final(self).bob_spec() == old(self).bob_spec(),
            final(self).configuration_spec() == old(self).configuration_spec(),
            final(self).actions() == old(self).actions(),
    {
        &mut self.alice
    }

    /// Returns the second player, to take a turn.
    pub fn bob_mut(&mut self) -> (player: &mut HumanPlayer<'a>)
        ensures
            *player == old(self).bob_spec(),
            final(self).bob_spec() == *final(player),
            final(self).alice_spec() == old(self).alice_spec(),
            final(self).configuration_spec() == old(self).configuration_spec(),
            final(self).actions() == old(self).actions(),
    {
        &mut self.bob
    }

    /// Returns the history of the game.
    pub fn history(&self) -> (history: &History)
        ensures
            history@ == self.actions(),
    {
        &self.history
    }

    /// Records an action in the history.
    pub fn record(&mut self, action: Action)
        ensures
            final(self).actions() == old(self).actions().push(action),
            final(self).alice_spec() == old(self).alice_spec(),
            final(self).bob_spec() == old(self).bob_spec(),
            final(self).configuration_spec() == old(self).configuration_spec(),
    {
        self.history.add_action(action);
    }

    /// Empties both hands and deals the starting hands from the boneyard of
    /// the state, the first player's first.
    pub fn deal(&mut self, state: &mut DominoesState)
        requires
            old(state).boneyard.wf(),
            old(self).alice_spec().configuration_spec() == old(self).bob_spec().configuration_spec(),
            old(state).boneyard@.len() >= 2 * old(self).alice_spec().configuration_spec()@.starting_hand_size,
        ensures
            final(state).boneyard.wf(),
            final(state).layout == old(state).layout,
            final(state).fingerprint == old(state).fingerprint,
            final(state).whose_turn == old(state).whose_turn,
            final(self).configuration_spec() == old(self).configuration_spec(),
            final(self).actions() == old(self).actions(),
            final(self).alice_spec().tiles() == old(state).boneyard@.take(
                old(self).alice_spec().configuration_spec()@.starting_hand_size as int,
            ),
            final(self).bob_spec().tiles() == old(state).boneyard@.subrange(
                old(self).alice_spec().configuration_spec()@.starting_hand_size as int,
                2 * old(self).alice_spec().configuration_spec()@.starting_hand_size,
            ),
            final(state).boneyard@ == old(state).boneyard@.skip(
                2 * old(self).alice_spec().configuration_spec()@.starting_hand_size,
            ),
    {
        let ghost pile = state.boneyard@;
        let ghost size = self.alice.configuration_spec()@.starting_hand_size as int;
        self.alice.reset();
        self.bob.reset();
        self.alice.set_up(state);
        self.bob.set_up(state);
        proof {
            assert(self.alice.tiles() =~= pile.take(size));
            assert(self.bob.tiles() =~= pile.subrange(size, 2 * size));
            assert(state.boneyard@ =~= pile.skip(2 * size));
        }
    }

    /// Determines who starts the game, by the variation and the hands.
    /// `None` means that nobody can start and the players must draw again.
    pub fn first_player_by_variation(&self, state: &DominoesState) -> (first: Option<u8>)
        ensures
            exists|alice: Option<Tile>, bob: Option<Tile>|
                {
                    &&& is_highest_double(self.alice_spec().tiles(), alice)
                    &&& is_highest_double(self.bob_spec().tiles(), bob)
                    &&& first == #[trigger] starting_player_spec(
                        self.configuration_spec()@.variation,
                        alice,
                        bob,
                        state.whose_turn,
                    )
                },
    {
        let alice = highest_double_in(self.alice.hand().tiles());
        let bob = highest_double_in(self.bob.hand().tiles());
        let first = starting_player(self.configuration.variation(), alice, bob, state.whose_turn);
        assert(first == starting_player_spec(
            self.configuration_spec()@.variation,
            alice,
            bob,
            state.whose_turn,
        ));
        first
    }

    /// Determines whether the game is over according to the variation, and
    /// who won: `Some(Some(id))` for a winner, `Some(None)` for a draw.
    pub fn game_is_over_by_variation(&self, state: &DominoesState) -> (over: Option<Option<u8>>)
        requires
            total_score(self.alice_spec().tiles()) <= u32::MAX,
            total_score(self.bob_spec().tiles()) <= u32::MAX,
        ensures
            over == game_over_spec(
                self.configuration_spec()@.variation,
                self.alice_spec().tiles(),
                self.alice_spec().id_spec(),
                self.bob_spec().tiles(),
                self.bob_spec().id_spec(),
                state.consecutive_passes,
                self.configuration_spec()@.num_players,
            ),
    {
        match self.configuration.variation() {
            Variation::Traditional => {
                if self.alice.hand().is_empty() {
                    return Some(Some(self.alice.id()));
                } else if self.bob.hand().is_empty() {
                    return Some(Some(self.bob.id()));
                } else if state.consecutive_passes as usize >= self.configuration.num_players() {
                    let alice_score = self.alice.hand().score();
                    let bob_score = self.bob.hand().score();
                    return Some(
                        if alice_score < bob_score {
                            Some(ALICE)
                        } else if bob_score < alice_score {
                            Some(BOB)
                        } else {
                            None
                        },
                    );
                }
            },
            _ => {
                if state.consecutive_passes as usize >= self.configuration.num_players() {
                    // Game ends in a draw
                    return Some(None);
                }
            },
        }
        // Otherwise, the game is not over
        None
    }

    /// Determines if the turn is over after an action, according to the variation.
    pub fn turn_is_over_by_variation(&self, action: &Action) -> (over: bool)
        ensures
            over == turn_over_spec(self.configuration_spec()@.variation, *action),
    {
        match self.configuration.variation() {
            Variation::Traditional => action.tile_drawn.is_none(),
            _ => action.tile_played.is_some() || action.tile_drawn.is_none(),
        }
    }
}

} // verus!
