//! The configuration of a game of dominoes.

use crate::rules::{set_size_spec, Variation, MAX_PIPS};
use crate::tile::{all_tiles_as_tiles, Tile};
use vstd::prelude::*;

verus! {

/// Configuration for a dominoes game session: the variation, the number of
/// players, the set, the hand size, and the set's tiles.
#[derive(Debug, Clone)]
pub struct Configuration {
    /// The game variation being played
    variation: Variation,
    /// The ID of the dominoes set. Same as the highest pip value.
    set_id: u8,
    /// Number of tiles each player starts with
    starting_hand_size: usize,
    /// Number of players in the game
    num_players: usize,
    /// Complete set of all tiles available for this game
    tiles: Vec<Tile>,
}

/// What a configuration holds.
pub struct ConfigurationView {
    pub variation: Variation,
    pub set_id: u8,
    pub starting_hand_size: usize,
    pub num_players: usize,
    pub tiles: Seq<Tile>,
}

impl View for Configuration {
    type V = ConfigurationView;

    closed spec fn view(&self) -> ConfigurationView {
        ConfigurationView {
            variation: self.variation,
            set_id: self.set_id,
            starting_hand_size: self.starting_hand_size,
            num_players: self.num_players,
            tiles: self.tiles@,
        }
    }
}

impl ConfigurationView {
    /// At least two players, a set that the library supports, and all of the
    /// set's tiles in the order of their ordinals.
    pub open spec fn wf(self) -> bool {
        &&& self.num_players > 1
        &&& self.set_id <= MAX_PIPS
        &&& self.tiles.len() == set_size_spec(self.set_id as int)
        &&& forall|i: int| 0 <= i < self.tiles.len() ==> #[trigger] self.tiles[i].ordinal == i
    }
}

impl Configuration {
    pub const DEFAULT_NUM_PLAYERS: usize = 2;

    pub const DEFAULT_VARIATION: Variation = Variation::Traditional;

    pub const DEFAULT_SET_ID: u8 = 6;

    /// The default starting hand size for a number of players and a variation.
    pub open spec fn default_starting_hand_size_spec(num_players: usize, variation: Variation) -> usize {
        match variation {
            Variation::Bergen => 6,
            Variation::Blind => if num_players == 2 {
                8
            } else if num_players == 3 {
                7
            } else if 4 <= num_players <= 8 {
                6
            } else {
                5
            },
            _ => if num_players == 2 {
                7
            } else if 3 <= num_players <= 4 {
                6
            } else if 5 <= num_players <= 8 {
                5
            } else {
                4
            },
        }
    }

    /// Creates a new configuration.
    pub fn new(num_players: usize, variation: Variation, set_id: u8, starting_hand_size: usize) -> (configuration:
        Configuration)
        requires
            num_players > 1,
            set_id <= MAX_PIPS,
        ensures
            configuration@.wf(),
            configuration@.num_players == num_players,
            configuration@.variation == variation,
            configuration@.set_id == set_id,
            configuration@.starting_hand_size == starting_hand_size,
    {
        let tiles = all_tiles_as_tiles(set_id);
        proof {
            crate::rules::lemma_triangle_monotonic(set_id as int + 1, 22);
            assert(crate::rules::triangle(22) == 253) by (nonlinear_arith);
            crate::rules::lemma_triangle_step(set_id as int + 1);
        }
        Configuration { variation, set_id, starting_hand_size, num_players, tiles }
    }

    /// Returns the game variation being played.
    pub fn variation(&self) -> (variation: Variation)
        ensures
            variation == self@.variation,
    {
        self.variation
    }

    /// Returns the ID of the dominoes set.
    pub fn set_id(&self) -> (set_id: u8)
        ensures
            set_id == self@.set_id,
    {
        self.set_id
    }

    /// Returns the number of tiles each player starts with.
    pub fn starting_hand_size(&self) -> (size: usize)
        ensures
            size == self@.starting_hand_size,
    {
        self.starting_hand_size
    }

    /// Returns the number of players in the game.
    pub fn num_players(&self) -> (players: usize)
        ensures
            players == self@.num_players,
    {
        self.num_players
    }

    /// Returns the complete set of all tiles available for this game.
    pub fn tiles(&self) -> (tiles: &[Tile])
        ensures
            tiles@ == self@.tiles,
    {
        self.tiles.as_slice()
    }

    /// Returns the total number of tiles in this game's domino set.
    pub fn set_size(&self) -> (size: usize)
        ensures
            size == self@.tiles.len(),
    {
        self.tiles.len()
    }

    /// Returns all tiles in this game's domino set, in the order of their ordinals.
    pub fn all_tiles(&self) -> (tiles: &[Tile])
        ensures
            tiles@ == self@.tiles,
    {
        self.tiles.as_slice()
    }

    /// Returns the default starting hand size for a given number of players and variation.
    pub fn default_starting_hand_size(num_players: usize, variation: Variation) -> (size: usize)
        ensures
            size == Self::default_starting_hand_size_spec(num_players, variation),
    {
        match variation {
            Variation::Bergen => 6,
            Variation::Blind => {
                if num_players == 2 {
                    8
                } else if num_players == 3 {
                    7
                } else if 4 <= num_players && num_players <= 8 {
                    6
                } else {
                    5
                }
            },
            _ => {
                if num_players == 2 {
                    7
                } else if 3 <= num_players && num_players <= 4 {
                    6
                } else if 5 <= num_players && num_players <= 8 {
                    5
                } else {
                    4
                }
            },
        }
    }
}

impl Default for Configuration {
    /// A two-player Traditional game with a double-six set and seven tiles a hand.
    fn default() -> (configuration: Configuration)
        ensures
            configuration@.wf(),
            configuration@.num_players == 2,
            configuration@.variation == Variation::Traditional,
            configuration@.set_id == 6,
            configuration@.starting_hand_size == 7,
    {
        Configuration::new(
            Self::DEFAULT_NUM_PLAYERS,
            Self::DEFAULT_VARIATION,
            Self::DEFAULT_SET_ID,
            Configuration::default_starting_hand_size(Self::DEFAULT_NUM_PLAYERS, Self::DEFAULT_VARIATION),
        )
    }
}

} // verus!
