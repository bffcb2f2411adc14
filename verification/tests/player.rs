#![allow(unused_imports, unused_variables, unused_mut)]

use dominoes::{
    all_tiles_as_ordinals, all_tiles_as_tiles, all_tiles_as_tuples, can_attach,
    child_attachment_to_parent_rotation, default_starting_hand_size, find_and_remove_tile,
    find_playable_tile, generate_layout, generate_random_layout, get_child_attachment,
    get_parent_attachment, highest_double_in, is_double_ordinal, is_double_tuple, matches_tuples,
    ordinal_to_tuple, parse, set_size, tuple_to_ordinal, Action, Boneyard, Configuration,
    DominoesEvaluator, DominoesGame, DominoesResponseGenerator, DominoesRollout, DominoesState, Hand,
    History, HumanPlayer, Layout, LayoutError, LayoutNode, ParseError, Player, StructuralLayout,
    StructuralNode, Tile, TileSide, Variation, ZHash, ZTable, MAX_PIPS, Z,
};

// Test implementation of Player trait
struct TestPlayer {
    id: u8,
    name: String,
    hand: Hand,
}

impl TestPlayer {
    fn new(id: u8, name: &str) -> Self {
        Self { id, name: name.to_string(), hand: Hand::new() }
    }
}

impl Player for TestPlayer {
    fn reset(&mut self) {
        self.hand = Hand::new();
    }

    fn set_up(&mut self, state: &mut DominoesState) {
        // Simple setup - just add a test tile
        if let Some(tile) = state.boneyard.draw() {
            self.hand.add_tile(tile);
        }
    }

    fn my_turn(&mut self, state: &DominoesState) -> (Action, DominoesState) {
        // Always pass for test
        (Action::pass(self.id), state.clone())
    }

    fn has_playable_tile(&self, _state: &DominoesState) -> bool {
        !self.hand.is_empty()
    }

    fn hand(&self) -> &Hand {
        &self.hand
    }

    fn name(&self) -> &str {
        &self.name
    }

    fn id(&self) -> u8 {
        self.id
    }
}

#[test]
fn test_player_reset() {
    let mut player = TestPlayer::new(0, "Test Player");
    player.hand.add_tile(Tile::from((1, 2)));
    assert!(!player.hand().is_empty());

    player.reset();
    assert!(player.hand().is_empty());
}

#[test]
fn test_player_set_up() {
    let config = Configuration::default();
    let mut state = DominoesState::new(&config);
    let mut player = TestPlayer::new(0, "Test Player");

    let initial_hand_size = player.hand().len();
    player.set_up(&mut state);

    // Should have drawn at least one tile (if boneyard wasn't empty)
    assert!(player.hand().len() >= initial_hand_size);
}

#[test]
fn test_player_my_turn() {
    let config = Configuration::default();
    let state = DominoesState::new(&config);
    let mut player = TestPlayer::new(1, "Test Player");

    let (action, _) = player.my_turn(&state);

    assert_eq!(action.player_id, 1);
    // Test implementation always passes
    assert!(action.tile_drawn.is_none() && action.tile_played.is_none());
}

#[test]
fn test_player_has_playable_tile() {
    let config = Configuration::default();
    let state = DominoesState::new(&config);
    let mut player = TestPlayer::new(0, "Test Player");

    // Empty hand should return false
    assert!(!player.has_playable_tile(&state));

    // Add a tile
    player.hand.add_tile(Tile::from((1, 2)));
    assert!(player.has_playable_tile(&state));
}

#[test]
fn test_player_hand() {
    let mut player = TestPlayer::new(0, "Test Player");
    let tile = Tile::from((3, 4));

    assert!(player.hand().is_empty());

    player.hand.add_tile(tile);
    assert!(player.hand().contains(&tile));
}

#[test]
fn test_player_highest_double() {
    let mut player = TestPlayer::new(0, "Test Player");

    // No doubles in hand
    assert_eq!(player.highest_double(), None);

    // Add some tiles including doubles
    player.hand.add_tile(Tile::from((1, 2))); // Not a double
    player.hand.add_tile(Tile::from((3, 3))); // Double
    player.hand.add_tile(Tile::from((1, 1))); // Lower double
    player.hand.add_tile(Tile::from((5, 5))); // Higher double

    // Should return highest double (5,5)
    assert_eq!(player.highest_double(), Some(Tile::from((5, 5))));
}

#[test]
fn test_player_highest_double_no_doubles() {
    let mut player = TestPlayer::new(0, "Test Player");

    // Add non-double tiles
    player.hand.add_tile(Tile::from((1, 2)));
    player.hand.add_tile(Tile::from((3, 4)));
    player.hand.add_tile(Tile::from((5, 6)));

    assert_eq!(player.highest_double(), None);
}

#[test]
fn test_player_name() {
    let player = TestPlayer::new(0, "Alice");
    assert_eq!(player.name(), "Alice");

    let player2 = TestPlayer::new(1, "Bob");
    assert_eq!(player2.name(), "Bob");
}

#[test]
fn test_player_id() {
    let player1 = TestPlayer::new(0, "Player 1");
    assert_eq!(player1.id(), 0);

    let player2 = TestPlayer::new(255, "Player 2");
    assert_eq!(player2.id(), 255);
}

#[test]
fn test_player_trait_object() {
    let player: Box<dyn Player> = Box::new(TestPlayer::new(0, "Boxed Player"));

    assert_eq!(player.id(), 0);
    assert_eq!(player.name(), "Boxed Player");
    assert!(player.hand().is_empty());
}
