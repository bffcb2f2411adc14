#![allow(unused_imports, unused_variables, unused_mut)]

use dominoes::{
    all_tiles_as_ordinals, all_tiles_as_tiles, all_tiles_as_tuples, can_attach,
    child_attachment_to_parent_rotation, default_starting_hand_size, find_and_remove_tile,
    find_playable_tile, generate_layout, generate_random_layout, get_child_attachment,
    get_parent_attachment, highest_double_in, is_double_ordinal, is_double_tuple, matches_tuples,
    ordinal_to_tuple, parse, set_size, tuple_to_ordinal, Action, Boneyard, Configuration,
    DominoesEvaluator, DominoesGame, DominoesResponseGenerator, DominoesRollout, DominoesState, Hand,
    History, HumanPlayer, Layout, LayoutError, LayoutNode, ParseError, Player, StructuralLayout,
    StructuralNode, Tile, TileSide, Variation, ZHash, ZTable, MAX_PIPS, Z,
};

fn create_test_configuration() -> Configuration {
    Configuration::new(2, Variation::Traditional, 6, 7)
}

#[test]
fn test_dominoes_game_new_basic() {
    let config = create_test_configuration();
    let game = DominoesGame::new(&config);

    // Verify the game was created successfully
    // Check that the configuration values are properly stored
    assert_eq!(game.configuration().num_players(), config.num_players());
    assert_eq!(
        game.configuration().starting_hand_size(),
        config.starting_hand_size()
    );
    assert_eq!(game.configuration().set_id(), config.set_id());
}

#[test]
fn test_dominoes_game_new_with_different_configurations() {
    // Test with default configuration
    let default_config = Configuration::default();
    let default_game = DominoesGame::new(&default_config);
    assert_eq!(
        default_game.configuration().num_players(),
        default_config.num_players()
    );
    assert_eq!(
        default_game.configuration().starting_hand_size(),
        default_config.starting_hand_size()
    );

    // Test with traditional variation
    let traditional_config = Configuration::new(2, Variation::Traditional, 7, 6);
    let traditional_game = DominoesGame::new(&traditional_config);
    assert_eq!(
        traditional_game.configuration().num_players(),
        traditional_config.num_players()
    );
    assert_eq!(
        traditional_game.configuration().set_id(),
        traditional_config.set_id()
    );

    // Test with different hand size
    let large_hand_config = Configuration::new(2, Variation::Traditional, 6, 10);
    let large_hand_game = DominoesGame::new(&large_hand_config);
    assert_eq!(
        large_hand_game.configuration().starting_hand_size(),
        large_hand_config.starting_hand_size()
    );
    assert_eq!(
        large_hand_game.configuration().num_players(),
        large_hand_config.num_players()
    );
}

#[test]
fn test_dominoes_game_new_initializes_history() {
    let config = create_test_configuration();
    let game = DominoesGame::new(&config);

    // History should start empty
    assert!(game.history().get_actions().is_empty());
}

#[test]
fn test_dominoes_game_new_with_minimal_configuration() {
    // Test with minimal valid configuration
    let minimal_config = Configuration::new(2, Variation::Traditional, 1, 1);
    let game = DominoesGame::new(&minimal_config);

    assert_eq!(game.configuration().num_players(), minimal_config.num_players());
    assert_eq!(
        game.configuration().starting_hand_size(),
        minimal_config.starting_hand_size()
    );
    assert_eq!(game.configuration().set_id(), minimal_config.set_id());
    assert!(game.history().get_actions().is_empty());
}

#[test]
fn test_dominoes_game_new_with_large_configuration() {
    // Test with large configuration
    let large_config = Configuration::new(2, Variation::Traditional, 15, 12);
    let game = DominoesGame::new(&large_config);

    assert_eq!(game.configuration().num_players(), large_config.num_players());
    assert_eq!(
        game.configuration().starting_hand_size(),
        large_config.starting_hand_size()
    );
    assert_eq!(game.configuration().set_id(), large_config.set_id());
    assert!(game.history().get_actions().is_empty());
}

#[test]
fn test_dominoes_game_configuration_reference() {
    let config = create_test_configuration();
    let game = DominoesGame::new(&config);

    // Verify that the game holds a reference to the same configuration
    assert_eq!(game.configuration().num_players(), config.num_players());
    assert_eq!(
        game.configuration().starting_hand_size(),
        config.starting_hand_size()
    );
    assert_eq!(game.configuration().set_id(), config.set_id());
}

#[test]
fn test_dominoes_game_new_memory_safety() {
    // Test that the game properly handles the lifetime of the configuration reference
    let config = create_test_configuration();
    let game = DominoesGame::new(&config);

    // Game should be valid as long as config is in scope
    assert_eq!(game.configuration().num_players(), 2);

    // Create another game with the same config
    let game2 = DominoesGame::new(&config);
    assert_eq!(game2.configuration().num_players(), 2);
}

#[test]
fn test_dominoes_game_history_tracking_initialized() {
    let config = create_test_configuration();
    let game = DominoesGame::new(&config);

    // History should be properly initialized
    let actions = game.history().get_actions();
    assert!(actions.is_empty());
    assert_eq!(actions.len(), 0);
}

#[test]
fn test_dominoes_game_new_consistent_initialization() {
    let config = create_test_configuration();

    // Create multiple games with same config
    let game1 = DominoesGame::new(&config);
    let game2 = DominoesGame::new(&config);

    // Both should be initialized consistently
    assert!(game1.history().get_actions().is_empty());
    assert!(game2.history().get_actions().is_empty());

    assert_eq!(
        game1.configuration().num_players(),
        game2.configuration().num_players()
    );
}

#[test]
fn test_dominoes_game_new_with_all_variations() {
    // Test game creation with different variations
    for &variation in &[Variation::Traditional] {
        let config = Configuration::new(2, variation, 7, 6);
        let game = DominoesGame::new(&config);

        assert_eq!(game.configuration().variation(), variation);
        assert!(game.history().get_actions().is_empty());
    }
}

#[test]
fn test_dominoes_game_lifetime_parameters() {
    // Test that lifetime parameters work correctly
    fn create_and_return_game(config: &Configuration) -> DominoesGame<'_> {
        DominoesGame::new(config)
    }

    let config = create_test_configuration();
    let game = create_and_return_game(&config);

    assert!(game.history().get_actions().is_empty());
}

#[test]
fn test_dominoes_game_documentation_examples() {
    // Test the examples from the documentation
    let config = Configuration::default();
    let game = DominoesGame::new(&config);

    // Game is initialized (as claimed in doctest)
    assert!(game.history().get_actions().is_empty());
}
