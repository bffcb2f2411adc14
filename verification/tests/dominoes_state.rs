#![allow(unused_imports, unused_variables, unused_mut)]

use dominoes::{
    all_tiles_as_ordinals, all_tiles_as_tiles, all_tiles_as_tuples, can_attach,
    child_attachment_to_parent_rotation, default_starting_hand_size, find_and_remove_tile,
    find_playable_tile, generate_layout, generate_random_layout, get_child_attachment,
    get_parent_attachment, highest_double_in, is_double_ordinal, is_double_tuple, matches_tuples,
    ordinal_to_tuple, parse, set_size, tuple_to_ordinal, Action, Boneyard, Configuration,
    DominoesEvaluator, DominoesGame, DominoesResponseGenerator, DominoesRollout, DominoesState, Hand,
    History, HumanPlayer, Layout, LayoutError, LayoutNode, ParseError, Player, StructuralLayout,
    StructuralNode, Tile, TileSide, Variation, ZHash, ZTable, MAX_PIPS, Z,
};

#[test]
fn test_dominoes_dominoes_state_initialization() {
    let configuration = Configuration::default();
    let state = DominoesState::new(&configuration);
    assert!(!state.game_is_over);
    assert_eq!(state.winner, None);
    assert_eq!(state.whose_turn(), 0); // PlayerId::ALICE as u8
    assert_eq!(state.consecutive_passes, 0);
    assert_eq!(state.fingerprint(), 0);
}

#[test]
fn test_state_access() {
    let configuration = Configuration::default();
    let state = DominoesState::new(&configuration);
    // Test DominoesState functionality
    let _boneyard = &state.boneyard;
    assert_eq!(state.boneyard.count(), 28);

    // Test that boneyard count matches configuration tile count
    assert_eq!(state.boneyard.count(), configuration.set_size());
}

#[test]
fn test_boneyard_integration() {
    let configuration = Configuration::default();
    let mut state = DominoesState::new(&configuration);

    // Test boneyard is properly initialized
    assert_eq!(state.boneyard.count(), 28); // Standard double-six set
    assert!(state.boneyard.count() > 0); // Not empty

    // Test drawing from boneyard
    let tile = state.draw_tile();
    assert!(tile.is_some());
    assert_eq!(state.boneyard.count(), 27);

    // Test boneyard access
    let boneyard_ref = &state.boneyard;
    assert_eq!(boneyard_ref.count(), 27);
}

#[test]
fn test_custom_set() {
    let configuration = Configuration::new(2, Variation::Traditional, 3, 7);
    let state = DominoesState::new(&configuration);
    // Test DominoesState with custom configuration - focus on DominoesState behavior
    assert_eq!(state.boneyard.count(), 10); // For n=3: (n+1)*(n+2)/2 = 4*5/2 = 10 tiles
    assert_eq!(state.boneyard.count(), configuration.set_size());

    // Test with smaller set
    let small_configuration = Configuration::new(2, Variation::Traditional, 1, 3);
    let small_state = DominoesState::new(&small_configuration);
    assert_eq!(small_state.boneyard.count(), 3); // For n=1: 3 tiles
    assert_eq!(small_state.boneyard.count(), small_configuration.set_size());
}

#[test]
fn test_configuration() {
    // Test DominoesState works with different rules - focus on DominoesState behavior
    let configuration = Configuration::new(4, Variation::AllFives, 9, 12);
    let state = DominoesState::new(&configuration);
    assert_eq!(state.boneyard.count(), 55); // Double-nine: 10*11/2 = 55
    assert_eq!(state.boneyard.count(), configuration.set_size());

    // Test default configuration creates proper DominoesState
    let default_configuration = Configuration::default();
    let default_state = DominoesState::new(&default_configuration);
    assert_eq!(default_state.boneyard.count(), 28);
    assert!(!default_state.game_is_over);
}

#[test]
fn test_can_play_tile_empty_layout() {
    let table = ZTable::new();
    let configuration = Configuration::default();
    let state = DominoesState::new(&configuration);

    // Empty layout should only accept doubles
    let double_tile = Tile::from((3, 3));
    let non_double_tile = Tile::from((1, 2));

    assert!(state.can_play_tile(&double_tile, None));
    assert!(!state.can_play_tile(&non_double_tile, None));
}

#[test]
fn test_can_play_tile_non_empty_layout() {
    let table = ZTable::new();
    let configuration = Configuration::default();
    let mut state = DominoesState::new(&configuration);

    // Place initial double
    let initial_tile = Tile::from((3, 3));
    state.play_tile(&table, initial_tile, None);

    // Now test tiles that can and cannot be played
    let matching_tile = Tile::from((3, 5));
    let non_matching_tile = Tile::from((1, 2));

    assert!(state.can_play_tile(&matching_tile, None));
    assert!(state.can_play_tile(&matching_tile, Some(3)));
    assert!(!state.can_play_tile(&non_matching_tile, None));
    assert!(!state.can_play_tile(&non_matching_tile, Some(1)));
}

#[test]
fn test_draw_tile() {
    let configuration = Configuration::default();
    let mut state = DominoesState::new(&configuration);

    // Initially should have 28 tiles
    assert_eq!(state.boneyard.count(), 28);

    // Draw a tile
    let drawn_tile = state.draw_tile();
    assert!(drawn_tile.is_some());
    assert_eq!(state.boneyard.count(), 27);

    // Draw multiple tiles
    for i in 0..26 {
        let tile = state.draw_tile();
        assert!(tile.is_some(), "Failed to draw tile at iteration {}", i);
        assert_eq!(state.boneyard.count(), 26 - i);
    }

    // Draw last tile
    let last_tile = state.draw_tile();
    assert!(last_tile.is_some());
    assert_eq!(state.boneyard.count(), 0);

    // Try to draw from empty boneyard
    let empty_draw = state.draw_tile();
    assert!(empty_draw.is_none());
    assert_eq!(state.boneyard.count(), 0);
}

#[test]
fn test_play_tile_empty_layout() {
    let table = ZTable::new();
    let configuration = Configuration::default();
    let mut state = DominoesState::new(&configuration);

    let double_tile = Tile::from((4, 4));

    // Should be able to play double on empty layout
    assert!(state.can_play_tile(&double_tile, None));
    state.play_tile(&table, double_tile, None);

    // Layout should no longer be empty
    assert!(!state.layout.is_empty());

    // Should have open ends for value 4
    assert!(state.layout.end_counts[4] > 0);
}

#[test]
fn test_play_tile_non_empty_layout() {
    let table = ZTable::new();
    let configuration = Configuration::default();
    let mut state = DominoesState::new(&configuration);

    // Start with a double
    let initial_tile = Tile::from((2, 2));
    state.play_tile(&table, initial_tile, None);

    // Play a matching tile
    let second_tile = Tile::from((2, 5));
    assert!(state.can_play_tile(&second_tile, Some(2)));
    state.play_tile(&table, second_tile, Some(2));

    // Should now have open ends for 2 and 5
    assert!(state.layout.end_counts[2] > 0);
    assert!(state.layout.end_counts[5] > 0);

    // Play another tile
    let third_tile = Tile::from((1, 5));
    assert!(state.can_play_tile(&third_tile, Some(5)));
    state.play_tile(&table, third_tile, Some(5));

    // Should now have open ends for 2 and 1
    assert!(state.layout.end_counts[2] > 0);
    assert!(state.layout.end_counts[1] > 0);
}

#[test]
fn test_state_trait_implementation() {
    let configuration = Configuration::default();
    let state = DominoesState::new(&configuration);

    // Test State trait methods
    assert_eq!(state.whose_turn(), 0); // PlayerId::ALICE as u8

    // Test fingerprint (should be valid u64)
    let fingerprint = state.fingerprint();
    assert!(fingerprint == 0); // Starting state is always 0
}

#[test]
fn test_fingerprint_updates_on_play_tile() {
    let table = ZTable::new();
    let configuration = Configuration::default();
    let mut state = DominoesState::new(&configuration);

    let initial_fingerprint = state.fingerprint();

    // Play a tile
    let tile = Tile::from((3, 3));
    state.play_tile(&table, tile, None);

    let after_play_fingerprint = state.fingerprint();

    // Fingerprint should change after playing a tile
    assert_ne!(initial_fingerprint, after_play_fingerprint);
}

#[test]
fn test_complex_tile_sequence() {
    let table = ZTable::new();
    let configuration = Configuration::default();
    let mut state = DominoesState::new(&configuration);

    // Play a sequence of tiles to test complex interactions
    let tiles = vec![
        (Tile::from((6, 6)), None),    // Start with double-6
        (Tile::from((3, 6)), Some(6)), // Play 6-3 on 6
        (Tile::from((1, 6)), Some(6)), // Play 6-1 on other 6
        (Tile::from((3, 4)), Some(3)), // Play 3-4 on 3
        (Tile::from((1, 2)), Some(1)), // Play 1-2 on 1
    ];

    for (tile, end) in tiles {
        assert!(
            state.can_play_tile(&tile, end),
            "Cannot play tile {:?} with end {:?}",
            tile,
            end
        );
        state.play_tile(&table, tile, end);
    }

    // Should have open ends for 4 and 2
    assert!(state.layout.end_counts[4] > 0);
    assert!(state.layout.end_counts[2] > 0);

    // Test that non-matching tiles cannot be played
    let invalid_tile = Tile::from((0, 5));
    assert!(!state.can_play_tile(&invalid_tile, None));
    assert!(!state.can_play_tile(&invalid_tile, Some(4)));
    assert!(!state.can_play_tile(&invalid_tile, Some(2)));
}

#[test]
fn test_end_game_with_winner() {
    let configuration = Configuration::default();
    let mut state = DominoesState::new(&configuration);

    // Initially game should not be over
    assert!(!state.game_is_over);
    assert_eq!(state.winner, None);

    // End game with Alice as winner
    state.mark_game_over(Some(0)); // PlayerId::ALICE as u8

    assert!(state.game_is_over);
    assert_eq!(state.winner, Some(0));
}

#[test]
fn test_end_game_without_winner() {
    let configuration = Configuration::default();
    let mut state = DominoesState::new(&configuration);

    // End game in a draw (no winner)
    state.mark_game_over(None);

    assert!(state.game_is_over);
    assert_eq!(state.winner, None);
}

#[test]
fn test_end_game_multiple_calls() {
    let configuration = Configuration::default();
    let mut state = DominoesState::new(&configuration);

    // End game with Alice
    state.mark_game_over(Some(0)); // PlayerId::ALICE as u8
    assert!(state.game_is_over);
    assert_eq!(state.winner, Some(0));

    // Call mark_game_over again with different winner
    state.mark_game_over(Some(1)); // PlayerId::BOB as u8
    assert!(state.game_is_over);
    assert_eq!(state.winner, Some(1)); // Should update to new winner

    // Call mark_game_over with no winner
    state.mark_game_over(None);
    assert!(state.game_is_over);
    assert_eq!(state.winner, None); // Should update to no winner
}

#[test]
fn test_end_game_during_active_game() {
    let table = ZTable::new();
    let configuration = Configuration::default();
    let mut state = DominoesState::new(&configuration);

    // Play some tiles first
    let tile1 = Tile::from((3, 3));
    state.play_tile(&table, tile1, None);

    let tile2 = Tile::from((3, 5));
    state.play_tile(&table, tile2, Some(3));

    // Game should still be active
    assert!(!state.game_is_over);

    // End game abruptly
    state.mark_game_over(Some(0)); // PlayerId::ALICE as u8

    // Should be over regardless of game state
    assert!(state.game_is_over);
    assert_eq!(state.winner, Some(0));
}

#[test]
fn test_pass_increments_counter() {
    let configuration = Configuration::default();
    let mut state = DominoesState::new(&configuration);

    // Initially no passes
    assert_eq!(state.consecutive_passes, 0);

    // Record first pass
    state.pass();
    assert_eq!(state.consecutive_passes, 1);

    // Record second pass
    state.pass();
    assert_eq!(state.consecutive_passes, 2);

    // Record third pass
    state.pass();
    assert_eq!(state.consecutive_passes, 3);
}

#[test]
fn test_pass_then_play_resets_counter() {
    let table = ZTable::new();
    let configuration = Configuration::default();
    let mut state = DominoesState::new(&configuration);

    // Record some passes
    state.pass();
    state.pass();
    assert_eq!(state.consecutive_passes, 2);

    // Play a tile (should reset counter)
    let tile = Tile::from((4, 4));
    state.play_tile(&table, tile, None);
    assert_eq!(state.consecutive_passes, 0);

    // Pass again after playing
    state.pass();
    assert_eq!(state.consecutive_passes, 1);
}

#[test]
fn test_multiple_pass_play_cycles() {
    let table = ZTable::new();
    let configuration = Configuration::default();
    let mut state = DominoesState::new(&configuration);

    // Cycle 1: Pass then play
    state.pass();
    state.pass();
    assert_eq!(state.consecutive_passes, 2);

    let tile1 = Tile::from((6, 6));
    state.play_tile(&table, tile1, None);
    assert_eq!(state.consecutive_passes, 0);

    // Cycle 2: Pass then play again
    state.pass();
    assert_eq!(state.consecutive_passes, 1);

    let tile2 = Tile::from((5, 6));
    state.play_tile(&table, tile2, Some(6));
    assert_eq!(state.consecutive_passes, 0);

    // Cycle 3: Multiple passes
    state.pass();
    state.pass();
    state.pass();
    assert_eq!(state.consecutive_passes, 3);
}

#[test]
fn test_pass_after_draw_tile() {
    let configuration = Configuration::default();
    let mut state = DominoesState::new(&configuration);

    // Draw a tile (doesn't reset pass counter)
    let _drawn_tile = state.draw_tile();

    // Pass (should increment normally)
    state.pass();
    assert_eq!(state.consecutive_passes, 1);

    // Draw another tile and pass again
    let _drawn_tile2 = state.draw_tile();
    state.pass();
    assert_eq!(state.consecutive_passes, 2);
}

#[test]
fn test_pass_counter_with_game_ending() {
    let configuration = Configuration::default();
    let mut state = DominoesState::new(&configuration);

    // Record passes equal to number of players
    state.pass(); // Player 1 passes
    state.pass(); // Player 2 passes

    // In a 2-player game, this might indicate game should end
    assert_eq!(state.consecutive_passes as usize, configuration.num_players());

    // But the pass method itself doesn't end the game
    assert!(!state.game_is_over);

    // Game logic would need to check this condition and call mark_game_over
    if state.consecutive_passes as usize >= configuration.num_players() {
        state.mark_game_over(None); // End in draw due to all players passing
    }

    assert!(state.game_is_over);
    assert_eq!(state.winner, None);
}

#[test]
fn test_pass_preserves_other_state() {
    let table = ZTable::new();
    let configuration = Configuration::default();
    let mut state = DominoesState::new(&configuration);

    // Play a tile first to establish some game state
    let tile = Tile::from((2, 2));
    state.play_tile(&table, tile, None);

    let initial_fingerprint = state.fingerprint();
    let initial_boneyard_count = state.boneyard.count();
    let initial_turn = state.whose_turn();

    // Pass should only affect consecutive_passes
    state.pass();

    assert_eq!(state.consecutive_passes, 1);
    assert_eq!(state.fingerprint(), initial_fingerprint); // Fingerprint unchanged
    assert_eq!(state.boneyard.count(), initial_boneyard_count); // Boneyard unchanged
    assert_eq!(state.whose_turn(), initial_turn); // Turn unchanged
    assert!(!state.game_is_over); // Game state unchanged
}

#[test]
fn test_pass_and_end_game_interaction() {
    let configuration = Configuration::default();
    let mut state = DominoesState::new(&configuration);

    // Record some passes
    state.pass();
    state.pass();
    assert_eq!(state.consecutive_passes, 2);

    // End the game
    state.mark_game_over(Some(0)); // PlayerId::ALICE as u8

    // Game should be over, but pass counter should remain
    assert!(state.game_is_over);
    assert_eq!(state.winner, Some(0));
    assert_eq!(state.consecutive_passes, 2); // Counter preserved

    // Additional passes after game ends (edge case)
    state.pass();
    assert_eq!(state.consecutive_passes, 3);
    assert!(state.game_is_over); // Still over
}

#[test]
fn test_is_terminal_initial_state() {
    let configuration = Configuration::default();
    let state = DominoesState::new(&configuration);

    // New game should not be terminal
    assert!(!state.is_terminal());
}

#[test]
fn test_is_terminal_after_game_over() {
    let configuration = Configuration::default();
    let mut state = DominoesState::new(&configuration);

    // Initially not terminal
    assert!(!state.is_terminal());

    // Mark game as over with winner
    state.mark_game_over(Some(0));
    assert!(state.is_terminal());

    // Mark game as over without winner (draw)
    let mut state2 = DominoesState::new(&configuration);
    state2.mark_game_over(None);
    assert!(state2.is_terminal());
}

#[test]
fn test_is_terminal_during_gameplay() {
    let table = ZTable::new();
    let configuration = Configuration::default();
    let mut state = DominoesState::new(&configuration);

    // Play some tiles - game should remain non-terminal
    let tile1 = Tile::from((3, 3));
    state.play_tile(&table, tile1, None);
    assert!(!state.is_terminal());

    let tile2 = Tile::from((3, 5));
    state.play_tile(&table, tile2, Some(3));
    assert!(!state.is_terminal());

    // Draw tiles - game should remain non-terminal
    state.draw_tile();
    assert!(!state.is_terminal());

    // Record passes - game should remain non-terminal
    state.pass();
    state.pass();
    assert!(!state.is_terminal());
}

#[test]
fn test_is_terminal_consistency() {
    let configuration = Configuration::default();
    let mut state = DominoesState::new(&configuration);

    // Test consistency for non-terminal state
    assert!(!state.is_terminal());
    assert!(!state.is_terminal()); // Multiple calls should be consistent

    // Mark as terminal and test consistency
    state.mark_game_over(Some(1));
    assert!(state.is_terminal());
    assert!(state.is_terminal()); // Multiple calls should be consistent
    assert!(state.is_terminal()); // Still consistent
}

#[test]
fn test_is_terminal_matches_game_is_over() {
    let configuration = Configuration::default();
    let mut state = DominoesState::new(&configuration);

    // Initially both should be false
    assert_eq!(state.is_terminal(), state.game_is_over);
    assert!(!state.is_terminal());

    // After marking game over, both should be true
    state.mark_game_over(Some(0));
    assert_eq!(state.is_terminal(), state.game_is_over);
    assert!(state.is_terminal());

    // Test with different winner scenarios
    let mut state2 = DominoesState::new(&configuration);
    state2.mark_game_over(None); // Draw
    assert_eq!(state2.is_terminal(), state2.game_is_over);
    assert!(state2.is_terminal());
}
