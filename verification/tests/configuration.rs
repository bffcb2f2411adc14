#![allow(unused_imports, unused_variables, unused_mut)]

use dominoes::{
    all_tiles_as_ordinals, all_tiles_as_tiles, all_tiles_as_tuples, can_attach,
    child_attachment_to_parent_rotation, default_starting_hand_size, find_and_remove_tile,
    find_playable_tile, generate_layout, generate_random_layout, get_child_attachment,
    get_parent_attachment, highest_double_in, is_double_ordinal, is_double_tuple, matches_tuples,
    ordinal_to_tuple, parse, set_size, tuple_to_ordinal, Action, Boneyard, Configuration,
    DominoesEvaluator, DominoesGame, DominoesResponseGenerator, DominoesRollout, DominoesState, Hand,
    History, HumanPlayer, Layout, LayoutError, LayoutNode, ParseError, Player, StructuralLayout,
    StructuralNode, Tile, TileSide, Variation, ZHash, ZTable, MAX_PIPS, Z,
};

#[test]
fn test_configuration_new_comprehensive() {
    // Test various configurations
    let config1 = Configuration::new(2, Variation::Traditional, 6, 7);
    assert_eq!(config1.num_players(), 2);
    assert_eq!(config1.variation(), Variation::Traditional);
    assert_eq!(config1.set_id(), 6);
    assert_eq!(config1.starting_hand_size(), 7);
    assert_eq!(config1.set_size(), 28);

    let config2 = Configuration::new(4, Variation::Bergen, 9, 6);
    assert_eq!(config2.num_players(), 4);
    assert_eq!(config2.variation(), Variation::Bergen);
    assert_eq!(config2.set_id(), 9);
    assert_eq!(config2.starting_hand_size(), 6);
    assert_eq!(config2.set_size(), 55);

    let config3 = Configuration::new(3, Variation::Blind, 12, 8);
    assert_eq!(config3.set_size(), 91);

    // Test default configuration
    let default_config = Configuration::default();
    assert_eq!(default_config.num_players(), 2);
    assert_eq!(default_config.variation(), Variation::Traditional);
    assert_eq!(default_config.set_id(), 6);
    assert_eq!(default_config.starting_hand_size(), 7);
    assert_eq!(default_config.set_size(), 28);

    // Test all_tiles functionality
    let config_small = Configuration::new(2, Variation::Traditional, 2, 6);
    let all_tiles = config_small.all_tiles();
    assert_eq!(all_tiles.len(), 6);
    assert_eq!(all_tiles[0], Tile::from((0, 0)));
    assert_eq!(all_tiles[1], Tile::from((0, 1)));
    assert_eq!(all_tiles[2], Tile::from((1, 1)));
    assert_eq!(all_tiles[3], Tile::from((0, 2)));
    assert_eq!(all_tiles[4], Tile::from((1, 2)));
    assert_eq!(all_tiles[5], Tile::from((2, 2)));

    // Test clone functionality
    let config_clone = config1.clone();
    assert_eq!(config1.num_players(), config_clone.num_players());
    assert_eq!(config1.variation(), config_clone.variation());
    assert_eq!(config1.set_id(), config_clone.set_id());
    assert_eq!(config1.starting_hand_size(), config_clone.starting_hand_size());
    assert_eq!(config1.tiles().len(), config_clone.tiles().len());

    // Test debug formatting
    let debug_str = format!("{:?}", config1);
    assert!(debug_str.contains("Configuration"));
    assert!(debug_str.contains("variation"));
    assert!(debug_str.contains("Traditional"));
}
