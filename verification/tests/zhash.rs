#![allow(unused_imports, unused_variables, unused_mut)]

use dominoes::{
    all_tiles_as_ordinals, all_tiles_as_tiles, all_tiles_as_tuples, can_attach,
    child_attachment_to_parent_rotation, default_starting_hand_size, find_and_remove_tile,
    find_playable_tile, generate_layout, generate_random_layout, get_child_attachment,
    get_parent_attachment, highest_double_in, is_double_ordinal, is_double_tuple, matches_tuples,
    ordinal_to_tuple, parse, set_size, tuple_to_ordinal, Action, Boneyard, Configuration,
    DominoesEvaluator, DominoesGame, DominoesResponseGenerator, DominoesRollout, DominoesState, Hand,
    History, HumanPlayer, Layout, LayoutError, LayoutNode, ParseError, Player, StructuralLayout,
    StructuralNode, Tile, TileSide, Variation, ZHash, ZTable, MAX_PIPS, Z,
};

#[test]
fn test_zhash_constants() {
    assert_eq!(ZHash::START, 0);
    assert_eq!(ZHash::UNDEFINED, Z::MAX);
    assert_ne!(ZHash::START, ZHash::UNDEFINED);
}

#[test]
fn test_zhash_new() {
    let hash = ZHash::from(42);
    assert_eq!(Z::from(hash), 42);

    let hash_zero = ZHash::from(0);
    assert_eq!(Z::from(hash_zero), 0);

    let hash_max = ZHash::from(Z::MAX);
    assert_eq!(Z::from(hash_max), Z::MAX);
}

#[test]
fn test_zhash_default() {
    let hash = ZHash::default();
    assert_eq!(hash, ZHash::from(ZHash::START));
    assert_eq!(Z::from(hash), 0);
    assert!(!hash.is_undefined());
}

#[test]
fn test_zhash_value() {
    let test_values = [0, 1, 42, 12345, Z::MAX, ZHash::UNDEFINED];

    for &val in &test_values {
        let hash = ZHash::from(val);
        assert_eq!(Z::from(hash), val);
    }
}

#[test]
fn test_zhash_is_undefined() {
    let undefined = ZHash::from(ZHash::UNDEFINED);
    assert!(undefined.is_undefined());

    let normal = ZHash::from(42);
    assert!(!normal.is_undefined());

    let start = ZHash::default();
    assert!(!start.is_undefined());

    let zero = ZHash::from(0);
    assert!(!zero.is_undefined());
}

#[test]
fn test_zhash_add_tile() {
    let table = ZTable::new();
    let mut hash = ZHash::default();
    let original_value = hash;

    // Add a tile and verify value changes
    hash.add_tile(&table, 42);
    assert_ne!(hash, original_value);

    // Store the new value
    let after_first_tile = hash;

    // Add another tile
    hash.add_tile(&table, 100);
    assert_ne!(hash, after_first_tile);
    assert_ne!(hash, original_value);

    // Test method chaining
    let mut hash2 = ZHash::default();
    hash2.add_tile(&table, 42).add_tile(&table, 100);
    assert_eq!(hash, hash2);
}

#[test]
fn test_zhash_change_end_count() {
    let table = ZTable::new();
    let mut hash = ZHash::default();
    let original = hash;

    // Add first occurrence of end value 6 (0 -> 1)
    hash.change_end_count(&table, 6, 0, 1);
    assert_ne!(hash, original);
    let after_first = hash;

    // Add second occurrence (1 -> 2)
    hash.change_end_count(&table, 6, 1, 2);
    assert_ne!(hash, after_first);
    assert_ne!(hash, original);
    let after_two = hash;

    // Remove one (2 -> 1)
    hash.change_end_count(&table, 6, 2, 1);
    assert_ne!(hash, after_two);
    assert_eq!(hash, after_first);
    assert_ne!(hash, original);

    // Remove last one (1 -> 0)
    hash.change_end_count(&table, 6, 1, 0);
    assert_ne!(hash, after_two);
    assert_ne!(hash, after_first);
    assert_eq!(hash, original);

    // Test method chaining
    let mut hash2 = ZHash::default();
    hash2.change_end_count(&table, 5, 0, 1).change_end_count(&table, 5, 1, 2);
    assert_ne!(hash2, ZHash::default());
}

#[test]
fn test_zhash_change_end_count_multiple() {
    let table = ZTable::new();
    // Add 1 end value 6 three times (0 -> 1, 1 -> 2, 2 -> 3)
    let mut hash_1_thrice = ZHash::default();
    let original_hash_1_thrice_value = hash_1_thrice;
    hash_1_thrice.change_end_count(&table, 6, 0, 1).change_end_count(&table, 6, 1, 2).change_end_count(&table, 6, 2, 3);
    assert_ne!(hash_1_thrice, original_hash_1_thrice_value);

    // Add 3 end value 6s once (0 -> 3)
    let mut hash_3_once = ZHash::default();
    let original_hash_3_once_value = hash_3_once;
    hash_3_once.change_end_count(&table, 6, 0, 3);
    assert_ne!(hash_3_once, original_hash_3_once_value);

    // Both methods should yield the same final value
    assert_eq!(hash_1_thrice, hash_3_once);

    // Remove 1 end value 6 three times (3 -> 2, 2 -> 1, 1 -> 0)
    hash_1_thrice.change_end_count(&table, 6, 3, 2).change_end_count(&table, 6, 2, 1).change_end_count(&table, 6, 1, 0);
    assert_eq!(hash_1_thrice, original_hash_1_thrice_value);

    // Remove 3 end value 6s once (3 -> 0)
    hash_3_once.change_end_count(&table, 6, 3, 0);
    assert_eq!(hash_3_once, original_hash_3_once_value);
    assert_eq!(hash_1_thrice, hash_3_once);
}

#[test]
fn test_zhash_turn() {
    let table = ZTable::new();
    let mut hash = ZHash::default();
    let original_value = hash;

    // Change turn and verify value changes
    hash.turn(&table);
    assert_ne!(hash, original_value);

    let after_turn = hash;

    // Turn again should return to original value
    hash.turn(&table);
    assert_eq!(hash, original_value);
    assert_ne!(hash, after_turn);
}

#[test]
fn test_zhash_from_state_basic() {
    let table = ZTable::new();

    let config = Configuration::default();
    let layout = Layout::new(&config);

    // Test with player 0's turn
    let hash0 = ZHash::from_state(&table, &layout, 0);
    assert_eq!(hash0, ZHash::default()); // Empty layout, player 0 = START

    // Test with player 1's turn
    let hash1 = ZHash::from_state(&table, &layout, 1);
    assert_ne!(hash1, hash0); // Different turn should produce different hash
    assert_ne!(hash1, ZHash::default());
}

#[test]
fn test_zhash_new_method() {
    // Test the new() method specifically
    let hash = ZHash::new(12345);
    assert_eq!(Z::from(hash), 12345);

    let hash_zero = ZHash::new(0);
    assert_eq!(Z::from(hash_zero), 0);

    let hash_max = ZHash::new(Z::MAX);
    assert_eq!(Z::from(hash_max), Z::MAX);

    let hash_undefined = ZHash::new(ZHash::UNDEFINED);
    assert!(hash_undefined.is_undefined());
}

#[test]
fn test_ztable_methods() {
    let table = &ZTable::new();

    // Test tile values are consistent
    assert_eq!(table.tile_value(42), table.tile_value(42));

    // Test different tiles have different hashes
    assert_ne!(table.tile_value(0), table.tile_value(1));

    // Test end values
    assert_eq!(table.end_value(5, 3), table.end_value(5, 3));
    assert_ne!(table.end_value(5, 1), table.end_value(5, 2));

    // Test turn value consistency
    assert_eq!(table.turn_value(), table.turn_value());
}
