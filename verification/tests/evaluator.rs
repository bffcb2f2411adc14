#![allow(unused_imports, unused_variables, unused_mut)]

use dominoes::{
    all_tiles_as_ordinals, all_tiles_as_tiles, all_tiles_as_tuples, can_attach,
    child_attachment_to_parent_rotation, default_starting_hand_size, find_and_remove_tile,
    find_playable_tile, generate_layout, generate_random_layout, get_child_attachment,
    get_parent_attachment, highest_double_in, is_double_ordinal, is_double_tuple, matches_tuples,
    ordinal_to_tuple, parse, set_size, tuple_to_ordinal, Action, Boneyard, Configuration,
    DominoesEvaluator, DominoesGame, DominoesResponseGenerator, DominoesRollout, DominoesState, Hand,
    History, HumanPlayer, Layout, LayoutError, LayoutNode, ParseError, Player, StructuralLayout,
    StructuralNode, Tile, TileSide, Variation, ZHash, ZTable, MAX_PIPS, Z,
};

#[test]
fn test_new_creates_evaluator() {
    let evaluator = DominoesEvaluator::new();
    // Ensure the evaluator is created successfully
    let _ = evaluator;
}
