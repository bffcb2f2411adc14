//! Dominoes: tiles, the branching layout of played tiles with its index of
//! open ends, the layout's text grammar, and an incrementally maintained
//! Zobrist fingerprint of the game state.

pub mod action;
pub mod boneyard;
pub mod configuration;
pub mod dominoes_game;
pub mod dominoes_state;
pub mod generate;
pub mod hand;
pub mod layout;
pub mod layout_form;
pub mod layout_lemmas;
pub mod layout_parser;
pub mod layout_text;
pub mod open_ends;
pub mod player;
pub mod rules;
pub mod scene;
pub mod text;
pub mod text_round_trip;
pub mod tile;
pub mod tile_tree;
pub mod zhash;

pub use action::{Action, History};
pub use boneyard::Boneyard;
pub use configuration::Configuration;
pub use dominoes_game::DominoesGame;
pub use dominoes_state::DominoesState;
pub use generate::{
    can_attach, find_and_remove_tile, find_playable_tile, generate_layout, generate_random_layout,
};
pub use hand::Hand;
pub use layout::{Layout, LayoutNode};
pub use layout_form::{LayoutError, StructuralLayout, StructuralNode};
pub use layout_parser::{parse, ParseError};
pub use player::{
    highest_double_in, DominoesEvaluator, DominoesResponseGenerator, DominoesRollout, HumanPlayer,
    Player,
};
pub use rules::{
    all_tiles_as_ordinals, all_tiles_as_tuples, default_starting_hand_size, is_double_ordinal,
    is_double_tuple, matches_tuples, ordinal_to_tuple, set_size, tuple_to_ordinal, Variation,
    MAX_PIPS,
};
pub use scene::{
    child_attachment_to_parent_rotation, get_child_attachment, get_parent_attachment, TileSide,
};
pub use tile::{all_tiles_as_tiles, Tile};
pub use zhash::{ZHash, ZTable, Z};
