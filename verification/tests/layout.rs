#![allow(unused_imports, unused_variables, unused_mut)]

use dominoes::{
    all_tiles_as_ordinals, all_tiles_as_tiles, all_tiles_as_tuples, can_attach,
    child_attachment_to_parent_rotation, default_starting_hand_size, find_and_remove_tile,
    find_playable_tile, generate_layout, generate_random_layout, get_child_attachment,
    get_parent_attachment, highest_double_in, is_double_ordinal, is_double_tuple, matches_tuples,
    ordinal_to_tuple, parse, set_size, tuple_to_ordinal, Action, Boneyard, Configuration,
    DominoesEvaluator, DominoesGame, DominoesResponseGenerator, DominoesRollout, DominoesState, Hand,
    History, HumanPlayer, Layout, LayoutError, LayoutNode, ParseError, Player, StructuralLayout,
    StructuralNode, Tile, TileSide, Variation, ZHash, ZTable, MAX_PIPS, Z,
};

fn create_tile(a: u8, b: u8) -> Tile {
    Tile::from((a, b))
}

#[test]
fn test_layout_node_construction() {
    let tile = create_tile(3, 6);
    let node = LayoutNode {
        tile,
        parent: Some(0),
        children: vec![2, 3],
    };

    assert_eq!(node.tile, tile);
    assert_eq!(node.parent, Some(0));
    assert_eq!(node.children, vec![2, 3]);

    // Test with no parent and no children
    let root_node = LayoutNode {
        tile: create_tile(2, 5),
        parent: None,
        children: vec![],
    };

    assert_eq!(root_node.tile, create_tile(2, 5));
    assert_eq!(root_node.parent, None);
    assert!(root_node.children.is_empty());
}

#[test]
fn test_new_layout() {
    let configuration = Configuration::default();
    let layout = Layout::new(&configuration);
    assert!(layout.nodes.is_empty());
    assert!(layout.open.is_empty());
    assert_eq!(layout.end_counts.len(), 7); // 0..6 inclusive = 7 elements
}

    #[test]
fn test_attach_first_tile() {
    let configuration = Configuration::default();
    let mut layout = Layout::new(&configuration);
    let double_six = create_tile(6, 6);

    layout.attach(double_six, None);

    assert_eq!(layout.nodes.len(), 1);
    assert_eq!(layout.nodes[0].tile, double_six);
    assert_eq!(layout.nodes[0].parent, None);
    assert!(layout.nodes[0].children.is_empty());

    // Both ends should be open
    let open_values: Vec<u8> = layout.open.get_vec(&0).unwrap().clone();
    assert_eq!(open_values.len(), 2);
    assert!(open_values.iter().all(|&x| x == 6));
}

#[test]
fn test_attach_second_tile() {
    let configuration = Configuration::default();
    let mut layout = Layout::new(&configuration);
    let double_six = create_tile(6, 6);
    let three_six = create_tile(3, 6);

    layout.attach(double_six, None);
    layout.attach(three_six, Some(0));

    assert_eq!(layout.nodes.len(), 2);

    // Check first node
    assert_eq!(layout.nodes[0].children, vec![1]);

    // Check second node
    assert_eq!(layout.nodes[1].tile, three_six);
    assert_eq!(layout.nodes[1].parent, Some(0));
    assert!(layout.nodes[1].children.is_empty());

    // Check open ends - first node should have one 6 removed, second node should have 3 open
    let first_open: Vec<u8> = layout.open.get_vec(&0).unwrap_or(&vec![]).clone();
    let second_open: Vec<u8> = layout.open.get_vec(&1).unwrap().clone();

    assert_eq!(first_open.len(), 1);
    assert!(first_open.contains(&6));
    assert_eq!(second_open.len(), 1);
    assert!(second_open.contains(&3));
}

#[test]
fn test_attach_double_tile() {
    let configuration = Configuration::default();
    let mut layout = Layout::new(&configuration);
    let double_six = create_tile(6, 6);
    let double_three = create_tile(3, 3);
    let three_six = create_tile(3, 6);

    layout.attach(double_six, None);
    layout.attach(three_six, Some(0));
    layout.attach(double_three, Some(1));

    // Double tile should have two open ends with the same value
    let double_open: Vec<u8> = layout.open.get_vec(&2).unwrap().clone();
    assert_eq!(double_open.len(), 2);
    assert!(double_open.iter().all(|&x| x == 3));
}

#[test]
fn test_branching_layout() {
    let configuration = Configuration::default();
    let mut layout = Layout::new(&configuration);
    let double_three = create_tile(3, 3);
    let two_three = create_tile(2, 3);
    let three_five = create_tile(3, 5);

    layout.attach(double_three, None);
    layout.attach(two_three, Some(0));
    layout.attach(three_five, Some(0));

    assert_eq!(layout.nodes.len(), 3);
    assert_eq!(layout.nodes[0].children, vec![1, 2]);

    // Root should have no open ends left
    assert!(layout.open.get_vec(&0).is_none() || layout.open.get_vec(&0).unwrap().is_empty());
}

#[test]
fn test_to_string_empty() {
    let configuration = Configuration::default();
    let layout = Layout::new(&configuration);
    assert_eq!(layout.to_string(), "");
}

#[test]
fn test_to_string_single_tile() {
    let configuration = Configuration::default();
    let mut layout = Layout::new(&configuration);
    let double_six = create_tile(6, 6);

    layout.attach(double_six, None);

    assert_eq!(layout.to_string(), "6|6");
}

#[test]
fn test_to_string_linear_chain() {
    let configuration = Configuration::default();
    let mut layout = Layout::new(&configuration);
    let double_six = create_tile(6, 6);
    let three_six = create_tile(3, 6);
    let one_three = create_tile(1, 3);

    layout.attach(double_six, None);
    layout.attach(three_six, Some(0));
    layout.attach(one_three, Some(1));

    assert_eq!(layout.to_string(), "6|6-6|3-3|1");
}

#[test]
fn test_to_string_branching() {
    let configuration = Configuration::default();
    let mut layout = Layout::new(&configuration);
    let double_three = create_tile(3, 3);
    let two_three = create_tile(2, 3);
    let three_five = create_tile(3, 5);

    layout.attach(double_three, None);
    layout.attach(two_three, Some(0));
    layout.attach(three_five, Some(0));

    assert_eq!(layout.to_string(), "3|3=(3|2,3|5)");
}

#[test]
fn test_to_string_complex_tree() {
    let configuration = Configuration::default();
    let mut layout = Layout::new(&configuration);
    let double_six = create_tile(6, 6);
    let three_six = create_tile(3, 6);
    let double_three = create_tile(3, 3);
    let one_three = create_tile(1, 3);
    let three_five = create_tile(3, 5);
    let two_five = create_tile(2, 5);

    layout.attach(double_six, None);
    layout.attach(three_six, Some(0));
    layout.attach(double_three, Some(1));  // Attach double-3 to the 3|6 tile
    layout.attach(one_three, Some(2));     // Attach 1|3 to the double-3
    layout.attach(three_five, Some(2));    // Attach 3|5 to the double-3 (creates branching)
    layout.attach(two_five, Some(4));      // Attach 2|5 to the 3|5 tile

    assert_eq!(layout.to_string(), "6|6-6|3-3|3=(3|1,3|5-5|2)");
}

#[test]
fn test_remove_from_open() {
    let configuration = Configuration::default();
    let mut layout = Layout::new(&configuration);
    let double_six = create_tile(6, 6);

    layout.attach(double_six, None);

    // Manually test remove_from_open
    assert_eq!(layout.open.get_vec(&0).unwrap().len(), 2);
    layout.remove_from_open(0, 6);
    assert_eq!(layout.open.get_vec(&0).unwrap().len(), 1);
}

#[test]
fn test_is_empty() {
    let configuration = Configuration::default();
    let mut layout = Layout::new(&configuration);

    // Initially empty
    assert!(layout.is_empty());

    // Add a tile - no longer empty
    let double_six = create_tile(6, 6);
    layout.attach(double_six, None);
    assert!(!layout.is_empty());

    // Add another tile - still not empty
    let three_six = create_tile(3, 6);
    layout.attach(three_six, Some(0));
    assert!(!layout.is_empty());
}

#[test]
fn test_open_count() {
    let configuration = Configuration::default();
    let mut layout = Layout::new(&configuration);

    // Initially no open ends for any value
    for i in 0..=6 {
        assert_eq!(layout.open_count(i), 0);
    }

    // Place double-six
    let double_six = create_tile(6, 6);
    layout.attach(double_six, None);

    // Should have 2 open ends with value 6
    assert_eq!(layout.open_count(6), 2);
    for i in 0..=5 {
        assert_eq!(layout.open_count(i), 0);
    }

    // Attach 3-6 tile to consume one 6 end and add one 3 end
    let three_six = create_tile(3, 6);
    layout.attach(three_six, Some(0));

    assert_eq!(layout.open_count(6), 1);
    assert_eq!(layout.open_count(3), 1);
    for i in &[0, 1, 2, 4, 5] {
        assert_eq!(layout.open_count(*i), 0);
    }

    // Attach double-3 to consume 3 end and add two 3 ends
    let double_three = create_tile(3, 3);
    layout.attach(double_three, Some(1));

    assert_eq!(layout.open_count(6), 1);
    assert_eq!(layout.open_count(3), 2);
    for i in &[0, 1, 2, 4, 5] {
        assert_eq!(layout.open_count(*i), 0);
    }
}

#[test]
fn test_open_count_complex_layout() {
    let configuration = Configuration::default();
    let mut layout = Layout::new(&configuration);

    // Build: 4|4=(4|2,4|1-1|5)
    let double_four = create_tile(4, 4);
    layout.attach(double_four, None);
    assert_eq!(layout.open_count(4), 2);

    let two_four = create_tile(2, 4);
    layout.attach(two_four, Some(0));
    assert_eq!(layout.open_count(4), 1);
    assert_eq!(layout.open_count(2), 1);

    let one_four = create_tile(1, 4);
    layout.attach(one_four, Some(0));
    assert_eq!(layout.open_count(4), 0);
    assert_eq!(layout.open_count(2), 1);
    assert_eq!(layout.open_count(1), 1);

    let one_five = create_tile(1, 5);
    layout.attach(one_five, Some(2));
    assert_eq!(layout.open_count(4), 0);
    assert_eq!(layout.open_count(2), 1);
    assert_eq!(layout.open_count(1), 0);
    assert_eq!(layout.open_count(5), 1);
}

#[test]
fn test_attach_return_values() {
    let configuration = Configuration::default();
    let mut layout = Layout::new(&configuration);

    // First tile (double) should return (value, 2)
    let double_six = create_tile(6, 6);
    let (open_value, count) = layout.attach(double_six, None);
    assert_eq!(open_value, 6);
    assert_eq!(count, 2);

    // Regular tile should return (new_value, 1)
    let three_six = create_tile(3, 6);
    let (open_value, count) = layout.attach(three_six, Some(0));
    assert_eq!(open_value, 3);
    assert_eq!(count, 1);

    // Double tile attached should return (value, 2)
    let double_three = create_tile(3, 3);
    let (open_value, count) = layout.attach(double_three, Some(1));
    assert_eq!(open_value, 3);
    assert_eq!(count, 2);
}

#[test]
fn test_layout_public_fields() {
    let configuration = Configuration::default();
    let mut layout = Layout::new(&configuration);

    // Test nodes field access
    assert!(layout.nodes.is_empty());

    let double_three = create_tile(3, 3);
    layout.attach(double_three, None);

    // Test that nodes field is accessible and populated
    assert_eq!(layout.nodes.len(), 1);
    assert_eq!(layout.nodes[0].tile, double_three);
    assert_eq!(layout.nodes[0].parent, None);
    assert!(layout.nodes[0].children.is_empty());

    // Test open field access
    assert!(layout.open.contains_key(&0));
    let open_values = layout.open.get_vec(&0).unwrap();
    assert_eq!(open_values.len(), 2);
    assert!(open_values.iter().all(|&x| x == 3));

    // Test end_counts field access
    assert_eq!(layout.end_counts.len(), 7); // 0-6 inclusive
    assert_eq!(layout.end_counts[3], 2);
    for i in &[0, 1, 2, 4, 5, 6] {
        assert_eq!(layout.end_counts[*i], 0);
    }
}

#[test]
fn test_attach_multiple_children_to_same_parent() {
    let configuration = Configuration::default();
    let mut layout = Layout::new(&configuration);

    // Start with double-4
    let double_four = create_tile(4, 4);
    layout.attach(double_four, None);

    // Attach multiple tiles to the same parent
    let four_one = create_tile(1, 4);
    layout.attach(four_one, Some(0));

    let four_six = create_tile(4, 6);
    layout.attach(four_six, Some(0));

    // Parent should have both children
    assert_eq!(layout.nodes[0].children, vec![1, 2]);

    // Parent should have no open ends left
    assert!(layout.open.get_vec(&0).is_none() || layout.open.get_vec(&0).unwrap().is_empty());
    assert_eq!(layout.open_count(4), 0);

    // Children should have their respective open ends
    assert_eq!(layout.open_count(1), 1);
    assert_eq!(layout.open_count(6), 1);
}

#[test]
fn test_end_counts_consistency() {
    let configuration = Configuration::default();
    let mut layout = Layout::new(&configuration);

    // Build a complex layout and verify end_counts matches actual open entries
    let double_two = create_tile(2, 2);
    layout.attach(double_two, None);

    let two_five = create_tile(2, 5);
    layout.attach(two_five, Some(0));

    let two_six = create_tile(2, 6);
    layout.attach(two_six, Some(0));

    let double_five = create_tile(5, 5);
    layout.attach(double_five, Some(1));

    // Manually count open ends and compare with end_counts
    let mut actual_counts = vec![0u8; 7];
    for (_, values) in layout.open.iter_all() {
        for &value in values {
            actual_counts[value as usize] += 1;
        }
    }

    for i in 0..7 {
        assert_eq!(layout.end_counts[i], actual_counts[i],
                "Mismatch at index {}: end_counts={}, actual={}",
                i, layout.end_counts[i], actual_counts[i]);
    }
}

#[test]
fn test_to_tree_empty_layout() {
    let configuration = Configuration::default();
    let layout = Layout::new(&configuration);

    assert!(layout.to_tree().is_none());
}

#[test]
fn test_to_tree_single_tile() {
    let configuration = Configuration::default();
    let mut layout = Layout::new(&configuration);
    let double_six = create_tile(6, 6);

    layout.attach(double_six, None);

    let tree = layout.to_tree().unwrap();
    assert_eq!(tree.root().value(), &double_six);
    assert_eq!(tree.root().children().count(), 0);
}

#[test]
fn test_to_tree_linear_chain() {
    let configuration = Configuration::default();
    let mut layout = Layout::new(&configuration);
    let double_six = create_tile(6, 6);
    let three_six = create_tile(3, 6);
    let one_three = create_tile(1, 3);

    layout.attach(double_six, None);
    layout.attach(three_six, Some(0));
    layout.attach(one_three, Some(1));

    let tree = layout.to_tree().unwrap();

    // Check root
    assert_eq!(tree.root().value(), &double_six);

    // Check first child
    let root_children: Vec<_> = tree.root().children().collect();
    assert_eq!(root_children.len(), 1);
    assert_eq!(root_children[0].value(), &three_six);

    // Check second child (grandchild of root)
    let second_level_children: Vec<_> = root_children[0].children().collect();
    assert_eq!(second_level_children.len(), 1);
    assert_eq!(second_level_children[0].value(), &one_three);
    assert_eq!(second_level_children[0].children().count(), 0);
}

#[test]
fn test_to_tree_branching() {
    let configuration = Configuration::default();
    let mut layout = Layout::new(&configuration);
    let double_three = create_tile(3, 3);
    let two_three = create_tile(2, 3);
    let three_five = create_tile(3, 5);

    layout.attach(double_three, None);
    layout.attach(two_three, Some(0));
    layout.attach(three_five, Some(0));

    let tree = layout.to_tree().unwrap();

    // Check root
    assert_eq!(tree.root().value(), &double_three);

    // Check children - should have two
    let root_children: Vec<_> = tree.root().children().collect();
    assert_eq!(root_children.len(), 2);

    // Children should be in order they were added
    assert_eq!(root_children[0].value(), &two_three);
    assert_eq!(root_children[1].value(), &three_five);

    // Both children should be leaf nodes
    assert_eq!(root_children[0].children().count(), 0);
    assert_eq!(root_children[1].children().count(), 0);
}

#[test]
fn test_to_tree_complex_structure() {
    let configuration = Configuration::default();
    let mut layout = Layout::new(&configuration);
    let double_six = create_tile(6, 6);
    let three_six = create_tile(3, 6);
    let double_three = create_tile(3, 3);
    let one_three = create_tile(1, 3);
    let three_five = create_tile(3, 5);
    let two_five = create_tile(2, 5);

    // Build: 6|6-6|3-3|3=(3|1,3|5-5|2)
    layout.attach(double_six, None);
    layout.attach(three_six, Some(0));
    layout.attach(double_three, Some(1));
    layout.attach(one_three, Some(2));
    layout.attach(three_five, Some(2));
    layout.attach(two_five, Some(4));

    let tree = layout.to_tree().unwrap();

    // Root should be 6|6
    assert_eq!(tree.root().value(), &double_six);

    // Root should have one child (3|6)
    let level1: Vec<_> = tree.root().children().collect();
    assert_eq!(level1.len(), 1);
    assert_eq!(level1[0].value(), &three_six);

    // 3|6 should have one child (3|3)
    let level2: Vec<_> = level1[0].children().collect();
    assert_eq!(level2.len(), 1);
    assert_eq!(level2[0].value(), &double_three);

    // 3|3 should have two children (1|3 and 3|5)
    let level3: Vec<_> = level2[0].children().collect();
    assert_eq!(level3.len(), 2);
    assert_eq!(level3[0].value(), &one_three);
    assert_eq!(level3[1].value(), &three_five);

    // 1|3 should be a leaf
    assert_eq!(level3[0].children().count(), 0);

    // 3|5 should have one child (2|5)
    let level4: Vec<_> = level3[1].children().collect();
    assert_eq!(level4.len(), 1);
    assert_eq!(level4[0].value(), &two_five);
    assert_eq!(level4[0].children().count(), 0);
}

#[test]
fn test_to_tree_node_order_preservation() {
    let configuration = Configuration::default();
    let mut layout = Layout::new(&configuration);
    let double_four = create_tile(4, 4);
    let four_one = create_tile(1, 4);
    let four_six = create_tile(4, 6);

    // Attach children in specific order
    layout.attach(double_four, None);
    layout.attach(four_one, Some(0));    // First child
    layout.attach(four_six, Some(0));    // Second child

    let tree = layout.to_tree().unwrap();

    // Children should be in the order they were attached
    let children: Vec<_> = tree.root().children().collect();
    assert_eq!(children.len(), 2);
    assert_eq!(children[0].value(), &four_one);
    assert_eq!(children[1].value(), &four_six);
}

#[test]
fn test_to_tree_all_nodes_have_correct_parents() {
    let configuration = Configuration::default();
    let mut layout = Layout::new(&configuration);
    let double_two = create_tile(2, 2);
    let two_five = create_tile(2, 5);
    let two_six = create_tile(2, 6);
    let double_five = create_tile(5, 5);

    layout.attach(double_two, None);
    layout.attach(two_five, Some(0));
    layout.attach(two_six, Some(0));
    layout.attach(double_five, Some(1));

    let tree = layout.to_tree().unwrap();

    // Verify the tree structure matches the layout structure
    let mut node_count = 0;
    for node in tree.root().descendants() {
        node_count += 1;

        // Each node should correspond to a tile in the layout
        let found = layout.nodes.iter().any(|layout_node| layout_node.tile == *node.value());
        assert!(found, "Tree node {:?} not found in layout", node.value());
    }

    assert_eq!(node_count, layout.nodes.len());
}

#[test]
fn test_to_tree_preserves_tile_data() {
    let configuration = Configuration::default();
    let mut layout = Layout::new(&configuration);
    let tiles = vec![
        create_tile(6, 6),
        create_tile(3, 6),
        create_tile(1, 3),
        create_tile(1, 2),
    ];

    layout.attach(tiles[0], None);
    layout.attach(tiles[1], Some(0));
    layout.attach(tiles[2], Some(1));

    let tree = layout.to_tree().unwrap();

    // Collect all tiles from the tree
    let tree_tiles: Vec<Tile> = tree.root().descendants().map(|node| *node.value()).collect();

    // Should have the first 3 tiles
    assert_eq!(tree_tiles.len(), 3);
    assert!(tree_tiles.contains(&tiles[0]));
    assert!(tree_tiles.contains(&tiles[1]));
    assert!(tree_tiles.contains(&tiles[2]));
}

#[test]
fn test_get_nodes_with_open_end() {
    let configuration = Configuration::default();

    // Test empty layout
    let layout = Layout::new(&configuration);
    assert!(layout.get_nodes_with_open_end(0).is_empty());
    assert!(layout.get_nodes_with_open_end(6).is_empty());

    // Test basic functionality
    let mut layout = Layout::new(&configuration);
    let double_six = Tile::from((6, 6));
    let three_six = Tile::from((3, 6));
    let one_three = Tile::from((1, 3));

    layout.attach(double_six, None); // node 0
    layout.attach(three_six, Some(0)); // node 1
    layout.attach(one_three, Some(1)); // node 2

    // Node 0: open 6, Node 1: no open ends (3 was consumed), Node 2: open 1
    let six_nodes = layout.get_nodes_with_open_end(6);
    assert_eq!(six_nodes, vec![0]);
    let three_nodes = layout.get_nodes_with_open_end(3);
    assert!(three_nodes.is_empty());
    let one_nodes = layout.get_nodes_with_open_end(1);
    assert_eq!(one_nodes, vec![2]);
    let four_nodes = layout.get_nodes_with_open_end(4);
    assert!(four_nodes.is_empty());

    // Test multiple nodes
    let mut layout2 = Layout::new(&configuration);
    let double_three = Tile::from((3, 3));
    let three_two = Tile::from((2, 3));
    let three_five = Tile::from((3, 5));

    layout2.attach(double_three, None); // node 0
    layout2.attach(three_two, Some(0)); // node 1
    layout2.attach(three_five, Some(0)); // node 2

    // Node 1: open 2, Node 2: open 5
    // After attaching, node 0 should have no open ends
    assert!(layout2.get_nodes_with_open_end(3).is_empty());
    assert_eq!(layout2.get_nodes_with_open_end(2), vec![1]);
    assert_eq!(layout2.get_nodes_with_open_end(5), vec![2]);
}

#[test]
fn test_layout_serialization_simple() {
    let configuration = Configuration::default();
    let mut layout = Layout::new(&configuration);

    // Create a simple layout: 6|6-3|6
    let double_six = Tile::from((6, 6));
    layout.attach(double_six, None);

    let three_six = Tile::from((3, 6));
    layout.attach(three_six, Some(0));

    // Serialize and deserialize
    let form = layout.serialize();
    let deserialized = Layout::deserialize(&form).expect("Deserialization failed");

    // Verify nodes are the same
    assert_eq!(deserialized.nodes.len(), layout.nodes.len());
    for (i, (original, deserialized)) in layout.nodes.iter().zip(deserialized.nodes.iter()).enumerate() {
        assert_eq!(original.tile, deserialized.tile, "Tile mismatch at node {}", i);
        assert_eq!(original.parent, deserialized.parent, "Parent mismatch at node {}", i);
        assert_eq!(original.children, deserialized.children, "Children mismatch at node {}", i);
    }

    // Verify end_counts size is preserved
    assert_eq!(deserialized.end_counts.len(), layout.end_counts.len());

    // Verify open ends are reconstructed correctly
    assert_eq!(deserialized.open_count(6), layout.open_count(6));
    assert_eq!(deserialized.open_count(3), layout.open_count(3));
    for i in 0..7 {
        assert_eq!(deserialized.open_count(i), layout.open_count(i), "Open count mismatch for value {}", i);
    }

    // Verify specific open ends
    assert_eq!(deserialized.get_nodes_with_open_end(6), layout.get_nodes_with_open_end(6));
    assert_eq!(deserialized.get_nodes_with_open_end(3), layout.get_nodes_with_open_end(3));
}

#[test]
fn test_layout_serialization_complex() {
    let configuration = Configuration::default();
    let mut layout = Layout::new(&configuration);

    // Create a more complex layout: 4|4=(2|4, 4|1-1|5)
    let double_four = Tile::from((4, 4));
    layout.attach(double_four, None);

    let two_four = Tile::from((2, 4));
    layout.attach(two_four, Some(0));

    let one_four = Tile::from((1, 4));
    layout.attach(one_four, Some(0));

    let one_five = Tile::from((1, 5));
    layout.attach(one_five, Some(2));

    // Serialize and deserialize
    let form = layout.serialize();
    let deserialized = Layout::deserialize(&form).expect("Deserialization failed");

    // Verify structure is preserved
    assert_eq!(deserialized.nodes.len(), 4);
    assert_eq!(deserialized.nodes[0].children, vec![1, 2]);
    assert_eq!(deserialized.nodes[2].children, vec![3]);

    // Verify open ends are reconstructed correctly
    for i in 0..7 {
        assert_eq!(deserialized.open_count(i), layout.open_count(i), "Open count mismatch for value {}", i);
    }

    // Specific checks for this layout
    assert_eq!(deserialized.open_count(2), 1); // from node 1
    assert_eq!(deserialized.open_count(5), 1); // from node 3
    assert_eq!(deserialized.open_count(4), 0); // all 4s are used
    assert_eq!(deserialized.open_count(1), 0); // all 1s are used
}

#[test]
fn test_layout_serialization_empty() {
    let configuration = Configuration::default();
    let layout = Layout::new(&configuration);

    // Serialize and deserialize empty layout
    let form = layout.serialize();
    let deserialized = Layout::deserialize(&form).expect("Deserialization failed");

    assert!(deserialized.nodes.is_empty());
    assert!(deserialized.open.is_empty());
    assert_eq!(deserialized.end_counts, vec![0; 7]);
    assert!(deserialized.is_empty());
}

#[test]
fn test_layout_serialization_double_tiles() {
    let configuration = Configuration::default();
    let mut layout = Layout::new(&configuration);

    // Create layout step by step and debug each step
    let double_three = Tile::from((3, 3));
    layout.attach(double_three, None);
    println!("After attaching root 3|3: open count 3 = {}", layout.open_count(3));

    let another_double_three = Tile::from((3, 3));
    layout.attach(another_double_three, Some(0));
    println!("After attaching second 3|3: open count 3 = {}", layout.open_count(3));

    let three_five = Tile::from((3, 5));
    layout.attach(three_five, Some(0));
    println!("After attaching 3|5: open count 3 = {}, open count 5 = {}", layout.open_count(3), layout.open_count(5));

    // Check node structure
    println!("Node 0 children: {:?}", layout.nodes[0].children);
    println!("Node 1 parent: {:?}, children: {:?}", layout.nodes[1].parent, layout.nodes[1].children);
    println!("Node 2 parent: {:?}, children: {:?}", layout.nodes[2].parent, layout.nodes[2].children);

    // Check what each node has open
    for i in 0..3 {
        if let Some(open_values) = layout.open.get_vec(&i) {
            println!("Node {} open values: {:?}", i, open_values);
        } else {
            println!("Node {} has no open values", i);
        }
    }

    // Serialize and deserialize
    let form = layout.serialize();
    let deserialized = Layout::deserialize(&form).expect("Deserialization failed");

    // Debug: Check the deserialized layout state
    println!("Deserialized layout open count for 3: {}", deserialized.open_count(3));
    println!("Deserialized layout open count for 5: {}", deserialized.open_count(5));

    // Verify double tile handling
    assert_eq!(deserialized.open_count(3), layout.open_count(3));
    assert_eq!(deserialized.open_count(5), layout.open_count(5));
}
