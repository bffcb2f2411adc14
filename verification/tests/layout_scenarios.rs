use dominoes::{
    parse, Configuration, Layout, LayoutError, LayoutNode, StructuralLayout, StructuralNode, Tile,
};

fn sorted(mut nodes: Vec<usize>) -> Vec<usize> {
    nodes.sort();
    nodes
}

#[test]
fn test_double_six_then_three_six() {
    let configuration = Configuration::default();
    let mut layout = Layout::new(&configuration);
    assert_eq!(layout.attach(Tile::from((6, 6)), None), (6, 2));
    assert_eq!(layout.open_count(6), 2);

    assert_eq!(layout.attach(Tile::from((3, 6)), Some(0)), (3, 1));
    assert_eq!(layout.open_count(6), 1);
    assert_eq!(layout.open_count(3), 1);
    assert_eq!(layout.to_string(), "6|6-6|3");
}

#[test]
fn test_double_three_with_two_branches() {
    let configuration = Configuration::default();
    let mut layout = Layout::new(&configuration);
    layout.attach(Tile::from((3, 3)), None);
    layout.attach(Tile::from((2, 3)), Some(0));
    layout.attach(Tile::from((5, 3)), Some(0));
    assert_eq!(layout.to_string(), "3|3=(3|2,3|5)");
    assert_eq!(layout.open_count(3), 0);
    assert_eq!(layout.open_count(2), 1);
    assert_eq!(layout.open_count(5), 1);
}

#[test]
fn test_attach_takes_the_first_of_two_equal_entries() {
    let configuration = Configuration::default();
    let mut layout = Layout::new(&configuration);
    layout.attach(Tile::from((4, 4)), None);
    assert_eq!(layout.open.get_vec(&0), Some(&vec![4, 4]));
    layout.attach(Tile::from((4, 4)), Some(0));
    assert_eq!(layout.open.get_vec(&0), Some(&vec![4]));
    assert_eq!(layout.open.get_vec(&1), Some(&vec![4, 4]));
    assert_eq!(layout.open_count(4), 3);
    layout.attach(Tile::from((4, 1)), Some(0));
    assert_eq!(layout.open.get_vec(&0), None);
    assert_eq!(layout.open_count(4), 2);
    assert_eq!(layout.end_counts, vec![0, 1, 0, 0, 2, 0, 0]);
}

#[test]
fn test_nodes_with_open_end_lists_each_node_once() {
    let configuration = Configuration::default();
    let mut layout = Layout::new(&configuration);
    layout.attach(Tile::from((5, 5)), None);
    assert_eq!(layout.get_nodes_with_open_end(5), vec![0]);
    layout.attach(Tile::from((5, 2)), Some(0));
    layout.attach(Tile::from((5, 1)), Some(0));
    layout.attach(Tile::from((2, 2)), Some(1));
    layout.attach(Tile::from((1, 2)), Some(2));
    assert_eq!(sorted(layout.get_nodes_with_open_end(2)), vec![3, 4]);
    assert!(layout.get_nodes_with_open_end(5).is_empty());
    assert!(layout.get_nodes_with_open_end(0).is_empty());
}

#[test]
fn test_structural_round_trip_keeps_counts_and_open_nodes() {
    let configuration = Configuration::default();
    let mut layout = Layout::new(&configuration);
    layout.attach(Tile::from((6, 6)), None);
    layout.attach(Tile::from((3, 6)), Some(0));
    layout.attach(Tile::from((3, 3)), Some(1));
    layout.attach(Tile::from((1, 3)), Some(2));
    layout.attach(Tile::from((6, 2)), Some(0));
    layout.attach(Tile::from((2, 2)), Some(4));

    let form = layout.serialize();
    assert_eq!(form.set_id, 6);
    assert_eq!(form.nodes.len(), 6);
    assert_eq!(form.nodes[1], StructuralNode { tile: (3, 6), parent: Some(0), children: vec![2] });

    let restored = Layout::deserialize(&form).expect("the form of a layout is accepted");
    assert_eq!(restored.end_counts, layout.end_counts);
    for value in 0..=6u8 {
        assert_eq!(restored.open_count(value), layout.open_count(value));
        assert_eq!(
            sorted(restored.get_nodes_with_open_end(value)),
            sorted(layout.get_nodes_with_open_end(value))
        );
    }
    assert_eq!(restored.to_string(), layout.to_string());
    assert_eq!(restored.serialize(), form);
}

#[test]
fn test_deserialize_accepts_either_order_of_a_tile() {
    let form = StructuralLayout {
        nodes: vec![
            StructuralNode { tile: (4, 4), parent: None, children: vec![1] },
            StructuralNode { tile: (5, 4), parent: Some(0), children: vec![] },
        ],
        set_id: 6,
    };
    let layout = Layout::deserialize(&form).unwrap();
    assert_eq!(layout.nodes[1].tile, Tile::from((4, 5)));
    assert_eq!(layout.end_counts, vec![0, 0, 0, 0, 1, 1, 0]);
    assert_eq!(layout.open.get_vec(&0), Some(&vec![4]));
    assert_eq!(layout.open.get_vec(&1), Some(&vec![5]));
}

#[test]
fn test_rebuild_opens_both_ends_of_a_root_that_is_no_double() {
    let form = StructuralLayout {
        nodes: vec![StructuralNode { tile: (1, 2), parent: None, children: vec![] }],
        set_id: 2,
    };
    let layout = Layout::deserialize(&form).unwrap();
    assert_eq!(layout.end_counts, vec![0, 1, 1]);
    assert_eq!(layout.open.get_vec(&0), Some(&vec![1, 2]));
    assert_eq!(layout.get_nodes_with_open_end(2), vec![0]);
}

#[test]
fn test_rebuild_replaces_a_stale_index() {
    let configuration = Configuration::default();
    let mut layout = Layout::new(&configuration);
    layout.attach(Tile::from((6, 6)), None);
    layout.attach(Tile::from((6, 1)), Some(0));
    layout.open.insert(7, 3);
    layout.end_counts[0] = 9;
    assert_eq!(layout.rebuild_open_and_end_counts(), Ok(()));
    assert_eq!(layout.end_counts, vec![0, 1, 0, 0, 0, 0, 1]);
    assert_eq!(layout.open.len(), 2);
}

fn node(tile: (u8, u8), parent: Option<usize>, children: Vec<usize>) -> StructuralNode {
    StructuralNode { tile, parent, children }
}

#[test]
fn test_deserialize_reports_each_fault() {
    let too_large = StructuralLayout { nodes: vec![], set_id: 22 };
    assert_eq!(Layout::deserialize(&too_large).unwrap_err(), LayoutError::SetTooLarge);

    let unsupported = StructuralLayout {
        nodes: vec![node((6, 6), None, vec![1]), node((6, 22), Some(0), vec![])],
        set_id: 6,
    };
    assert_eq!(
        Layout::deserialize(&unsupported).unwrap_err(),
        LayoutError::ValueOutOfRange { node: 1 }
    );

    let beyond_set = StructuralLayout {
        nodes: vec![node((6, 6), None, vec![1]), node((6, 7), Some(0), vec![])],
        set_id: 6,
    };
    assert_eq!(
        Layout::deserialize(&beyond_set).unwrap_err(),
        LayoutError::ValueOutOfRange { node: 1 }
    );

    let crowded = StructuralLayout {
        nodes: vec![
            node((6, 6), None, vec![1, 2, 3]),
            node((6, 1), Some(0), vec![]),
            node((6, 2), Some(0), vec![]),
            node((6, 3), Some(0), vec![]),
        ],
        set_id: 6,
    };
    assert_eq!(
        Layout::deserialize(&crowded).unwrap_err(),
        LayoutError::TooManyChildren { node: 0 }
    );

    let dangling_child = StructuralLayout { nodes: vec![node((6, 6), None, vec![4])], set_id: 6 };
    assert_eq!(
        Layout::deserialize(&dangling_child).unwrap_err(),
        LayoutError::LinkOutOfRange { node: 0 }
    );

    let dangling_parent = StructuralLayout {
        nodes: vec![node((6, 6), None, vec![]), node((6, 1), Some(2), vec![])],
        set_id: 6,
    };
    assert_eq!(
        Layout::deserialize(&dangling_parent).unwrap_err(),
        LayoutError::LinkOutOfRange { node: 1 }
    );

    let forked = StructuralLayout {
        nodes: vec![
            node((6, 6), None, vec![1]),
            node((6, 1), Some(0), vec![2, 3]),
            node((1, 2), Some(1), vec![]),
            node((1, 3), Some(1), vec![]),
        ],
        set_id: 6,
    };
    assert_eq!(
        Layout::deserialize(&forked).unwrap_err(),
        LayoutError::NonDoubleTooManyChildren { node: 1 }
    );
}

#[test]
fn test_deserialize_reports_more_open_ends_than_can_be_counted() {
    // 86 roots without links: each double leaves three ends of its value open.
    let mut nodes = Vec::new();
    for _ in 0..86 {
        nodes.push(node((0, 0), Some(0), vec![]));
    }
    nodes[0] = node((0, 0), None, vec![]);
    let form = StructuralLayout { nodes, set_id: 0 };
    // Node 0 opens two ends, each further node two more: the count passes 255 at node 127.
    let error = Layout::deserialize(&form);
    assert!(error.is_ok());
    let mut nodes = Vec::new();
    nodes.push(node((0, 0), None, vec![]));
    for _ in 0..127 {
        nodes.push(node((0, 0), Some(0), vec![]));
    }
    let form = StructuralLayout { nodes, set_id: 0 };
    assert_eq!(Layout::deserialize(&form).unwrap_err(), LayoutError::TooManyOpenEnds { node: 127 });
}

#[test]
fn test_text_of_a_layout_parses_to_the_tree_of_the_layout() {
    let configuration = Configuration::default();
    let mut layout = Layout::new(&configuration);
    layout.attach(Tile::from((3, 3)), None);
    layout.attach(Tile::from((2, 3)), Some(0));
    layout.attach(Tile::from((2, 6)), Some(1));
    layout.attach(Tile::from((6, 6)), Some(2));
    layout.attach(Tile::from((6, 0)), Some(3));
    layout.attach(Tile::from((0, 1)), Some(4));
    layout.attach(Tile::from((6, 5)), Some(3));
    layout.attach(Tile::from((3, 5)), Some(0));
    let text = layout.to_string();
    assert_eq!(text, "3|3=(3|2-2|6-6|6=(6|0-0|1,6|5),3|5)");

    let parsed = parse(&text).expect("the text of a layout is a layout");
    let tiles: Vec<Tile> = parsed.root().descendants().map(|node| *node.value()).collect();
    let expected: Vec<Tile> = layout.nodes.iter().map(|node: &LayoutNode| node.tile).collect();
    assert_eq!(tiles.len(), 8);
    assert_eq!(tiles[..7], expected[..7]);
    assert_eq!(tiles[7], Tile::from((3, 5)));
    let tree = layout.to_tree().unwrap();
    let shape = |tree: &ego_tree::Tree<Tile>| -> Vec<(Tile, Option<Tile>, usize)> {
        tree.root()
            .descendants()
            .map(|node| (*node.value(), node.parent().map(|p| *p.value()), node.children().count()))
            .collect()
    };
    assert_eq!(shape(&parsed), shape(&tree));
}

#[test]
fn test_text_of_a_double_with_one_child_is_refused_by_the_parser() {
    let configuration = Configuration::default();
    let mut layout = Layout::new(&configuration);
    layout.attach(Tile::from((6, 6)), None);
    layout.attach(Tile::from((3, 6)), Some(0));
    let error = parse(&layout.to_string()).unwrap_err();
    assert_eq!(error.position, 3);
    assert_eq!(error.message, "6|6 followed by '-'. Doubles must be followed by =");
}

#[test]
fn test_layout_error_messages() {
    assert_eq!(LayoutError::TooManyChildren { node: 12 }.message(), "Tile node 12 has more than 2 children");
    assert_eq!(
        LayoutError::NonDoubleTooManyChildren { node: 0 }.message(),
        "Non-double tile node 0 has more than 1 child"
    );
    assert_eq!(LayoutError::SetTooLarge.message(), "The set is larger than a double-21 set");
    assert_eq!(
        LayoutError::ValueOutOfRange { node: 3 }.message(),
        "Tile node 3 has a value that is not in the set"
    );
    assert_eq!(
        LayoutError::LinkOutOfRange { node: 100 }.message(),
        "Tile node 100 is linked to a node that does not exist"
    );
    assert_eq!(
        LayoutError::TooManyOpenEnds { node: 127 }.message(),
        "Tile node 127 opens more ends of a value than can be counted"
    );
}
