use pumpkin::item::Rarity;
use pumpkin::tree::{CommandTree, Node, NodeType};

fn node(children: Vec<usize>, node_type: NodeType) -> Node {
    Node { children, node_type }
}

/// root -> a -> {leaf, b -> leaf}, root -> <x> -> leaf
fn sample() -> CommandTree {
    CommandTree {
        nodes: vec![
            node(vec![1, 2], NodeType::Literal { string: "a".to_string() }),
            node(vec![], NodeType::ExecuteLeaf { run: 0 }),
            node(vec![3], NodeType::Literal { string: "b".to_string() }),
            node(vec![], NodeType::ExecuteLeaf { run: 1 }),
            node(vec![5], NodeType::Argument { name: "x".to_string(), consumer: 0 }),
            node(vec![6], NodeType::Require { predicate: 0 }),
            node(vec![], NodeType::ExecuteLeaf { run: 2 }),
        ],
        children: vec![0, 4],
    }
}

#[test]
fn paths_are_enumerated_depth_first_in_declaration_order() {
    assert_eq!(sample().iter_paths(), vec![vec![0, 1], vec![0, 2, 3], vec![4, 5, 6]]);
}

#[test]
fn usage_has_one_line_per_path() {
    assert_eq!(sample().paths_formatted("cmd"), "\ncmd a\ncmd a b\ncmd <x>");
}

#[test]
fn tree_without_leaf_has_no_path() {
    let t = CommandTree {
        nodes: vec![node(vec![], NodeType::Literal { string: "a".to_string() })],
        children: vec![0],
    };
    assert!(t.iter_paths().is_empty());
    assert_eq!(t.paths_formatted("cmd"), "");
}

#[test]
fn children_may_stand_before_their_parent() {
    // node 1 names node 0 as its child; index 9 is not a node
    let t = CommandTree {
        nodes: vec![
            node(vec![], NodeType::ExecuteLeaf { run: 0 }),
            node(vec![0], NodeType::Literal { string: "a".to_string() }),
        ],
        children: vec![1, 0, 9],
    };
    assert_eq!(t.iter_paths(), vec![vec![1, 0], vec![0]]);
    assert_eq!(t.paths_formatted("cmd"), "\ncmd a\ncmd");
}

#[test]
fn a_cycle_of_indices_does_not_repeat_a_node() {
    // 0 -> 1 -> {0, 2}: the way back to 0 is not followed
    let t = CommandTree {
        nodes: vec![
            node(vec![1], NodeType::Literal { string: "a".to_string() }),
            node(vec![0, 2], NodeType::Literal { string: "b".to_string() }),
            node(vec![], NodeType::ExecuteLeaf { run: 0 }),
        ],
        children: vec![0],
    };
    assert_eq!(t.iter_paths(), vec![vec![0, 1, 2]]);
}

#[test]
fn rarities_compare_by_variant() {
    assert_eq!(Rarity::Epic, Rarity::Epic.clone());
    assert_ne!(Rarity::Common, Rarity::UnCommon);
}
