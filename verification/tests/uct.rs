use mcts_connect_four::connect_four::{Move, MoveType, Player};
use mcts_connect_four::game_search::{Action, State};
use mcts_connect_four::mcts::{uct_score, uct_select, MctsTree};

fn insert(col: usize) -> Action {
    Action(Move { move_type: MoveType::Insert, column: col })
}

/// Scores are in millionths; compare against the textbook values.
fn close(score: u64, expected: f64) -> bool {
    (score as f64 / 1_000_000.0 - expected).abs() <= 0.001
}

#[test]
fn test_uct_score_first_child() {
    let score = uct_score(79, 60, 100, 1_400_000);
    assert!(close(score, 1.098), "score: {}", score);
}

#[test]
fn test_uct_score_second_child() {
    let score = uct_score(10, 1, 100, 1_400_000);
    assert!(close(score, 1.050), "score: {}", score);
}

#[test]
fn test_uct_score_third_child() {
    let score = uct_score(11, 2, 100, 1_400_000);
    assert!(close(score, 1.088), "score: {}", score);
}

#[test]
fn test_uct_score_unvisited_is_unbounded() {
    // an unvisited node outranks everything: the largest representable score
    assert_eq!(uct_score(0, 0, 100, 1_400_000), u64::MAX);
    assert_eq!(uct_score(0, 0, 0, 1_400_000), u64::MAX);
}

#[test]
fn test_mcts_tree_root_starts_off_as_zero() {
    let root_state = State::new(7, 6, Player::Player1, Player::Player1);
    let tree = MctsTree::new(root_state);
    let root_node = tree.get_root();
    assert_eq!(root_node.visits, 0);
    assert_eq!(root_node.wins, 0);
    assert!(root_node.children.is_empty());
}

// The reference tree: root 100 visits and 37 wins, children 60/79, 1/10
// and 2/11 (wins/visits), with further descendants under the first two.
fn build_test_tree() -> MctsTree {
    let root_state = State::new(7, 6, Player::Player1, Player::Player1);
    let mut tree = MctsTree::new(root_state);
    let root = tree.get_root_nodekey();
    {
        let root_node = tree.get_mut_root();
        root_node.wins = 37;
        root_node.visits = 100;
    }

    let first_child = tree.add_child(root, insert(0));
    {
        let node = tree.get_mut_node_from_nodekey(first_child);
        node.wins = 60;
        node.visits = 79;
    }

    let first_grandchild = tree.add_child(first_child, insert(0));
    {
        let node = tree.get_mut_node_from_nodekey(first_grandchild);
        node.wins = 3;
        node.visits = 26;
    }

    let second_grandchild = tree.add_child(first_child, insert(1));
    {
        let node = tree.get_mut_node_from_nodekey(second_grandchild);
        node.wins = 16;
        node.visits = 53;
    }

    let first_great_grandchild = tree.add_child(second_grandchild, insert(0));
    {
        let node = tree.get_mut_node_from_nodekey(first_great_grandchild);
        node.wins = 27;
        node.visits = 35;
    }

    let second_great_grandchild = tree.add_child(second_grandchild, insert(1));
    {
        let node = tree.get_mut_node_from_nodekey(second_great_grandchild);
        node.wins = 10;
        node.visits = 18;
    }

    let second_child = tree.add_child(root, insert(1));
    {
        let node = tree.get_mut_node_from_nodekey(second_child);
        node.wins = 1;
        node.visits = 10;
    }

    let grandchild = tree.add_child(second_child, insert(0));
    {
        let node = tree.get_mut_node_from_nodekey(grandchild);
        node.wins = 6;
        node.visits = 6;
    }

    let great_grandchild = tree.add_child(grandchild, insert(1));
    {
        let node = tree.get_mut_node_from_nodekey(great_grandchild);
        node.wins = 0;
        node.visits = 3;
    }

    let great_grandchild = tree.add_child(grandchild, insert(2));
    {
        let node = tree.get_mut_node_from_nodekey(great_grandchild);
        node.wins = 0;
        node.visits = 3;
    }

    let second_grandchild = tree.add_child(second_child, insert(1));
    {
        let node = tree.get_mut_node_from_nodekey(second_grandchild);
        node.wins = 3;
        node.visits = 4;
    }

    let third_child = tree.add_child(root, insert(2));
    {
        let node = tree.get_mut_node_from_nodekey(third_child);
        node.wins = 2;
        node.visits = 11;
    }

    tree
}

#[test]
fn test_mcts_tree_small_tree_c_14_first_child_selected() {
    let tree = build_test_tree();
    let result = uct_select(&tree, tree.get_root_nodekey(), 1_400_000);
    let selected_child = tree.get_node_from_nodekey(result.node);
    assert_eq!(selected_child.visits, 79);
    assert_eq!(selected_child.wins, 60);
}

#[test]
fn test_mcts_tree_small_tree_c_15_third_child_selected() {
    let tree = build_test_tree();
    let result = uct_select(&tree, tree.get_root_nodekey(), 1_500_000);
    let selected_child = tree.get_node_from_nodekey(result.node);
    assert_eq!(selected_child.visits, 11);
    assert_eq!(selected_child.wins, 2);
}

#[test]
fn test_uct_select_on_childless_node_is_finished() {
    let root_state = State::new(7, 6, Player::Player1, Player::Player1);
    let tree = MctsTree::new(root_state);
    let result = uct_select(&tree, tree.get_root_nodekey(), 1_400_000);
    assert!(result.finished);
    assert_eq!(result.node, tree.get_root_nodekey());
    assert!(result.action.is_none());
}
