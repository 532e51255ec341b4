use rand::rngs::StdRng;
use rand::SeedableRng;
use tictactoe::board::{Board, FieldData};
use tictactoe::mcts::{calculate_ucb, node_expansion, rollout, selection, _selection, Node, Tree};
use tictactoe::ucb::UNVISITED_SCORE;

const X: FieldData = FieldData::X;
const O: FieldData = FieldData::O;
const E: FieldData = FieldData::Empty;

fn squares(c: [FieldData; 9]) -> Board {
    [[c[0], c[1], c[2]], [c[3], c[4], c[5]], [c[6], c[7], c[8]]]
}

/// A root with two children, the first of which has one child.
fn small_tree() -> Tree {
    let empty = squares([E; 9]);
    let mut tree = Tree::initialize(Node::new(None, empty, 0, None));
    tree.insert_new_node(Node::new(Some(0), squares([O, E, E, E, E, E, E, E, E]), 1, Some(0)));
    tree.insert_new_node(Node::new(Some(0), squares([E, O, E, E, E, E, E, E, E]), 2, Some(1)));
    tree.insert_new_node(Node::new(Some(1), squares([O, O, E, E, E, E, E, E, E]), 3, Some(1)));
    tree
}

#[test]
fn new_node_is_unvisited_and_childless() {
    let state = squares([X, E, E, E, O, E, E, E, E]);
    let node = Node::new(Some(4), state, 7, Some(3));
    assert_eq!(node.parent, Some(4));
    assert!(node.children.is_empty());
    assert_eq!(node.value, 0);
    assert_eq!(node.visits, 0);
    assert_eq!(node.state, state);
    assert_eq!(node.action, Some(3));
    assert_eq!(node.id, 7);
}

#[test]
fn initial_tree_holds_the_root_alone() {
    let tree = Tree::initialize(Node::new(None, squares([E; 9]), 0, None));
    assert_eq!(tree.root, 0);
    assert_eq!(tree.nodes.len(), 1);
    assert_eq!(tree.nodes[0].parent, None);
    assert_eq!(tree.nodes[0].action, None);
    assert_eq!(tree.nodes[0].visits, 0);
}

#[test]
fn inserted_node_is_listed_last_at_its_parent() {
    let tree = small_tree();
    assert_eq!(tree.nodes.len(), 4);
    assert_eq!(tree.nodes[0].children, vec![1, 2]);
    assert_eq!(tree.nodes[1].children, vec![3]);
    assert!(tree.nodes[2].children.is_empty());
    assert!(tree.nodes[3].children.is_empty());
    assert_eq!(tree.nodes[3].parent, Some(1));
    assert_eq!(tree.nodes[3].id, 3);
}

#[test]
fn insertion_keeps_the_first_node_as_the_only_root() {
    let mut tree = small_tree();
    tree.insert_new_node(Node::new(Some(0), squares([E, E, O, E, E, E, E, E, E]), 4, Some(2)));
    tree.insert_new_node(Node::new(Some(4), squares([E, O, O, E, E, E, E, E, E]), 5, Some(1)));
    assert_eq!(tree.nodes[0].parent, None);
    for position in 1..tree.nodes.len() {
        let parent = tree.nodes[position].parent.unwrap();
        assert!(parent < position);
        assert_eq!(tree.nodes[parent].children.iter().filter(|c| **c == position).count(), 1);
    }
    assert_eq!(tree.nodes[0].children, vec![1, 2, 4]);
    assert_eq!(tree.nodes[4].children, vec![5]);
}

#[test]
fn back_propagation_updates_the_path_to_the_root_only() {
    let mut tree = small_tree();
    tree.back_propagate(3, 10);
    assert_eq!((tree.nodes[3].visits, tree.nodes[3].value), (1, 10));
    assert_eq!((tree.nodes[1].visits, tree.nodes[1].value), (1, 10));
    assert_eq!((tree.nodes[0].visits, tree.nodes[0].value), (1, 10));
    assert_eq!((tree.nodes[2].visits, tree.nodes[2].value), (0, 0));
    tree.back_propagate(2, -10);
    assert_eq!((tree.nodes[2].visits, tree.nodes[2].value), (1, -10));
    assert_eq!((tree.nodes[0].visits, tree.nodes[0].value), (2, 0));
    assert_eq!((tree.nodes[1].visits, tree.nodes[1].value), (1, 10));
    assert_eq!((tree.nodes[3].visits, tree.nodes[3].value), (1, 10));
    // Links are left alone.
    assert_eq!(tree.nodes[0].children, vec![1, 2]);
    assert_eq!(tree.nodes[3].parent, Some(1));
}

#[test]
fn back_propagation_from_the_root_updates_the_root() {
    let mut tree = small_tree();
    tree.back_propagate(0, -10);
    assert_eq!((tree.nodes[0].visits, tree.nodes[0].value), (1, -10));
    assert_eq!((tree.nodes[1].visits, tree.nodes[1].value), (0, 0));
}

#[test]
fn back_propagation_from_outside_the_arena_changes_nothing() {
    let mut tree = small_tree();
    tree.back_propagate(4, 10);
    tree.back_propagate(usize::MAX, 10);
    for node in &tree.nodes {
        assert_eq!((node.visits, node.value), (0, 0));
    }
}

#[test]
fn score_of_a_node_uses_the_visits_of_its_parent() {
    let mut tree = small_tree();
    assert_eq!(calculate_ucb(1, &tree), UNVISITED_SCORE);
    tree.back_propagate(3, 10);
    tree.back_propagate(1, 0);
    tree.back_propagate(2, -10);
    tree.back_propagate(2, 0);
    // Root: 4 visits. Node 1: value 10 in 2 visits. Node 2: value -10 in 2 visits.
    assert_eq!(calculate_ucb(1, &tree), 5000 + 1665);
    assert_eq!(calculate_ucb(2, &tree), -5000 + 1665);
    // Node 3: value 10 in 1 visit below node 1 with 2 visits:
    // 2 * sqrt(ln 2) = 1.6651...
    assert_eq!(calculate_ucb(3, &tree), 10000 + 1665);
    // The root counts as its own parent.
    assert_eq!(calculate_ucb(0, &tree), 0 + 1177);
}

#[test]
fn best_action_without_children_is_the_first_empty_cell() {
    let tree = small_tree();
    // The board of node 2 holds a mark on cell 1 only, that of node 3 on cells 0 and 1.
    assert_eq!(tree.get_best_action(2), 0);
    assert_eq!(tree.get_best_action(3), 2);
    let late = Tree::initialize(Node::new(None, squares([X, O, X, X, O, O, O, E, E]), 0, None));
    assert_eq!(late.get_best_action(0), 7);
}

#[test]
fn best_action_on_a_full_board_without_children_is_0() {
    let tree = Tree::initialize(Node::new(None, squares([X, O, X, X, O, O, O, X, X]), 0, None));
    assert_eq!(tree.get_best_action(0), 0);
}

#[test]
fn best_action_prefers_the_first_unvisited_child() {
    let mut tree = small_tree();
    // Both children unvisited: the one added first.
    assert_eq!(tree.get_best_action(0), 0);
    assert_eq!(tree.best_child(0), 1);
    // The first child visited, the second not.
    tree.back_propagate(1, 10);
    assert_eq!(tree.best_child(0), 2);
    assert_eq!(tree.get_best_action(0), 1);
}

#[test]
fn best_action_is_the_action_of_the_child_with_the_highest_score() {
    let mut tree = small_tree();
    tree.back_propagate(1, -10);
    tree.back_propagate(2, 10);
    assert_eq!(tree.best_child(0), 2);
    assert_eq!(tree.get_best_action(0), 1);
    // Equal scores: the child added first.
    let mut tied = small_tree();
    tied.back_propagate(1, 10);
    tied.back_propagate(2, 10);
    assert_eq!(tied.best_child(0), 1);
    assert_eq!(tied.get_best_action(0), 0);
}

#[test]
fn selection_stays_at_a_childless_root() {
    let tree = Tree::initialize(Node::new(None, squares([E; 9]), 0, None));
    assert_eq!(selection(&tree), 0);
}

#[test]
fn selection_descends_by_the_best_child_to_a_leaf() {
    let mut tree = small_tree();
    // Unvisited children: the first child, then its only child.
    assert_eq!(selection(&tree), 3);
    assert_eq!(_selection(1, &tree), 3);
    assert_eq!(_selection(2, &tree), 2);
    // Once the first child is visited, the unvisited second child is preferred.
    tree.back_propagate(3, 0);
    assert_eq!(selection(&tree), 2);
}

#[test]
fn rollout_at_a_finished_game_is_the_worth_of_that_game() {
    let mut rng = StdRng::seed_from_u64(1);
    let won_by_o = squares([O, O, O, X, X, E, E, E, E]);
    let mut tree = Tree::initialize(Node::new(None, won_by_o, 0, None));
    assert_eq!(rollout(0, &mut tree, &O, &mut rng), 10);
    assert_eq!(rollout(0, &mut tree, &X, &mut rng), -10);
    let drawn = squares([X, O, X, X, O, O, O, X, X]);
    let mut tree = Tree::initialize(Node::new(None, drawn, 0, None));
    assert_eq!(rollout(0, &mut tree, &O, &mut rng), 0);
}

#[test]
fn rollout_with_one_move_left_is_decided_by_that_move() {
    let mut rng = StdRng::seed_from_u64(2);
    // Cell 2 is the only empty cell, and the player who begins wins with it.
    let state = squares([O, O, E, X, X, O, X, O, X]);
    let mut tree = Tree::initialize(Node::new(None, state, 0, None));
    assert_eq!(rollout(0, &mut tree, &O, &mut rng), 10);
    // X begins instead: 2-4-6 is complete for X.
    assert_eq!(rollout(0, &mut tree, &X, &mut rng), 10);
    // Nobody wins with the last cell.
    let state = squares([X, O, X, X, O, O, O, X, E]);
    let mut tree = Tree::initialize(Node::new(None, state, 0, None));
    assert_eq!(rollout(0, &mut tree, &X, &mut rng), 0);
}

#[test]
fn rollout_is_worth_ten_zero_or_minus_ten_and_leaves_the_tree_alone() {
    let mut rng = StdRng::seed_from_u64(3);
    let state = squares([X, E, E, E, O, E, E, E, E]);
    let mut tree = Tree::initialize(Node::new(None, state, 0, None));
    for _ in 0..200 {
        let value = rollout(0, &mut tree, &O, &mut rng);
        assert!(value == 10 || value == 0 || value == -10);
    }
    assert_eq!(tree.nodes.len(), 1);
    assert_eq!(tree.nodes[0].state, state);
    assert_eq!((tree.nodes[0].visits, tree.nodes[0].value), (0, 0));
}

#[test]
fn rollout_reaches_every_outcome_from_the_empty_board() {
    let mut rng = StdRng::seed_from_u64(4);
    let mut tree = Tree::initialize(Node::new(None, squares([E; 9]), 0, None));
    let mut seen = [false; 3];
    for _ in 0..500 {
        match rollout(0, &mut tree, &O, &mut rng) {
            10 => seen[0] = true,
            0 => seen[1] = true,
            -10 => seen[2] = true,
            other => panic!("unexpected reward {}", other),
        }
    }
    assert_eq!(seen, [true, true, true]);
}

#[test]
fn expansion_makes_one_child_for_each_empty_cell() {
    let mut rng = StdRng::seed_from_u64(5);
    let state = squares([X, E, O, E, E, X, O, E, X]);
    let mut tree = Tree::initialize(Node::new(None, state, 0, None));
    let picked = node_expansion(0, &mut tree, &O, &mut rng);
    assert_eq!(tree.nodes.len(), 5);
    assert_eq!(tree.nodes[0].children, vec![1, 2, 3, 4]);
    let cells = [1usize, 3, 4, 7];
    for (k, cell) in cells.iter().enumerate() {
        let child = &tree.nodes[k + 1];
        assert_eq!(child.id, k + 1);
        assert_eq!(child.parent, Some(0));
        assert_eq!(child.action, Some(*cell));
        assert_eq!((child.visits, child.value), (0, 0));
        assert!(child.children.is_empty());
        let mut expected = state;
        expected[cell / 3][cell % 3] = O;
        assert_eq!(child.state, expected);
    }
    assert!(1 <= picked && picked <= 4);
    assert_eq!(tree.nodes[0].state, state);
}

#[test]
fn expansion_hands_on_each_new_child_sometimes() {
    let mut rng = StdRng::seed_from_u64(6);
    let state = squares([X, O, X, E, O, E, E, X, O]);
    let mut seen = [false; 3];
    for _ in 0..200 {
        let mut tree = Tree::initialize(Node::new(None, state, 0, None));
        let picked = node_expansion(0, &mut tree, &X, &mut rng);
        assert!(1 <= picked && picked <= 3);
        seen[picked - 1] = true;
    }
    assert_eq!(seen, [true, true, true]);
}

#[test]
fn expansion_of_a_full_board_makes_nothing_and_hands_on_the_node() {
    let mut rng = StdRng::seed_from_u64(7);
    let mut tree = small_tree();
    tree.insert_new_node(Node::new(Some(2), squares([X, O, X, X, O, O, O, X, X]), 4, Some(8)));
    let picked = node_expansion(4, &mut tree, &O, &mut rng);
    assert_eq!(picked, 4);
    assert_eq!(tree.nodes.len(), 5);
    assert!(tree.nodes[4].children.is_empty());
}

#[test]
fn expansion_below_an_inner_node_appends_to_the_arena() {
    let mut rng = StdRng::seed_from_u64(8);
    let mut tree = small_tree();
    let picked = node_expansion(3, &mut tree, &O, &mut rng);
    assert_eq!(tree.nodes.len(), 4 + 7);
    assert_eq!(tree.nodes[3].children, vec![4, 5, 6, 7, 8, 9, 10]);
    assert_eq!(tree.nodes[0].children, vec![1, 2]);
    assert!(4 <= picked && picked <= 10);
    assert_eq!(tree.nodes[4].action, Some(2));
    assert_eq!(tree.nodes[10].action, Some(8));
    assert_eq!(tree.nodes[10].parent, Some(3));
}
