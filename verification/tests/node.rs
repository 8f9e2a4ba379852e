use mcts::game::Game;
use mcts::node::MctsNode;
use mcts::tic_tac_toe::TicTacToe;

fn small_tree() -> Vec<MctsNode<TicTacToe>> {
    // the root, its nine children, and the eight children of the child
    // that marks tile 4
    let mut nodes: Vec<MctsNode<TicTacToe>> = Vec::new();
    MctsNode::new_rc(&mut nodes, None, TicTacToe::new());
    MctsNode::expand(&mut nodes, 0);
    let middle = nodes[0].children[4];
    MctsNode::expand(&mut nodes, middle);
    nodes
}

#[test]
fn new_node_has_no_statistics() {
    let node = MctsNode::new(Some(3), TicTacToe::new());
    assert_eq!(node.scores, vec![0, 0]);
    assert_eq!(node.simulations, 0);
    assert_eq!(node.parent, Some(3));
    assert!(node.children.is_empty());
    assert!(!node.state.is_over());
}

#[test]
fn new_rc_appends_and_returns_the_index() {
    let mut nodes: Vec<MctsNode<TicTacToe>> = Vec::new();
    assert_eq!(MctsNode::new_rc(&mut nodes, None, TicTacToe::new()), 0);
    assert_eq!(MctsNode::new_rc(&mut nodes, Some(0), TicTacToe::new()), 1);
    assert_eq!(nodes.len(), 2);
    assert_eq!(nodes[1].parent, Some(0));
    assert!(nodes[0].children.is_empty());
}

#[test]
fn record_adds_scores_and_one_simulation() {
    let mut node = MctsNode::new(None, TicTacToe::new());
    node.record(&vec![1, -1]);
    node.record(&vec![1, -1]);
    node.record(&vec![-1, 1]);
    node.record(&vec![0, 0]);
    assert_eq!(node.simulations, 4);
    assert_eq!(node.scores, vec![1, -1]);
}

#[test]
fn record_holds_the_largest_scores() {
    let mut node = MctsNode::new(None, TicTacToe::new());
    node.record(&vec![i64::MAX, i64::MIN]);
    node.record(&vec![i64::MAX, i64::MIN]);
    assert_eq!(node.scores, vec![2 * (i64::MAX as i128), 2 * (i64::MIN as i128)]);
}

#[test]
fn expand_links_children_in_action_order() {
    let nodes = small_tree();
    assert_eq!(nodes.len(), 1 + 9 + 8);
    assert_eq!(nodes[0].children, vec![1, 2, 3, 4, 5, 6, 7, 8, 9]);
    assert_eq!(nodes[5].children, vec![10, 11, 12, 13, 14, 15, 16, 17]);
    for (index, node) in nodes.iter().enumerate() {
        assert_eq!(node.simulations, 0);
        assert_eq!(node.scores, vec![0, 0]);
        if index == 0 {
            assert_eq!(node.parent, None);
        } else if index < 10 {
            assert_eq!(node.parent, Some(0));
            assert_eq!(node.state.active_player(), Some(1));
        } else {
            assert_eq!(node.parent, Some(5));
            assert_eq!(node.state.active_player(), Some(0));
        }
    }
    // the child of index k has the k-th empty tile marked
    for action in 0..9 {
        let mut state = nodes[1 + action].state.snapshot();
        state.cache_actions();
        let free: Vec<usize> = state.actions.iter().map(|a| a.tile).collect();
        let expected: Vec<usize> = (0..9).filter(|&tile| tile != action).collect();
        assert_eq!(free, expected);
    }
    let mut state = nodes[12].state.snapshot();
    state.cache_actions();
    let free: Vec<usize> = state.actions.iter().map(|a| a.tile).collect();
    assert_eq!(free, vec![0, 1, 3, 5, 6, 7, 8]);
}

#[test]
fn expand_at_a_full_board_adds_nothing() {
    let mut game = TicTacToe::new();
    for tile in [0usize, 1, 2, 4, 3, 5, 7, 6, 8] {
        let count = game.cache_actions();
        let action = (0..count).find(|&k| game.actions[k].tile == tile).unwrap();
        game.make_action(action);
    }
    let mut nodes: Vec<MctsNode<TicTacToe>> = Vec::new();
    MctsNode::new_rc(&mut nodes, None, game);
    MctsNode::expand(&mut nodes, 0);
    assert_eq!(nodes.len(), 1);
    assert!(nodes[0].children.is_empty());
}

#[test]
fn backpropagate_changes_the_path_and_nothing_else() {
    let mut nodes = small_tree();
    MctsNode::backpropagate(&mut nodes, 12, &vec![3, -2]);
    for (index, node) in nodes.iter().enumerate() {
        if index == 12 || index == 5 || index == 0 {
            assert_eq!(node.simulations, 1, "node {}", index);
            assert_eq!(node.scores, vec![3, -2], "node {}", index);
        } else {
            assert_eq!(node.simulations, 0, "node {}", index);
            assert_eq!(node.scores, vec![0, 0], "node {}", index);
        }
    }
    MctsNode::backpropagate(&mut nodes, 5, &vec![-1, 1]);
    MctsNode::backpropagate(&mut nodes, 3, &vec![10, 20]);
    MctsNode::backpropagate(&mut nodes, 0, &vec![100, 200]);
    assert_eq!(nodes[12].simulations, 1);
    assert_eq!(nodes[12].scores, vec![3, -2]);
    assert_eq!(nodes[5].simulations, 2);
    assert_eq!(nodes[5].scores, vec![2, -1]);
    assert_eq!(nodes[3].simulations, 1);
    assert_eq!(nodes[3].scores, vec![10, 20]);
    assert_eq!(nodes[0].simulations, 4);
    assert_eq!(nodes[0].scores, vec![112, 219]);
    for index in [1usize, 2, 4, 6, 7, 8, 9, 10, 11, 13, 14, 15, 16, 17] {
        assert_eq!(nodes[index].simulations, 0);
        assert_eq!(nodes[index].scores, vec![0, 0]);
    }
}

#[test]
fn backpropagate_keeps_the_links() {
    let mut nodes = small_tree();
    let links: Vec<(Option<usize>, Vec<usize>)> =
        nodes.iter().map(|n| (n.parent, n.children.clone())).collect();
    MctsNode::backpropagate(&mut nodes, 17, &vec![1, -1]);
    let after: Vec<(Option<usize>, Vec<usize>)> =
        nodes.iter().map(|n| (n.parent, n.children.clone())).collect();
    assert_eq!(links, after);
}

#[test]
fn expand_leaves_the_state_of_the_node_alone() {
    let mut nodes: Vec<MctsNode<TicTacToe>> = Vec::new();
    MctsNode::new_rc(&mut nodes, None, TicTacToe::new());
    assert!(nodes[0].state.actions.is_empty());
    MctsNode::expand(&mut nodes, 0);
    assert_eq!(nodes[0].children.len(), 9);
    // the legal actions were cached on a copy
    assert!(nodes[0].state.actions.is_empty());
    assert_eq!(nodes[0].state.active_player, 0);
    assert_eq!(nodes[0].simulations, 0);
    assert_eq!(nodes[0].scores, vec![0, 0]);
    assert_eq!(nodes[0].parent, None);
}

#[test]
fn expand_does_not_expand_again() {
    let mut nodes: Vec<MctsNode<TicTacToe>> = Vec::new();
    MctsNode::new_rc(&mut nodes, None, TicTacToe::new());
    assert!(MctsNode::expand(&mut nodes, 0));
    assert_eq!(nodes.len(), 10);
    let children = nodes[0].children.clone();
    assert!(!MctsNode::expand(&mut nodes, 0));
    assert_eq!(nodes.len(), 10);
    assert_eq!(nodes[0].children, children);
    // simulations that went through the node do not change that
    MctsNode::backpropagate(&mut nodes, 1, &vec![1, -1]);
    assert!(!MctsNode::expand(&mut nodes, 0));
    assert_eq!(nodes[0].children, children);
    assert!(MctsNode::expand(&mut nodes, 1));
    assert_eq!(nodes[1].children.len(), 8);
}

#[test]
fn backpropagate_reports_what_it_did() {
    let mut nodes = small_tree();
    assert!(MctsNode::has_room(&nodes, 12));
    assert!(MctsNode::backpropagate(&mut nodes, 12, &vec![3, -2]));
    assert_eq!(nodes[0].simulations, 1);
}

#[test]
fn backpropagate_stops_at_a_full_counter() {
    let mut nodes = small_tree();
    MctsNode::backpropagate(&mut nodes, 12, &vec![3, -2]);
    nodes[5].simulations = usize::MAX;
    nodes[0].simulations = usize::MAX;
    assert!(!MctsNode::has_room(&nodes, 12));
    assert!(!MctsNode::has_room(&nodes, 5));
    assert!(!MctsNode::backpropagate(&mut nodes, 12, &vec![1, 1]));
    assert_eq!(nodes[12].simulations, 1);
    assert_eq!(nodes[12].scores, vec![3, -2]);
    assert_eq!(nodes[5].simulations, usize::MAX);
    assert_eq!(nodes[5].scores, vec![3, -2]);
    assert_eq!(nodes[0].scores, vec![3, -2]);
    // a path that avoids node 5 is stopped by the root alone
    nodes[5].simulations = 1;
    assert!(!MctsNode::backpropagate(&mut nodes, 3, &vec![1, 1]));
    assert_eq!(nodes[3].simulations, 0);
    nodes[0].simulations = 1;
    assert!(MctsNode::backpropagate(&mut nodes, 3, &vec![1, 1]));
    assert_eq!(nodes[3].simulations, 1);
    assert_eq!(nodes[0].simulations, 2);
    assert_eq!(nodes[0].scores, vec![4, -1]);
}
