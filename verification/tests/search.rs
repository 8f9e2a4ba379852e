use mcts::game::Game;
use mcts::node::MctsNode;
use mcts::search::Mcts;
use mcts::tic_tac_toe::TicTacToe;

fn order_key(score: f32) -> i64 {
    let bits = score.to_bits() as i32;
    if bits < 0 {
        (bits ^ 0x7fff_ffff) as i64
    } else {
        bits as i64
    }
}

fn uct(total: i128, visits: usize, parent_visits: usize) -> i64 {
    let mean = total as f32 / visits as f32;
    let bonus = f32::sqrt(2.0) * f32::sqrt(f32::ln(parent_visits as f32) / visits as f32);
    order_key(mean + bonus)
}

fn play_tile(game: &mut TicTacToe, tile: usize) {
    let count = game.cache_actions();
    let mut action = count;
    for index in 0..count {
        if game.actions[index].tile == tile {
            action = index;
        }
    }
    assert!(action < count, "tile {} is not empty", tile);
    game.make_action(action);
}

fn position(tiles: &[usize]) -> TicTacToe {
    let mut game = TicTacToe::new();
    for &tile in tiles {
        play_tile(&mut game, tile);
    }
    game
}

fn tile_of(game: &TicTacToe, action: usize) -> usize {
    let mut copy = game.snapshot();
    copy.cache_actions();
    copy.actions[action].tile
}

fn children_visits(search: &Mcts<TicTacToe>, node: usize) -> usize {
    search.nodes[node].children.iter().map(|&child| search.nodes[child].simulations).sum()
}

fn wins_at_once(game: &TicTacToe) -> bool {
    let mut probe = game.snapshot();
    let count = probe.cache_actions();
    (0..count).any(|action| {
        let mut next = probe.snapshot();
        next.make_action(action);
        next.is_over() && next.scores() != Some(vec![0, 0])
    })
}

#[test]
fn order_key_keeps_the_order() {
    let values = [-3.5f32, -1.0, -0.25, 0.0, 0.25, 1.0, 3.5, f32::MAX];
    for pair in values.windows(2) {
        assert!(order_key(pair[0]) < order_key(pair[1]));
    }
    assert_eq!(order_key(1.5), order_key(1.5));
}

#[test]
fn new_search_has_a_bare_root() {
    let search = Mcts::new(124, TicTacToe::new());
    assert_eq!(search.max_simulations, 124);
    assert_eq!(search.nodes.len(), 1);
    assert_eq!(search.nodes[0].simulations, 0);
    assert_eq!(search.nodes[0].scores, vec![0, 0]);
    assert_eq!(search.nodes[0].parent, None);
    assert!(search.nodes[0].children.is_empty());
}

#[test]
fn root_counts_every_simulation() {
    for budget in [1usize, 2, 10, 124] {
        let mut search = Mcts::with_seed(budget, TicTacToe::new(), 7);
        let choice = search.select_action(uct);
        assert!(choice.is_some());
        assert_eq!(search.nodes[0].simulations, budget);
    }
}

#[test]
fn children_of_the_root_share_every_simulation() {
    for budget in [1usize, 2, 10, 124, 500] {
        let mut search = Mcts::with_seed(budget, TicTacToe::new(), 11);
        search.select_action(uct);
        assert_eq!(children_visits(&search, 0), budget);
    }
}

#[test]
fn every_node_accounts_for_its_simulations() {
    let mut search = Mcts::with_seed(400, position(&[4, 0]), 3);
    search.select_action(uct);
    for (index, node) in search.nodes.iter().enumerate() {
        // a simulation was run from a node itself if it is a first child
        let own = match node.parent {
            Some(parent) if search.nodes[parent].children[0] == index => 1,
            _ => 0,
        };
        if node.state.is_over() {
            assert!(node.children.is_empty());
            assert!(node.simulations >= own);
        } else {
            assert_eq!(node.simulations, own + children_visits(&search, index));
        }
        for &child in &node.children {
            assert!(search.nodes[child].simulations <= node.simulations);
            assert_eq!(search.nodes[child].parent, Some(index));
        }
    }
}

#[test]
fn scores_stay_within_the_simulations() {
    let mut search = Mcts::with_seed(300, TicTacToe::new(), 5);
    search.select_action(uct);
    for node in &search.nodes {
        assert_eq!(node.scores.len(), 2);
        assert_eq!(node.scores[0], -node.scores[1]);
        assert!(node.scores[0].unsigned_abs() <= node.simulations as u128);
    }
}

#[test]
fn expansion_adds_one_child_per_legal_action() {
    let mut search = Mcts::with_seed(200, TicTacToe::new(), 13);
    search.select_action(uct);
    assert_eq!(search.nodes[0].children.len(), 9);
    for node in &search.nodes {
        if !node.children.is_empty() {
            let mut state = node.state.snapshot();
            assert_eq!(node.children.len(), state.cache_actions());
        }
    }
}

#[test]
fn children_hold_the_positions_after_each_action() {
    let mut search = Mcts::with_seed(50, position(&[4, 0, 8]), 17);
    search.select_action(uct);
    let root = &search.nodes[0];
    for (action, &child) in root.children.iter().enumerate() {
        let mut expected = root.state.snapshot();
        expected.cache_actions();
        expected.make_action(action);
        let mut got = search.nodes[child].state.snapshot();
        assert_eq!(got.cache_actions(), expected.cache_actions());
        let got_tiles: Vec<usize> = got.actions.iter().map(|a| a.tile).collect();
        let expected_tiles: Vec<usize> = expected.actions.iter().map(|a| a.tile).collect();
        assert_eq!(got_tiles, expected_tiles);
        assert_eq!(got.active_player(), expected.active_player());
    }
}

#[test]
fn a_second_search_keeps_the_children() {
    let mut search = Mcts::with_seed(60, TicTacToe::new(), 19);
    search.select_action(uct);
    let before: Vec<Vec<usize>> = search.nodes.iter().map(|n| n.children.clone()).collect();
    let visits: Vec<usize> = search.nodes.iter().map(|n| n.simulations).collect();
    search.select_action(uct);
    assert_eq!(search.nodes[0].simulations, 120);
    for (index, children) in before.iter().enumerate() {
        if !children.is_empty() {
            assert_eq!(&search.nodes[index].children, children);
        }
        assert!(search.nodes[index].simulations >= visits[index]);
    }
}

#[test]
fn same_seed_same_decision() {
    let mut first = Mcts::with_seed(300, TicTacToe::new(), 2024);
    let mut second = Mcts::with_seed(300, TicTacToe::new(), 2024);
    let a = first.select_action(uct);
    let b = second.select_action(uct);
    assert_eq!(a, b);
    assert_eq!(first.nodes.len(), second.nodes.len());
    for (x, y) in first.nodes.iter().zip(second.nodes.iter()) {
        assert_eq!(x.simulations, y.simulations);
        assert_eq!(x.scores, y.scores);
        assert_eq!(x.children, y.children);
    }
}

#[test]
fn zero_budget_gives_no_decision() {
    let mut search = Mcts::with_seed(0, TicTacToe::new(), 1);
    assert_eq!(search.select_action(uct), None);
    assert_eq!(search.nodes.len(), 1);
    assert_eq!(search.nodes[0].simulations, 0);
}

#[test]
fn terminal_root_gives_no_decision() {
    let game = position(&[0, 1, 2, 4, 3, 5, 7, 6, 8]);
    assert!(game.is_over());
    assert_eq!(game.scores(), Some(vec![0, 0]));
    let mut search = Mcts::with_seed(25, game, 1);
    assert_eq!(search.select_action(uct), None);
    assert!(search.nodes[0].children.is_empty());
    assert_eq!(search.nodes[0].simulations, 25);
    assert_eq!(search.nodes[0].scores, vec![0, 0]);
}

#[test]
fn won_root_collects_the_winner_scores() {
    let game = position(&[0, 3, 1, 4, 2]);
    let mut search = Mcts::with_seed(10, game, 1);
    assert_eq!(search.select_action(uct), None);
    assert_eq!(search.nodes[0].simulations, 10);
    assert_eq!(search.nodes[0].scores, vec![10, -10]);
}

#[test]
fn search_takes_the_winning_tile() {
    // the player to move holds tiles 0 and 1; tile 2 wins
    let game = position(&[0, 3, 1, 4]);
    for seed in 0..20u64 {
        for budget in [50usize, 124] {
            let mut search = Mcts::with_seed(budget, game.snapshot(), seed);
            let action = search.select_action(uct).unwrap();
            assert_eq!(tile_of(&game, action), 2, "seed {} budget {}", seed, budget);
            let root = &search.nodes[0];
            let best = search.nodes[root.children[action]].simulations;
            for (other, &child) in root.children.iter().enumerate() {
                if other != action {
                    assert!(search.nodes[child].simulations < best);
                }
            }
        }
    }
}

#[test]
fn search_blocks_the_threat() {
    // player 0 holds tiles 0 and 1 and threatens tile 2; player 1 is to move
    let game = position(&[0, 4, 1]);
    for seed in 0..10u64 {
        let mut search = Mcts::with_seed(1000, game.snapshot(), seed);
        let action = search.select_action(uct).unwrap();
        assert_eq!(tile_of(&game, action), 2, "seed {}", seed);
    }
}

#[test]
fn first_move_leaves_no_immediate_win() {
    for seed in 0..5u64 {
        let game = TicTacToe::new();
        let mut search = Mcts::with_seed(500, game.snapshot(), seed);
        let action = search.select_action(uct).unwrap();
        let mut next = game.snapshot();
        next.cache_actions();
        next.make_action(action);
        assert!(!wins_at_once(&next));
    }
}

#[test]
fn self_play_never_hands_over_a_win() {
    // whenever some move leaves the opponent without an immediate win, the
    // move that the search chooses does so too
    for seed in 0..3u64 {
        let mut game = TicTacToe::new();
        while !game.is_over() {
            let mut search = Mcts::with_seed(1500, game.snapshot(), seed);
            let action = search.select_action(uct).unwrap();
            let count = game.cache_actions();
            let safe_exists = (0..count).any(|candidate| {
                let mut next = game.snapshot();
                next.make_action(candidate);
                next.is_over() || !wins_at_once(&next)
            });
            game.make_action(action);
            if safe_exists && !game.is_over() {
                assert!(!wins_at_once(&game), "seed {}", seed);
            }
        }
    }
}

#[test]
fn entropy_seeded_search_runs() {
    let mut search = Mcts::new(124, TicTacToe::new());
    let action = search.select_action(uct);
    assert!(action.unwrap() < 9);
    assert_eq!(search.nodes[0].simulations, 124);
}

#[test]
fn simulate_plays_to_the_end() {
    let mut search = Mcts::with_seed(1, TicTacToe::new(), 23);
    let mut seen_win = false;
    let mut seen_loss = false;
    for _ in 0..200 {
        let scores = search.simulate(0);
        assert_eq!(scores.len(), 2);
        assert!(scores == vec![1, -1] || scores == vec![-1, 1] || scores == vec![0, 0]);
        seen_win = seen_win || scores == vec![1, -1];
        seen_loss = seen_loss || scores == vec![-1, 1];
    }
    assert!(seen_win && seen_loss);
    assert_eq!(search.nodes.len(), 1);
    assert_eq!(search.nodes[0].simulations, 0);
}

#[test]
fn simulate_at_a_finished_game_reads_its_scores() {
    let mut search = Mcts::with_seed(1, position(&[0, 3, 1, 4, 2]), 23);
    assert_eq!(search.simulate(0), vec![1, -1]);
}

#[test]
fn select_node_stops_at_a_bare_root() {
    let mut search = Mcts::with_seed(1, TicTacToe::new(), 29);
    assert_eq!(search.select_node(0, &uct), 0);
}

#[test]
fn select_node_prefers_children_without_simulations() {
    let mut search = Mcts::with_seed(4, TicTacToe::new(), 29);
    search.select_action(uct);
    // the first simulation expanded the root and ran from its first child;
    // the next three went to the next three children, which were expanded
    let root = &search.nodes[0];
    let visits: Vec<usize> = root.children.iter().map(|&c| search.nodes[c].simulations).collect();
    assert_eq!(visits, vec![1, 1, 1, 1, 0, 0, 0, 0, 0]);
    assert!(search.nodes[root.children[0]].children.is_empty());
    assert_eq!(search.nodes[root.children[1]].children.len(), 8);
    let fifth = root.children[4];
    assert_eq!(search.select_node(0, &uct), fifth);
    let nodes = search.nodes.len();
    search.select_node(0, &uct);
    assert_eq!(search.nodes.len(), nodes);
}

#[test]
fn best_child_takes_the_first_greatest_key() {
    let mut search = Mcts::with_seed(10, TicTacToe::new(), 31);
    search.select_action(uct);
    // every child of the root has one simulation
    let by_total = |total: i128, _visits: usize, _parent: usize| total as i64;
    let root = &search.nodes[0];
    let totals: Vec<i128> = root.children.iter().map(|&c| search.nodes[c].scores[0]).collect();
    let greatest = *totals.iter().max().unwrap();
    let expected = totals.iter().position(|&t| t == greatest).unwrap();
    assert_eq!(Mcts::best_child(&search.nodes, 0, &by_total), expected);
    let flat = |_total: i128, _visits: usize, _parent: usize| 0i64;
    assert_eq!(Mcts::best_child(&search.nodes, 0, &flat), 0);
}

#[test]
fn best_child_hands_the_policy_what_it_ranks() {
    let mut search = Mcts::with_seed(40, TicTacToe::new(), 37);
    search.select_action(uct);
    let root_visits = search.nodes[0].simulations;
    let seen = std::cell::RefCell::new(Vec::new());
    let spy = |total: i128, visits: usize, parent: usize| {
        seen.borrow_mut().push((total, visits, parent));
        0i64
    };
    Mcts::best_child(&search.nodes, 0, &spy);
    let expected: Vec<(i128, usize, usize)> = search.nodes[0]
        .children
        .iter()
        .map(|&c| (search.nodes[c].scores[0], search.nodes[c].simulations, root_visits))
        .collect();
    assert_eq!(*seen.borrow(), expected);
}

#[test]
fn best_visited_takes_the_first_of_the_most_visited() {
    let mut nodes: Vec<MctsNode<TicTacToe>> = Vec::new();
    MctsNode::new_rc(&mut nodes, None, TicTacToe::new());
    assert_eq!(Mcts::best_visited(&nodes, 0), None);
    MctsNode::expand(&mut nodes, 0);
    let visits = [3usize, 5, 2, 5, 0, 1, 5, 4, 0];
    for (action, &count) in visits.iter().enumerate() {
        let child = nodes[0].children[action];
        nodes[child].simulations = count;
    }
    assert_eq!(Mcts::best_visited(&nodes, 0), Some(1));
    let first = nodes[0].children[0];
    nodes[first].simulations = 5;
    assert_eq!(Mcts::best_visited(&nodes, 0), Some(0));
    nodes[first].simulations = 6;
    assert_eq!(Mcts::best_visited(&nodes, 0), Some(0));
}

#[test]
fn run_simulation_adds_one_layer() {
    let mut search = Mcts::with_seed(0, TicTacToe::new(), 41);
    search.run_simulation(&uct);
    assert_eq!(search.nodes.len(), 10);
    assert_eq!(search.nodes[0].simulations, 1);
    let first = search.nodes[0].children[0];
    assert_eq!(search.nodes[first].simulations, 1);
    assert_eq!(search.nodes[first].scores, search.nodes[0].scores);
    assert!(search.nodes[first].children.is_empty());
    assert_eq!(search.nodes.iter().filter(|node| node.simulations > 0).count(), 2);
    search.run_simulation(&uct);
    assert_eq!(search.nodes.len(), 18);
    assert_eq!(search.nodes[0].simulations, 2);
    let second = search.nodes[0].children[1];
    assert_eq!(search.nodes[second].simulations, 1);
    assert_eq!(search.nodes[second].children.len(), 8);
    let below = search.nodes[second].children[0];
    assert_eq!(search.nodes[below].simulations, 1);
    assert_eq!(search.nodes[below].scores, search.nodes[second].scores);
    assert_eq!(search.nodes.iter().filter(|node| node.simulations > 0).count(), 4);
}

#[test]
fn selection_on_a_tree_that_was_only_expanded() {
    let mut search = Mcts::with_seed(5, TicTacToe::new(), 43);
    MctsNode::expand(&mut search.nodes, 0);
    let first = search.nodes[0].children[0];
    assert_eq!(search.select_node(0, &uct), first);
    // a simulation on such a tree goes to the first child too
    search.run_simulation(&uct);
    assert_eq!(search.nodes[first].children.len(), 8);
    assert_eq!(search.nodes[0].simulations, 1);
    assert_eq!(search.nodes[first].simulations, 1);
}
