use mcts::coin_call::CoinCall;
use mcts::game::Game;
use mcts::node::MctsNode;
use mcts::search::Mcts;

fn by_mean(total: i128, visits: usize, parent_visits: usize) -> i64 {
    let mean = total as f64 / visits as f64;
    let bonus = (2.0 * (parent_visits as f64).ln() / visits as f64).sqrt();
    ((mean + bonus) * 1_000_000.0) as i64
}

fn seen(rounds: u32, side: usize) -> CoinCall {
    let game = CoinCall::new(rounds, 1);
    let mut outcomes = game.possible_random().unwrap();
    outcomes.swap_remove(side)
}

#[test]
fn coin_game_starts_with_a_toss() {
    let mut game = CoinCall::new(2, 42);
    assert!(!game.is_over());
    assert!(game.is_random_step());
    assert_eq!(game.active_player(), None);
    assert_eq!(game.player_count(), 2);
    assert_eq!(game.scores(), None);
    assert_eq!(game.cache_actions(), 0);
    let outcomes = game.possible_random().unwrap();
    assert_eq!(outcomes.len(), 2);
    assert_eq!(outcomes[0].coin, Some(0));
    assert_eq!(outcomes[1].coin, Some(1));
    assert_eq!(outcomes[0].rounds_left, 2);
}

#[test]
fn coin_game_scores_the_lead() {
    // player 0 calls right, player 1 calls wrong
    let mut game = seen(2, 1);
    assert!(!game.is_random_step());
    assert!(game.possible_random().is_none());
    assert_eq!(game.active_player(), Some(0));
    assert_eq!(game.cache_actions(), 2);
    game.make_action(1);
    assert_eq!(game.lead, 1);
    assert!(game.is_random_step());
    game.make_random_step();
    assert!(!game.is_random_step());
    assert_eq!(game.active_player(), Some(1));
    let side = game.coin.unwrap();
    assert_eq!(game.cache_actions(), 2);
    game.make_action(1 - side);
    assert!(game.is_over());
    assert_eq!(game.scores(), Some(vec![1, -1]));
}

#[test]
fn second_player_scores_too() {
    let mut game = seen(2, 0);
    game.cache_actions();
    game.make_action(1);
    game.make_random_step();
    let side = game.coin.unwrap();
    game.cache_actions();
    game.make_action(side);
    assert_eq!(game.scores(), Some(vec![-1, 1]));
}

#[test]
fn tosses_follow_the_seed() {
    let mut sides = Vec::new();
    for seed in 0..64u64 {
        let mut first = CoinCall::new(1, seed);
        let mut second = CoinCall::new(1, seed);
        first.make_random_step();
        second.make_random_step();
        assert_eq!(first.coin, second.coin);
        sides.push(first.coin.unwrap());
    }
    assert!(sides.contains(&0) && sides.contains(&1));
}

#[test]
fn random_step_at_a_decision_changes_nothing() {
    let mut game = seen(3, 1);
    game.make_random_step();
    assert_eq!(game.coin, Some(1));
    assert_eq!(game.rounds_left, 3);
}

#[test]
fn chance_node_expands_into_its_outcomes() {
    let mut nodes: Vec<MctsNode<CoinCall>> = Vec::new();
    MctsNode::new_rc(&mut nodes, None, CoinCall::new(2, 3));
    MctsNode::expand(&mut nodes, 0);
    assert_eq!(nodes[0].children, vec![1, 2]);
    assert_eq!(nodes[1].state.coin, Some(0));
    assert_eq!(nodes[2].state.coin, Some(1));
    assert_eq!(nodes[1].parent, Some(0));
    assert_eq!(nodes[2].parent, Some(0));
    assert!(!nodes[1].state.is_random_step());
    MctsNode::expand(&mut nodes, 2);
    assert_eq!(nodes[2].children, vec![3, 4]);
    assert_eq!(nodes[3].state.lead, 0);
    assert_eq!(nodes[4].state.lead, 1);
    assert!(nodes[4].state.is_random_step());
}

#[test]
fn search_calls_the_coin_it_sees() {
    for side in 0..2usize {
        for seed in 0..5u64 {
            let mut search = Mcts::with_seed(300, seen(3, side), seed);
            assert_eq!(search.select_action(by_mean), Some(side));
        }
    }
}

#[test]
fn search_descends_through_chance_nodes() {
    let mut search = Mcts::with_seed(400, CoinCall::new(3, 77), 9);
    let choice = search.select_action(by_mean);
    assert!(choice == Some(0) || choice == Some(1));
    assert_eq!(search.nodes[0].simulations, 400);
    assert_eq!(search.nodes[0].children.len(), 2);
    let mut deeper_chance_nodes = 0;
    for (index, node) in search.nodes.iter().enumerate() {
        if !node.children.is_empty() {
            let visits: usize = node.children.iter().map(|&c| search.nodes[c].simulations).sum();
            let own = match node.parent {
                Some(parent) if search.nodes[parent].children[0] == index => 1,
                _ => 0,
            };
            assert_eq!(node.simulations, own + visits);
            assert_eq!(node.children.len(), 2);
            if index != 0 && node.state.is_random_step() {
                deeper_chance_nodes += 1;
                if node.simulations > 40 {
                    for &child in &node.children {
                        assert!(search.nodes[child].simulations > 0);
                    }
                }
            }
        }
    }
    assert!(deeper_chance_nodes > 0);
    for &child in &search.nodes[0].children {
        assert!(search.nodes[child].simulations > 100);
    }
}

#[test]
fn rollout_lets_chance_events_happen() {
    let mut search = Mcts::with_seed(1, CoinCall::new(4, 5), 5);
    let mut leads = Vec::new();
    for _ in 0..50 {
        let scores = search.simulate(0);
        assert_eq!(scores.len(), 2);
        assert_eq!(scores[0], -scores[1]);
        assert!(scores[0].abs() <= 2);
        leads.push(scores[0]);
    }
    assert!(leads.iter().any(|&lead| lead != leads[0]));
}
