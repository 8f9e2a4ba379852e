use mcts::game::Game;
use mcts::tic_tac_toe::TicTacToe;

fn play(game: &mut TicTacToe, tile: usize) {
    let count = game.cache_actions();
    let mut action = count;
    for index in 0..count {
        if game.actions[index].tile == tile {
            action = index;
        }
    }
    assert!(action < count, "tile {} is not empty", tile);
    game.make_action(action);
}

fn played(tiles: &[usize]) -> TicTacToe {
    let mut game = TicTacToe::new();
    for &tile in tiles {
        play(&mut game, tile);
    }
    game
}

#[test]
fn new_game_is_open() {
    let mut game = TicTacToe::new();
    assert!(!game.is_over());
    assert_eq!(game.player_count(), 2);
    assert_eq!(game.active_player(), Some(0));
    assert!(!game.is_random_step());
    assert!(game.possible_random().is_none());
    assert_eq!(game.scores(), None);
    assert_eq!(game.cache_actions(), 9);
    let tiles: Vec<usize> = game.actions.iter().map(|action| action.tile).collect();
    assert_eq!(tiles, vec![0, 1, 2, 3, 4, 5, 6, 7, 8]);
}

#[test]
fn players_take_turns() {
    let mut game = TicTacToe::new();
    play(&mut game, 4);
    assert_eq!(game.active_player(), Some(1));
    play(&mut game, 0);
    assert_eq!(game.active_player(), Some(0));
    assert_eq!(game.cache_actions(), 7);
    let tiles: Vec<usize> = game.actions.iter().map(|action| action.tile).collect();
    assert_eq!(tiles, vec![1, 2, 3, 5, 6, 7, 8]);
}

#[test]
fn action_index_counts_empty_tiles() {
    let mut game = played(&[0, 1]);
    assert_eq!(game.cache_actions(), 7);
    // the empty tiles are 2, 3, ...: index 1 is tile 3
    game.make_action(1);
    assert_eq!(game.cache_actions(), 6);
    let tiles: Vec<usize> = game.actions.iter().map(|action| action.tile).collect();
    assert_eq!(tiles, vec![2, 4, 5, 6, 7, 8]);
}

#[test]
fn first_player_wins_a_row() {
    let game = played(&[0, 3, 1, 4, 2]);
    assert!(game.is_over());
    assert_eq!(game.scores(), Some(vec![1, -1]));
}

#[test]
fn second_player_wins_a_column() {
    let game = played(&[0, 1, 2, 4, 3, 7]);
    assert!(game.is_over());
    assert_eq!(game.scores(), Some(vec![-1, 1]));
}

#[test]
fn first_player_wins_a_diagonal() {
    let game = played(&[0, 1, 4, 2, 8]);
    assert!(game.is_over());
    assert_eq!(game.scores(), Some(vec![1, -1]));
}

#[test]
fn second_player_wins_the_other_diagonal() {
    let game = played(&[0, 2, 1, 4, 8, 6]);
    assert!(game.is_over());
    assert_eq!(game.scores(), Some(vec![-1, 1]));
}

#[test]
fn every_line_wins() {
    let lines = [
        [0, 1, 2],
        [3, 4, 5],
        [6, 7, 8],
        [0, 3, 6],
        [1, 4, 7],
        [2, 5, 8],
        [0, 4, 8],
        [2, 4, 6],
    ];
    for line in lines {
        // the second player marks two tiles off the line that fill no line
        let mut others: Vec<usize> = (0..9).filter(|tile| !line.contains(tile)).collect();
        others.truncate(2);
        let game = played(&[line[0], others[0], line[1], others[1], line[2]]);
        assert!(game.is_over(), "line {:?}", line);
        assert_eq!(game.scores(), Some(vec![1, -1]), "line {:?}", line);
    }
}

#[test]
fn unfinished_game_has_no_scores() {
    let game = played(&[0, 3, 1, 4]);
    assert!(!game.is_over());
    assert_eq!(game.scores(), None);
}

#[test]
fn full_board_without_line_is_a_draw() {
    let mut game = played(&[0, 1, 2, 4, 3, 5, 7, 6, 8]);
    assert!(game.is_over());
    assert_eq!(game.scores(), Some(vec![0, 0]));
    assert_eq!(game.cache_actions(), 0);
}

#[test]
fn win_on_the_last_tile_is_no_draw() {
    let game = played(&[0, 1, 2, 4, 3, 5, 7, 8, 6]);
    assert!(game.is_over());
    assert_eq!(game.scores(), Some(vec![1, -1]));
}

#[test]
fn snapshot_is_independent() {
    let mut game = played(&[4]);
    let copy = game.snapshot();
    play(&mut game, 0);
    assert_eq!(copy.active_player(), Some(1));
    assert_eq!(game.active_player(), Some(0));
    let mut copy = copy;
    assert_eq!(copy.cache_actions(), 8);
    assert_eq!(game.cache_actions(), 7);
}

#[test]
fn snapshot_keeps_the_cache() {
    let mut game = played(&[4]);
    game.cache_actions();
    let mut copy = game.snapshot();
    assert_eq!(copy.actions.len(), 8);
    copy.make_action(0);
    assert_eq!(copy.cache_actions(), 7);
    assert_eq!(copy.actions[0].tile, 1);
}

#[test]
fn random_step_changes_nothing() {
    let mut game = played(&[4, 0]);
    game.make_random_step();
    assert_eq!(game.active_player(), Some(0));
    assert_eq!(game.cache_actions(), 7);
}

#[test]
fn clone_copies_the_game() {
    let mut game = played(&[4, 0]);
    game.cache_actions();
    let mut copy = game.clone();
    assert_eq!(copy.actions.len(), 7);
    assert_eq!(copy.active_player, 0);
    copy.make_action(0);
    assert_eq!(copy.cache_actions(), 6);
    assert_eq!(game.cache_actions(), 7);
}

#[test]
fn moves_name_their_tiles() {
    let mut game = played(&[0, 8]);
    game.cache_actions();
    let first = game.actions[0];
    assert_eq!(first.tile, 1);
    assert_eq!(game.actions[6].tile, 7);
}

#[test]
fn tile_names_the_tile_of_a_cached_move() {
    let mut game = played(&[0, 8]);
    let count = game.cache_actions();
    assert_eq!(count, 7);
    let tiles: Vec<usize> = (0..count).map(|action| game.tile(action)).collect();
    assert_eq!(tiles, vec![1, 2, 3, 4, 5, 6, 7]);
    game.make_action(3);
    assert_eq!(game.cache_actions(), 6);
    assert_eq!(game.tile(3), 5);
}
