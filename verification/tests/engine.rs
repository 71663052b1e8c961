use rand::SeedableRng;

use mcts_connect_four::connect_four::{Move, MoveType, Player};
use mcts_connect_four::game_search::{get_best_mcts_move, Action, MctsConfig, State};
use mcts_connect_four::mcts::{
    create_tree_for_serialization, IterationLimitKind, Mcts, SimulationResult,
};

const SQRT_2_MICRO: u64 = 1_414_214;

#[test]
fn test_mcts_iterations() {
    let mut rng = rand_pcg::Pcg64::seed_from_u64(42);
    let playouts_per_simulation = 10;
    let max_depth_per_playout = 10;
    let state = State::new(7, 6, Player::Player1, Player::Player1);
    let mut mcts = Mcts::new(
        state,
        IterationLimitKind::Iterations(10),
        SQRT_2_MICRO,
        playouts_per_simulation,
        max_depth_per_playout,
    );
    mcts.run(&mut rng);

    // the root gathers one visit per playout of every iteration
    let root_node = mcts.tree.get_root();
    assert_eq!(root_node.visits, 10 * playouts_per_simulation as u64);

    let best_action = mcts.best_action();
    assert!(best_action.is_some());

    // the recommendation is a legal opening move
    let legal = State::new(7, 6, Player::Player1, Player::Player1).get_actions();
    assert!(legal.contains(&best_action.unwrap()));

    let snapshot = create_tree_for_serialization(&mcts.tree, mcts.tree.get_root_nodekey(), None);
    assert_eq!(snapshot.visits, root_node.visits);
    assert_eq!(snapshot.wins, root_node.wins);
}

#[test]
fn test_counters_never_outgrow_parents() {
    let mut rng = rand_pcg::Pcg64::seed_from_u64(7);
    let state = State::new(7, 6, Player::Player2, Player::Player2);
    let mut mcts = Mcts::new(
        state,
        IterationLimitKind::Iterations(25),
        SQRT_2_MICRO,
        8,
        20,
    );
    mcts.run(&mut rng);

    let nodes = &mcts.tree.nodes;
    assert!(nodes.len() > 1);
    for node in nodes.iter() {
        assert!(node.wins <= node.visits);
        if let Some(parent) = node.parent {
            assert!(node.visits <= nodes[parent].visits);
        }
    }
}

#[test]
fn test_best_action_none_on_terminal_root() {
    // a position already won: the root never gains children
    let mut state = State::new(7, 6, Player::Player2, Player::Player2);
    for _ in 0..4 {
        state.board.insert(6, Player::Player1).expect("insert failed");
    }
    let mut rng = rand_pcg::Pcg64::seed_from_u64(1);
    let mut mcts = Mcts::new(
        state,
        IterationLimitKind::Iterations(3),
        SQRT_2_MICRO,
        5,
        10,
    );
    mcts.run(&mut rng);
    assert_eq!(mcts.tree.get_root().children.len(), 0);
    assert!(mcts.best_action().is_none());
}

#[test]
fn test_avoid_losing() {
    let mcts_config = MctsConfig {
        iterations: 50,
        playouts_per_simulation: 30,
        max_depth_per_playout: 50,
        exploration_constant: SQRT_2_MICRO,
        tree_dump_dir: None,
        debug_track_trees: false,
    };
    let mut rng = rand_pcg::Pcg64::seed_from_u64(42);
    let mut state = State::new(7, 6, Player::Player2, Player::Player2);
    let board = &mut state.board;
    board.insert(3, Player::Player1).unwrap();
    board.insert(4, Player::Player1).unwrap();

    let best_move = get_best_mcts_move(&state, &mcts_config, &mut rng).actual_move;

    assert!(
        best_move == Move { move_type: MoveType::Insert, column: 2 }
            || best_move == Move { move_type: MoveType::Insert, column: 5 },
        "best move: {:?}",
        best_move
    );
}

#[test]
fn test_self_play_yields_legal_action() {
    // a scattered mid-game position: the search terminates within its
    // budget and recommends a legal move
    let mut state = State::new(7, 6, Player::Player1, Player::Player1);
    state.board.insert(0, Player::Player1).unwrap();
    state.board.insert(3, Player::Player2).unwrap();
    state.board.insert(3, Player::Player1).unwrap();
    state.board.insert(5, Player::Player2).unwrap();

    let config = MctsConfig {
        iterations: 20,
        playouts_per_simulation: 10,
        max_depth_per_playout: 30,
        exploration_constant: SQRT_2_MICRO,
        tree_dump_dir: None,
        debug_track_trees: true,
    };
    let mut rng = rand_pcg::Pcg64::seed_from_u64(9);
    let result = get_best_mcts_move(&state, &config, &mut rng);
    let legal = state.get_actions();
    assert!(legal.contains(&Action(result.actual_move)));
    // the snapshot was asked for, and carries the root's visit total
    let snapshot = result.debug_trees.expect("snapshot missing");
    assert_eq!(snapshot.visits, 20 * 10);
    // children come sorted by visits, most visited first
    for pair in snapshot.children.windows(2) {
        assert!(pair[0].visits >= pair[1].visits);
    }
}

#[test]
fn test_win_capture_in_playout() {
    // the mover completes four in a row at once: every playout from here
    // is a win exactly when the mover is the searching player
    let mut board_base = mcts_connect_four::connect_four::Board::new(7, 6);
    for _ in 0..3 {
        board_base.insert(0, Player::Player1).expect("insert failed");
    }

    let state_mover_is_me = State {
        board: board_base.clone(),
        turn: Player::Player1,
        who_am_i: Player::Player1,
    };
    let mut rng = rand_pcg::Pcg64::seed_from_u64(3);
    let results = state_mover_is_me.simulate(4, 5, &mut rng);
    assert_eq!(results, vec![SimulationResult::Win; 4]);

    let state_mover_is_opponent = State {
        board: board_base,
        turn: Player::Player1,
        who_am_i: Player::Player2,
    };
    let results = state_mover_is_opponent.simulate(4, 5, &mut rng);
    assert_eq!(results, vec![SimulationResult::NotWin; 4]);
}

#[test]
fn test_simulate_returns_one_result_per_playout() {
    let state = State::new(7, 6, Player::Player1, Player::Player1);
    let mut rng = rand_pcg::Pcg64::seed_from_u64(5);
    let results = state.simulate(17, 12, &mut rng);
    assert_eq!(results.len(), 17);
}

#[test]
fn test_same_seed_same_recommendation() {
    let config = MctsConfig {
        iterations: 15,
        playouts_per_simulation: 8,
        max_depth_per_playout: 25,
        exploration_constant: SQRT_2_MICRO,
        tree_dump_dir: None,
        debug_track_trees: false,
    };
    let state = State::new(7, 6, Player::Player1, Player::Player1);
    let mut rng_a = rand_pcg::Pcg64::seed_from_u64(11);
    let mut rng_b = rand_pcg::Pcg64::seed_from_u64(11);
    let a = get_best_mcts_move(&state, &config, &mut rng_a).actual_move;
    let b = get_best_mcts_move(&state, &config, &mut rng_b).actual_move;
    assert_eq!(a, b);
}

#[test]
fn test_config_defaults() {
    let config = MctsConfig::default();
    assert_eq!(config.iterations, 300);
    assert_eq!(config.exploration_constant, SQRT_2_MICRO);
    assert_eq!(config.playouts_per_simulation, 200);
    assert_eq!(config.max_depth_per_playout, 50);
    assert_eq!(config.get_tree_dump_dir(), Some("/tmp/tree-dump-dir".to_string()));
    assert!(config.debug_track_trees);
}

#[test]
fn test_apply_move_toggles_turn() {
    let mut state = State::new(7, 6, Player::Player1, Player::Player1);
    state.apply_move(&Action(Move { move_type: MoveType::Insert, column: 3 }));
    assert_eq!(state.turn, Player::Player2);
    assert_eq!(
        state.board.get(3, 5),
        mcts_connect_four::connect_four::Cell::Player(Player::Player1)
    );
    assert!(!state.is_terminal());
}

#[test]
fn test_wall_clock_budget_accumulates_whole_iterations() {
    let mut rng = rand_pcg::Pcg64::seed_from_u64(13);
    let state = State::new(7, 6, Player::Player1, Player::Player1);
    let mut mcts = Mcts::new(
        state,
        IterationLimitKind::TimeSeconds(1),
        SQRT_2_MICRO,
        5,
        15,
    );
    mcts.run(&mut rng);
    let visits = mcts.tree.get_root().visits;
    // the root's visits are a whole number of iterations, and the budget
    // allowed at least one
    assert!(visits > 0);
    assert_eq!(visits % 5, 0);
}
