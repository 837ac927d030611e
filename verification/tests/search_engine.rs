use othello::minmax::{
    best_move, evaluate_game, get_best_move_for_black, get_best_move_for_white, max_search,
    min_search, search,
};
use othello::{
    do_move, do_move_essentials, get_for_whoever_best_move, init_game, Game, Square, DEPTH,
};

const LINE: [(usize, usize); 60] = [
    (5, 4), (5, 5), (2, 3), (4, 2), (5, 2), (2, 4), (3, 2), (5, 3), (3, 5), (3, 1), (1, 4),
    (2, 6), (5, 6), (6, 3), (7, 3), (1, 3), (4, 5), (6, 2), (1, 5), (4, 6), (6, 1), (7, 1),
    (0, 3), (6, 4), (5, 7), (4, 7), (7, 2), (0, 6), (2, 5), (2, 1), (7, 0), (0, 4), (2, 2),
    (4, 1), (2, 7), (0, 2), (5, 1), (3, 7), (0, 5), (6, 7), (6, 5), (6, 0), (0, 1), (0, 0),
    (1, 2), (1, 7), (2, 0), (1, 1), (4, 0), (3, 0), (5, 0), (7, 4), (3, 6), (6, 6), (7, 6),
    (1, 6), (7, 5), (7, 7), (0, 7), (1, 0),
];

const SWEEP: [(usize, usize); 13] = [
    (2, 3), (4, 2), (5, 1), (2, 4), (3, 5), (2, 6), (5, 5), (2, 5), (2, 7), (4, 5), (4, 6),
    (3, 6), (3, 7),
];

const STALL: [(usize, usize); 8] =
    [(3, 2), (2, 2), (5, 4), (3, 1), (3, 0), (4, 0), (1, 2), (2, 0)];

const DRAWN_LINE: [(usize, usize); 60] = [
    (4, 5), (5, 5), (2, 3), (4, 2), (6, 6), (4, 6), (5, 4), (1, 3), (4, 1), (3, 5), (2, 2),
    (3, 1), (2, 4), (6, 3), (5, 7), (5, 3), (5, 6), (1, 5), (5, 2), (3, 6), (6, 5), (6, 4),
    (1, 2), (6, 7), (0, 2), (6, 2), (7, 5), (0, 4), (0, 3), (3, 2), (2, 6), (5, 1), (2, 1),
    (1, 4), (5, 0), (1, 1), (1, 0), (3, 7), (4, 0), (7, 6), (0, 5), (4, 7), (1, 7), (6, 1),
    (7, 1), (7, 4), (0, 0), (2, 5), (7, 3), (3, 0), (2, 0), (1, 6), (7, 7), (7, 0), (7, 2),
    (6, 0), (2, 7), (0, 1), (0, 6), (0, 7),
];

fn reach(moves: &[(usize, usize)]) -> Game {
    let mut game = init_game();
    for &(x, y) in moves {
        assert!(game.board_essential().can_move(x, y));
        do_move(x, y, &mut game);
    }
    game
}

#[test]
fn configured_depth_is_five() {
    assert_eq!(DEPTH, 5);
}

#[test]
fn evaluation_of_the_start_is_zero() {
    let game = init_game();
    assert_eq!(evaluate_game(game.board_essential()), 0);
}

#[test]
fn evaluation_counts_stones_from_whites_side() {
    let game = reach(&[(2, 3)]);
    assert_eq!(evaluate_game(game.board_essential()), 3);
    let game = reach(&LINE[..20]);
    assert_eq!(evaluate_game(game.board_essential()), 4);
    let game = reach(&STALL);
    assert_eq!(evaluate_game(game.board_essential()), -2);
}

#[test]
fn evaluation_adds_two_for_each_edge_stone() {
    // 17 white stones, two of them on the edge y = 7
    let game = reach(&SWEEP);
    assert_eq!(evaluate_game(game.board_essential()), 21);
}

#[test]
fn evaluation_counts_a_corner_for_both_of_its_edges() {
    let game = reach(&LINE[..30]);
    assert_eq!(evaluate_game(game.board_essential()), -2);
    let game = reach(&LINE[..40]);
    assert_eq!(evaluate_game(game.board_essential()), -12);
    let game = reach(&LINE[..50]);
    assert_eq!(evaluate_game(game.board_essential()), -22);
    let game = reach(&LINE[..59]);
    assert_eq!(evaluate_game(game.board_essential()), -5);
    let game = reach(&LINE);
    assert_eq!(evaluate_game(game.board_essential()), -14);
    let game = reach(&DRAWN_LINE);
    assert_eq!(evaluate_game(game.board_essential()), 20);
}

#[test]
fn evaluation_weighs_each_cell_by_its_edges() {
    let game = reach(&LINE);
    let board = game.board_essential().board();
    let mut expected: isize = 0;
    for x in 0..8 {
        for y in 0..8 {
            let mut weight = 1;
            if x == 0 || x == 7 {
                weight += 2;
            }
            if y == 0 || y == 7 {
                weight += 2;
            }
            expected += match board[x][y] {
                othello::Colour::WHITE => weight,
                othello::Colour::BLACK => -weight,
                othello::Colour::EMPTY => 0,
            };
        }
    }
    assert_eq!(expected, -14);
    assert_eq!(evaluate_game(game.board_essential()), expected);
}

#[test]
fn search_at_depth_zero_is_the_static_evaluation() {
    for n in [0usize, 1, 8, 20, 30, 40, 50, 59, 60].iter() {
        let game = reach(&LINE[..*n]);
        let state = game.board_essential();
        let value = evaluate_game(state);
        for bound in [isize::MIN, -7, 0, 7, isize::MAX].iter() {
            assert_eq!(max_search(*bound, state.clone(), 0), value);
            assert_eq!(min_search(*bound, state.clone(), 0), value);
            assert_eq!(search(true, *bound, state, 0), value);
            assert_eq!(search(false, *bound, state, 0), value);
        }
    }
}

#[test]
fn search_from_the_start() {
    let game = init_game();
    let state = game.board_essential();
    for bound in [isize::MIN, -1, 0, 2, 5, isize::MAX].iter() {
        assert_eq!(max_search(*bound, state.clone(), 1), 3);
        assert_eq!(min_search(*bound, state.clone(), 1), 3);
        assert_eq!(max_search(*bound, state.clone(), 2), 0);
        assert_eq!(min_search(*bound, state.clone(), 2), 0);
        assert_eq!(max_search(*bound, state.clone(), 3), 3);
        assert_eq!(min_search(*bound, state.clone(), 3), 3);
    }
}

#[test]
fn search_after_the_first_move() {
    for &(x, y) in [(2, 3), (3, 2), (4, 5), (5, 4)].iter() {
        let mut state = init_game().board_essential().clone();
        do_move_essentials(x, y, &mut state);
        assert_eq!(evaluate_game(&state), 3);
        assert_eq!(min_search(isize::MIN, state.clone(), 1), 0);
        assert_eq!(min_search(isize::MIN, state.clone(), 2), 3);
        assert_eq!(min_search(isize::MIN, state.clone(), 4), 3);
    }
}

#[test]
fn search_stops_once_the_bound_is_passed() {
    let game = reach(&LINE[..20]);
    let state = game.board_essential();
    assert_eq!(max_search(isize::MIN, state.clone(), 1), 9);
    assert_eq!(max_search(8, state.clone(), 1), 9);
    assert_eq!(max_search(12, state.clone(), 1), 13);
    assert_eq!(max_search(isize::MAX, state.clone(), 1), 13);
    assert_eq!(min_search(-6, state.clone(), 1), 7);
    assert_eq!(min_search(8, state.clone(), 1), 7);
    assert_eq!(min_search(12, state.clone(), 1), 9);
    assert_eq!(min_search(isize::MAX, state.clone(), 1), 9);

    assert_eq!(max_search(isize::MIN, state.clone(), 2), -2);
    assert_eq!(max_search(-6, state.clone(), 2), -2);
    assert_eq!(max_search(0, state.clone(), 2), 2);
    assert_eq!(max_search(isize::MAX, state.clone(), 2), 2);
    assert_eq!(min_search(isize::MIN, state.clone(), 2), 4);
    assert_eq!(min_search(4, state.clone(), 2), 4);
    assert_eq!(min_search(8, state.clone(), 2), 6);
    assert_eq!(min_search(isize::MAX, state.clone(), 2), 6);

    assert_eq!(max_search(isize::MIN, state.clone(), 3), 7);
    assert_eq!(max_search(4, state.clone(), 3), 7);
    assert_eq!(max_search(8, state.clone(), 3), 9);
    assert_eq!(max_search(12, state.clone(), 3), 13);
    assert_eq!(max_search(isize::MAX, state.clone(), 3), 13);
    assert_eq!(min_search(isize::MIN, state.clone(), 3), 7);
    assert_eq!(min_search(8, state.clone(), 3), 7);
    assert_eq!(min_search(12, state.clone(), 3), 11);
    assert_eq!(min_search(isize::MAX, state.clone(), 3), 11);
}

#[test]
fn search_after_a_forced_pass() {
    let game = reach(&STALL);
    let state = game.board_essential();
    assert!(!state.white_turn());
    assert_eq!(max_search(isize::MIN, state.clone(), 1), -5);
    assert_eq!(min_search(isize::MIN, state.clone(), 1), -9);
    assert_eq!(min_search(-3, state.clone(), 1), -5);
    assert_eq!(max_search(isize::MIN, state.clone(), 2), -2);
    assert_eq!(min_search(isize::MIN, state.clone(), 2), -6);
    assert_eq!(min_search(0, state.clone(), 2), -2);
    assert_eq!(max_search(isize::MIN, state.clone(), 3), -7);
    assert_eq!(min_search(isize::MIN, state.clone(), 3), -13);
    assert_eq!(min_search(-3, state.clone(), 3), -9);
    assert_eq!(min_search(isize::MAX, state.clone(), 3), -9);
}

#[test]
fn a_winning_move_gives_the_extreme_value() {
    let game = reach(&SWEEP[..12]);
    let state = game.board_essential();
    assert!(state.white_turn());
    for depth in 1..4 {
        for bound in [isize::MIN, 0, isize::MAX].iter() {
            assert_eq!(max_search(*bound, state.clone(), depth), isize::MAX);
        }
    }
    assert_eq!(min_search(isize::MIN, state.clone(), 1), 17);
    assert_eq!(min_search(isize::MIN, state.clone(), 2), 14);
    assert_eq!(min_search(isize::MIN, state.clone(), 3), 17);
    let game = reach(&LINE[..58]);
    let state = game.board_essential();
    assert_eq!(max_search(isize::MIN, state.clone(), 1), -5);
    assert_eq!(min_search(isize::MIN, state.clone(), 1), -11);
    assert_eq!(min_search(0, state.clone(), 1), -5);
    assert_eq!(max_search(0, state.clone(), 2), isize::MAX);
    assert_eq!(min_search(0, state.clone(), 2), isize::MIN);
}

#[test]
fn a_node_with_only_losing_moves_keeps_the_worst_value() {
    // black's one move fills the board and wins the game for black
    let game = reach(&LINE[..59]);
    let state = game.board_essential();
    assert!(!state.white_turn());
    assert_eq!(state.amount_of_stone(), 63);
    for bound in [isize::MIN, 0, isize::MAX].iter() {
        assert_eq!(max_search(*bound, state.clone(), 1), isize::MIN);
        assert_eq!(max_search(*bound, state.clone(), 2), isize::MIN);
        assert_eq!(min_search(*bound, state.clone(), 1), isize::MIN);
        assert_eq!(min_search(*bound, state.clone(), 2), isize::MIN);
    }
}

#[test]
fn a_drawing_move_counts_for_zero() {
    // black's one move fills the board with 32 stones each
    let game = reach(&DRAWN_LINE[..59]);
    let state = game.board_essential();
    assert!(!state.white_turn());
    assert_eq!(evaluate_game(state), 59);
    for bound in [isize::MIN, -1, 0, 1, isize::MAX].iter() {
        assert_eq!(max_search(*bound, state.clone(), 1), 0);
        assert_eq!(min_search(*bound, state.clone(), 1), 0);
        assert_eq!(max_search(*bound, state.clone(), 2), 0);
        assert_eq!(min_search(*bound, state.clone(), 2), 0);
    }
    assert_eq!(get_for_whoever_best_move(state), Some(Square { x: 0, y: 7 }));
    assert_eq!(best_move(true, state), Some(Square { x: 0, y: 7 }));
    // one move earlier the draw lies two moves ahead
    let game = reach(&DRAWN_LINE[..58]);
    let state = game.board_essential();
    assert!(state.white_turn());
    assert_eq!(evaluate_game(state), 54);
    for bound in [isize::MIN, -1, 0, 1, isize::MAX].iter() {
        assert_eq!(max_search(*bound, state.clone(), 1), 59);
        assert_eq!(min_search(*bound, state.clone(), 1), 59);
        assert_eq!(max_search(*bound, state.clone(), 2), 0);
        assert_eq!(min_search(*bound, state.clone(), 2), 0);
        assert_eq!(max_search(*bound, state.clone(), 3), 0);
        assert_eq!(min_search(*bound, state.clone(), 3), 0);
    }
    assert_eq!(get_for_whoever_best_move(state), Some(Square { x: 0, y: 6 }));
}

#[test]
fn no_move_is_chosen_once_the_game_is_over() {
    let game = reach(&SWEEP);
    assert!(game.board_essential().game_over());
    assert_eq!(get_for_whoever_best_move(game.board_essential()), None);
    let game = reach(&LINE);
    assert!(game.board_essential().game_over());
    assert_eq!(get_for_whoever_best_move(game.board_essential()), None);
    let game = reach(&DRAWN_LINE);
    assert_eq!(get_for_whoever_best_move(game.board_essential()), None);
}

#[test]
fn chosen_move_at_the_start() {
    let game = init_game();
    assert_eq!(
        get_for_whoever_best_move(game.board_essential()),
        Some(Square { x: 2, y: 3 })
    );
    let game = reach(&[(2, 3)]);
    assert_eq!(
        get_for_whoever_best_move(game.board_essential()),
        Some(Square { x: 2, y: 2 })
    );
}

#[test]
fn chosen_move_in_the_middle_game() {
    let game = reach(&LINE[..20]);
    assert_eq!(
        get_for_whoever_best_move(game.board_essential()),
        Some(Square { x: 4, y: 7 })
    );
    let game = reach(&LINE[..21]);
    assert_eq!(
        get_for_whoever_best_move(game.board_essential()),
        Some(Square { x: 0, y: 4 })
    );
}

#[test]
fn chosen_move_after_a_forced_pass() {
    let game = reach(&STALL);
    assert!(!game.board_essential().white_turn());
    assert_eq!(
        get_for_whoever_best_move(game.board_essential()),
        Some(Square { x: 3, y: 5 })
    );
}

#[test]
fn chosen_move_near_the_end() {
    let expected = [(50, (3, 6)), (54, (1, 0)), (56, (0, 7)), (58, (1, 0)), (59, (1, 0))];
    for &(n, (x, y)) in expected.iter() {
        let game = reach(&LINE[..n]);
        assert_eq!(get_for_whoever_best_move(game.board_essential()), Some(Square { x, y }));
    }
}

#[test]
fn a_move_that_wins_at_once_is_taken() {
    let game = reach(&SWEEP[..12]);
    let state = game.board_essential();
    assert!(state.can_move(3, 7));
    assert!(state.can_move(4, 7));
    assert_eq!(get_for_whoever_best_move(state), Some(Square { x: 3, y: 7 }));
    assert_eq!(get_best_move_for_white(state), Square { x: 3, y: 7 });
}

#[test]
fn a_losing_move_is_kept_when_there_is_no_other() {
    // the only move there is loses the game for white
    let game = reach(&LINE[..59]);
    let state = game.board_essential();
    assert_eq!(best_move(true, state), Some(Square { x: 1, y: 0 }));
    assert_eq!(get_best_move_for_white(state), Square { x: 1, y: 0 });
    assert_eq!(best_move(false, state), Some(Square { x: 1, y: 0 }));
    assert_eq!(get_best_move_for_black(state), Square { x: 1, y: 0 });
}

#[test]
fn chosen_move_is_always_a_legal_one() {
    let mut game = init_game();
    let mut played = 0;
    while let Some(square) = get_for_whoever_best_move(game.board_essential()) {
        assert!(!game.board_essential().game_over());
        assert!(square.x < 8 && square.y < 8);
        assert!(game.board_essential().can_move(square.x, square.y));
        assert!(!game.board_essential().possible_moves()[square.x][square.y].is_empty());
        // follow a fixed line so that the test stays quick
        let (x, y) = SWEEP[played];
        do_move(x, y, &mut game);
        played += 1;
    }
    assert_eq!(played, 13);
    assert!(game.board_essential().game_over());
}

#[test]
fn the_side_to_move_decides_who_is_optimised() {
    let game = reach(&LINE[..20]);
    let state = game.board_essential();
    assert!(state.white_turn());
    assert_eq!(get_for_whoever_best_move(state), Some(get_best_move_for_white(state)));
    assert_eq!(get_for_whoever_best_move(state), best_move(true, state));
    let game = reach(&LINE[..21]);
    let state = game.board_essential();
    assert!(!state.white_turn());
    assert_eq!(get_for_whoever_best_move(state), Some(get_best_move_for_black(state)));
    assert_eq!(get_for_whoever_best_move(state), best_move(false, state));
}
