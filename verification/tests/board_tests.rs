use ultimate_tic_tac_toe::ai::{Action, State};
use ultimate_tic_tac_toe::board;
use ultimate_tic_tac_toe::game::{self, hashing};
use ultimate_tic_tac_toe::zobrist::Zobrist;

#[test]
fn board_starts_empty_with_player() {
    let g = board::Grid::initial_grid();
    assert!(g.is_player_turn);
    assert_eq!(g.last_big, None);
    assert_eq!(g.winner, None);
    for b in 0..9 {
        assert_eq!(g.get_big_cell(b), None);
        for s in 0..9 {
            assert_eq!(g.get_small_cell(b, s), None);
            assert!(g.is_valid_action(&board::Cell::new(b, s)));
        }
    }
}

#[test]
fn board_play_marks_and_sends() {
    let g = board::Grid::initial_grid().play(&board::Cell::new(4, 4));
    assert_eq!(g.get_small_cell(4, 4), Some(board::Turn::Player));
    assert_eq!(g.last_big, Some(4));
    assert!(!g.is_player_turn);
    assert!(!g.is_valid_action(&board::Cell::new(0, 0)));
    assert!(!g.is_valid_action(&board::Cell::new(4, 4)));
    assert!(g.is_valid_action(&board::Cell::new(4, 0)));
    let g = g.play(&board::Cell::new(4, 0));
    assert_eq!(g.get_small_cell(4, 0), Some(board::Turn::Ai));
    assert_eq!(g.last_big, Some(0));
}

#[test]
fn board_play_decides_sub_board_and_game() {
    let mut g = board::Grid::initial_grid();
    for (b, s) in [(0, 0), (1, 0), (0, 1), (1, 1), (0, 2)] {
        g = g.play(&board::Cell::new(b, s));
    }
    assert_eq!(g.get_big_cell(0), Some(board::Turn::Player));
    assert_eq!(g.last_big, Some(2));
    assert_eq!(g.winner, None);
    // a reply sent to a decided sub-board may go anywhere
    let g = g.play(&board::Cell::new(2, 0));
    assert_eq!(g.last_big, None);
    assert!(!g.is_valid_action(&board::Cell::new(0, 5)));
    assert!(g.is_valid_action(&board::Cell::new(5, 5)));
}

#[test]
fn board_out_of_range_move_is_refused_when_sent_elsewhere() {
    let g = board::Grid::initial_grid().play(&board::Cell::new(4, 4));
    assert!(!g.is_valid_action(&board::Cell::new(12, 0)));
}

#[test]
fn board_ai_plays_a_valid_move() {
    let g = board::Grid::initial_grid().play(&board::Cell::new(4, 4));
    let c = g.ai_action();
    assert_eq!(c.b, 4);
    assert!(c.s < 9 && c.s != 4);
    assert!(g.is_valid_action(&c));
    let g = board::Grid::initial_grid();
    let c = g.ai_action();
    assert!(c.b < 9 && c.s < 9);
}

#[test]
fn game_grid_starts_with_chosen_side() {
    let g = game::Grid::initial_grid(game::Turn::Ai);
    assert!(!g.is_player_turn);
    assert!(!g.is_first_player);
    assert_eq!(g.last_big, None);
    let g = game::Grid::initial_grid(game::Turn::Player);
    assert!(g.is_player_turn);
    assert!(g.is_first_player);
}

#[test]
fn game_grid_advance_marks_and_sends() {
    let g = game::Grid::initial_grid(game::Turn::Player);
    let g2 = g.advance(&game::Cell::new(4, 4));
    assert_eq!(g2.get_small_cell(4, 4), Some(game::Turn::Player));
    assert_eq!(g.get_small_cell(4, 4), None);
    assert_eq!(g2.last_big, Some(4));
    assert!(!g2.is_player_turn);
    assert!(g2.is_first_player);
    assert!(!g2.is_valid_action(&game::Cell::new(3, 3)));
    assert!(g2.is_valid_action(&game::Cell::new(4, 3)));
}

#[test]
fn game_grid_wins_sub_boards_and_game() {
    let mut g = game::Grid::initial_grid(game::Turn::Player);
    // the player takes sub-boards 0, 1 and 2; the AI answers in sub-board 8
    let mut ai_cell = 0;
    for b in 0..3 {
        for s in 0..3 {
            g = g.advance(&game::Cell::new(b, s));
            if g.winner.is_some() {
                break;
            }
            g = g.advance(&game::Cell::new(8, ai_cell));
            ai_cell += 1;
        }
    }
    assert_eq!(g.get_big_cell(0), Some(game::Turn::Player));
    assert_eq!(g.get_big_cell(1), Some(game::Turn::Player));
    assert_eq!(g.get_big_cell(2), Some(game::Turn::Player));
    assert_eq!(g.winner, Some(game::Turn::Player));
}

#[test]
fn game_grid_full_sub_board_frees_reply() {
    let mut g = game::Grid::initial_grid(game::Turn::Player);
    // fill sub-board 5 without a line: P A P / P A A / A P P
    let marks = [0, 1, 2, 4, 3, 5, 7, 6, 8];
    for s in marks {
        g = g.advance(&game::Cell::new(5, s));
    }
    assert_eq!(g.get_big_cell(5), None);
    let g = g.advance(&game::Cell::new(0, 5));
    assert_eq!(g.last_big, None);
}

#[test]
fn game_grid_to_state_matches_search_state() {
    let keys = Zobrist::new();
    let g = game::Grid::initial_grid(game::Turn::Ai).advance(&game::Cell::new(4, 4));
    let st = g.to_state(&keys);
    let expected = State::new().advanced(&keys, &Action { b: 4, s: 4, anywhere: false });
    assert_eq!(st, expected);
    let g = g.advance(&game::Cell::new(4, 2));
    let st = g.to_state(&keys);
    let expected = expected.advanced(&keys, &Action { b: 4, s: 2, anywhere: false });
    assert_eq!(st, expected);
    assert_eq!(hashing(&keys, &st), st.hash);
}

#[test]
fn game_grid_to_state_sees_side_to_move() {
    let keys = Zobrist::new();
    let g = game::Grid::initial_grid(game::Turn::Player).advance(&game::Cell::new(0, 0));
    let st = g.to_state(&keys);
    assert_eq!(st.small_win, 0);
    assert_eq!(st.small_lose, 1);
    assert_eq!(st.last_big, 0);
    assert!(st.turn);
    let empty = game::Grid::initial_grid(game::Turn::Player).to_state(&keys);
    assert_eq!(empty.last_big, 9);
    assert_eq!(empty.hash, 0);
    assert!(!empty.turn);
}

#[test]
fn game_grid_to_state_commutes_with_moves() {
    let keys = Zobrist::new();
    let mut rng = ultimate_tic_tac_toe::rng::XorShift::new();
    let mut g = game::Grid::initial_grid(game::Turn::Player);
    let mut moves = 0;
    loop {
        let st = g.to_state(&keys);
        if st.finished() || g.winner.is_some() {
            break;
        }
        let a = ultimate_tic_tac_toe::strategy_random::calc_action(&st, &mut rng);
        let cell = game::Cell::new(a.b as usize, a.s as usize);
        assert!(g.is_valid_action(&cell));
        let g2 = g.advance(&cell);
        let after = g2.to_state(&keys);
        let expected = st.advanced(&keys, &a);
        let wins_with_last_cell = g2.grid_big[cell.b].is_some() && g2.grid_small[cell.b].iter().all(|c| c.is_some());
        if wins_with_last_cell {
            let mut with_draw = expected;
            with_draw.big_draw |= 1 << a.b;
            assert_eq!(after, with_draw);
        } else {
            assert_eq!(after, expected);
        }
        g = g2;
        moves += 1;
        assert!(moves <= 81);
    }
    assert!(moves > 0);
}

#[test]
fn game_grid_win_with_last_cell_also_marks_draw() {
    let keys = Zobrist::new();
    let mut g = game::Grid::initial_grid(game::Turn::Player);
    // sub-board 0: player on 0, 1, 5, 6 and the AI on 3, 4, 7, 8; the player then takes 2
    for s in [0, 3, 1, 4, 5, 7, 6, 8] {
        g.last_big = None;
        g = g.advance(&game::Cell::new(0, s));
    }
    g.last_big = None;
    let st = g.to_state(&keys);
    let a = Action { b: 0, s: 2, anywhere: false };
    let after = g.advance(&game::Cell::new(0, 2)).to_state(&keys);
    let expected = st.advanced(&keys, &a);
    assert_eq!(expected.big_lose, 1);
    assert_eq!(expected.big_draw, 0);
    assert_eq!(after.big_draw, 1);
    let mut with_draw = expected;
    with_draw.big_draw = 1;
    assert_eq!(after, with_draw);
    assert_eq!(after.hash, hashing(&keys, &after));
}

#[test]
fn board_valid_cells_lists_accepted_cells() {
    let g = board::Grid::initial_grid();
    let cells = g.valid_cells();
    assert_eq!(cells.len(), 81);
    assert_eq!((cells[0].b, cells[0].s), (0, 0));
    assert_eq!((cells[1].b, cells[1].s), (1, 0));
    assert_eq!((cells[9].b, cells[9].s), (0, 1));
    let g = g.play(&board::Cell::new(4, 4));
    let cells = g.valid_cells();
    let pairs: Vec<(usize, usize)> = cells.iter().map(|c| (c.b, c.s)).collect();
    assert_eq!(pairs, vec![(4, 0), (4, 1), (4, 2), (4, 3), (4, 5), (4, 6), (4, 7), (4, 8)]);
}
