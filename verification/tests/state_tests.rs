use ultimate_tic_tac_toe::ai::{get_small, is_win, opening_move, popcount, Action, MatchResult, State};
use ultimate_tic_tac_toe::game::hashing;
use ultimate_tic_tac_toe::rng::XorShift;
use ultimate_tic_tac_toe::strategy_mcts::playout;
use ultimate_tic_tac_toe::strategy_random::calc_action;
use ultimate_tic_tac_toe::zobrist::Zobrist;

fn act(b: u16, s: u16) -> Action {
    Action { b, s, anywhere: false }
}

#[test]
fn get_small_reads_nine_bits() {
    assert_eq!(get_small(0b111 << 9, 1), 0b111);
    assert_eq!(get_small(0b111 << 9, 0), 0);
    assert_eq!(get_small(u128::MAX, 8), 0x1ff);
    assert_eq!(get_small(1u128 << 80, 8), 0b100000000);
}

#[test]
fn is_win_finds_lines() {
    assert!(is_win(0b000000111));
    assert!(is_win(0b100010001));
    assert!(is_win(0b001010100));
    assert!(is_win(0b010010010));
    assert!(is_win(0x1ff));
    assert!(!is_win(0));
    assert!(!is_win(0b000000110));
    assert!(!is_win(0b101010010));
}

#[test]
fn popcount_counts_bits() {
    assert_eq!(popcount(0), 0);
    assert_eq!(popcount(0b101), 2);
    assert_eq!(popcount(0x1ff), 9);
}

#[test]
fn new_state_is_empty() {
    let st = State::new();
    assert_eq!(st.small_win, 0);
    assert_eq!(st.small_lose, 0);
    assert_eq!(st.last_big, 9);
    assert_eq!(st.hash, 0);
    assert!(!st.turn);
    assert!(st.is_consistent());
    assert!(!st.finished());
    assert_eq!(st.winner(), None);
}

#[test]
fn all_cells_offered_at_start() {
    let st = State::new();
    let actions = st.valid_actions();
    assert_eq!(actions.len(), 81);
    assert_eq!(actions[0], act(0, 0));
    assert_eq!(actions[10], act(1, 1));
    assert_eq!(actions[80], act(8, 8));
}

#[test]
fn move_sends_reply_to_sub_board() {
    let keys = Zobrist::new();
    let st = State::new().advanced(&keys, &act(4, 4));
    assert_eq!(st.small_win, 0);
    assert_eq!(st.small_lose, 1u128 << 40);
    assert_eq!(st.last_big, 4);
    assert!(st.turn);
    assert!(st.is_consistent());
    let actions = st.valid_actions();
    let cells: Vec<(u16, u16)> = actions.iter().map(|a| (a.b, a.s)).collect();
    assert_eq!(cells, vec![(4, 0), (4, 1), (4, 2), (4, 3), (4, 5), (4, 6), (4, 7), (4, 8)]);
    assert!(actions.iter().all(|a| !a.anywhere));
}

#[test]
fn winning_a_sub_board_marks_it() {
    let keys = Zobrist::new();
    let mut st = State::new();
    st.small_win = 0b011;
    st.last_big = 0;
    let next = st.advanced(&keys, &act(0, 2));
    assert_eq!(next.big_lose, 1);
    assert_eq!(next.big_win, 0);
    assert_eq!(next.last_big, 2);
}

#[test]
fn move_into_decided_sub_board_frees_reply() {
    let keys = Zobrist::new();
    let mut st = State::new();
    st.big_draw = 1 << 3;
    st.last_big = 9;
    let next = st.advanced(&keys, &act(0, 3));
    assert_eq!(next.last_big, 9);
    assert!(st.action_of(0, 3).anywhere);
    assert!(!st.action_of(0, 4).anywhere);
}

#[test]
fn advance_self_matches_advanced() {
    let keys = Zobrist::new();
    let st = State::new().advanced(&keys, &act(2, 7));
    let mut copy = st;
    copy.advance_self(&keys, &act(7, 1));
    assert_eq!(copy, st.advanced(&keys, &act(7, 1)));
    assert_eq!(st.advanced_hash(&keys, 7, 1), copy.hash);
}

#[test]
fn hash_changes_with_each_move() {
    let keys = Zobrist::new();
    let st = State::new();
    let h = st.advanced_hash(&keys, 4, 4);
    assert_eq!(h, keys.x[40]);
    assert_ne!(h, 0);
}

#[test]
fn winner_by_line_of_sub_boards() {
    let mut st = State::new();
    st.big_win = 0b111;
    assert!(st.finished());
    assert_eq!(st.winner(), Some(MatchResult::Win));
    let mut st = State::new();
    st.big_lose = 0b100010001;
    assert!(st.finished());
    assert_eq!(st.winner(), Some(MatchResult::Lose));
}

#[test]
fn winner_by_count_when_all_decided() {
    let mut st = State::new();
    st.big_win = 99;
    st.big_lose = 156;
    st.big_draw = 256;
    assert!(st.finished());
    assert_eq!(st.winner(), Some(MatchResult::Draw));
    st.big_win = 355;
    st.big_draw = 0;
    assert_eq!(st.winner(), Some(MatchResult::Win));
    st.big_win = 99;
    st.big_lose = 412;
    assert_eq!(st.winner(), Some(MatchResult::Lose));
}

#[test]
fn unfinished_with_open_sub_boards() {
    let mut st = State::new();
    st.big_win = 0b011;
    st.big_lose = 0b100;
    assert!(!st.finished());
    assert_eq!(st.winner(), None);
}

#[test]
fn inconsistent_states_are_rejected() {
    let mut st = State::new();
    st.small_win = 1;
    st.small_lose = 1;
    assert!(!st.is_consistent());
    let mut st = State::new();
    st.last_big = 10;
    assert!(!st.is_consistent());
    let mut st = State::new();
    st.small_win = 0x1ff;
    assert!(!st.is_consistent());
    st.big_win = 1;
    assert!(st.is_consistent());
}

#[test]
fn random_action_draws_from_offered_moves() {
    let st = State::new();
    let mut rng = XorShift::new();
    let a = st.random_action(&mut rng);
    assert_eq!(a, act(1, 1));
    assert_eq!(rng.seed, 11373782495151020392);
    let keys = Zobrist::new();
    let st = State::new().advanced(&keys, &act(4, 4));
    let mut rng = XorShift::new();
    assert_eq!(st.random_action(&mut rng), act(4, 0));
}

#[test]
fn random_strategy_uses_the_generator() {
    let st = State::new();
    let mut rng = XorShift::new();
    let mut probe = XorShift::new();
    let v = probe.next();
    let a = calc_action(&st, &mut rng);
    assert_eq!(a, st.valid_actions()[v % 81]);
    assert_eq!(rng.seed, probe.seed);
}

#[test]
fn random_game_keeps_state_and_hash_consistent() {
    let keys = Zobrist::new();
    let mut rng = XorShift::new();
    let mut st = State::new();
    let mut moves = 0;
    while !st.finished() {
        let a = calc_action(&st, &mut rng);
        st = st.advanced(&keys, &a);
        assert!(st.is_consistent());
        assert_eq!(hashing(&keys, &st), st.hash);
        moves += 1;
        assert!(moves <= 81);
    }
    assert!(st.winner().is_some());
}

#[test]
fn playout_returns_a_result() {
    let keys = Zobrist::new();
    let mut rng = XorShift::new();
    let st = State::new();
    let r = playout(&st, &keys, &mut rng);
    assert!(r == -1 || r == 0 || r == 1);
    assert_ne!(rng.seed, XorShift::new().seed);
}

#[test]
fn positions_round_trip() {
    assert_eq!(act(4, 4).position(), (4, 4));
    assert_eq!(act(2, 7).position(), (2, 7));
    assert_eq!(act(8, 0).position(), (6, 6));
    assert_eq!(Action::from_position(2, 7), Some(act(2, 7)));
    assert_eq!(Action::from_position(6, 6), Some(act(8, 0)));
    assert_eq!(Action::from_position(5, -1), None);
    for b in 0..9 {
        for s in 0..9 {
            let (y, x) = act(b, s).position();
            assert_eq!(Action::from_position(y as i32, x as i32), Some(act(b, s)));
        }
    }
}

#[test]
fn opening_move_on_empty_board_only() {
    let keys = Zobrist::new();
    assert_eq!(opening_move(&State::new()), Some(act(4, 4)));
    let st = State::new().advanced(&keys, &act(0, 0));
    assert_eq!(opening_move(&st), None);
}

#[test]
fn render_draws_the_board() {
    let keys = Zobrist::new();
    let picture = State::new().render();
    assert_eq!(picture[0][0], '.');
    assert_eq!(picture[3][0], '-');
    assert_eq!(picture[0][3], '|');
    assert_eq!(picture[3][3], '+');
    assert_eq!(picture[7][7], '+');
    let st = State::new().advanced(&keys, &act(4, 4));
    let picture = st.render();
    assert_eq!(picture[5][5], 'O');
    assert_eq!(picture[5][4], '.');
    let next = st.advanced(&keys, &act(4, 0));
    let picture = next.render();
    assert_eq!(picture[5][5], 'O');
    assert_eq!(picture[4][4], 'X');
}

#[test]
fn render_marks_decided_sub_boards() {
    let mut st = State::new();
    st.big_win = 1;
    st.turn = false;
    let picture = st.render();
    assert_eq!(picture[1][1], 'O');
    assert_eq!(picture[0][0], '*');
    st.turn = true;
    assert_eq!(st.render()[1][1], 'X');
}

#[test]
fn anywhere_flag_matches_free_reply() {
    let keys = Zobrist::new();
    let mut rng = XorShift::new();
    let mut st = State::new();
    let mut checked = 0;
    while !st.finished() {
        for a in st.valid_actions() {
            let win = get_small(st.small_win, a.b);
            let lose = get_small(st.small_lose, a.b);
            let fills_without_line = a.b == a.s && !is_win(win | 1 << a.s) && win | lose | 1 << a.s == 0x1ff;
            if !fills_without_line {
                assert_eq!(a.anywhere, st.advanced(&keys, &a).last_big == 9);
                checked += 1;
            }
        }
        let a = calc_action(&st, &mut rng);
        st = st.advanced(&keys, &a);
    }
    assert!(checked > 0);
}

#[test]
fn anywhere_flag_unset_when_own_sub_board_fills() {
    let keys = Zobrist::new();
    let mut st = State::new();
    // sub-board 4 full but for its centre, no line for either side once filled
    st.small_win = 0b101001010u128 << 36;
    st.small_lose = 0b010100101u128 << 36;
    st.last_big = 4;
    let a = st.action_of(4, 4);
    assert!(!a.anywhere);
    assert_eq!(st.advanced(&keys, &a).last_big, 9);
}

#[test]
fn owners_need_their_lines() {
    let mut st = State::new();
    st.big_win = 1;
    assert!(!st.is_consistent());
    st.small_win = 0b111;
    assert!(st.is_consistent());
    let mut st = State::new();
    st.small_lose = 0b100010001 << 9;
    assert!(!st.is_consistent());
    st.big_lose = 0b10;
    assert!(st.is_consistent());
}

#[test]
fn get_small_reads_the_last_index() {
    assert_eq!(get_small(0b11u128 << 126, 14), 0b11);
    assert_eq!(get_small(u128::MAX, 14), 0b11);
}

#[test]
fn finished_reads_only_what_it_needs() {
    let mut st = State::new();
    st.big_win = 0b111;
    st.big_lose = 0xffff;
    assert!(st.finished());
    assert_eq!(st.winner(), Some(MatchResult::Win));
    let mut st = State::new();
    st.big_win = 0x1ff;
    st.big_lose = 0xffff;
    assert!(st.finished());
}
