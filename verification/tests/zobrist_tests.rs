use ultimate_tic_tac_toe::ai::{Action, State};
use ultimate_tic_tac_toe::game::hashing;
use ultimate_tic_tac_toe::zobrist::Zobrist;

#[test]
fn tables_have_their_sizes() {
    let keys = Zobrist::new();
    assert_eq!(keys.o.len(), 81);
    assert_eq!(keys.x.len(), 81);
    assert_eq!(keys.big_o.len(), 9);
    assert_eq!(keys.big_x.len(), 9);
    assert_eq!(keys.big_draw.len(), 9);
    assert_eq!(keys.reset_o.len(), 0x1200);
    assert_eq!(keys.reset_x.len(), 0x1200);
}

#[test]
fn reset_keys_combine_cell_keys() {
    let keys = Zobrist::new();
    let o = 0b101usize;
    let b = 2usize;
    assert_eq!(keys.reset_o[o * 9 + b], keys.o[b * 9] ^ keys.o[b * 9 + 2]);
    assert_eq!(keys.reset_x[o * 9 + b], keys.x[b * 9] ^ keys.x[b * 9 + 2]);
    assert_eq!(keys.reset_o[b], 0);
    let all = 0x1ffusize;
    let mut expected = 0u64;
    for s in 0..9 {
        expected ^= keys.o[7 * 9 + s];
    }
    assert_eq!(keys.reset_o[all * 9 + 7], expected);
}

#[test]
fn tables_are_seeded() {
    let a = Zobrist::new();
    let b = Zobrist::new();
    assert_eq!(a.o, b.o);
    assert_eq!(a.big_draw, b.big_draw);
    assert_ne!(a.o[0], a.x[0]);
}

#[test]
fn hash_keys_marks_by_colour() {
    let keys = Zobrist::new();
    let mut st = State::new();
    for (b, s) in [(4, 4), (4, 0), (0, 3), (3, 8)] {
        st = st.advanced(&keys, &Action { b, s, anywhere: false });
    }
    st.big_win = 0b100000000;
    let mut swapped = st;
    swapped.small_win = st.small_lose;
    swapped.small_lose = st.small_win;
    swapped.big_win = st.big_lose;
    swapped.big_lose = st.big_win;
    swapped.turn = !st.turn;
    assert_eq!(hashing(&keys, &swapped), hashing(&keys, &st));
    let mut moved = st;
    moved.last_big = 2;
    moved.hash = 12345;
    assert_eq!(hashing(&keys, &moved), hashing(&keys, &st));
}

#[test]
fn keys_are_laid_out_in_drawing_order() {
    let words: Vec<u64> = (1..=189).collect();
    let keys = Zobrist::from_words(&words);
    assert_eq!(keys.o[0], 1);
    assert_eq!(keys.x[0], 2);
    assert_eq!(keys.o[80], 161);
    assert_eq!(keys.x[80], 162);
    assert_eq!(keys.big_o[0], 163);
    assert_eq!(keys.big_x[0], 164);
    assert_eq!(keys.big_draw[0], 165);
    assert_eq!(keys.big_draw[8], 189);
    assert_eq!(keys.reset_o[0b11 * 9 + 1], keys.o[9] ^ keys.o[10]);
}

#[test]
fn each_offered_move_adds_one_mark() {
    let keys = Zobrist::new();
    let mut rng = ultimate_tic_tac_toe::rng::XorShift::new();
    let mut st = State::new();
    while !st.finished() {
        let a = ultimate_tic_tac_toe::strategy_random::calc_action(&st, &mut rng);
        let next = st.advanced(&keys, &a);
        assert_eq!((next.small_win | next.small_lose).count_ones(), (st.small_win | st.small_lose).count_ones() + 1);
        assert_eq!(next.small_win & next.small_lose, 0);
        assert_eq!(next.big_win & next.big_lose, 0);
        st = next;
    }
}
