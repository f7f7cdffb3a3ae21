use ultimate_tic_tac_toe::ai::{Action, State};
use ultimate_tic_tac_toe::bench::{parse_state, play_step, Winner};
use ultimate_tic_tac_toe::dataset::{decode_dataset, encode_dataset, Datapoint, EvaluatedAction};
use ultimate_tic_tac_toe::zobrist::Zobrist;

fn sample_state(small_win: u128, small_lose: u128, turn: bool) -> State {
    State {
        small_win,
        small_lose,
        big_win: 0,
        big_lose: 0,
        big_draw: 0,
        last_big: 0,
        hash: 0,
        turn,
    }
}

fn sample_bytes() -> Vec<u8> {
    let mut bytes = vec![1, 2, 0x3f, 0x80, 0, 0];
    bytes.extend_from_slice(&[0; 15]);
    bytes.push(1);
    bytes.extend_from_slice(&[0; 15]);
    bytes.push(2);
    bytes.extend_from_slice(&[0, 1, 2, 0, 0, 0, 7, 0xbf, 0, 0, 0]);
    bytes
}

fn sample_datapoint() -> Datapoint {
    Datapoint {
        depth: 1,
        state: sample_state(1, 2, true),
        visit_count: 20000,
        value_bits: 0x3f800000,
        evaluated_actions: vec![EvaluatedAction { index: 2, visit_count: 7, value_bits: 0xbf000000 }],
    }
}

fn same(a: &Datapoint, b: &Datapoint) -> bool {
    a.depth == b.depth
        && a.state == b.state
        && a.visit_count == b.visit_count
        && a.value_bits == b.value_bits
        && a.evaluated_actions == b.evaluated_actions
}

#[test]
fn encode_writes_big_endian_record() {
    let bytes = encode_dataset(&vec![sample_datapoint()]);
    assert_eq!(bytes.len(), 49);
    assert_eq!(bytes, sample_bytes());
}

#[test]
fn decode_reads_record() {
    let ds = decode_dataset(&sample_bytes()).unwrap();
    assert_eq!(ds.len(), 1);
    assert!(same(&ds[0], &sample_datapoint()));
}

#[test]
fn decode_of_encode_round_trips() {
    let mut second = sample_datapoint();
    second.depth = 4;
    second.state = sample_state(0b111 << 9, 1 << 80, false);
    second.state.big_win = 0b10;
    second.state.last_big = 9;
    second.visit_count = 2550000;
    second.evaluated_actions = vec![];
    let ds = vec![sample_datapoint(), second];
    let bytes = encode_dataset(&ds);
    assert_eq!(bytes.len(), 40 + 9 + 40);
    let back = decode_dataset(&bytes).unwrap();
    assert_eq!(back.len(), 2);
    assert!(same(&back[0], &ds[0]));
    assert!(same(&back[1], &ds[1]));
}

#[test]
fn decode_judges_sub_boards_from_cells() {
    let mut bytes = sample_bytes();
    // the side to move holds a row of sub-board 1, the other side five cells of sub-board 2
    let sw: u128 = 0b111 << 9;
    let sl: u128 = 0b011001110 << 18;
    let sw_bytes = sw.to_be_bytes();
    let sl_bytes = sl.to_be_bytes();
    bytes[6..22].copy_from_slice(&sw_bytes);
    bytes[22..38].copy_from_slice(&sl_bytes);
    let ds = decode_dataset(&bytes).unwrap();
    assert_eq!(ds[0].state.big_win, 0b10);
    assert_eq!(ds[0].state.big_lose, 0);
    assert_eq!(ds[0].state.big_draw, 0);
    let full: u128 = 0b110001110 << 18 | 0b001110001 << 18;
    bytes[6..22].copy_from_slice(&(0b110001110u128 << 18).to_be_bytes());
    bytes[22..38].copy_from_slice(&(0b001110001u128 << 18).to_be_bytes());
    let ds = decode_dataset(&bytes).unwrap();
    assert_eq!(ds[0].state.small_win | ds[0].state.small_lose, full);
    assert_eq!(ds[0].state.big_draw, 0b100);
    assert_eq!(ds[0].state.big_win, 0);
}

#[test]
fn decode_empty_is_empty() {
    let ds = decode_dataset(&[]).unwrap();
    assert!(ds.is_empty());
    assert!(encode_dataset(&vec![]).is_empty());
}

#[test]
fn decode_truncated_is_none() {
    let bytes = sample_bytes();
    assert!(decode_dataset(&bytes[..48]).is_none());
    assert!(decode_dataset(&bytes[..39]).is_none());
    assert!(decode_dataset(&bytes[..1]).is_none());
}

#[test]
fn parse_state_reads_digits() {
    let mut token = vec![b'0'; 92];
    token[0] = b'1';
    token[1] = b'2';
    token[80] = b'1';
    token[81] = b'1';
    token[82] = b'2';
    token[83] = b'3';
    token[90] = b'2';
    token[91] = b'9';
    let st = parse_state(&token);
    assert_eq!(st.small_win, 1 | 1 << 80);
    assert_eq!(st.small_lose, 2);
    assert_eq!(st.big_win, 1);
    assert_eq!(st.big_lose, 2);
    assert_eq!(st.big_draw, 4);
    assert_eq!(st.last_big, 9);
    assert_eq!(st.hash, 0);
    assert!(st.turn);
    token[90] = b'1';
    token[91] = b'3';
    let st = parse_state(&token);
    assert!(!st.turn);
    assert_eq!(st.last_big, 3);
}

#[test]
fn play_step_goes_on_without_result() {
    let keys = Zobrist::new();
    let (next, turn, outcome) = play_step(&State::new(), &keys, true, &Action { b: 4, s: 4, anywhere: false });
    assert_eq!(next, State::new().advanced(&keys, &Action { b: 4, s: 4, anywhere: false }));
    assert!(!turn);
    assert_eq!(outcome, None);
}

#[test]
fn play_step_reports_winner() {
    let keys = Zobrist::new();
    let mut st = State::new();
    st.small_win = 0b111 | 0b111 << 9 | 0b011 << 18;
    st.big_win = 0b011;
    st.last_big = 2;
    let winning = Action { b: 2, s: 2, anywhere: false };
    let (next, turn, outcome) = play_step(&st, &keys, true, &winning);
    assert_eq!(next.big_lose, 0b111);
    assert!(!turn);
    assert_eq!(outcome, Some(Winner::First));
    let (_, turn, outcome) = play_step(&st, &keys, false, &winning);
    assert!(turn);
    assert_eq!(outcome, Some(Winner::Second));
}

#[test]
fn play_step_reports_draw() {
    let keys = Zobrist::new();
    let mut st = State::new();
    // every sub-board but 8 decided, four each; sub-board 8 one move from drawn
    st.big_win = 99;
    st.big_lose = 156;
    st.small_win = 0b001110001u128 << 72;
    st.small_lose = 0b100001110u128 << 72;
    st.last_big = 8;
    let (next, _, outcome) = play_step(&st, &keys, true, &Action { b: 8, s: 7, anywhere: false });
    assert_eq!(next.big_draw, 256);
    assert_eq!(outcome, Some(Winner::Draw));
}

#[test]
fn encode_of_decode_gives_bytes_back() {
    let mut bytes = sample_bytes();
    let mut second = sample_bytes();
    second[0] = 7;
    second[38] = 9;
    bytes.extend_from_slice(&second);
    let ds = decode_dataset(&bytes).unwrap();
    assert_eq!(ds.len(), 2);
    assert_eq!(encode_dataset(&ds), bytes);
}

#[test]
fn reading_back_judges_sub_boards_and_side() {
    let mut d = sample_datapoint();
    d.state.big_draw = 0b1000;
    d.state.hash = 99;
    d.state.turn = false;
    d.state.small_win = 0b111 << 9;
    let bytes = encode_dataset(&vec![d]);
    let back = decode_dataset(&bytes).unwrap();
    assert_eq!(back.len(), 1);
    let st = back[0].state;
    assert_eq!(st.small_win, 0b111 << 9);
    assert_eq!(st.small_lose, 2);
    assert_eq!(st.big_win, 0b10);
    assert_eq!(st.big_draw, 0);
    assert_eq!(st.hash, 0);
    assert!(st.turn);
    assert_eq!(back[0].depth, 1);
    assert_eq!(back[0].visit_count, 20000);
    assert_eq!(back[0].value_bits, 0x3f800000);
    assert_eq!(back[0].evaluated_actions, sample_datapoint().evaluated_actions);
}
