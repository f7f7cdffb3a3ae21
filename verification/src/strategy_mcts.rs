//! Random playouts for Monte Carlo tree search.
use vstd::prelude::*;
use crate::ai::{
    State, MatchResult, line_complete, lemma_unfinished_has_move, lemma_valid_actions_are_legal, lemma_advanced_wf,
    lemma_advanced_play_inv,
};
use crate::bits::{bit16, bit128, count_bits128, lemma_bit128_ops, lemma_small_bits, lemma_nine_bits};
use crate::rng::{XorShift, xorshift};
use crate::zobrist::Zobrist;

verus! {

/// Number of marked cells.
pub open spec fn marks(st: State) -> nat {
    count_bits128(st.small_win | st.small_lose, 81)
}

/// The outcome of at most `n` more random moves from `st`, with `value` the
/// worth (1 or -1) of a win for the side to move at `st`, and the generator
/// seed afterwards: each move is `random_action` on the next value of the
/// generator; a win for the side then to move counts `value` negated, a loss
/// its opposite, a draw 0.
pub open spec fn spec_playout(k: Zobrist, st: State, seed: u64, value: int, n: nat) -> (int, u64)
    decreases n,
{
    if n == 0 {
        (0, seed)
    } else {
        let seed2 = xorshift(seed);
        let acts = st.spec_valid_actions();
        let a = acts[((seed2 as usize) as int) % (acts.len() as int)];
        let next = st.spec_advanced(&k, a.b, a.s);
        let v = -value;
        match next.spec_winner() {
            Some(MatchResult::Win) => (v, seed2),
            Some(MatchResult::Lose) => (-v, seed2),
            Some(MatchResult::Draw) => (0, seed2),
            None => spec_playout(k, next, seed2, v, (n - 1) as nat),
        }
    }
}

/// Plays random moves until the game ends and returns 1 if the side to move
/// at `state` won, -1 if it lost, 0 for a draw (see `spec_playout`; a game
/// has at most 81 moves).
pub fn playout(state: &State, keys: &Zobrist, rng: &mut XorShift) -> (r: i8)
    requires
        state.wf(),
        !state.spec_finished(),
        keys.wf(),
    ensures
        (r as int, final(rng).seed) == spec_playout(*keys, *state, old(rng).seed, 1, 81),
{
    let ghost st0 = *state;
    let ghost seed0 = rng.seed;
    let mut state = *state;
    let mut value: i8 = 1;
    proof {
        lemma_marks_bound(state);
    }
    let mut result: i8 = 0;
    let mut done = false;
    while !done
        invariant
            keys.wf(),
            state.wf(),
            value == 1 || value == -1,
            marks(st0) <= marks(state) <= 81,
            done ==> spec_playout(*keys, st0, seed0, 1, 81) == (result as int, rng.seed),
            !done ==> !state.spec_finished(),
            !done ==> spec_playout(*keys, st0, seed0, 1, 81) == spec_playout(
                *keys,
                state,
                rng.seed,
                value as int,
                (81 - (marks(state) - marks(st0))) as nat,
            ),
        decreases 81 - marks(state), if done { 0int } else { 1int },
    {
        proof {
            lemma_unfinished_has_move(state);
            lemma_valid_actions_are_legal(state);
            if marks(state) == 81 {
                lemma_full_board_finished(state);
            }
        }
        let ghost before = state;
        let ghost seed_before = rng.seed;
        let ghost value_before = value as int;
        let ghost f = (81 - (marks(state) - marks(st0))) as nat;
        let action = state.random_action(rng);
        proof {
            let acts = before.spec_valid_actions();
            let i = ((rng.seed as usize) as int) % (acts.len() as int);
            assert(acts[i] == action);
            assert(before.legal(action.b as int, action.s as int));
            lemma_advanced_wf(before, *keys, action.b, action.s);
            lemma_marks_step(before, *keys, action.b, action.s);
        }
        state.advance_self(keys, &action);
        value = -value;
        proof {
            assert(f > 0);
            assert(xorshift(seed_before) == rng.seed);
            assert(spec_playout(*keys, before, seed_before, value_before, f) == match state.spec_winner() {
                Some(MatchResult::Win) => (value as int, rng.seed),
                Some(MatchResult::Lose) => (-value, rng.seed),
                Some(MatchResult::Draw) => (0, rng.seed),
                None => spec_playout(*keys, state, rng.seed, value as int, (f - 1) as nat),
            });
        }
        match state.winner() {
            Some(MatchResult::Win) => {
                result = value;
                done = true;
            },
            Some(MatchResult::Lose) => {
                result = -value;
                done = true;
            },
            Some(MatchResult::Draw) => {
                result = 0;
                done = true;
            },
            None => {
                proof {
                    lemma_marks_bound(state);
                }
            },
        }
    }
    result
}

/// At most 81 cells are marked.
pub proof fn lemma_marks_bound(st: State)
    ensures
        marks(st) <= 81,
{
    lemma_count_bound(st.small_win | st.small_lose, 81);
}

proof fn lemma_count_bound(x: u128, n: nat)
    ensures
        count_bits128(x, n) <= n,
    decreases n,
{
    if n > 0 {
        lemma_count_bound(x, (n - 1) as nat);
    }
}

/// A legal move marks one more cell.
pub proof fn lemma_marks_step(st: State, k: Zobrist, b: u16, s: u16)
    requires
        st.legal(b as int, s as int),
    ensures
        marks(st.spec_advanced(&k, b, s)) == marks(st) + 1,
{
    let n = st.spec_advanced(&k, b, s);
    lemma_count_add(st.small_win | st.small_lose, n.small_win | n.small_lose, (9 * b + s) as u128, 81, st, n);
}

proof fn lemma_count_add(x: u128, y: u128, c: u128, m: nat, st: State, n: State)
    requires
        c < 81,
        m <= 128,
        x == st.small_win | st.small_lose,
        y == n.small_win | n.small_lose,
        n.small_win == st.small_lose,
        n.small_lose == st.small_win | (1u128 << c),
        !bit128(x, c as int),
    ensures
        count_bits128(y, m) == count_bits128(x, m) + if c < m { 1nat } else { 0nat },
    decreases m,
{
    if m > 0 {
        lemma_count_add(x, y, c, (m - 1) as nat, st, n);
        let i = m - 1;
        lemma_bit128_ops(st.small_win, st.small_lose, i);
        lemma_bit128_ops(st.small_lose, st.small_win | (1u128 << c), i);
        lemma_bit128_ops(st.small_win, 1u128 << c, i);
        lemma_bit128_ops(0, c, i);
    }
}

/// With all 81 cells marked, a well-formed game is finished; with
/// `lemma_marks_step`, legal play from any position ends within `81 - marks`
/// moves.
pub proof fn lemma_full_board_finished(st: State)
    requires
        st.wf(),
        marks(st) == 81,
    ensures
        st.spec_finished(),
{
    let occ = st.small_win | st.small_lose;
    lemma_all_marked(occ, 81);
    assert forall|b: int| 0 <= b < 9 implies #[trigger] bit16(st.decided_mask(), b) by {
        lemma_small_bits(occ, b as u16, 0);
        assert forall|j: int| 0 <= j < 9 implies #[trigger] bit16(small_bits_of(occ, b), j) by {
            lemma_small_bits(occ, b as u16, j);
        }
        lemma_nine_bits(small_bits_of(occ, b), 0, 0);
        assert(st.full(b));
    }
    crate::bits::lemma_nine_or(st.big_win, st.big_lose, 0);
    crate::bits::lemma_nine_or(st.big_win | st.big_lose, st.big_draw, 0);
    lemma_nine_bits(st.decided_mask(), 0, 0);
}

spec fn small_bits_of(x: u128, b: int) -> u16 {
    crate::bits::small_bits(x, b as u16)
}

/// All of the first `n` bits are set when `n` of them are.
proof fn lemma_all_marked(x: u128, n: nat)
    requires
        count_bits128(x, n) == n,
    ensures
        forall|i: int| 0 <= i < n ==> #[trigger] bit128(x, i),
    decreases n,
{
    if n > 0 {
        lemma_count_bound(x, (n - 1) as nat);
        lemma_all_marked(x, (n - 1) as nat);
    }
}

/// Playing an offered move from a well-formed position gives a well-formed
/// position with one more mark. The empty board is well formed
/// (`State::new`), so every position reached through offered moves is, and
/// each such move adds exactly one mark.
pub proof fn lemma_offered_move_step(st: State, k: Zobrist, i: int)
    requires
        st.wf(),
        0 <= i < st.spec_valid_actions().len(),
    ensures
        ({
            let a = st.spec_valid_actions()[i];
            let n = st.spec_advanced(&k, a.b, a.s);
            &&& n.wf()
            &&& marks(n) == marks(st) + 1
        }),
{
    lemma_valid_actions_are_legal(st);
    let a = st.spec_valid_actions()[i];
    assert(st.legal(a.b as int, a.s as int));
    lemma_advanced_wf(st, k, a.b, a.s);
    lemma_marks_step(st, k, a.b, a.s);
}

/// Playing an offered move from a position that keeps `play_inv` gives a
/// position that keeps it too, with exactly one more marked cell among all
/// 128 bits of the cell words. The empty board keeps it
/// (`lemma_wf_play_inv` with `State::new`), so every position reached
/// through offered moves does.
pub proof fn lemma_play_inv_step(st: State, k: Zobrist, i: int)
    requires
        st.play_inv(),
        0 <= i < st.spec_valid_actions().len(),
    ensures
        ({
            let a = st.spec_valid_actions()[i];
            let n = st.spec_advanced(&k, a.b, a.s);
            &&& n.play_inv()
            &&& count_bits128(n.small_win | n.small_lose, 128) == count_bits128(
                st.small_win | st.small_lose,
                128,
            ) + 1
        }),
{
    let cells = st.allowed_cells(81);
    st.lemma_allowed_cells_members(81);
    let c = cells[i];
    assert(st.allowed_cell(c));
    let a = st.spec_valid_actions()[i];
    assert(a.b == c / 9 && a.s == c % 9);
    assert(st.legal(a.b as int, a.s as int));
    lemma_advanced_play_inv(st, k, a.b, a.s);
    let n = st.spec_advanced(&k, a.b, a.s);
    lemma_bit128_ops(st.small_win, st.small_lose, 9 * a.b + a.s);
    lemma_count_add(
        st.small_win | st.small_lose,
        n.small_win | n.small_lose,
        (9 * a.b + a.s) as u128,
        128,
        st,
        n,
    );
}

/// Where the random play of a playout stops, and whether the side to move at
/// `st` is to move there: each step plays the move of `random_action` for
/// the next generator value, and play stops once the game is over or after
/// `n` moves.
pub open spec fn playout_end(k: Zobrist, st: State, seed: u64, n: nat) -> (State, bool)
    decreases n,
{
    if n == 0 {
        (st, true)
    } else {
        let seed2 = xorshift(seed);
        let acts = st.spec_valid_actions();
        let a = acts[((seed2 as usize) as int) % (acts.len() as int)];
        let next = st.spec_advanced(&k, a.b, a.s);
        if next.spec_finished() {
            (next, false)
        } else {
            let (f, same) = playout_end(k, next, seed2, (n - 1) as nat);
            (f, !same)
        }
    }
}

/// A playout is scored from the side to move at its start: `value` when
/// that side won the position where play stopped, `-value` when it lost, 0
/// for a draw or when play stopped before the end. (The result at the end is
/// seen from the side to move there, which is the starting side exactly when
/// `same` holds.)
pub proof fn lemma_playout_scores_end(k: Zobrist, st: State, seed: u64, value: int, n: nat)
    requires
        !st.spec_finished(),
    ensures
        ({
            let (fin, same) = playout_end(k, st, seed, n);
            let r = spec_playout(k, st, seed, value, n).0;
            let start_won = (same && fin.spec_winner() == Some(MatchResult::Win)) || (!same && fin.spec_winner()
                == Some(MatchResult::Lose));
            let start_lost = (same && fin.spec_winner() == Some(MatchResult::Lose)) || (!same
                && fin.spec_winner() == Some(MatchResult::Win));
            &&& start_won ==> r == value
            &&& start_lost ==> r == -value
            &&& !start_won && !start_lost ==> r == 0
        }),
    decreases n,
{
    if n > 0 {
        let seed2 = xorshift(seed);
        let acts = st.spec_valid_actions();
        let a = acts[((seed2 as usize) as int) % (acts.len() as int)];
        let next = st.spec_advanced(&k, a.b, a.s);
        if !next.spec_finished() {
            lemma_playout_scores_end(k, next, seed2, -value, (n - 1) as nat);
        }
    }
}

/// From a well-formed position, a playout with at least as many moves left
/// as there are empty cells stops only at the end of the game.
pub proof fn lemma_playout_reaches_end(k: Zobrist, st: State, seed: u64, n: nat)
    requires
        st.wf(),
        !st.spec_finished(),
        marks(st) + n >= 81,
    ensures
        playout_end(k, st, seed, n).0.spec_finished(),
    decreases n,
{
    lemma_marks_bound(st);
    if n == 0 {
        lemma_full_board_finished(st);
    } else {
        let seed2 = xorshift(seed);
        let acts = st.spec_valid_actions();
        lemma_unfinished_has_move(st);
        let i = ((seed2 as usize) as int) % (acts.len() as int);
        lemma_offered_move_step(st, k, i);
        let a = acts[i];
        let next = st.spec_advanced(&k, a.b, a.s);
        if !next.spec_finished() {
            lemma_playout_reaches_end(k, next, seed2, (n - 1) as nat);
        }
    }
}

/// The value `playout` returns is 1 exactly when the side to move at the
/// start wins the game played out, -1 when it loses, 0 on a draw; in
/// particular a first move that gives the mover a line of sub-boards scores 1.
pub proof fn lemma_playout_value(k: Zobrist, st: State, seed: u64)
    requires
        st.wf(),
        !st.spec_finished(),
    ensures
        ({
            let (fin, same) = playout_end(k, st, seed, 81);
            let r = spec_playout(k, st, seed, 1, 81).0;
            let start_won = (same && fin.spec_winner() == Some(MatchResult::Win)) || (!same && fin.spec_winner()
                == Some(MatchResult::Lose));
            let start_lost = (same && fin.spec_winner() == Some(MatchResult::Lose)) || (!same
                && fin.spec_winner() == Some(MatchResult::Win));
            &&& fin.spec_finished()
            &&& (r == 1) == start_won
            &&& (r == -1) == start_lost
            &&& (r == 0) == (fin.spec_winner() == Some(MatchResult::Draw))
        }),
        ({
            let seed2 = xorshift(seed);
            let acts = st.spec_valid_actions();
            let a = acts[((seed2 as usize) as int) % (acts.len() as int)];
            let next = st.spec_advanced(&k, a.b, a.s);
            line_complete(next.big_lose) ==> spec_playout(k, st, seed, 1, 81).0 == 1
        }),
{
    lemma_playout_scores_end(k, st, seed, 1, 81);
    lemma_playout_reaches_end(k, st, seed, 81);
    let (fin, same) = playout_end(k, st, seed, 81);
    assert(fin.spec_winner().is_some());
    let seed2 = xorshift(seed);
    let acts = st.spec_valid_actions();
    let a = acts[((seed2 as usize) as int) % (acts.len() as int)];
    let next = st.spec_advanced(&k, a.b, a.s);
    if line_complete(next.big_lose) {
        assert(!line_complete(next.big_win));
        assert(next.spec_finished());
        assert(playout_end(k, st, seed, 81) == (next, false));
    }
}

} // verus!
