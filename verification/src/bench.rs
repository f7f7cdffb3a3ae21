//! Match refereeing between two players, and reading positions written as
//! digit strings.
use vstd::prelude::*;
use crate::ai::{Action, MatchResult, State, line_complete, count_bits16};
use crate::bits::{bit16, bit128, lemma_bit16_ops, lemma_bit128_ops, lemma_nine_or, lemma_cells128, lemma_or16};
use crate::zobrist::Zobrist;

verus! {

/// Outcome of a match between a first and a second player.
#[derive(Debug, Copy, Clone, PartialEq, Eq, Structural)]
pub enum Winner {
    First,
    Second,
    Draw,
}

/// The match outcome for a game result seen from the side to move, when
/// `first_to_move` tells whether that side is the first player.
pub open spec fn spec_match_outcome(result: Option<MatchResult>, first_to_move: bool) -> Option<Winner> {
    match result {
        Some(MatchResult::Win) => Some(if first_to_move { Winner::First } else { Winner::Second }),
        Some(MatchResult::Lose) => Some(if first_to_move { Winner::Second } else { Winner::First }),
        Some(MatchResult::Draw) => Some(Winner::Draw),
        None => None,
    }
}

/// One move of a match: plays `action` for the side to move (the first
/// player when `first_to_move`), and returns the new position, whether the
/// first player moves next, and the outcome once the game is over.
pub fn play_step(state: &State, keys: &Zobrist, first_to_move: bool, action: &Action) -> (r: (
    State,
    bool,
    Option<Winner>,
))
    requires
        keys.wf(),
        state.bounded(),
        action.b < 9,
        action.s < 9,
    ensures
        r.0 == state.spec_advanced(keys, action.b, action.s),
        r.1 == !first_to_move,
        r.2 == spec_match_outcome(r.0.spec_winner(), r.1),
{
    let turn = !first_to_move;
    let next = state.advanced(keys, action);
    proof {
        lemma_nine_or(state.big_win, 0, action.b);
    }
    let outcome = match next.winner() {
        Some(MatchResult::Win) => if turn {
            Some(Winner::First)
        } else {
            Some(Winner::Second)
        },
        Some(MatchResult::Lose) => if turn {
            Some(Winner::Second)
        } else {
            Some(Winner::First)
        },
        Some(MatchResult::Draw) => Some(Winner::Draw),
        None => None,
    };
    (next, turn, outcome)
}

/// The verdict `play_step` gives after a move (the first player's move when
/// `first_to_move`) names the player whose sub-boards form a row, column or
/// diagonal in the new position; with every sub-board decided and no such
/// line, the player holding more sub-boards, or a draw when both hold as
/// many; and none while the game goes on. In the new position the first
/// player's sub-boards are those of the side to move when the first player
/// moves next, the other side's otherwise.
pub proof fn lemma_match_verdict(state: State, k: Zobrist, first_to_move: bool, b: u16, s: u16)
    ensures
        ({
            let n = state.spec_advanced(&k, b, s);
            let first_next = !first_to_move;
            let first = if first_next {
                n.big_win
            } else {
                n.big_lose
            };
            let second = if first_next {
                n.big_lose
            } else {
                n.big_win
            };
            let verdict = spec_match_outcome(n.spec_winner(), first_next);
            let decided_all = first | second | n.big_draw == 0x1ffu16;
            &&& line_complete(first) && !line_complete(second) ==> verdict == Some(Winner::First)
            &&& line_complete(second) && !line_complete(first) ==> verdict == Some(Winner::Second)
            &&& !line_complete(first) && !line_complete(second) && decided_all ==> verdict == Some(
                if count_bits16(first, 9) > count_bits16(second, 9) {
                    Winner::First
                } else if count_bits16(first, 9) < count_bits16(second, 9) {
                    Winner::Second
                } else {
                    Winner::Draw
                },
            )
            &&& !line_complete(first) && !line_complete(second) && !decided_all ==> verdict.is_none()
        }),
{
    let n = state.spec_advanced(&k, b, s);
    lemma_or16(n.big_lose, n.big_win, n.big_draw);
    lemma_or16(n.big_win, n.big_lose, n.big_draw);
}

/// The text form of a position: 81 cell digits (`'0'` empty, `'1'` the side
/// to move, `'2'` the other), 9 sub-board digits (`'1'` won, `'2'` lost, `'3'`
/// drawn), the digit of the side to move (`'2'` sets `turn`), and the digit of
/// the sub-board sent to.
pub open spec fn valid_token(token: Seq<u8>) -> bool {
    &&& token.len() >= 92
    &&& forall|i: int| 0 <= i < 81 ==> 48 <= #[trigger] token[i] <= 50
    &&& forall|i: int| 81 <= i < 90 ==> 48 <= #[trigger] token[i] <= 51
    &&& token[91] >= 48
}

/// Reads a position from its text form (see `valid_token`); the hash is left 0.
pub fn parse_state(token: &[u8]) -> (r: State)
    requires
        valid_token(token@),
    ensures
        forall|i: int|
            0 <= i < 81 ==> bit128(r.small_win, i) == (#[trigger] token@[i] == 49) && bit128(
                r.small_lose,
                i,
            ) == (token@[i] == 50),
        r.small_win >> 81u128 == 0,
        r.small_lose >> 81u128 == 0,
        forall|i: int|
            0 <= i < 9 ==> bit16(r.big_win, i) == (#[trigger] token@[81 + i] == 49) && bit16(r.big_lose, i)
                == (token@[81 + i] == 50) && bit16(r.big_draw, i) == (token@[81 + i] == 51),
        r.big_win < 512,
        r.big_lose < 512,
        r.big_draw < 512,
        r.last_big == (token@[91] - 48) as u16,
        r.hash == 0,
        r.turn == (token@[90] == 50),
{
    let mut small_win = 0u128;
    let mut small_lose = 0u128;
    let mut big_win = 0u16;
    let mut big_lose = 0u16;
    let mut big_draw = 0u16;
    proof {
        lemma_cells128(0, 0, 0, 0, 0, 0);
        assert forall|c: int| 0 <= c < 128 implies !#[trigger] bit128(0u128, c) by {
            lemma_bit128_ops(0, 0, c);
        }
        assert forall|c: int| 0 <= c < 16 implies !#[trigger] bit16(0u16, c) by {
            lemma_bit16_ops(0, 0, c);
        }
    }
    let mut i: usize = 0;
    while i < 81
        invariant
            i <= 81,
            valid_token(token@),
            forall|j: int| 0 <= j < i ==> bit128(small_win, j) == (#[trigger] token@[j] == 49),
            forall|j: int| 0 <= j < i ==> bit128(small_lose, j) == (#[trigger] token@[j] == 50),
            forall|j: int| i <= j < 128 ==> !#[trigger] bit128(small_win, j),
            forall|j: int| i <= j < 128 ==> !#[trigger] bit128(small_lose, j),
            small_win >> 81u128 == 0,
            small_lose >> 81u128 == 0,
        decreases 81 - i,
    {
        let ghost (w0, l0) = (small_win, small_lose);
        let t = token[i];
        if t == 49 {
            small_win |= 1u128 << i;
        } else if t == 50 {
            small_lose |= 1u128 << i;
        }
        proof {
            lemma_cells128(w0, 0, 0, 0, i as u128, 0);
            lemma_cells128(l0, 0, 0, 0, i as u128, 0);
            assert forall|j: int| 0 <= j < 128 implies bit128(small_win, j) == (bit128(w0, j) || (j == i
                && t == 49)) && bit128(small_lose, j) == (bit128(l0, j) || (j == i && t == 50)) by {
                lemma_bit128_ops(w0, i as u128, j);
                lemma_bit128_ops(w0, 1u128 << (i as u128), j);
                lemma_bit128_ops(l0, 1u128 << (i as u128), j);
            }
        }
        i = i + 1;
    }
    let mut i: usize = 0;
    while i < 9
        invariant
            i <= 9,
            valid_token(token@),
            forall|j: int| 0 <= j < i ==> bit16(big_win, j) == (#[trigger] token@[81 + j] == 49),
            forall|j: int| 0 <= j < i ==> bit16(big_lose, j) == (#[trigger] token@[81 + j] == 50),
            forall|j: int| 0 <= j < i ==> bit16(big_draw, j) == (#[trigger] token@[81 + j] == 51),
            forall|j: int| i <= j < 16 ==> !#[trigger] bit16(big_win, j),
            forall|j: int| i <= j < 16 ==> !#[trigger] bit16(big_lose, j),
            forall|j: int| i <= j < 16 ==> !#[trigger] bit16(big_draw, j),
            big_win < 512,
            big_lose < 512,
            big_draw < 512,
        decreases 9 - i,
    {
        let ghost (w0, l0, d0) = (big_win, big_lose, big_draw);
        let t = token[i + 81];
        proof {
            lemma_nine_or(w0, 0, i as u16);
            lemma_nine_or(l0, 0, i as u16);
            lemma_nine_or(d0, 0, i as u16);
        }
        if t == 49 {
            big_win |= 1 << i;
        } else if t == 50 {
            big_lose |= 1 << i;
        } else if t == 51 {
            big_draw |= 1 << i;
        }
        proof {
            assert forall|j: int| 0 <= j < 16 implies bit16(big_win, j) == (bit16(w0, j) || (j == i && t
                == 49)) && bit16(big_lose, j) == (bit16(l0, j) || (j == i && t == 50)) && bit16(big_draw, j)
                == (bit16(d0, j) || (j == i && t == 51)) by {
                lemma_bit16_ops(w0, i as u16, j);
                lemma_bit16_ops(w0, 1u16 << (i as u16), j);
                lemma_bit16_ops(l0, 1u16 << (i as u16), j);
                lemma_bit16_ops(d0, 1u16 << (i as u16), j);
            }
        }
        i = i + 1;
    }
    State {
        small_win,
        small_lose,
        big_win,
        big_lose,
        big_draw,
        last_big: (token[91] - 48) as u16,
        hash: 0,
        turn: token[90] == 50,
    }
}

} // verus!
