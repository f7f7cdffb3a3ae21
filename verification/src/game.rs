//! The board of the browser front end, and its conversion into a `State`
//! for the search.
use vstd::prelude::*;
use crate::ai::State;
use crate::bits::{
    bit16, bit128, small_bits, lemma_bit16_ops, lemma_bit128_ops, lemma_nine_or, lemma_cells128, lemma_xor,
    lemma_line_masks, lemma_small_bits, lemma_nine_bits, lemma_eq128, lemma_eq16,
};
use crate::ai::line_complete;
use crate::zobrist::{Zobrist, lemma_hash_of_ignores_hash, lemma_advanced_hash, lemma_hash_of_reads};

verus! {

/// The two sides.
#[derive(Debug, Copy, Clone, PartialEq, Eq, Structural)]
pub enum Turn {
    Player,
    Ai,
}

/// Cell `s` of sub-board `b`.
#[derive(Debug)]
pub struct Cell {
    pub b: usize,
    pub s: usize,
}

impl Cell {
    pub fn new(b: usize, s: usize) -> (r: Self)
        ensures
            r.b == b,
            r.s == s,
    {
        Cell { b, s }
    }
}

/// All nine cells of `row` hold a mark.
pub open spec fn row_full(row: [Option<Turn>; 9]) -> bool {
    forall|i: int| 0 <= i < 9 ==> (#[trigger] row[i]).is_some()
}

/// The side that holds all of line `i` (see `board::line`), if one does.
pub open spec fn game_line_owner(g: Seq<Option<Turn>>, i: nat) -> Option<Turn>
    decreases 8 - i,
{
    if i >= 8 {
        None
    } else {
        let (a, b, c) = crate::board::line(i as int);
        if g[a].is_some() && g[a] == g[b] && g[b] == g[c] {
            g[a]
        } else {
            game_line_owner(g, i + 1)
        }
    }
}

/// Whether every cell of `row` is marked.
fn all_filled(row: &[Option<Turn>; 9]) -> (r: bool)
    ensures
        r == row_full(*row),
{
    let mut i: usize = 0;
    while i < 9
        invariant
            i <= 9,
            forall|j: int| 0 <= j < i ==> (#[trigger] row[j]).is_some(),
        decreases 9 - i,
    {
        if row[i].is_none() {
            return false;
        }
        i = i + 1;
    }
    true
}

/// The board.
pub struct Grid {
    pub grid_small: [[Option<Turn>; 9]; 9],
    pub grid_big: [Option<Turn>; 9],
    pub last_big: Option<usize>,
    pub is_player_turn: bool,
    pub is_first_player: bool,
    pub winner: Option<Turn>,
}

impl Grid {
    /// A move into cell `s` of sub-board `b` is accepted: it goes to the
    /// sub-board that was sent to (if any), which is undecided, into an empty cell.
    pub open spec fn spec_valid(&self, b: int, s: int) -> bool {
        &&& self.last_big.is_none() || self.last_big == Some(b as usize)
        &&& self.grid_big[b].is_none()
        &&& self.grid_small[b][s].is_none()
    }

    /// The side to move.
    pub open spec fn mover(&self) -> Turn {
        if self.is_player_turn {
            Turn::Player
        } else {
            Turn::Ai
        }
    }

    /// `r` is this board after the side to move marks cell `s` of sub-board
    /// `b`. Sub-board `b` goes to the owner of its first full line (or back to
    /// nobody); the game to the owner of the first full line of sub-boards;
    /// the reply is sent to sub-board `s` unless that one is taken or full.
    pub open spec fn advance_result(&self, b: int, s: int, r: Grid) -> bool {
        &&& forall|bb: int, ss: int|
            0 <= bb < 9 && 0 <= ss < 9 ==> #[trigger] r.grid_small[bb][ss] == if bb == b && ss == s {
                Some(self.mover())
            } else {
                self.grid_small[bb][ss]
            }
        &&& forall|bb: int|
            0 <= bb < 9 ==> #[trigger] r.grid_big[bb] == if bb == b {
                game_line_owner(r.grid_small[b]@, 0)
            } else {
                self.grid_big[bb]
            }
        &&& r.winner == game_line_owner(r.grid_big@, 0)
        &&& r.last_big == if r.grid_big[s].is_some() || row_full(r.grid_small[s]) {
            None
        } else {
            Some(s as usize)
        }
        &&& r.is_player_turn == !self.is_player_turn
        &&& r.is_first_player == self.is_first_player
    }

    /// `r` is the position of this board for the search, seen from the side to
    /// move: its marks in `small_win`, the other side's in `small_lose` (bit
    /// `9 * b + s`); the sub-boards each side owns; as drawn, every full
    /// sub-board; the sub-board sent to (9 for none); the Zobrist hash.
    pub open spec fn state_of(&self, keys: Zobrist, r: State) -> bool {
        let me = self.mover();
        let other = if self.is_player_turn {
            Turn::Ai
        } else {
            Turn::Player
        };
        &&& forall|b: int, s: int|
            0 <= b < 9 && 0 <= s < 9 ==> bit128(r.small_win, 9 * b + s) == (
            #[trigger] self.grid_small[b][s] == Some(me)) && bit128(r.small_lose, 9 * b + s) == (
            self.grid_small[b][s] == Some(other))
        &&& r.small_win >> 81u128 == 0
        &&& r.small_lose >> 81u128 == 0
        &&& forall|b: int|
            0 <= b < 9 ==> bit16(r.big_win, b) == (#[trigger] self.grid_big[b] == Some(me)) && bit16(
                r.big_lose,
                b,
            ) == (self.grid_big[b] == Some(other)) && bit16(r.big_draw, b) == row_full(self.grid_small[b])
        &&& r.big_win < 512
        &&& r.big_lose < 512
        &&& r.big_draw < 512
        &&& r.last_big == match self.last_big {
            Some(x) => x as u16,
            None => 9u16,
        }
        &&& r.turn == if self.is_player_turn {
            !self.is_first_player
        } else {
            self.is_first_player
        }
        &&& r.hash == keys.hash_of(r)
    }

    /// Every sub-board belongs to the owner of its first full line, as play
    /// from the empty board keeps it.
    pub open spec fn consistent(&self) -> bool {
        forall|b: int| 0 <= b < 9 ==> #[trigger] self.grid_big[b] == game_line_owner(self.grid_small[b]@, 0)
    }

    /// The empty board; `first_turn` moves first.
    pub fn initial_grid(first_turn: Turn) -> (r: Self)
        ensures
            forall|b: int, s: int| 0 <= b < 9 && 0 <= s < 9 ==> (#[trigger] r.grid_small[b][s]).is_none(),
            forall|b: int| 0 <= b < 9 ==> (#[trigger] r.grid_big[b]).is_none(),
            r.last_big.is_none(),
            r.is_player_turn == (first_turn == Turn::Player),
            r.is_first_player == (first_turn == Turn::Player),
            r.winner.is_none(),
    {
        Grid {
            grid_small: [[None; 9]; 9],
            grid_big: [None; 9],
            last_big: None,
            is_player_turn: first_turn == Turn::Player,
            is_first_player: first_turn == Turn::Player,
            winner: None,
        }
    }

    /// The board after the side to move marks cell `action.s` of sub-board
    /// `action.b`. Sub-board `action.b` goes to the owner of its first full
    /// line (or back to nobody); the game to the owner of the first full line
    /// of sub-boards; the reply is sent to sub-board `action.s` unless that
    /// one is taken or full.
    pub fn advance(&self, action: &Cell) -> (r: Self)
        requires
            action.b < 9,
            action.s < 9,
        ensures
            self.advance_result(action.b as int, action.s as int, r),
    {
        let mut grid_small = self.grid_small;
        let mut grid_big = self.grid_big;
        let cell = if self.is_player_turn {
            Turn::Player
        } else {
            Turn::Ai
        };
        grid_small[action.b][action.s] = Some(cell);
        grid_big[action.b] = Grid::winner(&grid_small[action.b]);
        let winner = Grid::winner(&grid_big);
        let last_big = if grid_big[action.s].is_some() || all_filled(&grid_small[action.s]) {
            None
        } else {
            Some(action.s)
        };
        Grid {
            grid_small,
            grid_big,
            last_big,
            is_player_turn: !self.is_player_turn,
            is_first_player: self.is_first_player,
            winner,
        }
    }

    /// Whether the move `a` is accepted (see `spec_valid`).
    pub fn is_valid_action(&self, a: &Cell) -> (r: bool)
        requires
            (self.last_big.is_some() && self.last_big != Some(a.b)) || (a.b < 9 && (
            self.grid_big[a.b as int].is_some() || a.s < 9)),
        ensures
            r == ((self.last_big.is_none() || self.last_big == Some(a.b)) && a.b < 9 && (
            self.grid_big[a.b as int].is_none() && (a.s < 9 && self.grid_small[a.b as int][a.s as int].is_none()))),
    {
        if !self.last_big.is_none() && self.last_big != Some(a.b) {
            return false
        }
        self.grid_big[a.b].is_none() && self.grid_small[a.b][a.s].is_none()
    }

    /// The owner of sub-board `b`.
    pub fn get_big_cell(&self, b: usize) -> (r: Option<Turn>)
        requires
            b < 9,
        ensures
            r == self.grid_big[b as int],
    {
        self.grid_big[b].clone()
    }

    /// The mark in cell `s` of sub-board `b`.
    pub fn get_small_cell(&self, b: usize, s: usize) -> (r: Option<Turn>)
        requires
            b < 9,
            s < 9,
        ensures
            r == self.grid_small[b as int][s as int],
    {
        self.grid_small[b][s].clone()
    }

    /// The position for the search, seen from the side to move: its marks in
    /// `small_win`, the other side's in `small_lose` (bit `9 * b + s`); the
    /// sub-boards each side owns; as drawn, every full sub-board; the
    /// sub-board sent to (9 for none); the Zobrist hash of the result.
    pub fn to_state(&self, keys: &Zobrist) -> (r: State)
        requires
            keys.wf(),
        ensures
            self.state_of(*keys, r),
    {
        let mut small_win: u128 = 0;
        let mut small_lose: u128 = 0;
        let mut big_win: u16 = 0;
        let mut big_lose: u16 = 0;
        let mut big_draw: u16 = 0;
        proof {
            lemma_cells128(0, 0, 0, 0, 0, 0);
            assert forall|c: int| 0 <= c < 128 implies !#[trigger] bit128(0u128, c) by {
                lemma_bit128_ops(0, 0, c);
            }
            assert forall|bb: int| 0 <= bb < 16 implies !#[trigger] bit16(0u16, bb) by {
                lemma_bit16_ops(0, 0, bb);
            }
        }
        let mut b: usize = 0;
        while b < 9
            invariant
                b <= 9,
                forall|bb: int, ss: int|
                    0 <= bb < b && 0 <= ss < 9 ==> bit128(small_win, 9 * bb + ss) == (
                    #[trigger] self.grid_small[bb][ss] == Some(Turn::Ai)) && bit128(small_lose, 9 * bb + ss)
                        == (self.grid_small[bb][ss] == Some(Turn::Player)),
                forall|c: int| 9 * b <= c < 128 ==> !#[trigger] bit128(small_win, c) && !bit128(small_lose, c),
                small_win >> 81u128 == 0,
                small_lose >> 81u128 == 0,
                forall|bb: int|
                    0 <= bb < b ==> bit16(big_win, bb) == (#[trigger] self.grid_big[bb] == Some(Turn::Ai)),
                forall|bb: int|
                    0 <= bb < b ==> bit16(big_lose, bb) == (#[trigger] self.grid_big[bb] == Some(Turn::Player)),
                forall|bb: int| 0 <= bb < b ==> #[trigger] bit16(big_draw, bb) == row_full(self.grid_small[bb]),
                forall|bb: int| b <= bb < 16 ==> !#[trigger] bit16(big_win, bb),
                forall|bb: int| b <= bb < 16 ==> !#[trigger] bit16(big_lose, bb),
                forall|bb: int| b <= bb < 16 ==> !#[trigger] bit16(big_draw, bb),
                big_win < 512,
                big_lose < 512,
                big_draw < 512,
            decreases 9 - b,
        {
            let mut s: usize = 0;
            while s < 9
                invariant
                    b < 9,
                    s <= 9,
                    forall|bb: int, ss: int|
                        0 <= bb < b && 0 <= ss < 9 ==> bit128(small_win, 9 * bb + ss) == (
                        #[trigger] self.grid_small[bb][ss] == Some(Turn::Ai)) && bit128(small_lose, 9 * bb + ss)
                            == (self.grid_small[bb][ss] == Some(Turn::Player)),
                    forall|ss: int|
                        0 <= ss < s ==> bit128(small_win, 9 * b + ss) == (
                        #[trigger] self.grid_small[b as int][ss] == Some(Turn::Ai)) && bit128(small_lose, 9 * b + ss)
                            == (self.grid_small[b as int][ss] == Some(Turn::Player)),
                    forall|c: int| 9 * b + s <= c < 128 ==> !#[trigger] bit128(small_win, c) && !bit128(small_lose, c),
                    small_win >> 81u128 == 0,
                    small_lose >> 81u128 == 0,
                decreases 9 - s,
            {
                let c = b * 9 + s;
                let ghost (w0, l0) = (small_win, small_lose);
                match self.grid_small[b][s] {
                    Some(Turn::Ai) => {
                        small_win |= 1u128 << (b * 9 + s);
                    },
                    Some(Turn::Player) => {
                        small_lose |= 1u128 << (b * 9 + s);
                    },
                    None => {},
                }
                proof {
                    lemma_cells128(w0, 0, 0, 0, c as u128, 0);
                    lemma_cells128(l0, 0, 0, 0, c as u128, 0);
                    assert forall|i: int| 0 <= i < 128 implies bit128(small_win, i) == (bit128(w0, i) || (i == c
                        && self.grid_small[b as int][s as int] == Some(Turn::Ai))) && bit128(small_lose, i) == (
                        bit128(l0, i) || (i == c && self.grid_small[b as int][s as int] == Some(Turn::Player))) by {
                        lemma_bit128_ops(w0, (c as u128), i);
                        lemma_bit128_ops(w0, 1u128 << (c as u128), i);
                        lemma_bit128_ops(l0, 1u128 << (c as u128), i);
                    }
                }
                s = s + 1;
            }
            let ghost bd_prev = big_draw;
            let full = all_filled(&self.grid_small[b]);
            if full {
                proof {
                    lemma_nine_or(big_draw, 0, b as u16);
                }
                big_draw |= 1 << b;
            }
            let ghost (bw0, bl0, bd0) = (big_win, big_lose, big_draw);
            match self.grid_big[b] {
                Some(Turn::Ai) => {
                    proof {
                        lemma_nine_or(big_win, 0, b as u16);
                    }
                    big_win |= 1 << b;
                },
                Some(Turn::Player) => {
                    proof {
                        lemma_nine_or(big_lose, 0, b as u16);
                    }
                    big_lose |= 1 << b;
                },
                None => {},
            }
            proof {
                assert forall|bb: int| 0 <= bb < 16 implies bit16(big_draw, bb) == (bit16(bd_prev, bb) || (bb
                    == b && full)) by {
                    lemma_bit16_ops(bd_prev, (b as u16), bb);
                    lemma_bit16_ops(bd_prev, 1u16 << (b as u16), bb);
                }
                assert forall|bb: int| 0 <= bb < 16 implies bit16(big_win, bb) == (bit16(bw0, bb) || (bb == b
                    && self.grid_big[b as int] == Some(Turn::Ai))) && bit16(big_lose, bb) == (bit16(bl0, bb) || (
                    bb == b && self.grid_big[b as int] == Some(Turn::Player))) by {
                    lemma_bit16_ops(bw0, (b as u16), bb);
                    lemma_bit16_ops(bw0, 1u16 << (b as u16), bb);
                    lemma_bit16_ops(bl0, 1u16 << (b as u16), bb);
                }
            }
            b = b + 1;
        }
        let last_big = if self.last_big.is_some() {
            self.last_big.unwrap() as u16
        } else {
            9
        };
        let mut state = if self.is_player_turn {
            State {
                small_win: small_lose,
                small_lose: small_win,
                big_win: big_lose,
                big_lose: big_win,
                big_draw,
                last_big,
                hash: 0,
                turn: !self.is_first_player,
            }
        } else {
            State {
                small_win,
                small_lose,
                big_win,
                big_lose,
                big_draw,
                last_big,
                hash: 0,
                turn: self.is_first_player,
            }
        };
        let ghost before = state;
        state.hash = hashing(keys, &state);
        proof {
            lemma_hash_of_ignores_hash(*keys, before, state.hash);
            assert(state == State { hash: state.hash, ..before });
        }
        state
    }

    /// The first line of `grid` held by one side, in the order of `board::line`.
    fn winner(grid: &[Option<Turn>; 9]) -> (r: Option<Turn>)
        ensures
            r == game_line_owner(grid@, 0),
    {
        let lines: [[usize; 3]; 8] = [
            [0, 1, 2],
            [3, 4, 5],
            [6, 7, 8],
            [0, 3, 6],
            [1, 4, 7],
            [2, 5, 8],
            [0, 4, 8],
            [2, 4, 6],
        ];
        let mut i: usize = 0;
        while i < 8
            invariant
                i <= 8,
                lines@ == seq![[0usize, 1, 2], [3usize, 4, 5], [6usize, 7, 8], [0usize, 3, 6], [1usize, 4, 7], [2usize, 5, 8], [0usize, 4, 8], [2usize, 4, 6]],
                game_line_owner(grid@, 0) == game_line_owner(grid@, i as nat),
            decreases 8 - i,
        {
            let line = lines[i];
            let a = grid[line[0]];
            let b = grid[line[1]];
            let c = grid[line[2]];
            if a.is_some() && a == b && b == c {
                return a;
            }
            i = i + 1;
        }
        None
    }
}

/// Side `t` holds all three cells of line `i` of `g`.
pub open spec fn owns_line(g: Seq<Option<Turn>>, t: Turn, i: int) -> bool {
    let (a, b, c) = crate::board::line(i);
    g[a] == Some(t) && g[b] == Some(t) && g[c] == Some(t)
}

/// A nine-bit word that marks the cells of side `t` in a row has a complete
/// line exactly when `t` holds a line of the row.
proof fn lemma_line_word(g: Seq<Option<Turn>>, t: Turn, w: u16)
    requires
        g.len() == 9,
        forall|j: int| 0 <= j < 9 ==> #[trigger] bit16(w, j) == (g[j] == Some(t)),
    ensures
        line_complete(w) == exists|k: int| 0 <= k < 8 && #[trigger] owns_line(g, t, k),
{
    lemma_line_masks(w);
    assert(bit16(w, 0) == (g[0] == Some(t)));
    assert(bit16(w, 1) == (g[1] == Some(t)));
    assert(bit16(w, 2) == (g[2] == Some(t)));
    assert(bit16(w, 3) == (g[3] == Some(t)));
    assert(bit16(w, 4) == (g[4] == Some(t)));
    assert(bit16(w, 5) == (g[5] == Some(t)));
    assert(bit16(w, 6) == (g[6] == Some(t)));
    assert(bit16(w, 7) == (g[7] == Some(t)));
    assert(bit16(w, 8) == (g[8] == Some(t)));
    assert(owns_line(g, t, 0) == (w & 0b000000111u16 == 0b000000111u16));
    assert(owns_line(g, t, 1) == (w & 0b000111000u16 == 0b000111000u16));
    assert(owns_line(g, t, 2) == (w & 0b111000000u16 == 0b111000000u16));
    assert(owns_line(g, t, 3) == (w & 0b001001001u16 == 0b001001001u16));
    assert(owns_line(g, t, 4) == (w & 0b010010010u16 == 0b010010010u16));
    assert(owns_line(g, t, 5) == (w & 0b100100100u16 == 0b100100100u16));
    assert(owns_line(g, t, 6) == (w & 0b100010001u16 == 0b100010001u16));
    assert(owns_line(g, t, 7) == (w & 0b001010100u16 == 0b001010100u16));
    if exists|k: int| 0 <= k < 8 && #[trigger] owns_line(g, t, k) {
        let k = choose|k: int| 0 <= k < 8 && #[trigger] owns_line(g, t, k);
        assert(k == 0 || k == 1 || k == 2 || k == 3 || k == 4 || k == 5 || k == 6 || k == 7);
    }
}

/// Some side holds all of line `k` of `g`.
spec fn line_held(g: Seq<Option<Turn>>, k: int) -> bool {
    owns_line(g, Turn::Player, k) || owns_line(g, Turn::Ai, k)
}

proof fn lemma_game_owner_scan(g: Seq<Option<Turn>>, i: nat)
    requires
        g.len() == 9,
        i <= 8,
    ensures
        game_line_owner(g, i).is_none() <==> forall|k: int| i <= k < 8 ==> !#[trigger] line_held(g, k),
        game_line_owner(g, i) == Some(Turn::Player) ==> exists|k: int|
            i <= k < 8 && #[trigger] owns_line(g, Turn::Player, k),
        game_line_owner(g, i) == Some(Turn::Ai) ==> exists|k: int| i <= k < 8 && #[trigger] owns_line(g, Turn::Ai, k),
    decreases 8 - i,
{
    if i < 8 {
        lemma_game_owner_scan(g, i + 1);
        let (a, b, c) = crate::board::line(i as int);
        assert(0 <= a < 9 && 0 <= b < 9 && 0 <= c < 9);
        if g[a].is_some() && g[a] == g[b] && g[b] == g[c] {
            match g[a] {
                Some(Turn::Player) => {
                    assert(owns_line(g, Turn::Player, i as int));
                    assert(line_held(g, i as int));
                },
                Some(Turn::Ai) => {
                    assert(owns_line(g, Turn::Ai, i as int));
                    assert(line_held(g, i as int));
                },
                None => {},
            }
        } else {
            assert(!line_held(g, i as int));
            if forall|k: int| i + 1 <= k < 8 ==> !#[trigger] line_held(g, k) {
                assert forall|k: int| i <= k < 8 implies !#[trigger] line_held(g, k) by {
                    if k > i {
                        assert(!line_held(g, k));
                    }
                }
            }
            if game_line_owner(g, i + 1) == Some(Turn::Player) {
                let k = choose|k: int| i + 1 <= k < 8 && #[trigger] owns_line(g, Turn::Player, k);
                assert(i <= k < 8);
            }
            if game_line_owner(g, i + 1) == Some(Turn::Ai) {
                let k = choose|k: int| i + 1 <= k < 8 && #[trigger] owns_line(g, Turn::Ai, k);
                assert(i <= k < 8);
            }
        }
    }
}

/// The owner of a 3x3 grid, as `advance` awards sub-boards and the game, is
/// a side only if that side's cells hold a row, column or diagonal
/// (`line_complete` of the word marking its cells), and nobody exactly when
/// neither side's cells hold one.
pub proof fn lemma_game_line_owner_by_lines(g: Seq<Option<Turn>>, wp: u16, wa: u16)
    requires
        g.len() == 9,
        forall|j: int| 0 <= j < 9 ==> #[trigger] bit16(wp, j) == (g[j] == Some(Turn::Player)),
        forall|j: int| 0 <= j < 9 ==> #[trigger] bit16(wa, j) == (g[j] == Some(Turn::Ai)),
    ensures
        game_line_owner(g, 0) == Some(Turn::Player) ==> line_complete(wp),
        game_line_owner(g, 0) == Some(Turn::Ai) ==> line_complete(wa),
        game_line_owner(g, 0).is_none() <==> !line_complete(wp) && !line_complete(wa),
{
    lemma_game_owner_scan(g, 0);
    lemma_line_word(g, Turn::Player, wp);
    lemma_line_word(g, Turn::Ai, wa);
    if game_line_owner(g, 0).is_none() {
        if line_complete(wp) {
            let k = choose|k: int| 0 <= k < 8 && #[trigger] owns_line(g, Turn::Player, k);
            assert(!line_held(g, k));
        }
        if line_complete(wa) {
            let k = choose|k: int| 0 <= k < 8 && #[trigger] owns_line(g, Turn::Ai, k);
            assert(!line_held(g, k));
        }
    } else {
        if !line_complete(wp) && !line_complete(wa) {
            assert forall|k: int| 0 <= k < 8 implies !#[trigger] line_held(g, k) by {
                if owns_line(g, Turn::Player, k) {
                }
                if owns_line(g, Turn::Ai, k) {
                }
            }
        }
    }
    match game_line_owner(g, 0) {
        Some(Turn::Player) => {},
        Some(Turn::Ai) => {},
        None => {},
    }
}

/// When no line of a row is held, and side `t` marks the empty cell `s`,
/// the first held line among lines `i..8` belongs to `t` if `t` now holds one
/// of them, and there is none otherwise.
proof fn lemma_owner_after_mark(g0: Seq<Option<Turn>>, s: int, t: Turn, i: nat)
    requires
        g0.len() == 9,
        0 <= s < 9,
        i <= 8,
        game_line_owner(g0, i) == None::<Turn>,
    ensures
        game_line_owner(g0.update(s, Some(t)), i) == if exists|k: int|
            i <= k < 8 && #[trigger] owns_line(g0.update(s, Some(t)), t, k) {
            Some(t)
        } else {
            None
        },
    decreases 8 - i,
{
    let g2 = g0.update(s, Some(t));
    if i < 8 {
        let (a, b, c) = crate::board::line(i as int);
        assert(0 <= a < 9 && 0 <= b < 9 && 0 <= c < 9);
        assert(!(g0[a].is_some() && g0[a] == g0[b] && g0[b] == g0[c]));
        lemma_owner_after_mark(g0, s, t, i + 1);
        if g2[a].is_some() && g2[a] == g2[b] && g2[b] == g2[c] {
            if g2[a] != Some(t) {
                assert(g0[a] == g2[a] && g0[b] == g2[b] && g0[c] == g2[c]);
            }
            assert(owns_line(g2, t, i as int));
        } else {
            assert(!owns_line(g2, t, i as int));
            if exists|k: int| i <= k < 8 && #[trigger] owns_line(g2, t, k) {
                let k = choose|k: int| i <= k < 8 && #[trigger] owns_line(g2, t, k);
                assert(k != i);
            }
        }
    }
}

proof fn lemma_empty_row_owner(g: Seq<Option<Turn>>, i: nat)
    requires
        g.len() == 9,
        forall|j: int| 0 <= j < 9 ==> (#[trigger] g[j]).is_none(),
        i <= 8,
    ensures
        game_line_owner(g, i) == None::<Turn>,
    decreases 8 - i,
{
    if i < 8 {
        let (a, b, c) = crate::board::line(i as int);
        assert(0 <= a < 9);
        assert(g[a].is_none());
        lemma_empty_row_owner(g, i + 1);
    }
}

/// The empty board is consistent: no sub-board has an owner, and none has a line.
pub proof fn lemma_initial_consistent(g: Grid)
    requires
        forall|b: int, s: int| 0 <= b < 9 && 0 <= s < 9 ==> (#[trigger] g.grid_small[b][s]).is_none(),
        forall|b: int| 0 <= b < 9 ==> (#[trigger] g.grid_big[b]).is_none(),
    ensures
        g.consistent(),
{
    assert forall|b: int| 0 <= b < 9 implies #[trigger] g.grid_big[b] == game_line_owner(g.grid_small[b]@, 0) by {
        assert forall|j: int| 0 <= j < 9 implies (#[trigger] g.grid_small[b]@[j]).is_none() by {
            assert(g.grid_small[b][j].is_none());
        }
        lemma_empty_row_owner(g.grid_small[b]@, 0);
    }
}

/// Playing a move keeps a board consistent: every sub-board still belongs to
/// the owner of its first full line.
pub proof fn lemma_advance_consistent(g: Grid, g2: Grid, b: int, s: int)
    requires
        0 <= b < 9,
        0 <= s < 9,
        g.consistent(),
        g.advance_result(b, s, g2),
    ensures
        g2.consistent(),
{
    assert forall|bb: int| 0 <= bb < 9 implies #[trigger] g2.grid_big[bb] == game_line_owner(
        g2.grid_small[bb]@,
        0,
    ) by {
        assert(g2.grid_big[bb] == if bb == b {
            game_line_owner(g2.grid_small[b]@, 0)
        } else {
            g.grid_big[bb]
        });
        if bb != b {
            assert(g2.grid_small[bb]@ =~= g.grid_small[bb]@) by {
                assert forall|j: int| 0 <= j < 9 implies #[trigger] g2.grid_small[bb]@[j] == g.grid_small[bb]@[j] by {
                    assert(g2.grid_small[bb][j] == if bb == b && j == s {
                        Some(g.mover())
                    } else {
                        g.grid_small[bb][j]
                    });
                }
            }
        }
    }
}

/// The board accepts a move exactly when the move is legal in the board's
/// position, provided the sub-board sent to, if any, is one of the nine.
pub proof fn lemma_valid_iff_legal(g: Grid, k: Zobrist, st: State, b: int, s: int)
    requires
        g.state_of(k, st),
        g.last_big matches Some(x) ==> x < 9,
        0 <= b < 9,
        0 <= s < 9,
    ensures
        g.spec_valid(b, s) == st.legal(b, s),
{
    lemma_bit16_ops(st.big_win | st.big_lose, st.big_draw, b);
    lemma_bit16_ops(st.big_win, st.big_lose, b);
    lemma_bit128_ops(st.small_win, st.small_lose, 9 * b + s);
    assert(g.grid_small[b][s] == g.grid_small[b][s]);
    assert(g.grid_big[b] == g.grid_big[b]);
    if g.grid_small[b][s].is_none() {
        assert(!row_full(g.grid_small[b]));
    }
    match g.grid_small[b][s] {
        Some(t) => {
            assert(t == Turn::Player || t == Turn::Ai);
        },
        None => {},
    }
    match g.grid_big[b] {
        Some(t) => {
            assert(t == Turn::Player || t == Turn::Ai);
        },
        None => {},
    }
}

proof fn lemma_row_full_same(r1: [Option<Turn>; 9], r2: [Option<Turn>; 9])
    requires
        forall|i: int| 0 <= i < 9 ==> #[trigger] r1[i] == r2[i],
    ensures
        row_full(r1) == row_full(r2),
{
    if row_full(r1) {
        assert forall|i: int| 0 <= i < 9 implies (#[trigger] r2[i]).is_some() by {
            assert(r1[i].is_some());
        }
    }
    if row_full(r2) {
        assert forall|i: int| 0 <= i < 9 implies (#[trigger] r1[i]).is_some() by {
            assert(r2[i].is_some());
        }
    }
}

/// Turning a board into a search position commutes with playing an accepted
/// move: the position of the board after the move is the position before it
/// advanced by the move (hash included), except that when the move wins a
/// sub-board with its last empty cell, the board also counts that sub-board
/// as full, so its drawn mark is set as well; the sub-boards decided agree
/// either way. This needs every sub-board's owner to be the owner of its
/// first line (the empty board has it and play keeps it:
/// `lemma_initial_consistent`, `lemma_advance_consistent`).
#[verifier::rlimit(50)]
pub proof fn lemma_to_state_advance(
    g: Grid,
    g2: Grid,
    k: Zobrist,
    b: int,
    s: int,
    before: State,
    after: State,
)
    requires
        k.wf(),
        0 <= b < 9,
        0 <= s < 9,
        g.consistent(),
        g.spec_valid(b, s),
        g.advance_result(b, s, g2),
        g.state_of(k, before),
        g2.state_of(k, after),
    ensures
        ({
            let n = before.spec_advanced(&k, b as u16, s as u16);
            let won_full = g2.grid_big[b].is_some() && row_full(g2.grid_small[b]);
            &&& after == (State { big_draw: after.big_draw, ..n })
            &&& after.big_draw == if won_full {
                n.big_draw | (1u16 << (b as u16))
            } else {
                n.big_draw
            }
            &&& after.decided_mask() == n.decided_mask()
        }),
{
    let n = before.spec_advanced(&k, b as u16, s as u16);
    let me = g.mover();
    let other = if g.is_player_turn {
        Turn::Ai
    } else {
        Turn::Player
    };
    assert(g2.mover() == other);
    let c = 9 * b + s;
    let row0 = g.grid_small[b]@;
    let row2 = g2.grid_small[b]@;
    assert(row2 =~= row0.update(s, Some(me))) by {
        assert forall|j: int| 0 <= j < 9 implies #[trigger] row2[j] == row0.update(s, Some(me))[j] by {
            assert(g2.grid_small[b][j] == if b == b && j == s {
                Some(me)
            } else {
                g.grid_small[b][j]
            });
        }
    }
    assert(g.grid_small[b][s] == None::<Turn>);
    assert(g.grid_big[b] == game_line_owner(row0, 0));
    lemma_owner_after_mark(row0, s, me, 0);
    assert(g2.grid_big[b] == game_line_owner(row2, 0));
    let sl = before.small_win | (1u128 << (c as u128));
    assert(sl == n.small_lose);
    let w2 = small_bits(sl, b as u16);
    assert forall|j: int| 0 <= j < 9 implies #[trigger] bit16(w2, j) == (row2[j] == Some(me)) by {
        lemma_small_bits(sl, b as u16, j);
        lemma_bit128_ops(before.small_win, c as u128, 9 * b + j);
        lemma_bit128_ops(before.small_win, 1u128 << (c as u128), 9 * b + j);
        assert(g.grid_small[b][j] == row0[j]);
    }
    lemma_line_word(row2, me, w2);
    let won = line_complete(w2);
    assert(g2.grid_big[b] == if won {
        Some(me)
    } else {
        None
    });
    // the cells
    assert forall|i: int|
        #![trigger bit128(after.small_win, i)]
        #![trigger bit128(after.small_lose, i)]
        0 <= i < 128 implies bit128(after.small_win, i) == bit128(n.small_win, i) && bit128(
            after.small_lose,
            i,
        ) == bit128(n.small_lose, i) by {
        lemma_bit128_ops(before.small_win, c as u128, i);
        lemma_bit128_ops(before.small_win, 1u128 << (c as u128), i);
        if i < 81 {
            let bb = i / 9;
            let ss = i % 9;
            assert(9 * bb + ss == i);
            assert(g2.grid_small[bb][ss] == if bb == b && ss == s {
                Some(me)
            } else {
                g.grid_small[bb][ss]
            });
        } else {
            lemma_cells128(after.small_win, 0, 0, 0, 0, i);
            lemma_cells128(after.small_lose, 0, 0, 0, 0, i);
            lemma_cells128(before.small_lose, 0, 0, 0, 0, i);
            lemma_cells128(before.small_win, 0, 0, 0, 0, i);
        }
    }
    lemma_eq128(after.small_win, n.small_win);
    lemma_eq128(after.small_lose, n.small_lose);
    // the sub-boards
    let lw = small_bits(before.small_lose | sl, b as u16);
    lemma_small_bits(before.small_lose | sl, b as u16, 0);
    assert forall|j: int| 0 <= j < 9 implies #[trigger] bit16(lw, j) == row2[j].is_some() by {
        lemma_small_bits(before.small_lose | sl, b as u16, j);
        lemma_bit128_ops(before.small_lose, sl, 9 * b + j);
        lemma_bit128_ops(before.small_win, c as u128, 9 * b + j);
        lemma_bit128_ops(before.small_win, 1u128 << (c as u128), 9 * b + j);
        assert(g.grid_small[b][j] == row0[j]);
        match row0[j] {
            Some(t) => {
                assert(t == me || t == other);
            },
            None => {},
        }
    }
    lemma_nine_bits(lw, 0, 0);
    assert((lw == 0x1ffu16) == row_full(g2.grid_small[b])) by {
        if row_full(g2.grid_small[b]) {
            assert forall|j: int| 0 <= j < 9 implies #[trigger] bit16(lw, j) by {
                assert(g2.grid_small[b][j].is_some());
            }
        }
        if lw == 0x1ffu16 {
            assert forall|j: int| 0 <= j < 9 implies (#[trigger] g2.grid_small[b][j]).is_some() by {
                assert(bit16(lw, j));
            }
        }
    }
    assert(!row_full(g.grid_small[b])) by {
        assert(g.grid_small[b][s].is_none());
    }
    let won_full = g2.grid_big[b].is_some() && row_full(g2.grid_small[b]);
    assert forall|i: int|
        #![trigger bit16(after.big_win, i)]
        #![trigger bit16(after.big_lose, i)]
        #![trigger bit16(after.big_draw, i)]
        0 <= i < 16 implies bit16(after.big_win, i) == bit16(n.big_win, i) && bit16(after.big_lose, i)
            == bit16(n.big_lose, i) && bit16(after.big_draw, i) == (bit16(n.big_draw, i) || (i == b
            && won_full)) by {
        lemma_bit16_ops(before.big_win, 1u16 << (b as u16), i);
        lemma_bit16_ops(before.big_draw, 1u16 << (b as u16), i);
        lemma_bit16_ops(before.big_win, b as u16, i);
        lemma_nine_bits(after.big_win, i, 0);
        lemma_nine_bits(after.big_lose, i, 0);
        lemma_nine_bits(after.big_draw, i, 0);
        lemma_nine_bits(before.big_win, i, 0);
        lemma_nine_bits(before.big_lose, i, 0);
        lemma_nine_bits(before.big_draw, i, 0);
        if i < 9 {
            assert(g2.grid_big[i] == if i == b {
                game_line_owner(g2.grid_small[b]@, 0)
            } else {
                g.grid_big[i]
            });
            if i != b {
                assert forall|j: int| 0 <= j < 9 implies #[trigger] g2.grid_small[i][j] == g.grid_small[i][j] by {
                    assert(g2.grid_small[i][j] == if i == b && j == s {
                        Some(me)
                    } else {
                        g.grid_small[i][j]
                    });
                }
                lemma_row_full_same(g2.grid_small[i], g.grid_small[i]);
            }
        }
    }
    lemma_eq16(after.big_win, n.big_win);
    lemma_eq16(after.big_lose, n.big_lose);
    let draw = if won_full {
        n.big_draw | (1u16 << (b as u16))
    } else {
        n.big_draw
    };
    assert forall|i: int| 0 <= i < 16 implies #[trigger] bit16(after.big_draw, i) == bit16(draw, i) by {
        lemma_bit16_ops(n.big_draw, 1u16 << (b as u16), i);
        lemma_bit16_ops(n.big_draw, b as u16, i);
    }
    lemma_eq16(after.big_draw, draw);
    // the sub-boards decided
    assert forall|i: int| 0 <= i < 16 implies #[trigger] bit16(after.decided_mask(), i) == bit16(
        n.decided_mask(),
        i,
    ) by {
        lemma_bit16_ops(after.big_win | after.big_lose, after.big_draw, i);
        lemma_bit16_ops(after.big_win, after.big_lose, i);
        lemma_bit16_ops(n.big_win | n.big_lose, n.big_draw, i);
        lemma_bit16_ops(n.big_win, n.big_lose, i);
        assert(bit16(after.big_draw, i) == (bit16(n.big_draw, i) || (i == b && won_full)));
    }
    lemma_eq16(after.decided_mask(), n.decided_mask());
    // the sub-board sent to
    lemma_bit16_ops(n.big_win | n.big_lose, n.big_draw, s);
    lemma_bit16_ops(n.big_win, n.big_lose, s);
    lemma_bit16_ops(after.big_win | after.big_lose, after.big_draw, s);
    lemma_bit16_ops(after.big_win, after.big_lose, s);
    match g2.grid_big[s] {
        Some(t) => {
            assert(t == me || t == other);
        },
        None => {},
    }
    assert(after.last_big == n.last_big);
    // the hash: no cell and no sub-board belongs to both sides before the move
    assert forall|i: int| 0 <= i < 128 implies #[trigger] bit128(before.small_win & before.small_lose, i)
        == bit128(0u128, i) by {
        lemma_bit128_ops(before.small_win, before.small_lose, i);
        lemma_bit128_ops(0, 0, i);
        if i < 81 {
            let bb = i / 9;
            let ss = i % 9;
            assert(9 * bb + ss == i);
            assert(g.grid_small[bb][ss] == g.grid_small[bb][ss]);
        } else {
            lemma_cells128(before.small_win, 0, 0, 0, 0, i);
        }
    }
    lemma_eq128(before.small_win & before.small_lose, 0u128);
    assert forall|i: int| 0 <= i < 16 implies #[trigger] bit16(before.big_win & before.big_lose, i) == bit16(
        0u16,
        i,
    ) by {
        lemma_bit16_ops(before.big_win, before.big_lose, i);
        lemma_bit16_ops(0, 0, i);
        lemma_nine_bits(before.big_win, i, 0);
        if i < 9 {
            assert(g.grid_big[i] == g.grid_big[i]);
        }
    }
    lemma_eq16(before.big_win & before.big_lose, 0u16);
    lemma_bit16_ops(before.big_win | before.big_lose, before.big_draw, b);
    lemma_bit16_ops(before.big_win, before.big_lose, b);
    lemma_bit128_ops(before.small_win, before.small_lose, c);
    assert(before.legal(b, s));
    lemma_advanced_hash(k, before, b as u16, s as u16);
    assert forall|i: int|
        0 <= i < 9 && !bit16(after.big_win, i) && !bit16(after.big_lose, i) implies #[trigger] bit16(
        after.big_draw,
        i,
    ) == bit16(n.big_draw, i) by {
        assert(bit16(after.big_draw, i) == (bit16(n.big_draw, i) || (i == b && won_full)));
    }
    lemma_hash_of_reads(k, after, n);
    assert(after == (State { big_draw: after.big_draw, ..n }));
}

/// The Zobrist hash of `state`, computed from scratch.
pub fn hashing(keys: &Zobrist, state: &State) -> (r: u64)
    requires
        keys.wf(),
    ensures
        r == keys.hash_of(*state),
{
    let mut hash: u64 = 0;
    let (zobrist_win, zobrist_lose, zobrist_big_win, zobrist_big_lose, zobrist_big_draw) = if state.turn {
        (&keys.o, &keys.x, &keys.big_o, &keys.big_x, &keys.big_draw)
    } else {
        (&keys.x, &keys.o, &keys.big_x, &keys.big_o, &keys.big_draw)
    };
    let mut b: usize = 0;
    while b < 9
        invariant
            b <= 9,
            keys.wf(),
            zobrist_win@ == if state.turn { keys.o@ } else { keys.x@ },
            zobrist_lose@ == if state.turn { keys.x@ } else { keys.o@ },
            zobrist_big_win@ == if state.turn { keys.big_o@ } else { keys.big_x@ },
            zobrist_big_lose@ == if state.turn { keys.big_x@ } else { keys.big_o@ },
            zobrist_big_draw@ == keys.big_draw@,
            hash == keys.boards_hash(*state, b as nat),
        decreases 9 - b,
    {
        if state.big_win >> b & 1 == 1 {
            hash ^= zobrist_big_win[b];
        } else if state.big_lose >> b & 1 == 1 {
            hash ^= zobrist_big_lose[b];
        } else if state.big_draw >> b & 1 == 1 {
            hash ^= zobrist_big_draw[b];
        } else {
            let ghost h0 = hash;
            proof {
                lemma_xor(h0, 0, 0, 0);
            }
            let mut s: usize = 0;
            while s < 9
                invariant
                    b < 9,
                    s <= 9,
                    keys.wf(),
                    zobrist_win@ == if state.turn { keys.o@ } else { keys.x@ },
                    zobrist_lose@ == if state.turn { keys.x@ } else { keys.o@ },
                    hash == h0 ^ keys.cells_hash(*state, b as int, s as nat),
                decreases 9 - s,
            {
                let ghost prev = keys.cells_hash(*state, b as int, s as nat);
                let ghost ck = keys.cell_key(*state, (9 * b + s) as int);
                if state.small_win >> (b * 9 + s) & 1 == 1 {
                    hash ^= zobrist_win[b * 9 + s];
                } else if state.small_lose >> (b * 9 + s) & 1 == 1 {
                    hash ^= zobrist_lose[b * 9 + s];
                } else {
                    proof {
                        lemma_xor(h0 ^ prev, 0, 0, 0);
                    }
                }
                proof {
                    lemma_xor(h0, prev, ck, 0);
                }
                s = s + 1;
            }
        }
        b = b + 1;
    }
    hash
}

} // verus!
