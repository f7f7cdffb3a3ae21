//! A plain 9x9 board of marks for a front end: each cell and each sub-board
//! holds `None` or the side that took it.
use vstd::prelude::*;
use rand::seq::IteratorRandom;
use crate::ai::line_complete;
use crate::bits::{bit16, lemma_line_masks};

verus! {

/// The two sides.
#[derive(Debug, Copy, Clone, PartialEq, Eq, Structural)]
pub enum Turn {
    Player,
    Ai,
}

/// Cell `s` of sub-board `b`.
#[derive(Debug)]
pub struct Cell {
    pub b: usize,
    pub s: usize,
}

impl Cell {
    pub fn new(b: usize, s: usize) -> (r: Self)
        ensures
            r.b == b,
            r.s == s,
    {
        Cell { b, s }
    }
}

/// Line `i` of a 3x3 board, `i < 8`: rows, columns, then the diagonals.
pub open spec fn line(i: int) -> (int, int, int) {
    if i == 0 {
        (0, 1, 2)
    } else if i == 1 {
        (3, 4, 5)
    } else if i == 2 {
        (6, 7, 8)
    } else if i == 3 {
        (0, 3, 6)
    } else if i == 4 {
        (1, 4, 7)
    } else if i == 5 {
        (2, 5, 8)
    } else if i == 6 {
        (0, 4, 8)
    } else {
        (2, 4, 6)
    }
}

/// The side that holds all of line `i` of `g`, if one does.
pub open spec fn line_owner(g: Seq<Option<Turn>>, i: int) -> Option<Turn> {
    let (a, b, c) = line(i);
    if g[a].is_some() && g[a] == g[b] && g[b] == g[c] {
        g[a]
    } else {
        None
    }
}

/// The owner of the first owned line among lines `i..8`.
pub open spec fn first_line_owner(g: Seq<Option<Turn>>, i: nat) -> Option<Turn>
    decreases 8 - i,
{
    if i >= 8 {
        None
    } else if line_owner(g, i as int).is_some() {
        line_owner(g, i as int)
    } else {
        first_line_owner(g, i + 1)
    }
}

proof fn lemma_owner_scan(g: Seq<Option<Turn>>, i: nat)
    requires
        g.len() == 9,
        i <= 8,
    ensures
        first_line_owner(g, i).is_none() <==> forall|k: int| i <= k < 8 ==> (#[trigger] line_owner(g, k)).is_none(),
        first_line_owner(g, i) matches Some(t) ==> exists|k: int| i <= k < 8 && #[trigger] line_owner(g, k) == Some(t),
    decreases 8 - i,
{
    if i < 8 {
        lemma_owner_scan(g, i + 1);
        if line_owner(g, i as int).is_some() {
            assert(line_owner(g, i as int) == first_line_owner(g, i));
        } else {
            if forall|k: int| i + 1 <= k < 8 ==> (#[trigger] line_owner(g, k)).is_none() {
                assert forall|k: int| i <= k < 8 implies (#[trigger] line_owner(g, k)).is_none() by {
                    if k > i {
                        assert(line_owner(g, k).is_none());
                    }
                }
            }
            match first_line_owner(g, i + 1) {
                Some(t) => {
                    let k = choose|k: int| i + 1 <= k < 8 && #[trigger] line_owner(g, k) == Some(t);
                    assert(i <= k < 8 && line_owner(g, k) == Some(t));
                },
                None => {},
            }
        }
    }
}

/// A nine-bit word marking the cells of side `t` in a row has a complete line
/// exactly when `t` holds one of the row's eight lines.
proof fn lemma_board_line_word(g: Seq<Option<Turn>>, t: Turn, w: u16)
    requires
        g.len() == 9,
        forall|j: int| 0 <= j < 9 ==> #[trigger] bit16(w, j) == (g[j] == Some(t)),
    ensures
        line_complete(w) <==> exists|k: int| 0 <= k < 8 && #[trigger] line_owner(g, k) == Some(t),
{
    lemma_line_masks(w);
    assert(bit16(w, 0) == (g[0] == Some(t)));
    assert(bit16(w, 1) == (g[1] == Some(t)));
    assert(bit16(w, 2) == (g[2] == Some(t)));
    assert(bit16(w, 3) == (g[3] == Some(t)));
    assert(bit16(w, 4) == (g[4] == Some(t)));
    assert(bit16(w, 5) == (g[5] == Some(t)));
    assert(bit16(w, 6) == (g[6] == Some(t)));
    assert(bit16(w, 7) == (g[7] == Some(t)));
    assert(bit16(w, 8) == (g[8] == Some(t)));
    assert((line_owner(g, 0) == Some(t)) == (w & 0b000000111u16 == 0b000000111u16));
    assert((line_owner(g, 1) == Some(t)) == (w & 0b000111000u16 == 0b000111000u16));
    assert((line_owner(g, 2) == Some(t)) == (w & 0b111000000u16 == 0b111000000u16));
    assert((line_owner(g, 3) == Some(t)) == (w & 0b001001001u16 == 0b001001001u16));
    assert((line_owner(g, 4) == Some(t)) == (w & 0b010010010u16 == 0b010010010u16));
    assert((line_owner(g, 5) == Some(t)) == (w & 0b100100100u16 == 0b100100100u16));
    assert((line_owner(g, 6) == Some(t)) == (w & 0b100010001u16 == 0b100010001u16));
    assert((line_owner(g, 7) == Some(t)) == (w & 0b001010100u16 == 0b001010100u16));
    if exists|k: int| 0 <= k < 8 && #[trigger] line_owner(g, k) == Some(t) {
        let k = choose|k: int| 0 <= k < 8 && #[trigger] line_owner(g, k) == Some(t);
        assert(k == 0 || k == 1 || k == 2 || k == 3 || k == 4 || k == 5 || k == 6 || k == 7);
    }
}

/// The owner of a 3x3 grid, as `play` awards sub-boards and the game, is a
/// side only if that side's cells hold a row, column or diagonal
/// (`line_complete` of the word marking its cells), and nobody exactly when
/// neither side's cells hold one.
pub proof fn lemma_first_line_owner_by_lines(g: Seq<Option<Turn>>, wp: u16, wa: u16)
    requires
        g.len() == 9,
        forall|j: int| 0 <= j < 9 ==> #[trigger] bit16(wp, j) == (g[j] == Some(Turn::Player)),
        forall|j: int| 0 <= j < 9 ==> #[trigger] bit16(wa, j) == (g[j] == Some(Turn::Ai)),
    ensures
        first_line_owner(g, 0) == Some(Turn::Player) ==> line_complete(wp),
        first_line_owner(g, 0) == Some(Turn::Ai) ==> line_complete(wa),
        first_line_owner(g, 0).is_none() <==> !line_complete(wp) && !line_complete(wa),
{
    lemma_owner_scan(g, 0);
    lemma_board_line_word(g, Turn::Player, wp);
    lemma_board_line_word(g, Turn::Ai, wa);
    if first_line_owner(g, 0).is_none() {
        if line_complete(wp) {
            let k = choose|k: int| 0 <= k < 8 && #[trigger] line_owner(g, k) == Some(Turn::Player);
            assert(line_owner(g, k).is_none());
        }
        if line_complete(wa) {
            let k = choose|k: int| 0 <= k < 8 && #[trigger] line_owner(g, k) == Some(Turn::Ai);
            assert(line_owner(g, k).is_none());
        }
    } else {
        let k = choose|k: int| 0 <= k < 8 && #[trigger] line_owner(g, k) == first_line_owner(g, 0);
        match first_line_owner(g, 0) {
            Some(Turn::Player) => {},
            Some(Turn::Ai) => {},
            None => {},
        }
    }
}

/// The board.
pub struct Grid {
    pub grid_small: [[Option<Turn>; 9]; 9],
    pub grid_big: [Option<Turn>; 9],
    pub last_big: Option<usize>,
    pub is_player_turn: bool,
    pub winner: Option<Turn>,
}

/// `IteratorRandom::choose` of `rand`, driven by `thread_rng`: one of the
/// cells, picked at random; `None` exactly when there is none. Which cell
/// comes back is left open.
#[verifier::external_body]
fn choose_cell(cells: Vec<Cell>) -> (r: Option<Cell>)
    ensures
        r.is_none() <==> cells@.len() == 0,
        r matches Some(c) ==> cells@.contains(c),
{
    cells.into_iter().choose(&mut rand::thread_rng())
}

impl Grid {
    /// A move into cell `s` of sub-board `b` is accepted: it goes to the
    /// sub-board that was sent to (if any), which is undecided, into an empty cell.
    pub open spec fn spec_valid(&self, b: int, s: int) -> bool {
        &&& self.last_big.is_none() || self.last_big == Some(b as usize)
        &&& self.grid_big[b].is_none()
        &&& self.grid_small[b][s].is_none()
    }

    /// The move for candidate index `k`: sub-board `k % 9`, cell `k / 9`.
    pub open spec fn spec_valid_index(&self, k: int) -> bool {
        self.spec_valid(k % 9, k / 9)
    }

    /// The empty board with the player to move.
    pub fn initial_grid() -> (r: Self)
        ensures
            forall|b: int, s: int| 0 <= b < 9 && 0 <= s < 9 ==> (#[trigger] r.grid_small[b][s]).is_none(),
            forall|b: int| 0 <= b < 9 ==> (#[trigger] r.grid_big[b]).is_none(),
            r.last_big.is_none(),
            r.is_player_turn,
            r.winner.is_none(),
    {
        let board = Grid {
            grid_small: [[None; 9]; 9],
            grid_big: [None; 9],
            last_big: None,
            is_player_turn: true,
            winner: None,
        };
        board
    }

    /// Marks cell `action.s` of sub-board `action.b` for the side to move. A
    /// sub-board with a full line goes to that line's owner; the game goes to
    /// the owner of a full line of sub-boards; the reply is sent to sub-board
    /// `action.s` unless that one is taken.
    pub fn play(self, action: &Cell) -> (r: Self)
        requires
            action.b < 9,
            action.s < 9,
        ensures
            ({
                let mover = if self.is_player_turn {
                    Turn::Player
                } else {
                    Turn::Ai
                };
                let (b, s) = (action.b as int, action.s as int);
                let row_owner = first_line_owner(r.grid_small[b]@, 0);
                let game_owner = first_line_owner(r.grid_big@, 0);
                &&& forall|bb: int, ss: int|
                    0 <= bb < 9 && 0 <= ss < 9 ==> #[trigger] r.grid_small[bb][ss] == if bb == b && ss
                        == s {
                        Some(mover)
                    } else {
                        self.grid_small[bb][ss]
                    }
                &&& forall|bb: int|
                    0 <= bb < 9 ==> #[trigger] r.grid_big[bb] == if bb == b && row_owner.is_some() {
                        row_owner
                    } else {
                        self.grid_big[bb]
                    }
                &&& r.winner == if game_owner.is_some() {
                    game_owner
                } else {
                    self.winner
                }
                &&& r.last_big == if r.grid_big[s].is_some() {
                    None
                } else {
                    Some(action.s)
                }
                &&& r.is_player_turn == !self.is_player_turn
            }),
    {
        let mut g = self;
        let cell = if g.is_player_turn {
            Turn::Player
        } else {
            Turn::Ai
        };
        g.grid_small[action.b][action.s] = Some(cell);
        let winner = Grid::winner(&g.grid_small[action.b]);
        if winner.is_some() {
            g.grid_big[action.b] = winner;
        }
        let winner = Grid::winner(&g.grid_big);
        if winner.is_some() {
            g.winner = winner;
        }
        if g.grid_big[action.s].is_some() {
            g.last_big = None
        } else {
            g.last_big = Some(action.s);
        }
        g.is_player_turn = !g.is_player_turn;
        g
    }

    /// Whether the move `a` is accepted (see `spec_valid`).
    pub fn is_valid_action(&self, a: &Cell) -> (r: bool)
        requires
            (self.last_big.is_some() && self.last_big != Some(a.b)) || (a.b < 9 && (
            self.grid_big[a.b as int].is_some() || a.s < 9)),
        ensures
            r == ((self.last_big.is_none() || self.last_big == Some(a.b)) && a.b < 9 && (
            self.grid_big[a.b as int].is_none() && (a.s < 9 && self.grid_small[a.b as int][a.s as int].is_none()))),
    {
        if !self.last_big.is_none() && self.last_big != Some(a.b) {
            return false
        }
        self.grid_big[a.b].is_none() && self.grid_small[a.b][a.s].is_none()
    }

    /// The owner of sub-board `b`.
    pub fn get_big_cell(&self, b: usize) -> (r: Option<Turn>)
        requires
            b < 9,
        ensures
            r == self.grid_big[b as int],
    {
        self.grid_big[b].clone()
    }

    /// The mark in cell `s` of sub-board `b`.
    pub fn get_small_cell(&self, b: usize, s: usize) -> (r: Option<Turn>)
        requires
            b < 9,
            s < 9,
        ensures
            r == self.grid_small[b as int][s as int],
    {
        self.grid_small[b][s].clone()
    }

    /// The cells `(k % 9, k / 9)` for `k < n` that `is_valid_action`
    /// accepts, by increasing `k`.
    pub open spec fn spec_candidates(&self, n: nat) -> Seq<Cell>
        decreases n,
    {
        if n == 0 {
            seq![]
        } else {
            let k = n - 1;
            let prev = self.spec_candidates((n - 1) as nat);
            if self.spec_valid_index(k) {
                prev.push(Cell { b: (k % 9) as usize, s: (k / 9) as usize })
            } else {
                prev
            }
        }
    }

    /// Every candidate below `n` is an accepted cell of the board, and every
    /// accepted cell `(k % 9, k / 9)` with `k < n` is a candidate.
    pub proof fn lemma_candidates(&self, n: nat)
        requires
            n <= 81,
        ensures
            forall|j: int|
                0 <= j < self.spec_candidates(n).len() ==> #[trigger] self.spec_candidates(n)[j].b < 9
                    && self.spec_candidates(n)[j].s < 9 && self.spec_valid(
                    self.spec_candidates(n)[j].b as int,
                    self.spec_candidates(n)[j].s as int,
                ),
            forall|k: int|
                0 <= k < n && #[trigger] self.spec_valid_index(k) ==> self.spec_candidates(
                    n,
                ).contains(Cell { b: (k % 9) as usize, s: (k / 9) as usize }),
        decreases n,
    {
        if n > 0 {
            self.lemma_candidates((n - 1) as nat);
            let prev = self.spec_candidates((n - 1) as nat);
            let cur = self.spec_candidates(n);
            let kk = n - 1;
            let c = Cell { b: (kk % 9) as usize, s: (kk / 9) as usize };
            assert(c.b == kk % 9 && c.s == kk / 9);
            assert forall|k: int|
                0 <= k < n && #[trigger] self.spec_valid_index(k) implies cur.contains(
                Cell { b: (k % 9) as usize, s: (k / 9) as usize },
            ) by {
                if k < kk {
                    let cell = Cell { b: (k % 9) as usize, s: (k / 9) as usize };
                    assert(prev.contains(cell));
                    let j = choose|j: int| 0 <= j < prev.len() && prev[j] == cell;
                    assert(cur[j] == cell);
                } else {
                    assert(cur[prev.len() as int] == c);
                }
            }
        }
    }

    /// The cells that `is_valid_action` accepts, as `(k % 9, k / 9)` for
    /// `k < 81` by increasing `k` (see `spec_candidates`).
    pub fn valid_cells(&self) -> (r: Vec<Cell>)
        ensures
            r@ == self.spec_candidates(81),
    {
        let mut candidates: Vec<Cell> = Vec::new();
        let mut i: usize = 0;
        while i < 81
            invariant
                i <= 81,
                candidates@ == self.spec_candidates(i as nat),
            decreases 81 - i,
        {
            let a = Cell { b: i % 9, s: i / 9 };
            if self.is_valid_action(&a) {
                candidates.push(a);
            }
            i = i + 1;
        }
        candidates
    }

    /// A random accepted move, drawn among `valid_cells`. The busy-wait loop
    /// that used to delay the answer is left out on purpose: it changes no
    /// result (and its counter overflows `i32` where overflow is checked).
    pub fn ai_action(&self) -> (r: Cell)
        requires
            exists|b: int, s: int| 0 <= b < 9 && 0 <= s < 9 && #[trigger] self.spec_valid(b, s),
        ensures
            r.b < 9,
            r.s < 9,
            self.spec_valid(r.b as int, r.s as int),
    {
        let candidates = self.valid_cells();
        proof {
            self.lemma_candidates(81);
            let (b, s) = choose|b: int, s: int| 0 <= b < 9 && 0 <= s < 9 && #[trigger] self.spec_valid(b, s);
            let k = 9 * s + b;
            assert(k % 9 == b && k / 9 == s);
            assert(self.spec_valid_index(k));
            assert(candidates@.len() > 0);
        }
        let ghost cands = candidates@;
        let action = choose_cell(candidates);
        proof {
            let c = action.unwrap();
            let j = choose|j: int| 0 <= j < cands.len() && cands[j] == c;
            assert(cands[j].b < 9);
        }
        action.unwrap()
    }

    /// The first line of `grid` held by one side, in the order of `line`.
    fn winner(grid: &[Option<Turn>; 9]) -> (r: Option<Turn>)
        ensures
            r == first_line_owner(grid@, 0),
    {
        let lines: [[usize; 3]; 8] = [
            [0, 1, 2],
            [3, 4, 5],
            [6, 7, 8],
            [0, 3, 6],
            [1, 4, 7],
            [2, 5, 8],
            [0, 4, 8],
            [2, 4, 6],
        ];
        let mut i: usize = 0;
        while i < 8
            invariant
                i <= 8,
                lines@ == seq![[0usize, 1, 2], [3usize, 4, 5], [6usize, 7, 8], [0usize, 3, 6], [1usize, 4, 7], [2usize, 5, 8], [0usize, 4, 8], [2usize, 4, 6]],
                first_line_owner(grid@, 0) == first_line_owner(grid@, i as nat),
            decreases 8 - i,
        {
            let line = lines[i];
            let a = grid[line[0]];
            let b = grid[line[1]];
            let c = grid[line[2]];
            if a.is_some() && a == b && b == c {
                return a;
            }
            i = i + 1;
        }
        None
    }
}

} // verus!
