//! The bitboard game state, its move rules and the end-of-game rules.
use vstd::prelude::*;
use crate::bits::{
    bit16, bit128, small_bits, lemma_small_bits, lemma_bit16_ops, lemma_bit128_ops, lemma_nine_or,
    lemma_nine_bits, lemma_disjoint_add, lemma_lowest16, lemma_lowest128, lemma_board_mask, board_mask,
    count_ones_u128, trailing_zeros_u128, count_bits128, lemma_cells128, lemma_small_bits_or,
    lemma_small_bits_bound, lemma_small_bits_zero, lemma_small_bits_other, lemma_or16,
};
use crate::zobrist::{Zobrist, lemma_advanced_hash};
use crate::rng::{XorShift, xorshift};

verus! {

/// Some row, column or diagonal of a 3x3 board (bits `3 * row + col`) is complete.
pub open spec fn line_complete(t: u16) -> bool {
    ||| t & 0b100100100u16 == 0b100100100u16
    ||| t & 0b010010010u16 == 0b010010010u16
    ||| t & 0b001001001u16 == 0b001001001u16
    ||| t & 0b111000000u16 == 0b111000000u16
    ||| t & 0b000111000u16 == 0b000111000u16
    ||| t & 0b000000111u16 == 0b000000111u16
    ||| t & 0b100010001u16 == 0b100010001u16
    ||| t & 0b001010100u16 == 0b001010100u16
}

/// Number of set bits of `x` among its `n` lowest bits.
pub open spec fn count_bits16(x: u16, n: nat) -> nat
    decreases n,
{
    if n == 0 {
        0
    } else {
        count_bits16(x, (n - 1) as nat) + if bit16(x, n - 1) { 1nat } else { 0nat }
    }
}

/// The nine cells of sub-board `b`, taken out of an 81-cell word.
pub fn get_small(table: u128, b: u16) -> (r: u16)
    requires
        b < 15,
    ensures
        r == small_bits(table, b),
        (r as int) < 512,
{
    proof {
        lemma_small_bits_bound(table, b);
    }
    (table >> b * 9 & 0b111111111) as u16
}

/// Whether the 3x3 board `table` holds a complete line.
pub fn is_win(table: u16) -> (r: bool)
    requires
        table < 512,
    ensures
        r == line_complete(table),
{
    table & 0b100100100 == 0b100100100 || table & 0b010010010 == 0b010010010 || table
        & 0b001001001 == 0b001001001 || table & 0b111000000 == 0b111000000 || table & 0b000111000
        == 0b000111000 || table & 0b000000111 == 0b000000111 || table & 0b100010001 == 0b100010001
        || table & 0b001010100 == 0b001010100
}

/// Number of marked cells of the 3x3 board `table`.
pub fn popcount(table: u16) -> (r: u16)
    requires
        table < 512,
    ensures
        r as nat == count_bits16(table, 9),
{
    let mut c: u16 = 0;
    let mut i: u16 = 0;
    while i < 9
        invariant
            i <= 9,
            c <= i,
            c as nat == count_bits16(table, i as nat),
        decreases 9 - i,
    {
        if (table >> i) & 1 == 1 {
            c = c + 1;
        }
        i = i + 1;
    }
    c
}

/// A move: cell `s` of sub-board `b`. `anywhere` tells whether the reply
/// may go to any open sub-board.
#[derive(Copy, Clone, Debug, PartialEq, Eq, Structural)]
pub struct Action {
    pub b: u16,
    pub s: u16,
    pub anywhere: bool,
}

/// The outcome of a finished game, seen from the side to move.
#[derive(Copy, Clone, Debug, PartialEq, Eq, Structural)]
pub enum MatchResult {
    Win,
    Lose,
    Draw,
}

/// A position seen from the side to move: `small_win` holds its cells and
/// `small_lose` the opponent's (bit `9 * b + s`), `big_*` the decided
/// sub-boards, `last_big` the sub-board the move must go to (9: any).
#[derive(Copy, Clone, Debug, PartialEq, Eq, Structural)]
pub struct State {
    pub small_win: u128,
    pub small_lose: u128,
    pub big_win: u16,
    pub big_lose: u16,
    pub big_draw: u16,
    pub last_big: u16,
    pub hash: u64,
    pub turn: bool,
}

impl State {
    /// The sub-boards that are won, lost or drawn.
    pub open spec fn decided_mask(&self) -> u16 {
        self.big_win | self.big_lose | self.big_draw
    }

    pub open spec fn decided(&self, b: int) -> bool {
        bit16(self.decided_mask(), b)
    }

    /// Cell `s` of sub-board `b` holds a mark.
    pub open spec fn occupied(&self, b: int, s: int) -> bool {
        bit128(self.small_win | self.small_lose, 9 * b + s)
    }

    /// All nine cells of sub-board `b` hold a mark.
    pub open spec fn full(&self, b: int) -> bool {
        small_bits(self.small_win | self.small_lose, b as u16) == 0x1ffu16
    }

    /// The 3x3 boards fit in nine bits and `last_big` names a sub-board or 9.
    pub open spec fn bounded(&self) -> bool {
        &&& self.big_win < 512
        &&& self.big_lose < 512
        &&& self.big_draw < 512
        &&& self.last_big <= 9
    }

    /// What holds of every position reached by legal play: words in range, no
    /// cell or sub-board held twice, full sub-boards decided, owners backed by
    /// their lines, and the sub-board sent to still open.
    pub open spec fn wf(&self) -> bool {
        &&& self.bounded()
        &&& self.small_win & self.small_lose == 0
        &&& self.big_win & self.big_lose == 0
        &&& self.big_win & self.big_draw == 0
        &&& self.big_lose & self.big_draw == 0
        &&& forall|b: int| 0 <= b < 9 && #[trigger] self.full(b) ==> self.decided(b)
        &&& forall|b: int| 0 <= b < 9 ==> #[trigger] self.owners_match(b)
        &&& self.last_big < 9 ==> !self.decided(self.last_big as int)
    }

    /// Sub-board `b` is won by a side only with a line of that side's cells,
    /// and while it is undecided neither side has a line in it.
    pub open spec fn owners_match(&self, b: int) -> bool {
        &&& bit16(self.big_win, b) ==> line_complete(small_bits(self.small_win, b as u16))
        &&& bit16(self.big_lose, b) ==> line_complete(small_bits(self.small_lose, b as u16))
        &&& !self.decided(b) ==> !line_complete(small_bits(self.small_win, b as u16)) && !line_complete(
            small_bits(self.small_lose, b as u16),
        )
    }

    /// Playing cell `s` of sub-board `b` follows the rules.
    pub open spec fn legal(&self, b: int, s: int) -> bool {
        &&& 0 <= b < 9
        &&& 0 <= s < 9
        &&& self.last_big == 9 || self.last_big == b
        &&& !self.decided(b)
        &&& !self.occupied(b, s)
    }

    pub open spec fn spec_finished(&self) -> bool {
        ||| self.decided_mask() == 0x1ffu16
        ||| line_complete(self.big_win)
        ||| line_complete(self.big_lose)
    }

    pub open spec fn spec_winner(&self) -> Option<MatchResult> {
        if line_complete(self.big_win) {
            Some(MatchResult::Win)
        } else if line_complete(self.big_lose) {
            Some(MatchResult::Lose)
        } else if self.decided_mask() == 0x1ffu16 {
            let w = count_bits16(self.big_win, 9);
            let l = count_bits16(self.big_lose, 9);
            if w > l {
                Some(MatchResult::Win)
            } else if w < l {
                Some(MatchResult::Lose)
            } else {
                Some(MatchResult::Draw)
            }
        } else {
            None
        }
    }

    /// The empty board, first player to move.
    pub fn new() -> (r: Self)
        ensures
            r == (State {
                small_win: 0,
                small_lose: 0,
                big_win: 0,
                big_lose: 0,
                big_draw: 0,
                last_big: 9,
                hash: 0,
                turn: false,
            }),
            r.wf(),
    {
        let r = State {
            small_win: 0,
            small_lose: 0,
            big_win: 0,
            big_lose: 0,
            big_draw: 0,
            last_big: 9,
            hash: 0,
            turn: false,
        };
        proof {
            assert((0u128 | 0u128) == 0u128) by (bit_vector);
            assert(bit16(0x1ffu16, 0)) by (bit_vector);
            assert forall|b: int| 0 <= b < 9 && #[trigger] r.full(b) implies r.decided(b) by {
                lemma_small_bits(0u128, b as u16, 0);
                lemma_bit128_ops(0, 0, 9 * b);
            }
            assert((0u16 & 0u16) == 0u16) by (bit_vector);
            assert((0u128 & 0u128) == 0u128) by (bit_vector);
            assert(!line_complete(0u16)) by (bit_vector);
            assert forall|b: int| 0 <= b < 9 implies #[trigger] r.owners_match(b) by {
                lemma_small_bits_zero(b as u16);
                lemma_bit16_ops(0, 0, b);
            }
        }
        r
    }

    /// The game is over: every sub-board is decided or a side has a line of sub-boards.
    pub fn finished(&self) -> (r: bool)
        requires
            self.decided_mask() == 0x1ffu16 || (self.big_win < 512 && (line_complete(self.big_win)
                || self.big_lose < 512)),
        ensures
            r == self.spec_finished(),
    {
        if self.big_win | self.big_lose | self.big_draw == 0x1ff {
            return true;
        }
        return is_win(self.big_win) || is_win(self.big_lose);
    }

    /// The result of a finished game for the side to move; `None` while it goes on.
    /// With every sub-board decided and no line, more sub-boards wins.
    pub fn winner(&self) -> (r: Option<MatchResult>)
        requires
            self.big_win < 512,
            line_complete(self.big_win) || self.big_lose < 512,
        ensures
            r == self.spec_winner(),
    {
        if is_win(self.big_win) {
            Some(MatchResult::Win)
        } else if is_win(self.big_lose) {
            Some(MatchResult::Lose)
        } else if self.big_win | self.big_lose | self.big_draw == 0x1ff {
            let w = popcount(self.big_win);
            let l = popcount(self.big_lose);
            if w > l {
                Some(MatchResult::Win)
            } else if w < l {
                Some(MatchResult::Lose)
            } else {
                Some(MatchResult::Draw)
            }
        } else {
            None
        }
    }
}

impl State {
    /// The hash after playing cell `s` of sub-board `b`: a plain move adds the
    /// cell's key; a move that wins or fills the sub-board takes out the keys
    /// of all its cells and adds the sub-board's key.
    pub open spec fn spec_advanced_hash(&self, k: &Zobrist, b: u16, s: u16) -> u64 {
        let w = small_bits(self.small_win, b);
        let l = small_bits(self.small_lose, b);
        let mw = 9 * w + b;
        let ml = 9 * l + b;
        self.hash ^ if line_complete(w | (1u16 << s)) {
            if self.turn {
                k.reset_o@[mw] ^ k.reset_x@[ml] ^ k.big_o@[b as int]
            } else {
                k.reset_x@[mw] ^ k.reset_o@[ml] ^ k.big_x@[b as int]
            }
        } else if w | l | (1u16 << s) == 0x1ffu16 {
            if self.turn {
                k.reset_o@[mw] ^ k.reset_x@[ml] ^ k.big_draw@[b as int]
            } else {
                k.reset_x@[mw] ^ k.reset_o@[ml] ^ k.big_draw@[b as int]
            }
        } else {
            if self.turn {
                k.o@[9 * b + s]
            } else {
                k.x@[9 * b + s]
            }
        }
    }

    /// The position after the side to move marks cell `s` of sub-board `b`,
    /// seen from the other side: the sub-board is won if the mark completes
    /// a line in it, else drawn if it is full; the reply goes to sub-board `s`
    /// unless that one is decided.
    pub open spec fn spec_advanced(&self, k: &Zobrist, b: u16, s: u16) -> State {
        let sl = self.small_win | (1u128 << (9 * b + s) as u128);
        let won = line_complete(small_bits(sl, b));
        let drawn = !won && small_bits(self.small_lose | sl, b) == 0x1ffu16;
        let bl = if won {
            self.big_win | (1u16 << b)
        } else {
            self.big_win
        };
        let bd = if drawn {
            self.big_draw | (1u16 << b)
        } else {
            self.big_draw
        };
        State {
            small_win: self.small_lose,
            small_lose: sl,
            big_win: self.big_lose,
            big_lose: bl,
            big_draw: bd,
            last_big: if bit16(self.big_lose | bl | bd, s as int) {
                9
            } else {
                s
            },
            hash: self.spec_advanced_hash(k, b, s),
            turn: !self.turn,
        }
    }

    /// The hash after playing cell `s` of sub-board `b` (see `spec_advanced_hash`).
    pub fn advanced_hash(&self, keys: &Zobrist, b: u16, s: u16) -> (r: u64)
        requires
            keys.wf(),
            b < 9,
            s < 9,
        ensures
            r == self.spec_advanced_hash(keys, b, s),
    {
        let small_w = get_small(self.small_win, b);
        let small_l = get_small(self.small_lose, b);
        let wb = (small_w * 9 + b) as usize;
        let lb = (small_l * 9 + b) as usize;
        proof {
            lemma_nine_or(small_w, small_l, s);
            lemma_nine_or((small_w | small_l), small_l, s);
        }
        self.hash ^ if is_win(small_w | 1 << s) {
            if self.turn {
                keys.reset_o[wb] ^ keys.reset_x[lb] ^ keys.big_o[b as usize]
            } else {
                keys.reset_x[wb] ^ keys.reset_o[lb] ^ keys.big_x[b as usize]
            }
        } else if small_w | small_l | 1 << s == 0x1ff {
            if self.turn {
                keys.reset_o[wb] ^ keys.reset_x[lb] ^ keys.big_draw[b as usize]
            } else {
                keys.reset_x[wb] ^ keys.reset_o[lb] ^ keys.big_draw[b as usize]
            }
        } else {
            if self.turn {
                keys.o[(b * 9 + s) as usize]
            } else {
                keys.x[(b * 9 + s) as usize]
            }
        }
    }

    /// Plays `action` (see `spec_advanced`). From a well-formed position a
    /// legal move leads to a well-formed position; and from a position where
    /// no cell and no sub-board belongs to both sides, a legal move keeps the
    /// hash equal to the Zobrist hash of the position.
    pub fn advanced(&self, keys: &Zobrist, action: &Action) -> (r: Self)
        requires
            keys.wf(),
            action.b < 9,
            action.s < 9,
        ensures
            r == self.spec_advanced(keys, action.b, action.s),
            self.wf() && self.legal(action.b as int, action.s as int) ==> r.wf(),
            self.small_win & self.small_lose == 0 && self.big_win & self.big_lose == 0 && self.legal(
                action.b as int,
                action.s as int,
            ) && self.hash == keys.hash_of(*self) ==> r.hash == keys.hash_of(r),
    {
        let small_win = self.small_lose;
        let mut small_lose = self.small_win;
        let big_win = self.big_lose;
        let mut big_lose = self.big_win;
        let mut big_draw = self.big_draw;
        let hash = self.advanced_hash(keys, action.b, action.s);
        let turn = !self.turn;
        small_lose |= 1u128 << (action.b * 9 + action.s);
        if is_win(get_small(small_lose, action.b)) {
            big_lose |= 1 << action.b;
        } else if get_small(small_win | small_lose, action.b) == 0x1ff {
            big_draw |= 1 << action.b;
        }
        let free_big = (big_win | big_lose | big_draw) >> action.s & 1 == 1;
        let last_big = if free_big {
            9
        } else {
            action.s
        };
        let r = State { small_win, small_lose, big_win, big_lose, big_draw, last_big, hash, turn };
        proof {
            if self.wf() && self.legal(action.b as int, action.s as int) {
                lemma_advanced_wf(*self, *keys, action.b, action.s);
            }
            if self.small_win & self.small_lose == 0 && self.big_win & self.big_lose == 0 && self.legal(
                action.b as int,
                action.s as int,
            ) && self.hash == keys.hash_of(*self) {
                lemma_advanced_hash(*keys, *self, action.b, action.s);
            }
        }
        r
    }

    /// Plays `action` in place (see `spec_advanced`).
    pub fn advance_self(&mut self, keys: &Zobrist, action: &Action)
        requires
            keys.wf(),
            action.b < 9,
            action.s < 9,
        ensures
            *final(self) == old(self).spec_advanced(keys, action.b, action.s),
            old(self).wf() && old(self).legal(action.b as int, action.s as int) ==> final(self).wf(),
            old(self).wf() && old(self).legal(action.b as int, action.s as int) && old(self).hash
                == keys.hash_of(*old(self)) ==> final(self).hash == keys.hash_of(*final(self)),
    {
        let small_win = self.small_lose;
        let mut small_lose = self.small_win;
        let big_win = self.big_lose;
        let mut big_lose = self.big_win;
        let mut big_draw = self.big_draw;
        let hash = self.advanced_hash(keys, action.b, action.s);
        let turn = !self.turn;
        small_lose |= 1u128 << (action.b * 9 + action.s);
        if is_win(get_small(small_lose, action.b)) {
            big_lose |= 1 << action.b;
        } else if get_small(small_win | small_lose, action.b) == 0x1ff {
            big_draw |= 1 << action.b;
        }
        let free_big = (big_win | big_lose | big_draw) >> action.s & 1 == 1;
        let last_big = if free_big {
            9
        } else {
            action.s
        };
        proof {
            if self.wf() && self.legal(action.b as int, action.s as int) {
                lemma_advanced_wf(*self, *keys, action.b, action.s);
            }
            if self.small_win & self.small_lose == 0 && self.big_win & self.big_lose == 0 && self.legal(
                action.b as int,
                action.s as int,
            ) && self.hash == keys.hash_of(*self) {
                lemma_advanced_hash(*keys, *self, action.b, action.s);
            }
        }
        self.small_win = small_win;
        self.small_lose = small_lose;
        self.big_win = big_win;
        self.big_lose = big_lose;
        self.big_draw = big_draw;
        self.last_big = last_big;
        self.hash = hash;
        self.turn = turn;
    }
}

impl State {
    /// The invariant of play that the hashing and move rules rely on: no cell
    /// and no sub-board held by both sides, the sub-board words in nine bits,
    /// every owner backed by its line and no line in an undecided sub-board,
    /// every full sub-board decided, and the sub-board sent to undecided.
    /// Unlike `wf` it lets a won sub-board be marked drawn as well.
    pub open spec fn play_inv(&self) -> bool {
        &&& self.small_win & self.small_lose == 0
        &&& self.big_win & self.big_lose == 0
        &&& self.big_win < 512
        &&& self.big_lose < 512
        &&& self.big_draw < 512
        &&& forall|b: int| 0 <= b < 9 ==> #[trigger] self.owners_match(b)
        &&& forall|b: int| 0 <= b < 9 && #[trigger] self.full(b) ==> self.decided(b)
        &&& self.last_big == 9 || !self.decided(self.last_big as int)
    }
}

/// A well-formed position keeps `play_inv`.
pub proof fn lemma_wf_play_inv(st: State)
    requires
        st.wf(),
    ensures
        st.play_inv(),
{
}

/// A legal move keeps `play_inv`.
pub proof fn lemma_advanced_play_inv(st: State, k: Zobrist, b: u16, s: u16)
    requires
        st.play_inv(),
        st.legal(b as int, s as int),
    ensures
        st.spec_advanced(&k, b, s).play_inv(),
{
    let n = st.spec_advanced(&k, b, s);
    let c = (9 * b + s) as u128;
    let occ = st.small_win | st.small_lose;
    lemma_bit128_ops(st.small_win, st.small_lose, c as int);
    lemma_disjoint_add(st.small_lose, st.small_win, c, st.big_lose, st.big_win, b);
    lemma_bit16_ops(st.big_win, st.big_lose, b as int);
    lemma_bit16_ops(st.big_win | st.big_lose, st.big_draw, b as int);
    lemma_nine_or(st.big_win, st.big_draw, b);
    lemma_nine_or(st.big_draw, st.big_win, b);
    assert(n.small_win & n.small_lose == 0);
    assert(n.big_win & n.big_lose == 0);
    assert forall|bb: int| 0 <= bb < 9 && #[trigger] n.full(bb) implies n.decided(bb) by {
        let nocc = n.small_win | n.small_lose;
        lemma_nine_bits(small_bits(nocc, bb as u16), 0, 0);
        lemma_small_bits(nocc, bb as u16, 0);
        if bb == b {
            assert(nocc == st.small_lose | n.small_lose);
            lemma_bit16_ops(n.big_win | n.big_lose, n.big_draw, bb);
            lemma_bit16_ops(n.big_win, n.big_lose, bb);
            lemma_bit16_ops(st.big_win, 1u16 << b, bb);
            lemma_bit16_ops(st.big_draw, 1u16 << b, bb);
            lemma_bit16_ops(0, b, bb);
        } else {
            assert forall|j: int| 0 <= j < 9 implies #[trigger] bit16(small_bits(nocc, bb as u16), j)
                == bit16(small_bits(occ, bb as u16), j) by {
                lemma_small_bits(nocc, bb as u16, j);
                lemma_small_bits(occ, bb as u16, j);
                lemma_bit128_ops(st.small_lose, st.small_win | (1u128 << c), 9 * bb + j);
                lemma_bit128_ops(st.small_win, 1u128 << c, 9 * bb + j);
                lemma_bit128_ops(st.small_win, st.small_lose, 9 * bb + j);
                lemma_bit128_ops(0, c, 9 * bb + j);
            }
            lemma_small_bits(occ, bb as u16, 0);
            lemma_nine_bits(small_bits(occ, bb as u16), 0, 0);
            assert forall|j: int| 0 <= j < 9 implies #[trigger] bit16(small_bits(occ, bb as u16), j) by {
                assert(bit16(small_bits(nocc, bb as u16), j));
            }
            assert(st.full(bb));
            assert(st.decided(bb));
            lemma_bit16_ops(st.big_win | st.big_lose, st.big_draw, bb);
            lemma_bit16_ops(st.big_win, st.big_lose, bb);
            lemma_bit16_ops(n.big_win | n.big_lose, n.big_draw, bb);
            lemma_bit16_ops(n.big_win, n.big_lose, bb);
            lemma_bit16_ops(st.big_win, 1u16 << b, bb);
            lemma_bit16_ops(st.big_draw, 1u16 << b, bb);
        }
    }
    assert forall|bb: int| 0 <= bb < 9 implies #[trigger] n.owners_match(bb) by {
        assert(st.owners_match(bb));
        lemma_bit16_ops(st.big_win | st.big_lose, st.big_draw, bb);
        lemma_bit16_ops(st.big_win, st.big_lose, bb);
        lemma_bit16_ops(n.big_win | n.big_lose, n.big_draw, bb);
        lemma_bit16_ops(n.big_win, n.big_lose, bb);
        lemma_bit16_ops(st.big_win, 1u16 << b, bb);
        lemma_bit16_ops(st.big_draw, 1u16 << b, bb);
        lemma_bit16_ops(0, b, bb);
        if bb != b {
            lemma_small_bits_other(st.small_win, b, s, bb as u16);
        }
    }
    if n.last_big != 9 {
        lemma_bit16_ops(n.big_win | n.big_lose, n.big_draw, s as int);
        lemma_bit16_ops(n.big_win, n.big_lose, s as int);
    }
}

/// Legal play keeps a position well formed.
pub proof fn lemma_advanced_wf(st: State, k: Zobrist, b: u16, s: u16)
    requires
        st.wf(),
        st.legal(b as int, s as int),
    ensures
        st.spec_advanced(&k, b, s).wf(),
{
    let n = st.spec_advanced(&k, b, s);
    let c = (9 * b + s) as u128;
    let occ = st.small_win | st.small_lose;
    lemma_bit128_ops(st.small_win, st.small_lose, c as int);
    lemma_disjoint_add(st.small_lose, st.small_win, c, st.big_lose, st.big_win, b);
    lemma_disjoint_add(st.small_lose, st.small_win, c, st.big_lose, st.big_draw, b);
    lemma_disjoint_add(st.small_lose, st.small_win, c, st.big_win, st.big_draw, b);
    lemma_disjoint_add(st.small_lose, st.small_win, c, st.big_draw, st.big_win, b);
    lemma_bit16_ops(st.big_win, st.big_lose, b as int);
    lemma_bit16_ops(st.big_win | st.big_lose, st.big_draw, b as int);
    lemma_nine_or(st.big_win, st.big_draw, b);
    lemma_nine_or(st.big_draw, st.big_win, b);
    assert(n.small_win & n.small_lose == 0);
    assert(n.big_win & n.big_lose == 0);
    assert(n.big_win & n.big_draw == 0);
    assert(n.big_lose & n.big_draw == 0);
    assert(n.bounded());
    assert forall|bb: int| 0 <= bb < 9 && #[trigger] n.full(bb) implies n.decided(bb) by {
        let nocc = n.small_win | n.small_lose;
        lemma_nine_bits(small_bits(nocc, bb as u16), 0, 0);
        lemma_small_bits(nocc, bb as u16, 0);
        if bb == b {
            assert(nocc == st.small_lose | n.small_lose);
            lemma_bit16_ops(n.big_win | n.big_lose, n.big_draw, bb);
            lemma_bit16_ops(n.big_win, n.big_lose, bb);
            lemma_bit16_ops(st.big_win, 1u16 << b, bb);
            lemma_bit16_ops(st.big_draw, 1u16 << b, bb);
            lemma_bit16_ops(0, b, bb);
        } else {
            assert forall|j: int| 0 <= j < 9 implies #[trigger] bit16(small_bits(nocc, bb as u16), j)
                == bit16(small_bits(occ, bb as u16), j) by {
                lemma_small_bits(nocc, bb as u16, j);
                lemma_small_bits(occ, bb as u16, j);
                lemma_bit128_ops(st.small_lose, st.small_win | (1u128 << c), 9 * bb + j);
                lemma_bit128_ops(st.small_win, 1u128 << c, 9 * bb + j);
                lemma_bit128_ops(st.small_win, st.small_lose, 9 * bb + j);
                lemma_bit128_ops(0, c, 9 * bb + j);
            }
            lemma_small_bits(occ, bb as u16, 0);
            lemma_nine_bits(small_bits(occ, bb as u16), 0, 0);
            assert forall|j: int| 0 <= j < 9 implies #[trigger] bit16(small_bits(occ, bb as u16), j) by {
                assert(bit16(small_bits(nocc, bb as u16), j));
            }
            assert(st.full(bb));
            assert(st.decided(bb));
            lemma_bit16_ops(st.big_win | st.big_lose, st.big_draw, bb);
            lemma_bit16_ops(st.big_win, st.big_lose, bb);
            lemma_bit16_ops(n.big_win | n.big_lose, n.big_draw, bb);
            lemma_bit16_ops(n.big_win, n.big_lose, bb);
            lemma_bit16_ops(st.big_win, 1u16 << b, bb);
            lemma_bit16_ops(st.big_draw, 1u16 << b, bb);
        }
    }
    let sl = st.small_win | (1u128 << (9 * b + s) as u128);
    assert forall|bb: int| 0 <= bb < 9 implies #[trigger] n.owners_match(bb) by {
        assert(st.owners_match(bb));
        lemma_bit16_ops(st.big_win | st.big_lose, st.big_draw, bb);
        lemma_bit16_ops(st.big_win, st.big_lose, bb);
        lemma_bit16_ops(n.big_win | n.big_lose, n.big_draw, bb);
        lemma_bit16_ops(n.big_win, n.big_lose, bb);
        lemma_bit16_ops(st.big_win, 1u16 << b, bb);
        lemma_bit16_ops(st.big_draw, 1u16 << b, bb);
        lemma_bit16_ops(0, b, bb);
        if bb != b {
            lemma_small_bits_other(st.small_win, b, s, bb as u16);
        } else {
            lemma_bit16_ops(st.big_win | st.big_lose, st.big_draw, b as int);
            lemma_bit16_ops(st.big_win, st.big_lose, b as int);
        }
    }
    if n.last_big < 9 {
        lemma_bit16_ops(n.big_win | n.big_lose, n.big_draw, s as int);
        lemma_bit16_ops(n.big_win, n.big_lose, s as int);
        lemma_bit16_ops(n.big_lose, n.big_win, s as int);
        lemma_bit16_ops(n.big_lose | n.big_win, n.big_draw, s as int);
    }
}

/// The `anywhere` flag of a legal move tells whether the reply may go to any
/// sub-board, with one exception: a move into cell `b` of sub-board `b` that
/// fills that sub-board without a line frees the reply but leaves the flag
/// unset.
pub proof fn lemma_anywhere_frees_reply(st: State, k: Zobrist, b: u16, s: u16)
    requires
        st.wf(),
        st.legal(b as int, s as int),
        !(b == s && !line_complete(small_bits(st.small_win, b) | (1u16 << s)) && small_bits(
            st.small_win,
            b,
        ) | small_bits(st.small_lose, b) | (1u16 << s) == 0x1ffu16),
    ensures
        st.spec_action_of(b, s).anywhere == (st.spec_advanced(&k, b, s).last_big == 9),
{
    let win = small_bits(st.small_win, b);
    let lose = small_bits(st.small_lose, b);
    let sl = st.small_win | (1u128 << (9 * b + s) as u128);
    lemma_small_bits_or(st.small_win, st.small_lose, b, s);
    lemma_small_bits_or(st.small_lose, sl, b, s);
    lemma_or16(lose, win, 1u16 << s);
    let won = line_complete(small_bits(sl, b));
    let drawn = !won && small_bits(st.small_lose | sl, b) == 0x1ffu16;
    let bl = if won {
        st.big_win | (1u16 << b)
    } else {
        st.big_win
    };
    let bd = if drawn {
        st.big_draw | (1u16 << b)
    } else {
        st.big_draw
    };
    assert(win | lose != 0x1ffu16) by {
        if win | lose == 0x1ffu16 {
            assert(st.full(b as int));
        }
    }
    lemma_bit16_ops(st.big_lose | bl, bd, s as int);
    lemma_bit16_ops(st.big_lose, bl, s as int);
    lemma_bit16_ops(st.big_win, 1u16 << b, s as int);
    lemma_bit16_ops(st.big_draw, 1u16 << b, s as int);
    lemma_bit16_ops(st.big_win, b, s as int);
    lemma_bit16_ops(st.big_win | st.big_lose, st.big_draw, s as int);
    lemma_bit16_ops(st.big_win, st.big_lose, s as int);
}

impl State {
    /// The move that marks cell `s` of sub-board `b`, with its `anywhere` flag:
    /// sub-board `s` is already decided, or the move is in the centre-like cell
    /// `b == s` and wins sub-board `b`, or sub-board `b` is full.
    pub open spec fn spec_action_of(&self, b: u16, s: u16) -> Action {
        let win = small_bits(self.small_win, b);
        let lose = small_bits(self.small_lose, b);
        Action {
            b,
            s,
            anywhere: bit16(self.decided_mask(), s as int) || (b == s && line_complete(
                win | (1u16 << s),
            )) || win | lose == 0x1ffu16,
        }
    }

    /// Cell `s` of sub-board `b` is offered as a move: it is empty, and it lies
    /// in sub-board `last_big`, or, when that is 9, in an undecided sub-board.
    pub open spec fn allowed(&self, b: int, s: int) -> bool {
        &&& 0 <= s < 9
        &&& !self.occupied(b, s)
        &&& if self.last_big != 9 {
            b == self.last_big
        } else {
            0 <= b < 9 && !self.decided(b)
        }
    }

    /// Cell `c` (that is `9 * b + s`) is offered.
    pub open spec fn allowed_cell(&self, c: int) -> bool {
        self.allowed(c / 9, c % 9)
    }

    /// The offered cells among the first `n` (cell `c` is `9 * b + s`), in order.
    pub open spec fn allowed_cells(&self, n: nat) -> Seq<int>
        decreases n,
    {
        if n == 0 {
            seq![]
        } else {
            let p = self.allowed_cells((n - 1) as nat);
            let c = n - 1;
            if self.allowed_cell(c) {
                p.push(c)
            } else {
                p
            }
        }
    }

    /// The moves for the given cells.
    pub open spec fn actions_of(&self, cells: Seq<int>) -> Seq<Action> {
        cells.map_values(|c: int| self.spec_action_of((c / 9) as u16, (c % 9) as u16))
    }

    /// All offered moves, by increasing cell.
    pub open spec fn spec_valid_actions(&self) -> Seq<Action> {
        self.actions_of(self.allowed_cells(81))
    }

    /// The move that marks cell `s` of sub-board `b` (see `spec_action_of`).
    pub fn action_of(&self, b: u16, s: u16) -> (r: Action)
        requires
            b < 9,
            s < 9,
        ensures
            r == self.spec_action_of(b, s),
    {
        let win = get_small(self.small_win, b);
        let lose = get_small(self.small_lose, b);
        proof {
            lemma_nine_or(win, lose, s);
        }
        let anywhere = (self.big_win | self.big_lose | self.big_draw) >> s & 1 == 1 || b == s && is_win(
            win | 1 << s,
        ) || win | lose == 0x1ff;
        return Action { b, s, anywhere };
    }

    /// All offered moves, by increasing cell.
    pub fn valid_actions(&self) -> (r: Vec<Action>)
        requires
            self.last_big <= 9,
        ensures
            r@ == self.spec_valid_actions(),
    {
        if self.last_big != 9 {
            let small_win = get_small(self.small_win, self.last_big);
            let small_lose = get_small(self.small_lose, self.last_big);
            proof {
                lemma_nine_or(small_win, small_lose, 0);
                lemma_nine_or(small_win | small_lose, 0, 0);
            }
            let remain = (small_win | small_lose) ^ 0x1ff;
            let num_actions = popcount(remain) as usize;
            let mut actions = Vec::with_capacity(num_actions);
            proof {
                let lb = self.last_big;
                lemma_nine_bits(0x1ffu16, 0, 0);
                assert forall|j: int| 0 <= j < 9 implies #[trigger] bit16(remain, j) == self.allowed(
                    lb as int,
                    j,
                ) by {
                    lemma_bit16_ops(small_win | small_lose, 0x1ffu16, j);
                    lemma_bit16_ops(small_win, small_lose, j);
                    lemma_small_bits(self.small_win, lb, j);
                    lemma_small_bits(self.small_lose, lb, j);
                    lemma_bit128_ops(self.small_win, self.small_lose, 9 * lb + j);
                }
                assert forall|c: int| 0 <= c < 9 * lb implies !#[trigger] self.allowed_cell(c) by {}
                self.lemma_allowed_cells_skip(0, (9 * lb) as nat);
                assert(actions@ =~= self.actions_of(self.allowed_cells((9 * lb) as nat)));
            }
            self.push_board_actions(&mut actions, self.last_big, remain);
            proof {
                let lb = self.last_big;
                assert forall|c: int| 9 * lb + 9 <= c < 81 implies !#[trigger] self.allowed_cell(c) by {}
                self.lemma_allowed_cells_skip((9 * lb + 9) as nat, 81);
            }
            actions
        } else {
            let remain_big = (self.big_win | self.big_lose | self.big_draw) ^ 0x1ff;
            proof {
                lemma_board_mask(remain_big, 0, 0);
            }
            let remain_big_mask = (((remain_big as u128 & 0xff) * 0x101010101010101u128 | (remain_big
                as u128) << 64) & 0x1008040201008040201u128) * 0x1ff;
            let remain = !self.small_win & !self.small_lose & remain_big_mask;
            let num_actions = count_ones_u128(remain) as usize;
            let mut actions = Vec::with_capacity(num_actions);
            proof {
                assert(remain_big_mask == board_mask(remain_big));
                assert(actions@ =~= self.actions_of(self.allowed_cells(0)));
            }
            let mut b: u16 = 0;
            while b < 9
                invariant
                    b <= 9,
                    self.last_big == 9,
                    remain_big == self.decided_mask() ^ 0x1ffu16,
                    remain == !self.small_win & !self.small_lose & board_mask(remain_big),
                    actions@ == self.actions_of(self.allowed_cells((9 * b) as nat)),
                decreases 9 - b,
            {
                proof {
                    lemma_nine_bits(0x1ffu16, 0, 0);
                    lemma_bit16_ops(self.decided_mask(), 0x1ffu16, b as int);
                }
                if remain_big >> b & 1 == 0 {
                    proof {
                        assert forall|c: int| 9 * b <= c < 9 * b + 9 implies !#[trigger] self.allowed_cell(
                            c,
                        ) by {}
                        self.lemma_allowed_cells_skip((9 * b) as nat, (9 * b + 9) as nat);
                    }
                    b = b + 1;
                    continue;
                }
                let remain_small = (remain >> b * 9 & 0x1ff) as u16;
                proof {
                    assert(remain_small == small_bits(remain, b));
                    lemma_small_bits(remain, b, 0);
                    assert forall|j: int| 0 <= j < 9 implies #[trigger] bit16(remain_small, j)
                        == self.allowed(b as int, j) by {
                        lemma_small_bits(remain, b, j);
                        lemma_bit128_ops(!self.small_win & !self.small_lose, board_mask(remain_big), 9 * b + j);
                        lemma_bit128_ops(!self.small_win, !self.small_lose, 9 * b + j);
                        lemma_bit128_ops(self.small_win, 0, 9 * b + j);
                        lemma_bit128_ops(self.small_lose, 0, 9 * b + j);
                        lemma_bit128_ops(self.small_win, self.small_lose, 9 * b + j);
                        lemma_board_mask(remain_big, b as int, j);
                    }
                }
                self.push_board_actions(&mut actions, b, remain_small);
                b = b + 1;
            }
            actions
        }
    }

    /// A random offered move: the next value `v` of the generator picks the
    /// move at index `v % n` of `spec_valid_actions`, `n` being their number.
    pub fn random_action(&self, rng: &mut XorShift) -> (r: Action)
        requires
            self.last_big <= 9,
            self.spec_valid_actions().len() > 0,
        ensures
            final(rng).seed == xorshift(old(rng).seed),
            r == self.spec_valid_actions()[((final(rng).seed as usize) as int)
                % (self.spec_valid_actions().len() as int)],
    {
        let ghost cells = self.allowed_cells(81);
        if self.last_big != 9 {
            let ghost lb = self.last_big;
            let small_win = get_small(self.small_win, self.last_big);
            let small_lose = get_small(self.small_lose, self.last_big);
            proof {
                lemma_nine_or(small_win, small_lose, 0);
                lemma_nine_or(small_win | small_lose, 0, 0);
            }
            let mut remain = (small_win | small_lose) ^ 0x1ff;
            proof {
                lemma_nine_bits(0x1ffu16, 0, 0);
                lemma_nine_bits(remain, 0, 0);
                assert forall|j: int| 0 <= j < 9 implies #[trigger] bit16(remain, j) == self.allowed(
                    lb as int,
                    j,
                ) by {
                    lemma_bit16_ops(small_win | small_lose, 0x1ffu16, j);
                    lemma_bit16_ops(small_win, small_lose, j);
                    lemma_small_bits(self.small_win, lb, j);
                    lemma_small_bits(self.small_lose, lb, j);
                    lemma_bit128_ops(self.small_win, self.small_lose, 9 * lb + j);
                }
                assert forall|c: int| 0 <= c < 9 * lb implies !#[trigger] self.allowed_cell(c) by {}
                self.lemma_allowed_cells_skip(0, (9 * lb) as nat);
                assert forall|c: int| 9 * lb + 9 <= c < 81 implies !#[trigger] self.allowed_cell(c) by {}
                self.lemma_allowed_cells_skip((9 * lb + 9) as nat, 81);
                self.lemma_count16_board(lb, remain, 9);
            }
            let num_actions = popcount(remain) as usize;
            let i = rng.next() % num_actions;
            let ghost mut t: u16 = 0;
            for k in 0..i
                invariant
                    lb == self.last_big,
                    lb < 9,
                    i < cells.len(),
                    cells == self.allowed_cells(81),
                    cells == self.allowed_cells((9 * lb + 9) as nat),
                    t <= 9,
                    remain < 512,
                    (remain >> t) << t == remain,
                    forall|j: int| t <= j < 9 ==> #[trigger] bit16(remain, j) == self.allowed(lb as int, j),
                    self.allowed_cells((9 * lb + t) as nat).len() == k,
            {
                proof {
                    self.lemma_nonzero_while_short(lb, remain, t);
                }
                let ghost p = self.lemma_skip_to_bit(lb, remain, t);
                proof {
                    lemma_lowest16(remain, p);
                    let c = 9 * lb + p;
                    assert(c / 9 == lb as int && c % 9 == p as int);
                    assert(self.allowed_cells((c + 1) as nat) == self.allowed_cells(c as nat).push(c));
                }
                let ghost prev = remain;
                remain ^= remain & !(remain - 1);
                proof {
                    assert forall|j: int| p + 1 <= j < 9 implies #[trigger] bit16(remain, j)
                        == self.allowed(lb as int, j) by {
                        lemma_bit16_ops(prev, 1u16 << p, j);
                        lemma_bit16_ops(prev, p, j);
                    }
                    t = (p + 1) as u16;
                }
            }
            proof {
                self.lemma_nonzero_while_short(lb, remain, t);
            }
            let ghost p = self.lemma_skip_to_bit(lb, remain, t);
            proof {
                lemma_lowest16(remain, p);
                lemma_low_ones_count(p);
                lemma_nine_bits(0, 0, p);
                let c = 9 * lb + p;
                assert(c / 9 == lb as int && c % 9 == p as int);
                assert(self.allowed_cells((c + 1) as nat) == self.allowed_cells(c as nat).push(c));
                self.lemma_allowed_cells_prefix((c + 1) as nat, 81);
            }
            let s = popcount((remain & !(remain - 1)) - 1);
            self.action_of(self.last_big, s)
        } else {
            let remain_big = (self.big_win | self.big_lose | self.big_draw) ^ 0x1ff;
            proof {
                lemma_board_mask(remain_big, 0, 0);
            }
            let remain_big_mask = (((remain_big as u128 & 0xff) * 0x101010101010101u128 | (remain_big
                as u128) << 64) & 0x1008040201008040201u128) * 0x1ff;
            let mut remain = !self.small_win & !self.small_lose & remain_big_mask;
            proof {
                assert(remain_big_mask == board_mask(remain_big));
                lemma_nine_bits(0x1ffu16, 0, 0);
                assert forall|c: int| 0 <= c < 81 implies #[trigger] bit128(remain, c)
                    == self.allowed_cell(c) by {
                    let b = c / 9;
                    let j = c % 9;
                    lemma_bit128_ops(!self.small_win & !self.small_lose, board_mask(remain_big), c);
                    lemma_bit128_ops(!self.small_win, !self.small_lose, c);
                    lemma_bit128_ops(self.small_win, 0, c);
                    lemma_bit128_ops(self.small_lose, 0, c);
                    lemma_bit128_ops(self.small_win, self.small_lose, c);
                    lemma_board_mask(remain_big, b, j);
                    lemma_bit16_ops(self.decided_mask(), 0x1ffu16, b);
                }
                lemma_cells128(!self.small_win & !self.small_lose, board_mask(remain_big), 0, 0, 0, 0);
                lemma_cells128(remain, 0, 0, 0, 0, 0);
                self.lemma_count128(remain, 81);
                self.lemma_count128_tail(remain, 81);
            }
            let num_actions = count_ones_u128(remain) as usize;
            let i = rng.next() % num_actions;
            let ghost mut t: u128 = 0;
            for k in 0..i
                invariant
                    self.last_big == 9,
                    i < cells.len(),
                    cells == self.allowed_cells(81),
                    t <= 81,
                    remain >> 81u128 == 0,
                    (remain >> t) << t == remain,
                    forall|c: int| t <= c < 81 ==> #[trigger] bit128(remain, c) == self.allowed_cell(c),
                    self.allowed_cells(t as nat).len() == k,
            {
                proof {
                    self.lemma_nonzero128_while_short(remain, t);
                }
                let ghost p = self.lemma_skip_to_bit128(remain, t);
                proof {
                    lemma_lowest128(remain, p);
                    assert(self.allowed_cells((p + 1) as nat) == self.allowed_cells(p as nat).push(
                        p as int,
                    ));
                    lemma_cells128(remain, 0, 0, 0, p, 0);
                }
                let ghost prev = remain;
                remain ^= remain & !(remain - 1);
                proof {
                    assert forall|c: int| p + 1 <= c < 81 implies #[trigger] bit128(remain, c)
                        == self.allowed_cell(c) by {
                        lemma_bit128_ops(prev, 1u128 << p, c);
                        lemma_bit128_ops(prev, p, c);
                    }
                    t = (p + 1) as u128;
                }
            }
            proof {
                self.lemma_nonzero128_while_short(remain, t);
            }
            let ghost p = self.lemma_skip_to_bit128(remain, t);
            let bs = trailing_zeros_u128(remain) as u16;
            proof {
                lemma_cells128(remain, 0, p, bs as u128, 0, 0);
                lemma_cells128(remain, 0, bs as u128, p, 0, 0);
                assert(bs as u128 == p);
                assert(self.allowed_cells((p + 1) as nat) == self.allowed_cells(p as nat).push(p as int));
                self.lemma_allowed_cells_prefix((p + 1) as nat, 81);
            }
            self.action_of(bs / 9, bs % 9)
        }
    }

    /// While fewer than all offered cells of sub-board `b` lie below bit `t`, some bit is left.
    proof fn lemma_nonzero_while_short(&self, b: u16, remain: u16, t: u16)
        requires
            b < 9,
            t <= 9,
            remain < 512,
            forall|j: int| t <= j < 9 ==> #[trigger] bit16(remain, j) == self.allowed(b as int, j),
            self.allowed_cells((9 * b + t) as nat).len() < self.allowed_cells((9 * b + 9) as nat).len(),
        ensures
            remain != 0,
    {
        if remain == 0 {
            assert forall|c: int| 9 * b + t <= c < 9 * b + 9 implies !#[trigger] self.allowed_cell(c) by {
                assert(c / 9 == b as int);
                lemma_bit16_ops(0, 0, c % 9);
            }
            self.lemma_allowed_cells_skip((9 * b + t) as nat, (9 * b + 9) as nat);
        }
    }

    /// The 81-cell counterpart of `lemma_nonzero_while_short`.
    proof fn lemma_nonzero128_while_short(&self, remain: u128, t: u128)
        requires
            t <= 81,
            forall|c: int| t <= c < 81 ==> #[trigger] bit128(remain, c) == self.allowed_cell(c),
            self.allowed_cells(t as nat).len() < self.allowed_cells(81).len(),
        ensures
            remain != 0,
    {
        if remain == 0 {
            assert forall|c: int| t <= c < 81 implies !#[trigger] self.allowed_cell(c) by {
                lemma_bit128_ops(0, 0, c);
            }
            self.lemma_allowed_cells_skip(t as nat, 81);
        }
    }

    /// The 81-cell counterpart of `lemma_skip_to_bit`.
    proof fn lemma_skip_to_bit128(&self, remain: u128, t: u128) -> (p: u128)
        requires
            t <= 81,
            remain != 0,
            remain >> 81u128 == 0,
            (remain >> t) << t == remain,
            forall|c: int| t <= c < 81 ==> #[trigger] bit128(remain, c) == self.allowed_cell(c),
        ensures
            t <= p < 81,
            bit128(remain, p as int),
            (remain >> p) << p == remain,
            self.allowed_cell(p as int),
            self.allowed_cells(p as nat) == self.allowed_cells(t as nat),
        decreases 81 - t,
    {
        if t == 81 {
            lemma_cells128(remain, 0, 0, 0, 0, 0);
            assert(false);
            t
        } else if bit128(remain, t as int) {
            t
        } else {
            lemma_lowest128(remain, t);
            let p = self.lemma_skip_to_bit128(remain, (t + 1) as u128);
            assert(self.allowed_cells((t + 1) as nat) == self.allowed_cells(t as nat));
            p
        }
    }

    /// The offered cells below `m` start with those below `n`.
    proof fn lemma_allowed_cells_prefix(&self, n: nat, m: nat)
        requires
            n <= m,
        ensures
            self.allowed_cells(n).len() <= self.allowed_cells(m).len(),
            forall|j: int|
                0 <= j < self.allowed_cells(n).len() ==> #[trigger] self.allowed_cells(m)[j]
                    == self.allowed_cells(n)[j],
        decreases m - n,
    {
        if n < m {
            self.lemma_allowed_cells_prefix(n, (m - 1) as nat);
        }
    }

    /// The set bits of `remain` below `n` are the offered cells of sub-board
    /// `b` below `n`, so they count those cells.
    proof fn lemma_count16_board(&self, b: u16, remain: u16, n: nat)
        requires
            b < 9,
            n <= 9,
            forall|j: int| 0 <= j < 9 ==> #[trigger] bit16(remain, j) == self.allowed(b as int, j),
        ensures
            count_bits16(remain, n) + self.allowed_cells((9 * b) as nat).len() == self.allowed_cells(
                (9 * b + n) as nat,
            ).len(),
        decreases n,
    {
        if n > 0 {
            self.lemma_count16_board(b, remain, (n - 1) as nat);
            let c = 9 * b + n - 1;
            assert(c / 9 == b as int && c % 9 == n - 1);
        }
    }

    /// The set bits of `remain` below `n <= 81` are the offered cells below `n`.
    proof fn lemma_count128(&self, remain: u128, n: nat)
        requires
            n <= 81,
            forall|c: int| 0 <= c < 81 ==> #[trigger] bit128(remain, c) == self.allowed_cell(c),
        ensures
            count_bits128(remain, n) == self.allowed_cells(n).len(),
        decreases n,
    {
        if n > 0 {
            self.lemma_count128(remain, (n - 1) as nat);
        }
    }

    /// No bit past the 81 cells adds to the count.
    proof fn lemma_count128_tail(&self, remain: u128, n: nat)
        requires
            81 <= n <= 128,
            remain >> 81u128 == 0,
        ensures
            count_bits128(remain, 128) == count_bits128(remain, n),
        decreases 128 - n,
    {
        if n < 128 {
            lemma_cells128(remain, 0, 0, 0, 0, n as int);
            self.lemma_count128_tail(remain, n + 1);
        }
    }

    /// Appends the moves of sub-board `b`, whose offered cells are the set bits of `remain`.
    fn push_board_actions(&self, actions: &mut Vec<Action>, b: u16, remain: u16)
        requires
            b < 9,
            remain < 512,
            forall|j: int| 0 <= j < 9 ==> #[trigger] bit16(remain, j) == self.allowed(b as int, j),
            old(actions)@ == self.actions_of(self.allowed_cells(9 * b as nat)),
        ensures
            final(actions)@ == self.actions_of(self.allowed_cells((9 * b + 9) as nat)),
    {
        let mut remain = remain;
        let ghost mut t: u16 = 0;
        proof {
            lemma_nine_bits(remain, 0, 0);
        }
        while remain > 0
            invariant
                b < 9,
                t <= 9,
                remain < 512,
                (remain >> t) << t == remain,
                forall|j: int| t <= j < 9 ==> #[trigger] bit16(remain, j) == self.allowed(b as int, j),
                actions@ == self.actions_of(self.allowed_cells((9 * b + t) as nat)),
            decreases remain,
        {
            let ghost p = self.lemma_skip_to_bit(b, remain, t);
            proof {
                lemma_lowest16(remain, p);
                lemma_low_ones_count(p);
                lemma_nine_bits(0, 0, p);
            }
            let bit = remain & !(remain - 1);
            let s = popcount(bit - 1);
            actions.push(self.action_of(b, s));
            let ghost prev = remain;
            remain = remain ^ bit;
            proof {
                let c = 9 * b + p;
                assert(c / 9 == b as int && c % 9 == p as int);
                assert(self.allowed_cells((c + 1) as nat) == self.allowed_cells(c as nat).push(c));
                assert(actions@ =~= self.actions_of(self.allowed_cells((c + 1) as nat)));
                assert forall|j: int| p + 1 <= j < 9 implies #[trigger] bit16(remain, j) == self.allowed(
                    b as int,
                    j,
                ) by {
                    lemma_bit16_ops(prev, bit, j);
                    lemma_bit16_ops(prev, p, j);
                }
                t = (p + 1) as u16;
            }
        }
        proof {
            assert forall|c: int| 9 * b + t <= c < 9 * b + 9 implies !#[trigger] self.allowed_cell(c) by {
                assert(c / 9 == b as int);
                lemma_bit16_ops(0, 0, c % 9);
            }
            self.lemma_allowed_cells_skip((9 * b + t) as nat, (9 * b + 9) as nat);
        }
    }

    /// Walks from bit `t` up to the lowest set bit `p` of `remain`; no cell
    /// between them is offered.
    proof fn lemma_skip_to_bit(&self, b: u16, remain: u16, t: u16) -> (p: u16)
        requires
            b < 9,
            t <= 9,
            remain != 0,
            remain < 512,
            (remain >> t) << t == remain,
            forall|j: int| t <= j < 9 ==> #[trigger] bit16(remain, j) == self.allowed(b as int, j),
        ensures
            t <= p < 9,
            bit16(remain, p as int),
            (remain >> p) << p == remain,
            self.allowed(b as int, p as int),
            self.allowed_cells((9 * b + p) as nat) == self.allowed_cells((9 * b + t) as nat),
        decreases 9 - t,
    {
        lemma_nine_bits(remain, 0, 0);
        if t == 9 {
            assert(false);
            t
        } else if bit16(remain, t as int) {
            t
        } else {
            lemma_lowest16(remain, t);
            let p = self.lemma_skip_to_bit(b, remain, (t + 1) as u16);
            let c = 9 * b + t;
            assert(c / 9 == b as int && c % 9 == t as int);
            assert(self.allowed_cells((c + 1) as nat) == self.allowed_cells(c as nat));
            p
        }
    }

    /// No offered cell in `[n, m)`: the offered cells below `m` are those below `n`.
    proof fn lemma_allowed_cells_skip(&self, n: nat, m: nat)
        requires
            n <= m,
            forall|c: int| n <= c < m ==> !#[trigger] self.allowed_cell(c),
        ensures
            self.allowed_cells(m) == self.allowed_cells(n),
        decreases m - n,
    {
        if n < m {
            self.lemma_allowed_cells_skip(n, (m - 1) as nat);
        }
    }
}

/// `(1 << p) - 1` has `p` ones among its nine low bits.
proof fn lemma_low_ones_count(p: u16)
    requires
        p < 9,
    ensures
        count_bits16(((1u16 << p) - 1u16) as u16, 9) == p,
{
    lemma_low_ones_count_upto(p, 9);
}

proof fn lemma_low_ones_count_upto(p: u16, n: nat)
    requires
        p < 9,
        n <= 9,
    ensures
        count_bits16(((1u16 << p) - 1u16) as u16, n) == if n < p { n } else { p as nat },
    decreases n,
{
    if n > 0 {
        lemma_low_ones_count_upto(p, (n - 1) as nat);
        lemma_nine_bits(0, n - 1, p);
    }
}

impl State {
    /// Every cell listed below `n` is offered and below `n`, and every offered
    /// cell below `n` is listed.
    pub proof fn lemma_allowed_cells_members(&self, n: nat)
        ensures
            forall|j: int|
                0 <= j < self.allowed_cells(n).len() ==> 0 <= #[trigger] self.allowed_cells(n)[j] < n
                    && self.allowed_cell(self.allowed_cells(n)[j]),
            forall|c: int|
                0 <= c < n && #[trigger] self.allowed_cell(c) ==> self.allowed_cells(n).contains(c),
        decreases n,
    {
        if n > 0 {
            self.lemma_allowed_cells_members((n - 1) as nat);
            let p = self.allowed_cells((n - 1) as nat);
            assert forall|c: int| 0 <= c < n && #[trigger] self.allowed_cell(c) implies self.allowed_cells(
                n,
            ).contains(c) by {
                if c < n - 1 {
                    let j = choose|j: int| 0 <= j < p.len() && p[j] == c;
                    assert(self.allowed_cells(n)[j] == c);
                } else {
                    assert(self.allowed_cells(n)[p.len() as int] == c);
                }
            }
        }
    }
}

/// In a well-formed position the offered moves are exactly the legal ones.
pub proof fn lemma_offered_iff_legal(st: State, b: int, s: int)
    requires
        st.wf(),
    ensures
        st.allowed(b, s) == st.legal(b, s),
{
}

/// In a well-formed position `spec_valid_actions` lists legal moves only,
/// and every legal move is listed.
pub proof fn lemma_valid_actions_are_legal(st: State)
    requires
        st.wf(),
    ensures
        forall|i: int|
            0 <= i < st.spec_valid_actions().len() ==> st.legal(
                #[trigger] st.spec_valid_actions()[i].b as int,
                st.spec_valid_actions()[i].s as int,
            ),
        forall|b: int, s: int|
            #[trigger] st.legal(b, s) ==> exists|i: int|
                0 <= i < st.spec_valid_actions().len() && st.spec_valid_actions()[i].b == b
                    && st.spec_valid_actions()[i].s == s,
{
    let cells = st.allowed_cells(81);
    st.lemma_allowed_cells_members(81);
    assert forall|i: int| 0 <= i < st.spec_valid_actions().len() implies st.legal(
        #[trigger] st.spec_valid_actions()[i].b as int,
        st.spec_valid_actions()[i].s as int,
    ) by {
        let c = cells[i];
        assert(st.allowed_cell(c));
    }
    assert forall|b: int, s: int| #[trigger] st.legal(b, s) implies exists|i: int|
        0 <= i < st.spec_valid_actions().len() && st.spec_valid_actions()[i].b == b
            && st.spec_valid_actions()[i].s == s by {
        let c = 9 * b + s;
        assert(c / 9 == b && c % 9 == s);
        assert(st.allowed_cell(c));
        let i = choose|i: int| 0 <= i < cells.len() && cells[i] == c;
        assert(st.spec_valid_actions()[i].b == b && st.spec_valid_actions()[i].s == s);
    }
}

/// A well-formed game that is not finished has a legal move.
pub proof fn lemma_unfinished_has_move(st: State)
    requires
        st.wf(),
        !st.spec_finished(),
    ensures
        exists|b: int, s: int| st.legal(b, s),
        st.spec_valid_actions().len() > 0,
{
    let occ = st.small_win | st.small_lose;
    let b: int = if st.last_big < 9 {
        st.last_big as int
    } else {
        lemma_nine_or(st.big_win, st.big_lose, 0);
        lemma_nine_or(st.big_win | st.big_lose, st.big_draw, 0);
        lemma_nine_bits(st.decided_mask(), 0, 0);
        choose|b: int| 0 <= b < 9 && !#[trigger] bit16(st.decided_mask(), b)
    };
    assert(!st.decided(b));
    assert(!st.full(b));
    lemma_small_bits(occ, b as u16, 0);
    lemma_nine_bits(small_bits(occ, b as u16), 0, 0);
    let s = choose|s: int| 0 <= s < 9 && !#[trigger] bit16(small_bits(occ, b as u16), s);
    lemma_small_bits(occ, b as u16, s);
    assert(st.legal(b, s));
    lemma_valid_actions_are_legal(st);
}

impl Action {
    /// Row and column of the move on the 9x9 board, as a referee writes them.
    pub fn position(&self) -> (r: (u16, u16))
        requires
            self.b / 3 * 3 + self.s / 3 <= u16::MAX,
        ensures
            r == (((self.b / 3 * 3 + self.s / 3) as u16, (self.b % 3 * 3 + self.s % 3) as u16)),
    {
        (self.b / 3 * 3 + self.s / 3, self.b % 3 * 3 + self.s % 3)
    }

    /// The move at row `y`, column `x` of the 9x9 board; a column of -1
    /// means that there is none.
    pub fn from_position(y: i32, x: i32) -> (r: Option<Action>)
        requires
            x == -1 || (0 <= y < 9 && 0 <= x < 9),
        ensures
            x == -1 ==> r.is_none(),
            x != -1 ==> r == Some(
                Action { b: (y / 3 * 3 + x / 3) as u16, s: (y % 3 * 3 + x % 3) as u16, anywhere: false },
            ),
    {
        if x == -1 {
            None
        } else {
            Some(Action { b: (y / 3 * 3 + x / 3) as u16, s: (y % 3 * 3 + x % 3) as u16, anywhere: false })
        }
    }
}

/// Writing a move as a row and column and reading it back gives the same cell.
pub proof fn lemma_position_round_trip(a: Action)
    requires
        a.b < 9,
        a.s < 9,
    ensures
        ({
            let (y, x) = (a.b / 3 * 3 + a.s / 3, a.b % 3 * 3 + a.s % 3);
            &&& 0 <= y < 9
            &&& 0 <= x < 9
            &&& y / 3 * 3 + x / 3 == a.b
            &&& y % 3 * 3 + x % 3 == a.s
        }),
{
    assert(a.b / 3 * 3 + a.b % 3 == a.b);
    assert(a.s / 3 * 3 + a.s % 3 == a.s);
}

/// The move the search strategies open with: the centre cell of the centre
/// sub-board, when the board is empty.
pub fn opening_move(state: &State) -> (r: Option<Action>)
    ensures
        r == if state.small_lose | state.small_win == 0 {
            Some(Action { b: 4, s: 4, anywhere: false })
        } else {
            None
        },
{
    if state.small_lose | state.small_win == 0 {
        Some(Action { b: 4, s: 4, anywhere: false })
    } else {
        None
    }
}

impl State {
    /// The character drawn for cell `(y, x)` of the 9x9 board: a decided
    /// sub-board shows its owner's letter in its centre and `*` elsewhere; a
    /// cell shows its mark (`X` or `O` by `turn`) or `.`.
    pub open spec fn spec_cell_char(&self, y: int, x: int) -> char {
        let b = y / 3 * 3 + x / 3;
        let s = y % 3 * 3 + x % 3;
        if bit16(self.big_lose, b) {
            if s == 4 {
                if self.turn {
                    'O'
                } else {
                    'X'
                }
            } else {
                '*'
            }
        } else if bit16(self.big_win, b) {
            if s == 4 {
                if self.turn {
                    'X'
                } else {
                    'O'
                }
            } else {
                '*'
            }
        } else if bit128(self.small_lose, 9 * b + s) {
            if self.turn {
                'O'
            } else {
                'X'
            }
        } else if bit128(self.small_win, 9 * b + s) {
            if self.turn {
                'X'
            } else {
                'O'
            }
        } else {
            '.'
        }
    }

    /// The character at row `r`, column `c` of the 11x11 picture: rows 3 and
    /// 7 and columns 3 and 7 separate the sub-boards (`+` where they cross).
    pub open spec fn spec_picture(&self, r: int, c: int) -> char {
        if r == 3 || r == 7 {
            if c == 3 || c == 7 {
                '+'
            } else {
                '-'
            }
        } else if c == 3 || c == 7 {
            '|'
        } else {
            self.spec_cell_char(r - r / 4, c - c / 4)
        }
    }

    /// The 11x11 picture of the position (see `spec_picture`).
    #[verifier::rlimit(50)]
    pub fn render(&self) -> (r: [[char; 11]; 11])
        ensures
            forall|i: int, j: int| 0 <= i < 11 && 0 <= j < 11 ==> #[trigger] r[i][j] == self.spec_picture(i, j),
    {
        let mut grid = [['.'; 11]; 11];
        let mut i: usize = 0;
        while i < 11
            invariant
                i <= 11,
                forall|a: int, c: int|
                    0 <= a < 11 && 0 <= c < 11 && !((a == 3 || a == 7) && (c == 3 || c == 7)) ==> #[trigger] grid[a][c]
                        == if (a == 3 || a == 7) && c < i {
                        '-'
                    } else if (c == 3 || c == 7) && a < i {
                        '|'
                    } else {
                        '.'
                    },
            decreases 11 - i,
        {
            grid[3][i] = '-';
            grid[7][i] = '-';
            grid[i][3] = '|';
            grid[i][7] = '|';
            i = i + 1;
        }
        grid[3][3] = '+';
        grid[3][7] = '+';
        grid[7][3] = '+';
        grid[7][7] = '+';
        let mut y: usize = 0;
        while y < 9
            invariant
                y <= 9,
                forall|a: int, c: int|
                    0 <= a < 11 && 0 <= c < 11 ==> #[trigger] grid[a][c] == if a == 3 || a == 7 || c == 3 || c
                        == 7 || a - a / 4 >= y {
                        if a == 3 || a == 7 || c == 3 || c == 7 {
                            self.spec_picture(a, c)
                        } else {
                            '.'
                        }
                    } else {
                        self.spec_picture(a, c)
                    },
            decreases 9 - y,
        {
            let mut x: usize = 0;
            while x < 9
                invariant
                    y < 9,
                    x <= 9,
                    forall|a: int, c: int|
                        0 <= a < 11 && 0 <= c < 11 ==> #[trigger] grid[a][c] == if a == 3 || a == 7 || c == 3
                            || c == 7 || a - a / 4 > y || (a - a / 4 == y && c - c / 4 >= x) {
                            if a == 3 || a == 7 || c == 3 || c == 7 {
                                self.spec_picture(a, c)
                            } else {
                                '.'
                            }
                        } else {
                            self.spec_picture(a, c)
                        },
                decreases 9 - x,
            {
                let b = y / 3 * 3 + x / 3;
                let s = y % 3 * 3 + x % 3;
                let ghost ay = (y + y / 3) as int;
                let ghost ax = (x + x / 3) as int;
                let ghost g0 = grid;
                proof {
                    assert(ay - ay / 4 == y && ax - ax / 4 == x);
                    assert(ay != 3 && ay != 7 && ax != 3 && ax != 7);
                    assert(ay < 11 && ax < 11);
                    assert(self.spec_picture(ay, ax) == self.spec_cell_char(y as int, x as int));
                }
                if (self.big_lose >> b & 1) == 1 {
                    grid[y + y / 3][x + x / 3] = if s == 4 {
                        if self.turn {
                            'O'
                        } else {
                            'X'
                        }
                    } else {
                        '*'
                    };
                } else if (self.big_win >> b & 1) == 1 {
                    grid[y + y / 3][x + x / 3] = if s == 4 {
                        if self.turn {
                            'X'
                        } else {
                            'O'
                        }
                    } else {
                        '*'
                    };
                } else if (self.small_lose >> (b * 9 + s) & 1) == 1 {
                    grid[y + y / 3][x + x / 3] = if self.turn {
                        'O'
                    } else {
                        'X'
                    };
                } else if (self.small_win >> (b * 9 + s) & 1) == 1 {
                    grid[y + y / 3][x + x / 3] = if self.turn {
                        'X'
                    } else {
                        'O'
                    };
                }
                proof {
                    assert(grid[ay][ax] == self.spec_picture(ay, ax));
                    assert forall|a: int, c: int| 0 <= a < 11 && 0 <= c < 11 && (a != ay || c != ax) implies #[trigger] grid[a][c] == g0[a][c] by {}
                }
                x = x + 1;
            }
            y = y + 1;
        }
        grid
    }
}

impl State {
    /// Whether the position is well formed (see `wf`).
    pub fn is_consistent(&self) -> (r: bool)
        ensures
            r == self.wf(),
    {
        if !(self.big_win < 512 && self.big_lose < 512 && self.big_draw < 512 && self.last_big <= 9) {
            return false;
        }
        if self.small_win & self.small_lose != 0 || self.big_win & self.big_lose != 0 || self.big_win
            & self.big_draw != 0 || self.big_lose & self.big_draw != 0 {
            return false;
        }
        let decided = self.big_win | self.big_lose | self.big_draw;
        let mut b: u16 = 0;
        while b < 9
            invariant
                b <= 9,
                decided == self.decided_mask(),
                forall|bb: int| 0 <= bb < b && #[trigger] self.full(bb) ==> self.decided(bb),
                forall|bb: int| 0 <= bb < b ==> #[trigger] self.owners_match(bb),
            decreases 9 - b,
        {
            if get_small(self.small_win | self.small_lose, b) == 0x1ff && (decided >> b) & 1 != 1 {
                assert(self.full(b as int) && !self.decided(b as int));
                return false;
            }
            let win_line = is_win(get_small(self.small_win, b));
            let lose_line = is_win(get_small(self.small_lose, b));
            if (self.big_win >> b) & 1 == 1 && !win_line {
                assert(!self.owners_match(b as int));
                return false;
            }
            if (self.big_lose >> b) & 1 == 1 && !lose_line {
                assert(!self.owners_match(b as int));
                return false;
            }
            if (decided >> b) & 1 != 1 && (win_line || lose_line) {
                assert(!self.owners_match(b as int));
                return false;
            }
            assert(self.owners_match(b as int));
            b = b + 1;
        }
        if self.last_big < 9 && (decided >> self.last_big) & 1 == 1 {
            return false;
        }
        true
    }
}

/// A game has a result exactly when it is finished.
pub proof fn lemma_winner_iff_finished(st: State)
    ensures
        st.spec_winner().is_some() == st.spec_finished(),
{
}

/// The picture row that shows cell `s` of sub-board `b`.
pub open spec fn picture_row(b: int, s: int) -> int {
    let y = b / 3 * 3 + s / 3;
    y + y / 3
}

/// The picture column that shows cell `s` of sub-board `b`.
pub open spec fn picture_col(b: int, s: int) -> int {
    let x = b % 3 * 3 + s % 3;
    x + x / 3
}

/// In the picture of a position the first player's marks are `O` and the
/// second player's `X` (the first player's cells are `small_lose` when `turn`
/// is set, `small_win` otherwise); an empty cell of an open sub-board is `.`;
/// a sub-board one player owns shows that player's letter at its centre and
/// `*` on its other cells. So the centre of an owned sub-board carries the
/// letter of its owner's single marks, and the two players never share one.
pub proof fn lemma_picture_letters(st: State, b: int, s: int)
    requires
        0 <= b < 9,
        0 <= s < 9,
    ensures
        ({
            let first_cells = if st.turn {
                st.small_lose
            } else {
                st.small_win
            };
            let second_cells = if st.turn {
                st.small_win
            } else {
                st.small_lose
            };
            let first_boards = if st.turn {
                st.big_lose
            } else {
                st.big_win
            };
            let second_boards = if st.turn {
                st.big_win
            } else {
                st.big_lose
            };
            let owned = bit16(first_boards, b) || bit16(second_boards, b);
            let c = st.spec_picture(picture_row(b, s), picture_col(b, s));
            &&& !owned && bit128(first_cells, 9 * b + s) && !bit128(second_cells, 9 * b + s) ==> c == 'O'
            &&& !owned && bit128(second_cells, 9 * b + s) && !bit128(first_cells, 9 * b + s) ==> c == 'X'
            &&& !owned && !bit128(first_cells, 9 * b + s) && !bit128(second_cells, 9 * b + s) ==> c == '.'
            &&& bit16(first_boards, b) && !bit16(second_boards, b) ==> c == if s == 4 {
                'O'
            } else {
                '*'
            }
            &&& bit16(second_boards, b) && !bit16(first_boards, b) ==> c == if s == 4 {
                'X'
            } else {
                '*'
            }
        }),
{
    let y = b / 3 * 3 + s / 3;
    let x = b % 3 * 3 + s % 3;
    let r = picture_row(b, s);
    let c = picture_col(b, s);
    assert(0 <= y < 9 && 0 <= x < 9);
    assert(y / 3 == b / 3 && x / 3 == b % 3 && y % 3 == s / 3 && x % 3 == s % 3);
    assert(r != 3 && r != 7 && c != 3 && c != 7);
    assert(r - r / 4 == y && c - c / 4 == x);
    assert(y / 3 * 3 + x / 3 == b);
    assert(y % 3 * 3 + x % 3 == s);
}

} // verus!
