//! Zobrist keys: one random word per (cell, colour) and per decided
//! sub-board, plus tables that clear a whole sub-board at once.
use vstd::prelude::*;
use rand::rngs::StdRng;
use rand::{RngCore, SeedableRng};
use crate::bits::{
    bit16, bit128, small_bits, lemma_small_bits, lemma_bit128_ops, lemma_bit16_ops, lemma_xor,
    lemma_small_bits_or, lemma_or16,
};
use crate::ai::{State, line_complete};

verus! {

#[verifier::external_type_specification]
#[verifier::external_body]
pub struct ExStdRng(StdRng);

/// `StdRng::seed_from_u64` of `rand`: a generator seeded from `seed`.
/// Nothing is claimed of the stream it yields: `rand` documents `StdRng` as
/// deterministic but dependent on platform and configuration, so the words
/// are not given a name as a function of the seed.
#[verifier::external_body]
fn seeded_rng(seed: u64) -> StdRng {
    StdRng::seed_from_u64(seed)
}

/// `RngCore::next_u64` of `rand` on a `StdRng`: the next word of the stream.
/// Any value may come back.
#[verifier::external_body]
fn next_random_word(rng: &mut StdRng) -> u64 {
    rng.next_u64()
}

/// The keys. `o` and `x` are indexed by cell `9 * b + s`; the `big_*` keys by
/// sub-board; `reset_o[9 * m + b]` is the xor of the `o` keys of the cells of
/// sub-board `b` whose bit is set in the nine-bit word `m` (same for `reset_x`).
pub struct Zobrist {
    pub o: Vec<u64>,
    pub x: Vec<u64>,
    pub big_o: Vec<u64>,
    pub big_x: Vec<u64>,
    pub big_draw: Vec<u64>,
    pub reset_o: Vec<u64>,
    pub reset_x: Vec<u64>,
}

/// Xor of `keys[9 * b + s]` over the cells `s < n` whose bit is set in `m`.
pub open spec fn xor_cells(keys: Seq<u64>, b: int, m: u16, n: nat) -> u64
    decreases n,
{
    if n == 0 {
        0
    } else {
        xor_cells(keys, b, m, (n - 1) as nat) ^ if bit16(m, n - 1) {
            keys[9 * b + n - 1]
        } else {
            0u64
        }
    }
}

impl Zobrist {
    /// Table sizes, and the reset tables agree with the cell keys.
    pub open spec fn wf(&self) -> bool {
        &&& self.o@.len() == 81
        &&& self.x@.len() == 81
        &&& self.big_o@.len() == 9
        &&& self.big_x@.len() == 9
        &&& self.big_draw@.len() == 9
        &&& self.reset_o@.len() == 0x1200
        &&& self.reset_x@.len() == 0x1200
        &&& forall|m: u16, b: int|
            m < 512 && 0 <= b < 9 ==> #[trigger] self.reset_o@[9 * m + b] == xor_cells(
                self.o@,
                b,
                m,
                9,
            )
        &&& forall|m: u16, b: int|
            m < 512 && 0 <= b < 9 ==> #[trigger] self.reset_x@[9 * m + b] == xor_cells(
                self.x@,
                b,
                m,
                9,
            )
    }

    /// The keys laid out from the words `w`, in drawing order: an `o` and an
    /// `x` key per cell (`o[i] == w[2i]`, `x[i] == w[2i + 1]`), then an `o`,
    /// an `x` and a draw key per sub-board (`big_o[b] == w[162 + 3b]`,
    /// `big_x[b] == w[163 + 3b]`, `big_draw[b] == w[164 + 3b]`).
    pub open spec fn laid_out_from(&self, w: Seq<u64>) -> bool {
        &&& forall|i: int| 0 <= i < 81 ==> #[trigger] self.o@[i] == w[2 * i] && self.x@[i] == w[2 * i + 1]
        &&& forall|b: int|
            0 <= b < 9 ==> #[trigger] self.big_o@[b] == w[162 + 3 * b] && self.big_x@[b] == w[163 + 3 * b]
                && self.big_draw@[b] == w[164 + 3 * b]
    }

    /// The keys built from 189 words (see `laid_out_from`), with the reset
    /// tables worked out from the cell keys.
    pub fn from_words(w: &Vec<u64>) -> (r: Self)
        requires
            w@.len() == 189,
        ensures
            r.wf(),
            r.laid_out_from(w@),
    {
        let mut o: Vec<u64> = Vec::new();
        let mut x: Vec<u64> = Vec::new();
        let mut bs: usize = 0;
        while bs < 81
            invariant
                bs <= 81,
                w@.len() == 189,
                o@.len() == bs,
                x@.len() == bs,
                forall|i: int| 0 <= i < bs ==> #[trigger] o@[i] == w@[2 * i] && x@[i] == w@[2 * i + 1],
            decreases 81 - bs,
        {
            o.push(w[2 * bs]);
            x.push(w[2 * bs + 1]);
            bs = bs + 1;
        }
        let mut big_o: Vec<u64> = Vec::new();
        let mut big_x: Vec<u64> = Vec::new();
        let mut big_draw: Vec<u64> = Vec::new();
        let mut b: usize = 0;
        while b < 9
            invariant
                b <= 9,
                w@.len() == 189,
                big_o@.len() == b,
                big_x@.len() == b,
                big_draw@.len() == b,
                forall|bb: int|
                    0 <= bb < b ==> #[trigger] big_o@[bb] == w@[162 + 3 * bb] && big_x@[bb] == w@[163 + 3
                        * bb] && big_draw@[bb] == w@[164 + 3 * bb],
            decreases 9 - b,
        {
            big_o.push(w[162 + 3 * b]);
            big_x.push(w[163 + 3 * b]);
            big_draw.push(w[164 + 3 * b]);
            b = b + 1;
        }
        let reset_o = reset_table(&o);
        let reset_x = reset_table(&x);
        Zobrist { o, x, big_o, big_x, big_draw, reset_o, reset_x }
    }

    /// Keys from the first 189 words of `StdRng` seeded with 0, laid out in
    /// drawing order (see `laid_out_from`).
    pub fn new() -> (r: Self)
        ensures
            r.wf(),
            exists|w: Seq<u64>| w.len() == 189 && #[trigger] r.laid_out_from(w),
    {
        let mut rng = seeded_rng(0);
        let mut words: Vec<u64> = Vec::new();
        let mut i: usize = 0;
        while i < 189
            invariant
                i <= 189,
                words@.len() == i,
            decreases 189 - i,
        {
            words.push(next_random_word(&mut rng));
            i = i + 1;
        }
        let r = Zobrist::from_words(&words);
        proof {
            assert(r.laid_out_from(words@));
        }
        r
    }
}

impl Zobrist {
    /// Key of cell `i`: the `o` key for the marks of the side whose `turn` is
    /// true, the `x` key for the other side, nothing for an empty cell.
    pub open spec fn cell_key(&self, st: State, i: int) -> u64 {
        if bit128(st.small_win, i) {
            if st.turn {
                self.o@[i]
            } else {
                self.x@[i]
            }
        } else if bit128(st.small_lose, i) {
            if st.turn {
                self.x@[i]
            } else {
                self.o@[i]
            }
        } else {
            0
        }
    }

    /// Xor of the keys of the first `n` cells of sub-board `b`.
    pub open spec fn cells_hash(&self, st: State, b: int, n: nat) -> u64
        decreases n,
    {
        if n == 0 {
            0
        } else {
            self.cells_hash(st, b, (n - 1) as nat) ^ self.cell_key(st, 9 * b + n - 1)
        }
    }

    /// Key of sub-board `b`: its big key once decided, else the xor of its cells.
    pub open spec fn board_key(&self, st: State, b: int) -> u64 {
        if bit16(st.big_win, b) {
            if st.turn {
                self.big_o@[b]
            } else {
                self.big_x@[b]
            }
        } else if bit16(st.big_lose, b) {
            if st.turn {
                self.big_x@[b]
            } else {
                self.big_o@[b]
            }
        } else if bit16(st.big_draw, b) {
            self.big_draw@[b]
        } else {
            self.cells_hash(st, b, 9)
        }
    }

    /// Xor of the keys of the first `n` sub-boards.
    pub open spec fn boards_hash(&self, st: State, n: nat) -> u64
        decreases n,
    {
        if n == 0 {
            0
        } else {
            self.boards_hash(st, (n - 1) as nat) ^ self.board_key(st, n - 1)
        }
    }

    /// The Zobrist hash of a position.
    pub open spec fn hash_of(&self, st: State) -> u64 {
        self.boards_hash(st, 9)
    }
}

/// `r[9 * m + b]` is the xor of the keys of the cells of sub-board `b` set in `m`.
fn reset_table(keys: &Vec<u64>) -> (r: Vec<u64>)
    requires
        keys@.len() == 81,
    ensures
        r@.len() == 0x1200,
        forall|m: u16, b: int|
            m < 512 && 0 <= b < 9 ==> #[trigger] r@[9 * m + b] == xor_cells(keys@, b, m, 9),
{
    let mut r: Vec<u64> = Vec::new();
    let mut m: u16 = 0;
    while m < 0x200
        invariant
            m <= 0x200,
            keys@.len() == 81,
            r@.len() == 9 * m,
            forall|mm: u16, b: int|
                mm < m && 0 <= b < 9 ==> #[trigger] r@[9 * mm + b] == xor_cells(keys@, b, mm, 9),
        decreases 0x200 - m,
    {
        let mut b: u16 = 0;
        while b < 9
            invariant
                m < 0x200,
                b <= 9,
                keys@.len() == 81,
                r@.len() == 9 * m + b,
                forall|mm: u16, bb: int|
                    mm < m && 0 <= bb < 9 ==> #[trigger] r@[9 * mm + bb] == xor_cells(keys@, bb, mm, 9),
                forall|bb: int| 0 <= bb < b ==> #[trigger] r@[9 * m + bb] == xor_cells(keys@, bb, m, 9),
            decreases 9 - b,
        {
            let mut acc: u64 = 0;
            let mut s: u16 = 0;
            while s < 9
                invariant
                    b < 9,
                    s <= 9,
                    keys@.len() == 81,
                    acc == xor_cells(keys@, b as int, m, s as nat),
                decreases 9 - s,
            {
                if (m >> s) & 1 == 1 {
                    acc = acc ^ keys[(b * 9 + s) as usize];
                } else {
                    assert(acc ^ 0u64 == acc) by (bit_vector);
                }
                s = s + 1;
            }
            r.push(acc);
            proof {
                assert forall|mm: u16, bb: int|
                    mm < m && 0 <= bb < 9 implies #[trigger] r@[9 * mm + bb] == xor_cells(keys@, bb, mm, 9) by {
                    assert(9 * mm + bb < 9 * m);
                }
            }
            b = b + 1;
        }
        m = m + 1;
    }
    r
}

impl Zobrist {
    /// Cell keys of the side to move.
    pub open spec fn mover_keys(&self, st: State) -> Seq<u64> {
        if st.turn {
            self.o@
        } else {
            self.x@
        }
    }

    /// Cell keys of the side not to move.
    pub open spec fn other_keys(&self, st: State) -> Seq<u64> {
        if st.turn {
            self.x@
        } else {
            self.o@
        }
    }
}

/// The cells of a sub-board hash to the xor of the two sides' marks there.
proof fn lemma_cells_split(k: Zobrist, st: State, b: u16, n: nat)
    requires
        b < 9,
        n <= 9,
        st.small_win & st.small_lose == 0,
    ensures
        k.cells_hash(st, b as int, n) == xor_cells(
            k.mover_keys(st),
            b as int,
            small_bits(st.small_win, b),
            n,
        ) ^ xor_cells(k.other_keys(st), b as int, small_bits(st.small_lose, b), n),
    decreases n,
{
    if n == 0 {
        lemma_xor(0, 0, 0, 0);
    } else {
        lemma_cells_split(k, st, b, (n - 1) as nat);
        let i = 9 * b + n - 1;
        lemma_small_bits(st.small_win, b, n - 1);
        lemma_small_bits(st.small_lose, b, n - 1);
        lemma_bit128_ops(st.small_win, st.small_lose, i);
        let aw = xor_cells(k.mover_keys(st), b as int, small_bits(st.small_win, b), (n - 1) as nat);
        let al = xor_cells(k.other_keys(st), b as int, small_bits(st.small_lose, b), (n - 1) as nat);
        let x: u64 = if bit128(st.small_win, i) {
            k.mover_keys(st)[i]
        } else {
            0
        };
        let y: u64 = if bit128(st.small_lose, i) {
            k.other_keys(st)[i]
        } else {
            0
        };
        lemma_xor(aw, al, x, y);
        lemma_xor(x, 0, 0, 0);
        lemma_xor(y, 0, 0, 0);
        assert(k.cell_key(st, i) == x ^ y);
    }
}

/// Marking cell `c = 9 * b + s` changes only that cell's key, from nothing to
/// the mover's key; the other cells keep their keys though the sides swap.
proof fn lemma_cell_keys_next(k: Zobrist, st: State, b: u16, s: u16, i: int)
    requires
        b < 9,
        s < 9,
        st.small_win & st.small_lose == 0,
        !st.occupied(b as int, s as int),
        0 <= i < 128,
    ensures
        ({
            let n = st.spec_advanced(&k, b, s);
            &&& i != 9 * b + s ==> k.cell_key(n, i) == k.cell_key(st, i)
            &&& i == 9 * b + s ==> k.cell_key(n, i) == k.mover_keys(st)[i] && k.cell_key(st, i) == 0
        }),
{
    let c = (9 * b + s) as u128;
    lemma_bit128_ops(st.small_win, st.small_lose, i);
    lemma_bit128_ops(st.small_win, 1u128 << c, i);
    lemma_bit128_ops(0, c, i);
    lemma_bit128_ops(st.small_win, st.small_lose, c as int);
}

/// Cells hash after the move: unchanged outside sub-board `b`, one more key inside.
proof fn lemma_cells_next(k: Zobrist, st: State, b: u16, s: u16, bb: int, m: nat)
    requires
        b < 9,
        s < 9,
        0 <= bb < 9,
        m <= 9,
        st.small_win & st.small_lose == 0,
        !st.occupied(b as int, s as int),
    ensures
        ({
            let n = st.spec_advanced(&k, b, s);
            &&& bb != b ==> k.cells_hash(n, bb, m) == k.cells_hash(st, bb, m)
            &&& bb == b ==> k.cells_hash(n, bb, m) == k.cells_hash(st, bb, m) ^ if s < m {
                k.mover_keys(st)[9 * b + s]
            } else {
                0u64
            }
        }),
    decreases m,
{
    let n = st.spec_advanced(&k, b, s);
    if m == 0 {
        lemma_xor(0, 0, 0, 0);
    } else {
        lemma_cells_next(k, st, b, s, bb, (m - 1) as nat);
        let i = 9 * bb + m - 1;
        lemma_cell_keys_next(k, st, b, s, i);
        let prev = k.cells_hash(st, bb, (m - 1) as nat);
        let w = k.mover_keys(st)[9 * b + s];
        if bb == b {
            if s < m - 1 {
                lemma_xor(prev, w, k.cell_key(st, i), 0);
                lemma_xor(w, k.cell_key(st, i), 0, 0);
                lemma_xor(prev, k.cell_key(st, i), w, 0);
            } else if s == m - 1 {
                lemma_xor(prev, 0, 0, 0);
            } else {
                lemma_xor(prev, 0, 0, 0);
                lemma_xor(prev ^ k.cell_key(st, i), 0, 0, 0);
            }
        }
    }
}

/// The other sub-boards keep their keys across a legal move.
proof fn lemma_board_key_other(k: Zobrist, st: State, b: u16, s: u16, bb: int)
    requires
        st.small_win & st.small_lose == 0,
        st.big_win & st.big_lose == 0,
        st.legal(b as int, s as int),
        0 <= bb < 9,
        bb != b,
    ensures
        k.board_key(st.spec_advanced(&k, b, s), bb) == k.board_key(st, bb),
{
    let n = st.spec_advanced(&k, b, s);
    lemma_cells_next(k, st, b, s, bb, 9);
    lemma_bit16_ops(st.big_win, 1u16 << b, bb);
    lemma_bit16_ops(st.big_draw, 1u16 << b, bb);
    lemma_bit16_ops(0, b, bb);
    lemma_bit16_ops(st.big_win, st.big_lose, bb);
    lemma_bit16_ops(st.big_win, st.big_draw, bb);
    lemma_bit16_ops(st.big_lose, st.big_draw, bb);
    lemma_bit16_ops(0, 0, bb);
}

/// The key of sub-board `b` after a legal move there, against its key before.
proof fn lemma_board_key_moved(k: Zobrist, st: State, b: u16, s: u16)
    requires
        st.small_win & st.small_lose == 0,
        st.big_win & st.big_lose == 0,
        k.wf(),
        st.legal(b as int, s as int),
    ensures
        ({
            let n = st.spec_advanced(&k, b, s);
            let w = small_bits(st.small_win, b);
            let l = small_bits(st.small_lose, b);
            &&& k.board_key(st, b as int) == k.cells_hash(st, b as int, 9)
            &&& k.cells_hash(st, b as int, 9) == xor_cells(k.mover_keys(st), b as int, w, 9) ^ xor_cells(
                k.other_keys(st),
                b as int,
                l,
                9,
            )
            &&& line_complete(w | (1u16 << s)) ==> k.board_key(n, b as int) == if st.turn {
                k.big_o@[b as int]
            } else {
                k.big_x@[b as int]
            }
            &&& !line_complete(w | (1u16 << s)) && w | l | (1u16 << s) == 0x1ffu16 ==> k.board_key(
                n,
                b as int,
            ) == k.big_draw@[b as int]
            &&& !line_complete(w | (1u16 << s)) && w | l | (1u16 << s) != 0x1ffu16 ==> k.board_key(
                n,
                b as int,
            ) == k.cells_hash(st, b as int, 9) ^ k.mover_keys(st)[9 * b + s]
        }),
{
    let n = st.spec_advanced(&k, b, s);
    let w = small_bits(st.small_win, b);
    let l = small_bits(st.small_lose, b);
    let sl = st.small_win | (1u128 << (9 * b + s) as u128);
    lemma_cells_split(k, st, b, 9);
    lemma_cells_next(k, st, b, s, b as int, 9);
    lemma_small_bits_or(st.small_win, st.small_lose, b, s);
    lemma_small_bits_or(st.small_lose, sl, b, s);
    lemma_or16(l, w, 1u16 << s);
    assert(small_bits(sl, b) == w | (1u16 << s));
    assert(small_bits(st.small_lose | sl, b) == w | l | (1u16 << s));
    lemma_bit16_ops(st.big_win, 1u16 << b, b as int);
    lemma_bit16_ops(st.big_draw, 1u16 << b, b as int);
    lemma_bit16_ops(0, b, b as int);
    lemma_bit16_ops(st.big_win, st.big_lose, b as int);
    lemma_bit16_ops(st.big_win | st.big_lose, st.big_draw, b as int);
}

/// The board hash after the move differs only by the keys of sub-board `b`.
proof fn lemma_boards_next(k: Zobrist, st: State, b: u16, s: u16, m: nat)
    requires
        st.small_win & st.small_lose == 0,
        st.big_win & st.big_lose == 0,
        st.legal(b as int, s as int),
        m <= 9,
    ensures
        ({
            let n = st.spec_advanced(&k, b, s);
            k.boards_hash(n, m) == k.boards_hash(st, m) ^ if b < m {
                k.board_key(st, b as int) ^ k.board_key(n, b as int)
            } else {
                0u64
            }
        }),
    decreases m,
{
    let n = st.spec_advanced(&k, b, s);
    if m == 0 {
        lemma_xor(0, 0, 0, 0);
    } else {
        lemma_boards_next(k, st, b, s, (m - 1) as nat);
        let prev = k.boards_hash(st, (m - 1) as nat);
        let ks = k.board_key(st, b as int);
        let kn = k.board_key(n, b as int);
        if m - 1 != b {
            lemma_board_key_other(k, st, b, s, m - 1);
            let o = k.board_key(st, m - 1);
            if b < m - 1 {
                lemma_xor(prev, ks ^ kn, o, 0);
                lemma_xor(ks ^ kn, o, 0, 0);
                lemma_xor(prev, o, ks ^ kn, 0);
            } else {
                lemma_xor(prev, 0, 0, 0);
                lemma_xor(prev ^ o, 0, 0, 0);
            }
        } else {
            lemma_xor(prev, 0, 0, 0);
            lemma_xor(prev, ks, ks ^ kn, 0);
            lemma_xor(ks, ks, kn, 0);
            lemma_xor(kn, 0, 0, 0);
            lemma_xor(0, kn, 0, 0);
        }
    }
}

/// The incremental hash of `State::advanced` is the Zobrist hash of the new
/// position whenever the old hash was that of the old position, for a legal
/// move from a position where no cell and no sub-board belongs to both sides.
pub proof fn lemma_advanced_hash(k: Zobrist, st: State, b: u16, s: u16)
    requires
        st.small_win & st.small_lose == 0,
        st.big_win & st.big_lose == 0,
        k.wf(),
        st.legal(b as int, s as int),
        st.hash == k.hash_of(st),
    ensures
        st.spec_advanced(&k, b, s).hash == k.hash_of(st.spec_advanced(&k, b, s)),
{
    let n = st.spec_advanced(&k, b, s);
    let w = small_bits(st.small_win, b);
    let l = small_bits(st.small_lose, b);
    lemma_small_bits(st.small_win, b, 0);
    lemma_small_bits(st.small_lose, b, 0);
    lemma_boards_next(k, st, b, s, 9);
    lemma_board_key_moved(k, st, b, s);
    let ks = k.board_key(st, b as int);
    let kn = k.board_key(n, b as int);
    let cw = xor_cells(k.mover_keys(st), b as int, w, 9);
    let cl = xor_cells(k.other_keys(st), b as int, l, 9);
    assert(k.reset_o@[9 * w + b] == xor_cells(k.o@, b as int, w, 9));
    assert(k.reset_x@[9 * w + b] == xor_cells(k.x@, b as int, w, 9));
    assert(k.reset_o@[9 * l + b] == xor_cells(k.o@, b as int, l, 9));
    assert(k.reset_x@[9 * l + b] == xor_cells(k.x@, b as int, l, 9));
    lemma_xor(cw, cl, kn, 0);
    lemma_xor(ks, kn, 0, 0);
    lemma_xor(ks, k.mover_keys(st)[9 * b + s], ks, 0);
    lemma_xor(ks, ks, k.mover_keys(st)[9 * b + s], 0);
    lemma_xor(k.mover_keys(st)[9 * b + s], 0, 0, 0);
    lemma_xor(0, k.mover_keys(st)[9 * b + s], 0, 0);
}

/// The hash of a position does not read its `hash` field.
pub proof fn lemma_hash_of_ignores_hash(k: Zobrist, st: State, h: u64)
    ensures
        k.hash_of(State { hash: h, ..st }) == k.hash_of(st),
{
    lemma_boards_ignore_hash(k, st, h, 9);
}

proof fn lemma_boards_ignore_hash(k: Zobrist, st: State, h: u64, n: nat)
    ensures
        k.boards_hash(State { hash: h, ..st }, n) == k.boards_hash(st, n),
    decreases n,
{
    if n > 0 {
        lemma_boards_ignore_hash(k, st, h, (n - 1) as nat);
        lemma_cells_ignore_hash(k, st, h, n - 1, 9);
    }
}

proof fn lemma_cells_ignore_hash(k: Zobrist, st: State, h: u64, b: int, n: nat)
    ensures
        k.cells_hash(State { hash: h, ..st }, b, n) == k.cells_hash(st, b, n),
    decreases n,
{
    if n > 0 {
        lemma_cells_ignore_hash(k, st, h, b, (n - 1) as nat);
    }
}


proof fn lemma_cells_same(k: Zobrist, st1: State, st2: State, b: int, n: nat)
    requires
        st1.small_win == st2.small_win,
        st1.small_lose == st2.small_lose,
        st1.turn == st2.turn,
    ensures
        k.cells_hash(st1, b, n) == k.cells_hash(st2, b, n),
    decreases n,
{
    if n > 0 {
        lemma_cells_same(k, st1, st2, b, (n - 1) as nat);
    }
}

proof fn lemma_boards_same(k: Zobrist, st1: State, st2: State, n: nat)
    requires
        n <= 9,
        st1.small_win == st2.small_win,
        st1.small_lose == st2.small_lose,
        st1.turn == st2.turn,
        st1.big_win == st2.big_win,
        st1.big_lose == st2.big_lose,
        forall|b: int|
            0 <= b < 9 && !bit16(st1.big_win, b) && !bit16(st1.big_lose, b) ==> #[trigger] bit16(
                st1.big_draw,
                b,
            ) == bit16(st2.big_draw, b),
    ensures
        k.boards_hash(st1, n) == k.boards_hash(st2, n),
    decreases n,
{
    if n > 0 {
        lemma_boards_same(k, st1, st2, (n - 1) as nat);
        lemma_cells_same(k, st1, st2, n - 1, 9);
        if !bit16(st1.big_win, n - 1) && !bit16(st1.big_lose, n - 1) {
            assert(bit16(st1.big_draw, n - 1) == bit16(st2.big_draw, n - 1));
        }
    }
}

/// The hash of a position reads only its cells, the side to move, the
/// sub-boards each side owns, and the drawn marks of sub-boards neither side owns.
pub proof fn lemma_hash_of_reads(k: Zobrist, st1: State, st2: State)
    requires
        st1.small_win == st2.small_win,
        st1.small_lose == st2.small_lose,
        st1.turn == st2.turn,
        st1.big_win == st2.big_win,
        st1.big_lose == st2.big_lose,
        forall|b: int|
            0 <= b < 9 && !bit16(st1.big_win, b) && !bit16(st1.big_lose, b) ==> #[trigger] bit16(
                st1.big_draw,
                b,
            ) == bit16(st2.big_draw, b),
    ensures
        k.hash_of(st1) == k.hash_of(st2),
{
    lemma_boards_same(k, st1, st2, 9);
}

/// The hash of a position reads neither its `hash` field nor the sub-board
/// sent to.
pub proof fn lemma_hash_of_ignores_sent_to(k: Zobrist, st: State, h: u64, l: u16)
    ensures
        k.hash_of(State { hash: h, last_big: l, ..st }) == k.hash_of(st),
{
    lemma_hash_of_reads(k, State { hash: h, last_big: l, ..st }, st);
}

/// The same position seen from the other side: the cells and sub-boards of
/// the two sides trade places and the side to move flips.
pub open spec fn colours_swapped(st: State) -> State {
    State {
        small_win: st.small_lose,
        small_lose: st.small_win,
        big_win: st.big_lose,
        big_lose: st.big_win,
        turn: !st.turn,
        ..st
    }
}

proof fn lemma_cells_swapped(k: Zobrist, st: State, b: int, n: nat)
    requires
        0 <= b < 9,
        n <= 9,
        st.small_win & st.small_lose == 0,
    ensures
        k.cells_hash(colours_swapped(st), b, n) == k.cells_hash(st, b, n),
    decreases n,
{
    if n > 0 {
        lemma_cells_swapped(k, st, b, (n - 1) as nat);
        lemma_bit128_ops(st.small_win, st.small_lose, 9 * b + n - 1);
        lemma_bit128_ops(0, 0, 9 * b + n - 1);
    }
}

proof fn lemma_boards_swapped(k: Zobrist, st: State, n: nat)
    requires
        n <= 9,
        st.small_win & st.small_lose == 0,
        st.big_win & st.big_lose == 0,
    ensures
        k.boards_hash(colours_swapped(st), n) == k.boards_hash(st, n),
    decreases n,
{
    if n > 0 {
        lemma_boards_swapped(k, st, (n - 1) as nat);
        lemma_cells_swapped(k, st, n - 1, 9);
        lemma_bit16_ops(st.big_win, st.big_lose, n - 1);
        lemma_bit16_ops(0, 0, n - 1);
    }
}

/// The hash keys each mark by its colour, not by whether its side is to move:
/// seeing a position from the other side leaves its hash unchanged, when no
/// cell and no sub-board belongs to both sides.
pub proof fn lemma_hash_of_colours_swapped(k: Zobrist, st: State)
    requires
        st.small_win & st.small_lose == 0,
        st.big_win & st.big_lose == 0,
    ensures
        k.hash_of(colours_swapped(st)) == k.hash_of(st),
{
    lemma_boards_swapped(k, st, 9);
}

} // verus!
