//! Bit-level views of the integers that hold the boards.
use vstd::prelude::*;

verus! {

/// Bit `i` of a 16-bit word.
pub open spec fn bit16(x: u16, i: int) -> bool {
    (x >> (i as u16)) & 1u16 == 1u16
}

/// Bit `i` of a 128-bit word.
pub open spec fn bit128(x: u128, i: int) -> bool {
    (x >> (i as u128)) & 1u128 == 1u128
}

proof fn raw_bit16_ops(x: u16, y: u16, k: u16)
    by (bit_vector)
    requires
        k < 16,
    ensures
        ((x | y) >> k) & 1u16 == 1u16 <==> ((x >> k) & 1u16 == 1u16 || (y >> k) & 1u16 == 1u16),
        ((x & y) >> k) & 1u16 == 1u16 <==> ((x >> k) & 1u16 == 1u16 && (y >> k) & 1u16 == 1u16),
        ((x ^ y) >> k) & 1u16 == 1u16 <==> ((x >> k) & 1u16 == 1u16) != ((y >> k) & 1u16 == 1u16),
        ((!x) >> k) & 1u16 == 1u16 <==> !((x >> k) & 1u16 == 1u16),
        ((1u16 << y) >> k) & 1u16 == 1u16 <==> y == k,
        (0u16 >> k) & 1u16 != 1u16,
{
}

proof fn raw_bit128_ops(x: u128, y: u128, k: u128)
    by (bit_vector)
    requires
        k < 128,
    ensures
        ((x | y) >> k) & 1u128 == 1u128 <==> ((x >> k) & 1u128 == 1u128 || (y >> k) & 1u128 == 1u128),
        ((x & y) >> k) & 1u128 == 1u128 <==> ((x >> k) & 1u128 == 1u128 && (y >> k) & 1u128 == 1u128),
        ((x ^ y) >> k) & 1u128 == 1u128 <==> ((x >> k) & 1u128 == 1u128) != ((y >> k) & 1u128 == 1u128),
        ((!x) >> k) & 1u128 == 1u128 <==> !((x >> k) & 1u128 == 1u128),
        ((1u128 << y) >> k) & 1u128 == 1u128 <==> y == k,
        (0u128 >> k) & 1u128 != 1u128,
{
}

/// Boolean algebra on single bits of 16-bit words.
pub proof fn lemma_bit16_ops(x: u16, y: u16, i: int)
    requires
        0 <= i < 16,
    ensures
        bit16(x | y, i) == (bit16(x, i) || bit16(y, i)),
        bit16(x & y, i) == (bit16(x, i) && bit16(y, i)),
        bit16(x ^ y, i) == (bit16(x, i) != bit16(y, i)),
        bit16(!x, i) == !bit16(x, i),
        bit16(1u16 << y, i) == (y == i as u16),
        !bit16(0, i),
{
    raw_bit16_ops(x, y, i as u16);
}

/// Boolean algebra on single bits of 128-bit words.
pub proof fn lemma_bit128_ops(x: u128, y: u128, i: int)
    requires
        0 <= i < 128,
    ensures
        bit128(x | y, i) == (bit128(x, i) || bit128(y, i)),
        bit128(x & y, i) == (bit128(x, i) && bit128(y, i)),
        bit128(x ^ y, i) == (bit128(x, i) != bit128(y, i)),
        bit128(!x, i) == !bit128(x, i),
        bit128(1u128 << y, i) == (y == i as u128),
        !bit128(0, i),
{
    raw_bit128_ops(x, y, i as u128);
}

/// The nine bits of sub-board `b` inside a 81-cell word.
pub open spec fn small_bits(table: u128, b: u16) -> u16 {
    ((table >> (b * 9) as u128) & 0x1ffu128) as u16
}

proof fn raw_small_bits(table: u128, sh: u128, kk: u128, k16: u16, c: u128)
    by (bit_vector)
    requires
        sh < 126,
        kk < 16,
        kk == k16 as u128,
        c == sh + kk,
    ensures
        (((table >> sh) & 0x1ffu128) as u16) < 512u16,
        ((((table >> sh) & 0x1ffu128) as u16) >> k16) & 1u16 == 1u16 <==> (kk < 9 && (table >> c)
            & 1u128 == 1u128),
{
}

/// Bit `k` of a sub-board's nine bits is cell `9 * b + k` of the whole word.
pub proof fn lemma_small_bits(table: u128, b: u16, k: int)
    requires
        b < 14,
        0 <= k < 16,
    ensures
        (small_bits(table, b) as int) < 512,
        bit16(small_bits(table, b), k) == (k < 9 && bit128(table, 9 * b + k)),
{
    raw_small_bits(table, (b * 9) as u128, k as u128, k as u16, (9 * b + k) as u128);
}

} // verus!

verus! {

proof fn raw_small_bits_bound(table: u128, sh: u128)
    by (bit_vector)
    requires
        sh < 128,
    ensures
        (((table >> sh) & 0x1ffu128) as u16) < 512u16,
{
}

/// The nine bits taken out at any in-range sub-board index fit in nine bits.
pub proof fn lemma_small_bits_bound(table: u128, b: u16)
    requires
        b < 15,
    ensures
        (small_bits(table, b) as int) < 512,
{
    raw_small_bits_bound(table, (b * 9) as u128);
}

/// Sub-board bits of `m` spread over positions `0, 9, .., 72`.
pub open spec fn spread_bits(m: u16) -> u128 {
    ((((m as u128) & 0xffu128) * 0x101010101010101u128) as u128 | ((m as u128) << 64u128))
        & 0x1008040201008040201u128
}

/// The 81-cell mask that covers every sub-board whose bit is set in `m`.
pub open spec fn board_mask(m: u16) -> u128 {
    (spread_bits(m) * 0x1ffu128) as u128
}

proof fn raw_board_mask(m: u16, mm: u128, a: u128, sp: u128, mk: u128, b: u128, s: u128, bb: u16)
    by (bit_vector)
    requires
        mm == m as u128,
        a == ((mm & 0xffu128) * 0x101010101010101u128) as u128,
        sp == (a | (mm << 64u128)) & 0x1008040201008040201u128,
        mk == (sp * 0x1ffu128) as u128,
        b < 9,
        s < 9,
        bb == b as u16,
    ensures
        ((mk >> (9 * b + s)) & 1u128 == 1u128) <==> ((m >> bb) & 1u16 == 1u16),
        mk >> 81u128 == 0,
        mm & 0xffu128 <= 0xffu128,
        sp <= 0x1008040201008040201u128,
{
}

/// Cell `9 * b + s` of the mask is set exactly when bit `b` of `m` is; no
/// bit past the 81 cells is set.
pub proof fn lemma_board_mask(m: u16, b: int, s: int)
    requires
        0 <= b < 9,
        0 <= s < 9,
    ensures
        bit128(board_mask(m), 9 * b + s) == bit16(m, b),
        board_mask(m) >> 81u128 == 0,
        (m as u128) & 0xffu128 <= 0xffu128,
        spread_bits(m) <= 0x1008040201008040201u128,
{
    let mm: u128 = m as u128;
    let a: u128 = ((mm & 0xffu128) * 0x101010101010101u128) as u128;
    let sp: u128 = (a | (mm << 64u128)) & 0x1008040201008040201u128;
    let mk: u128 = (sp * 0x1ffu128) as u128;
    raw_board_mask(m, mm, a, sp, mk, b as u128, s as u128, b as u16);
}

proof fn raw_lowest16(x: u16, xm1: u16, t: u16, t1: u16)
    by (bit_vector)
    requires
        x != 0,
        xm1 == (x - 1) as u16,
        t < 15,
        t1 == t + 1,
        (x >> t) << t == x,
    ensures
        (x >> t) & 1u16 == 1u16 ==> (x & !xm1) == (1u16 << t) && ((x ^ (1u16 << t)) >> t1) << t1
            == (x ^ (1u16 << t)) && (x ^ (1u16 << t)) < x,
        (x >> t) & 1u16 != 1u16 ==> (x >> t1) << t1 == x,
{
}

/// Walking up from `t` over a word with no bit below `t`: either bit `t` is
/// the lowest bit (and `x & !(x - 1)` isolates it), or no bit is below `t + 1`.
pub proof fn lemma_lowest16(x: u16, t: u16)
    requires
        x != 0,
        t < 15,
        (x >> t) << t == x,
    ensures
        bit16(x, t as int) ==> (x & !((x - 1) as u16)) == (1u16 << t) && ((x ^ (1u16 << t)) >> (t
            + 1) as u16) << (t + 1) as u16 == (x ^ (1u16 << t)) && (x ^ (1u16 << t)) < x,
        !bit16(x, t as int) ==> (x >> (t + 1) as u16) << (t + 1) as u16 == x,
{
    raw_lowest16(x, (x - 1) as u16, t, (t + 1) as u16);
}

#[verifier::rlimit(40)]
proof fn raw_lowest128_isolate(x: u128, xm1: u128, t: u128)
    by (bit_vector)
    requires
        x != 0,
        xm1 == (x - 1) as u128,
        t < 127,
        (x >> t) << t == x,
        (x >> t) & 1u128 == 1u128,
    ensures
        (x & !xm1) == (1u128 << t),
{
}

#[verifier::rlimit(40)]
proof fn raw_lowest128_step(x: u128, t: u128, t1: u128)
    by (bit_vector)
    requires
        t < 127,
        t1 == t + 1,
        (x >> t) << t == x,
    ensures
        (x >> t) & 1u128 == 1u128 ==> ((x ^ (1u128 << t)) >> t1) << t1 == (x ^ (1u128 << t)),
        (x >> t) & 1u128 != 1u128 ==> (x >> t1) << t1 == x,
{
}

/// The 128-bit counterpart of `lemma_lowest16`.
pub proof fn lemma_lowest128(x: u128, t: u128)
    requires
        x != 0,
        t < 127,
        (x >> t) << t == x,
    ensures
        bit128(x, t as int) ==> (x & !((x - 1) as u128)) == (1u128 << t) && ((x ^ (1u128 << t))
            >> (t + 1) as u128) << (t + 1) as u128 == (x ^ (1u128 << t)),
        !bit128(x, t as int) ==> (x >> (t + 1) as u128) << (t + 1) as u128 == x,
{
    if bit128(x, t as int) {
        raw_lowest128_isolate(x, (x - 1) as u128, t);
    }
    raw_lowest128_step(x, t, (t + 1) as u128);
}

proof fn raw_small_word(r: u16, k: u16, p: u16, m: u16)
    by (bit_vector)
    requires
        r < 512,
        k < 16,
        p < 16,
        m == ((1u16 << p) - 1u16) as u16,
    ensures
        r == 0x1ffu16 <==> (((r >> 0u16) & 1u16 == 1u16) && ((r >> 1u16) & 1u16 == 1u16) && ((r >> 2u16)
            & 1u16 == 1u16) && ((r >> 3u16) & 1u16 == 1u16) && ((r >> 4u16) & 1u16 == 1u16) && ((r
            >> 5u16) & 1u16 == 1u16) && ((r >> 6u16) & 1u16 == 1u16) && ((r >> 7u16) & 1u16 == 1u16)
            && ((r >> 8u16) & 1u16 == 1u16)),
        r == 0x1ffu16 && k < 9 ==> (r >> k) & 1u16 == 1u16,
        k >= 9 ==> (r >> k) & 1u16 != 1u16,
        (m >> k) & 1u16 == 1u16 <==> k < p,
        (r >> 0u16) << 0u16 == r,
        (r >> 9u16) << 9u16 == r ==> r == 0,
        p < 9 ==> 1u16 <= (1u16 << p) <= 256u16,
{
}

/// Facts about nine-bit words: full means all nine bits set, nothing is set
/// past bit 8, and `(1 << p) - 1` holds exactly the bits below `p`.
pub proof fn lemma_nine_bits(r: u16, k: int, p: u16)
    requires
        r < 512,
        0 <= k < 16,
        p < 16,
    ensures
        r == 0x1ffu16 <==> (forall|j: int| 0 <= j < 9 ==> #[trigger] bit16(r, j)),
        k >= 9 ==> !bit16(r, k),
        bit16(((1u16 << p) - 1u16) as u16, k) == (k < p),
        (r >> 0u16) << 0u16 == r,
        (r >> 9u16) << 9u16 == r ==> r == 0,
        p < 9 ==> 1 <= (1u16 << p) <= 256,
{
    let m = ((1u16 << p) - 1u16) as u16;
    raw_small_word(r, k as u16, p, m);
    if r == 0x1ffu16 {
        assert forall|j: int| 0 <= j < 9 implies #[trigger] bit16(r, j) by {
            raw_small_word(r, j as u16, p, m);
        }
    }
    if forall|j: int| 0 <= j < 9 ==> #[trigger] bit16(r, j) {
        assert(bit16(r, 0) && bit16(r, 1) && bit16(r, 2) && bit16(r, 3) && bit16(r, 4) && bit16(r, 5)
            && bit16(r, 6) && bit16(r, 7) && bit16(r, 8));
    }
}

} // verus!

verus! {

proof fn raw_nine_or(x: u16, y: u16, b: u16)
    by (bit_vector)
    requires
        x < 512,
        y < 512,
        b < 9,
    ensures
        (x | (1u16 << b)) < 512,
        (x | y) < 512,
        x ^ 0x1ffu16 < 512,
{
}

/// Or-ing bits below 9 keeps a word below 512.
pub proof fn lemma_nine_or(x: u16, y: u16, b: u16)
    requires
        x < 512,
        y < 512,
        b < 9,
    ensures
        (x | (1u16 << b)) < 512,
        (x | y) < 512,
        x ^ 0x1ffu16 < 512,
{
    raw_nine_or(x, y, b);
}

proof fn raw_disjoint(a: u128, b: u128, c: u128, x: u16, y: u16, d: u16)
    by (bit_vector)
    requires
        c < 128,
        d < 16,
    ensures
        (a & b == 0 && (a >> c) & 1u128 != 1u128) ==> a & (b | (1u128 << c)) == 0 && (b | (1u128
            << c)) & a == 0,
        (x & y == 0 && (x >> d) & 1u16 != 1u16) ==> x & (y | (1u16 << d)) == 0 && (y | (1u16 << d))
            & x == 0,
        x & y == y & x,
        a & b == b & a,
{
}

/// Adding a bit that `a` lacks keeps `a` and `b` disjoint.
pub proof fn lemma_disjoint_add(a: u128, b: u128, c: u128, x: u16, y: u16, d: u16)
    requires
        c < 128,
        d < 16,
    ensures
        (a & b == 0 && !bit128(a, c as int)) ==> a & (b | (1u128 << c)) == 0 && (b | (1u128 << c))
            & a == 0,
        (x & y == 0 && !bit16(x, d as int)) ==> x & (y | (1u16 << d)) == 0 && (y | (1u16 << d)) & x
            == 0,
        x & y == y & x,
        a & b == b & a,
{
    raw_disjoint(a, b, c, x, y, d);
}

} // verus!

verus! {

/// Number of set bits of `x` among its `n` lowest bits.
pub open spec fn count_bits128(x: u128, n: nat) -> nat
    decreases n,
{
    if n == 0 {
        0
    } else {
        count_bits128(x, (n - 1) as nat) + if bit128(x, n - 1) { 1nat } else { 0nat }
    }
}

/// `u128::count_ones` of std: the number of ones in the binary representation.
#[verifier::external_body]
pub(crate) fn count_ones_u128(x: u128) -> (r: u32)
    ensures
        r as nat == count_bits128(x, 128),
{
    x.count_ones()
}

/// `u128::trailing_zeros` of std: the number of zeros below the lowest one
/// (128 for zero).
#[verifier::external_body]
pub(crate) fn trailing_zeros_u128(x: u128) -> (r: u32)
    ensures
        x == 0 ==> r == 128,
        x != 0 ==> r < 128 && bit128(x, r as int) && (x >> r as u128) << r as u128 == x,
{
    x.trailing_zeros()
}

} // verus!

verus! {

proof fn raw_cells128(x: u128, y: u128, t: u128, r: u128, p: u128, c: u128)
    by (bit_vector)
    requires
        t < 128,
        r < 128,
        p < 81,
        c < 128,
    ensures
        y >> 81u128 == 0 ==> (x & y) >> 81u128 == 0,
        (x ^ (1u128 << p)) >> 81u128 == x >> 81u128,
        ((x >> 81u128) << 81u128 == x && x >> 81u128 == 0) ==> x == 0,
        (x >> 81u128 == 0 && 81 <= c) ==> (x >> c) & 1u128 != 1u128,
        ((x >> t) << t == x && r < t) ==> (x >> r) & 1u128 != 1u128,
        (x >> 0u128) << 0u128 == x,
        (x | (1u128 << p)) >> 81u128 == x >> 81u128,
        0u128 >> 81u128 == 0,
{
}

/// Facts about words whose bits past the 81 cells are clear.
pub proof fn lemma_cells128(x: u128, y: u128, t: u128, r: u128, p: u128, c: int)
    requires
        t < 128,
        r < 128,
        p < 81,
        0 <= c < 128,
    ensures
        y >> 81u128 == 0 ==> (x & y) >> 81u128 == 0,
        (x ^ (1u128 << p)) >> 81u128 == x >> 81u128,
        ((x >> 81u128) << 81u128 == x && x >> 81u128 == 0) ==> x == 0,
        (x >> 81u128 == 0 && 81 <= c) ==> !bit128(x, c),
        ((x >> t) << t == x && r < t) ==> !bit128(x, r as int),
        (x >> 0u128) << 0u128 == x,
        (x | (1u128 << p)) >> 81u128 == x >> 81u128,
        0u128 >> 81u128 == 0,
{
    raw_cells128(x, y, t, r, p, c as u128);
}

} // verus!

verus! {

proof fn raw_xor(a: u64, b: u64, c: u64, d: u64)
    by (bit_vector)
    ensures
        (a ^ b) ^ c == a ^ (b ^ c),
        a ^ b == b ^ a,
        a ^ 0u64 == a,
        a ^ a == 0u64,
        (a ^ c) ^ (b ^ d) == (a ^ b) ^ (c ^ d),
{
}

/// Xor is associative and commutative, 0 is neutral, and each word undoes itself.
pub proof fn lemma_xor(a: u64, b: u64, c: u64, d: u64)
    ensures
        (a ^ b) ^ c == a ^ (b ^ c),
        a ^ b == b ^ a,
        a ^ 0u64 == a,
        a ^ a == 0u64,
        (a ^ c) ^ (b ^ d) == (a ^ b) ^ (c ^ d),
{
    raw_xor(a, b, c, d);
}

proof fn raw_small_bits_or(x: u128, y: u128, sh: u128, c: u128, s: u16)
    by (bit_vector)
    requires
        sh <= 72,
        s < 9,
        c == sh + s as u128,
    ensures
        (((x | (1u128 << c)) >> sh) & 0x1ffu128) as u16 == (((x >> sh) & 0x1ffu128) as u16) | (1u16
            << s),
        (((x | y) >> sh) & 0x1ffu128) as u16 == (((x >> sh) & 0x1ffu128) as u16) | (((y >> sh)
            & 0x1ffu128) as u16),
{
}

/// Sub-board bits of a union, and of a word with one more cell of the sub-board.
pub proof fn lemma_small_bits_or(x: u128, y: u128, b: u16, s: u16)
    requires
        b < 9,
        s < 9,
    ensures
        small_bits(x | (1u128 << (9 * b + s) as u128), b) == small_bits(x, b) | (1u16 << s),
        small_bits(x | y, b) == small_bits(x, b) | small_bits(y, b),
{
    raw_small_bits_or(x, y, (b * 9) as u128, (9 * b + s) as u128, s);
}

proof fn raw_or16(x: u16, y: u16, z: u16)
    by (bit_vector)
    ensures
        x | (y | z) == (y | x) | z,
        x | y == y | x,
{
}

/// Or on 16-bit words is associative and commutative.
pub proof fn lemma_or16(x: u16, y: u16, z: u16)
    ensures
        x | (y | z) == (y | x) | z,
        x | y == y | x,
{
    raw_or16(x, y, z);
}

} // verus!

verus! {

proof fn raw_shift_zero128(z: u128, k: u128, k1: u128)
    by (bit_vector)
    requires
        k < 127,
        k1 == k + 1,
    ensures
        (z >> k1 == 0u128 && (z >> k) & 1u128 != 1u128) ==> z >> k == 0u128,
        (z >> 127u128) & 1u128 != 1u128 ==> z >> 127u128 == 0u128,
        z >> 0u128 == z,
{
}

proof fn lemma_clear_from128(z: u128, k: int)
    requires
        0 <= k < 128,
        forall|i: int| k <= i < 128 ==> !#[trigger] bit128(z, i),
    ensures
        z >> (k as u128) == 0u128,
    decreases 128 - k,
{
    assert(!bit128(z, k));
    if k == 127 {
        raw_shift_zero128(z, 0, 1);
    } else {
        lemma_clear_from128(z, k + 1);
        raw_shift_zero128(z, k as u128, (k + 1) as u128);
    }
}

/// Two 128-bit words with the same bits are equal.
pub proof fn lemma_eq128(x: u128, y: u128)
    requires
        forall|i: int| 0 <= i < 128 ==> #[trigger] bit128(x, i) == bit128(y, i),
    ensures
        x == y,
{
    assert forall|i: int| 0 <= i < 128 implies !#[trigger] bit128(x ^ y, i) by {
        lemma_bit128_ops(x, y, i);
    }
    lemma_clear_from128(x ^ y, 0);
    raw_shift_zero128(x ^ y, 0, 1);
    raw_xor_zero128(x, y);
}

proof fn raw_xor_zero128(x: u128, y: u128)
    by (bit_vector)
    ensures
        x ^ y == 0u128 ==> x == y,
{
}

proof fn raw_shift_zero16(z: u16, k: u16, k1: u16)
    by (bit_vector)
    requires
        k < 15,
        k1 == k + 1,
    ensures
        (z >> k1 == 0u16 && (z >> k) & 1u16 != 1u16) ==> z >> k == 0u16,
        (z >> 15u16) & 1u16 != 1u16 ==> z >> 15u16 == 0u16,
        z >> 0u16 == z,
{
}

proof fn lemma_clear_from16(z: u16, k: int)
    requires
        0 <= k < 16,
        forall|i: int| k <= i < 16 ==> !#[trigger] bit16(z, i),
    ensures
        z >> (k as u16) == 0u16,
    decreases 16 - k,
{
    assert(!bit16(z, k));
    if k == 15 {
        raw_shift_zero16(z, 0, 1);
    } else {
        lemma_clear_from16(z, k + 1);
        raw_shift_zero16(z, k as u16, (k + 1) as u16);
    }
}

proof fn raw_xor_zero16(x: u16, y: u16)
    by (bit_vector)
    ensures
        x ^ y == 0u16 ==> x == y,
{
}

/// Two 16-bit words with the same bits are equal.
pub proof fn lemma_eq16(x: u16, y: u16)
    requires
        forall|i: int| 0 <= i < 16 ==> #[trigger] bit16(x, i) == bit16(y, i),
    ensures
        x == y,
{
    assert forall|i: int| 0 <= i < 16 implies !#[trigger] bit16(x ^ y, i) by {
        lemma_bit16_ops(x, y, i);
    }
    lemma_clear_from16(x ^ y, 0);
    raw_shift_zero16(x ^ y, 0, 1);
    raw_xor_zero16(x, y);
}

} // verus!

verus! {

proof fn raw_line_masks(w: u16)
    by (bit_vector)
    ensures
        (w & 0b000000111u16 == 0b000000111u16) == ((w >> 0u16) & 1u16 == 1u16 && (w >> 1u16) & 1u16 == 1u16
            && (w >> 2u16) & 1u16 == 1u16),
        (w & 0b000111000u16 == 0b000111000u16) == ((w >> 3u16) & 1u16 == 1u16 && (w >> 4u16) & 1u16 == 1u16
            && (w >> 5u16) & 1u16 == 1u16),
        (w & 0b111000000u16 == 0b111000000u16) == ((w >> 6u16) & 1u16 == 1u16 && (w >> 7u16) & 1u16 == 1u16
            && (w >> 8u16) & 1u16 == 1u16),
        (w & 0b001001001u16 == 0b001001001u16) == ((w >> 0u16) & 1u16 == 1u16 && (w >> 3u16) & 1u16 == 1u16
            && (w >> 6u16) & 1u16 == 1u16),
        (w & 0b010010010u16 == 0b010010010u16) == ((w >> 1u16) & 1u16 == 1u16 && (w >> 4u16) & 1u16 == 1u16
            && (w >> 7u16) & 1u16 == 1u16),
        (w & 0b100100100u16 == 0b100100100u16) == ((w >> 2u16) & 1u16 == 1u16 && (w >> 5u16) & 1u16 == 1u16
            && (w >> 8u16) & 1u16 == 1u16),
        (w & 0b100010001u16 == 0b100010001u16) == ((w >> 0u16) & 1u16 == 1u16 && (w >> 4u16) & 1u16 == 1u16
            && (w >> 8u16) & 1u16 == 1u16),
        (w & 0b001010100u16 == 0b001010100u16) == ((w >> 2u16) & 1u16 == 1u16 && (w >> 4u16) & 1u16 == 1u16
            && (w >> 6u16) & 1u16 == 1u16),
{
}

/// Each line mask of a 3x3 board is complete exactly when its three bits are set.
pub proof fn lemma_line_masks(w: u16)
    ensures
        (w & 0b000000111u16 == 0b000000111u16) == (bit16(w, 0) && bit16(w, 1) && bit16(w, 2)),
        (w & 0b000111000u16 == 0b000111000u16) == (bit16(w, 3) && bit16(w, 4) && bit16(w, 5)),
        (w & 0b111000000u16 == 0b111000000u16) == (bit16(w, 6) && bit16(w, 7) && bit16(w, 8)),
        (w & 0b001001001u16 == 0b001001001u16) == (bit16(w, 0) && bit16(w, 3) && bit16(w, 6)),
        (w & 0b010010010u16 == 0b010010010u16) == (bit16(w, 1) && bit16(w, 4) && bit16(w, 7)),
        (w & 0b100100100u16 == 0b100100100u16) == (bit16(w, 2) && bit16(w, 5) && bit16(w, 8)),
        (w & 0b100010001u16 == 0b100010001u16) == (bit16(w, 0) && bit16(w, 4) && bit16(w, 8)),
        (w & 0b001010100u16 == 0b001010100u16) == (bit16(w, 2) && bit16(w, 4) && bit16(w, 6)),
{
    raw_line_masks(w);
}


proof fn raw_zero_small(sh: u128)
    by (bit_vector)
    ensures
        ((0u128 >> sh) & 0x1ffu128) as u16 == 0u16,
{
}

/// The empty word has no mark in any sub-board.
pub proof fn lemma_small_bits_zero(b: u16)
    ensures
        small_bits(0u128, b) == 0u16,
{
    raw_zero_small((b * 9) as u128);
}

/// Marking a cell of sub-board `b` leaves the nine bits of every other sub-board alone.
pub proof fn lemma_small_bits_other(x: u128, b: u16, s: u16, bb: u16)
    requires
        b < 9,
        s < 9,
        bb < 9,
        bb != b,
    ensures
        small_bits(x | (1u128 << (9 * b + s) as u128), bb) == small_bits(x, bb),
{
    let c = (9 * b + s) as u128;
    let y = x | (1u128 << c);
    assert forall|j: int| 0 <= j < 16 implies #[trigger] bit16(small_bits(y, bb), j) == bit16(
        small_bits(x, bb),
        j,
    ) by {
        lemma_small_bits(y, bb, j);
        lemma_small_bits(x, bb, j);
        if j < 9 {
            lemma_bit128_ops(x, 1u128 << c, 9 * bb + j);
            lemma_bit128_ops(x, c, 9 * bb + j);
        }
    }
    lemma_eq16(small_bits(y, bb), small_bits(x, bb));
}

} // verus!
