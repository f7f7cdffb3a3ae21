//! The binary dataset of evaluated positions read and written by the bench
//! tools. A record is, big-endian: depth (u8), visit count / 10000 (u8), the
//! bits of the value (u32), the side to move's cells (u128), the other side's
//! cells (u128), the sub-board sent to (u8), the number of moves (u8), then
//! per move its cell (u8), its visit count (u32) and the bits of its value (u32).
use vstd::prelude::*;
use bytes::{Buf, BufMut};
use crate::ai::{State, line_complete, is_win, get_small};
use crate::bits::{small_bits, bit16, lemma_bit16_ops};

verus! {

/// A move with its search statistics; `value_bits` holds the bits of a float.
#[derive(Copy, Clone, Debug, PartialEq, Eq, Structural)]
pub struct EvaluatedAction {
    pub index: u16,
    pub visit_count: usize,
    pub value_bits: u32,
}

/// A position with its search statistics; `value_bits` holds the bits of a
/// float, as stored.
pub struct Datapoint {
    pub depth: usize,
    pub state: State,
    pub visit_count: usize,
    pub value_bits: u32,
    pub evaluated_actions: Vec<EvaluatedAction>,
}

impl View for Datapoint {
    type V = (usize, State, usize, u32, Seq<EvaluatedAction>);

    open spec fn view(&self) -> Self::V {
        (self.depth, self.state, self.visit_count, self.value_bits, self.evaluated_actions@)
    }
}

/// `256` to the power `n`.
pub open spec fn byte_power(n: nat) -> nat
    decreases n,
{
    if n == 0 {
        1
    } else {
        256 * byte_power((n - 1) as nat)
    }
}

/// The number that `bytes` spell, most significant byte first.
pub open spec fn be_value(bytes: Seq<u8>) -> nat
    decreases bytes.len(),
{
    if bytes.len() == 0 {
        0
    } else {
        be_value(bytes.drop_last()) * 256 + bytes.last() as nat
    }
}

/// The `n` low bytes of `v`, most significant first.
pub open spec fn be_bytes(v: nat, n: nat) -> Seq<u8>
    decreases n,
{
    if n == 0 {
        seq![]
    } else {
        be_bytes(v / 256, (n - 1) as nat).push((v % 256) as u8)
    }
}

/// `Buf::get_u8` of `bytes`, on the bytes from `pos` on: the byte at `pos`.
#[verifier::external_body]
fn read_u8(buf: &[u8], pos: usize) -> (r: u8)
    requires
        pos < buf@.len(),
    ensures
        r == buf@[pos as int],
{
    let mut rest = &buf[pos..];
    rest.get_u8()
}

/// `Buf::get_u32` of `bytes`, on the bytes from `pos` on: the big-endian
/// number in the four bytes at `pos`.
#[verifier::external_body]
fn read_u32(buf: &[u8], pos: usize) -> (r: u32)
    requires
        pos + 4 <= buf@.len(),
    ensures
        r as nat == be_value(buf@.subrange(pos as int, pos + 4)),
{
    let mut rest = &buf[pos..];
    rest.get_u32()
}

/// `Buf::get_u128` of `bytes`, on the bytes from `pos` on: the big-endian
/// number in the sixteen bytes at `pos`.
#[verifier::external_body]
fn read_u128(buf: &[u8], pos: usize) -> (r: u128)
    requires
        pos + 16 <= buf@.len(),
    ensures
        r as nat == be_value(buf@.subrange(pos as int, pos + 16)),
{
    let mut rest = &buf[pos..];
    rest.get_u128()
}

/// `BufMut::put_u8` of `bytes` on a `Vec<u8>`: appends the byte.
#[verifier::external_body]
fn write_u8(buf: &mut Vec<u8>, v: u8)
    requires
        old(buf)@.len() + 1 <= isize::MAX,
    ensures
        final(buf)@ == old(buf)@.push(v),
{
    buf.put_u8(v)
}

/// `BufMut::put_u32` of `bytes` on a `Vec<u8>`: appends the four bytes of
/// `v`, most significant first.
#[verifier::external_body]
fn write_u32(buf: &mut Vec<u8>, v: u32)
    requires
        old(buf)@.len() + 4 <= isize::MAX,
    ensures
        final(buf)@ == old(buf)@ + be_bytes(v as nat, 4),
{
    buf.put_u32(v)
}

/// `BufMut::put_u128` of `bytes` on a `Vec<u8>`: appends the sixteen bytes
/// of `v`, most significant first.
#[verifier::external_body]
fn write_u128(buf: &mut Vec<u8>, v: u128)
    requires
        old(buf)@.len() + 16 <= isize::MAX,
    ensures
        final(buf)@ == old(buf)@ + be_bytes(v as nat, 16),
{
    buf.put_u128(v)
}

/// The sub-boards won, lost and drawn among the first `n`, judged from the
/// cells: won if the side to move has a line there, else lost if the other
/// side has one, else drawn if full.
pub open spec fn derived_bigs(sw: u128, sl: u128, n: nat) -> (u16, u16, u16)
    decreases n,
{
    if n == 0 {
        (0u16, 0u16, 0u16)
    } else {
        let (w, l, d) = derived_bigs(sw, sl, (n - 1) as nat);
        let i = (n - 1) as u16;
        if line_complete(small_bits(sw, i)) {
            (w | (1u16 << i), l, d)
        } else if line_complete(small_bits(sl, i)) {
            (w, l | (1u16 << i), d)
        } else if small_bits(sw | sl, i) == 0x1ffu16 {
            (w, l, d | (1u16 << i))
        } else {
            (w, l, d)
        }
    }
}

/// The move record at `p`.
pub open spec fn spec_action_record(bytes: Seq<u8>, p: int) -> EvaluatedAction {
    EvaluatedAction {
        index: bytes[p] as u16,
        visit_count: be_value(bytes.subrange(p + 1, p + 5)) as usize,
        value_bits: be_value(bytes.subrange(p + 5, p + 9)) as u32,
    }
}

/// The position record at `pos`.
pub open spec fn spec_record(bytes: Seq<u8>, pos: int) -> (usize, State, usize, u32, Seq<EvaluatedAction>) {
    let depth = bytes[pos] as usize;
    let sw = be_value(bytes.subrange(pos + 6, pos + 22)) as u128;
    let sl = be_value(bytes.subrange(pos + 22, pos + 38)) as u128;
    let bigs = derived_bigs(sw, sl, 9);
    let st = State {
        small_win: sw,
        small_lose: sl,
        big_win: bigs.0,
        big_lose: bigs.1,
        big_draw: bigs.2,
        last_big: bytes[pos + 38] as u16,
        hash: 0,
        turn: depth % 2 == 1,
    };
    (
        depth,
        st,
        (bytes[pos + 1] * 10000) as usize,
        be_value(bytes.subrange(pos + 2, pos + 6)) as u32,
        Seq::new(bytes[pos + 39] as nat, |j: int| spec_action_record(bytes, pos + 40 + 9 * j)),
    )
}

/// The records from `pos` to the end, or `None` if the last one is cut short.
pub open spec fn spec_decode(bytes: Seq<u8>, pos: int) -> Option<Seq<(usize, State, usize, u32, Seq<EvaluatedAction>)>>
    decreases bytes.len() - pos,
{
    if pos < 0 || pos >= bytes.len() {
        Some(seq![])
    } else if pos + 40 > bytes.len() || pos + 40 + 9 * bytes[pos + 39] > bytes.len() {
        None
    } else {
        match spec_decode(bytes, pos + 40 + 9 * bytes[pos + 39]) {
            Some(rest) => Some(seq![spec_record(bytes, pos)] + rest),
            None => None,
        }
    }
}

/// The views of the datapoints.
pub open spec fn views(ds: Seq<Datapoint>) -> Seq<(usize, State, usize, u32, Seq<EvaluatedAction>)> {
    ds.map_values(|d: Datapoint| d@)
}

/// Reads every record of `buf`; `None` when the last record is cut short.
/// The sub-boards of each position are judged from its cells (see
/// `derived_bigs`), its hash is 0 and its `turn` tells whether the depth is odd.
pub fn decode_dataset(buf: &[u8]) -> (r: Option<Vec<Datapoint>>)
    ensures
        match r {
            Some(v) => spec_decode(buf@, 0) == Some(views(v@)),
            None => spec_decode(buf@, 0).is_none(),
        },
{
    let mut dataset: Vec<Datapoint> = Vec::new();
    let mut pos: usize = 0;
    while pos < buf.len()
        invariant
            pos <= buf@.len(),
            spec_decode(buf@, 0) == match spec_decode(buf@, pos as int) {
                Some(rest) => Some(views(dataset@) + rest),
                None => None,
            },
        decreases buf@.len() - pos,
    {
        if buf.len() - pos < 40 {
            return None;
        }
        let depth = read_u8(buf, pos) as usize;
        let visit_count = read_u8(buf, pos + 1) as usize * 10000;
        let value_bits = read_u32(buf, pos + 2);
        let small_win = read_u128(buf, pos + 6);
        let small_lose = read_u128(buf, pos + 22);
        let last_big = read_u8(buf, pos + 38) as u16;
        let len = read_u8(buf, pos + 39) as usize;
        if buf.len() - pos - 40 < 9 * len {
            return None;
        }
        let mut state = State {
            small_win,
            small_lose,
            big_win: 0,
            big_lose: 0,
            big_draw: 0,
            last_big,
            hash: 0,
            turn: depth % 2 == 1,
        };
        let mut i: u16 = 0;
        while i < 9
            invariant
                i <= 9,
                state.small_win == small_win,
                state.small_lose == small_lose,
                state.last_big == last_big,
                state.hash == 0,
                state.turn == (depth % 2 == 1),
                (state.big_win, state.big_lose, state.big_draw) == derived_bigs(small_win, small_lose, i as nat),
            decreases 9 - i,
        {
            if is_win(get_small(state.small_win, i)) {
                state.big_win |= 1 << i;
            } else if is_win(get_small(state.small_lose, i)) {
                state.big_lose |= 1 << i;
            } else if get_small(state.small_win | state.small_lose, i) == 0x1ff {
                state.big_draw |= 1 << i;
            }
            i = i + 1;
        }
        let mut evaluated_actions: Vec<EvaluatedAction> = Vec::with_capacity(len);
        let mut j: usize = 0;
        while j < len
            invariant
                j <= len,
                pos + 40 + 9 * len <= buf.len(),
                evaluated_actions@ == Seq::new(j as nat, |k: int| spec_action_record(buf@, pos + 40 + 9 * k)),
            decreases len - j,
        {
            let p = pos + 40 + 9 * j;
            evaluated_actions.push(
                EvaluatedAction {
                    index: read_u8(buf, p) as u16,
                    visit_count: read_u32(buf, p + 1) as usize,
                    value_bits: read_u32(buf, p + 5),
                },
            );
            proof {
                assert(evaluated_actions@ =~= Seq::new((j + 1) as nat, |k: int| spec_action_record(buf@, pos + 40 + 9 * k)));
            }
            j = j + 1;
        }
        let ghost before = dataset@;
        let d = Datapoint { depth, state, visit_count, value_bits, evaluated_actions };
        proof {
            assert(d@ == spec_record(buf@, pos as int));
        }
        dataset.push(d);
        proof {
            assert(views(dataset@) =~= views(before).push(d@));
            let next = pos + 40 + 9 * len;
            match spec_decode(buf@, next as int) {
                Some(rest) => {
                    assert(views(dataset@) + rest =~= views(before) + (seq![d@] + rest));
                },
                None => {},
            }
        }
        pos = pos + 40 + 9 * len;
    }
    proof {
        assert(views(dataset@) + seq![] =~= views(dataset@));
    }
    Some(dataset)
}

/// The bytes of a move record; the visit count keeps its 32 low bits.
pub open spec fn spec_encode_action(a: EvaluatedAction) -> Seq<u8> {
    seq![a.index as u8] + be_bytes((a.visit_count as u32) as nat, 4) + be_bytes(a.value_bits as nat, 4)
}

/// The bytes of a list of move records.
pub open spec fn spec_encode_actions(acts: Seq<EvaluatedAction>) -> Seq<u8>
    decreases acts.len(),
{
    if acts.len() == 0 {
        seq![]
    } else {
        spec_encode_actions(acts.drop_last()) + spec_encode_action(acts.last())
    }
}

/// The bytes of a position record. Depth, visit count / 10000, sub-board
/// sent to and number of moves keep their low byte.
pub open spec fn spec_encode_record(d: (usize, State, usize, u32, Seq<EvaluatedAction>)) -> Seq<u8> {
    seq![d.0 as u8, (d.2 / 10000) as u8] + be_bytes(d.3 as nat, 4) + be_bytes(d.1.small_win as nat, 16)
        + be_bytes(d.1.small_lose as nat, 16) + seq![d.1.last_big as u8, d.4.len() as u8]
        + spec_encode_actions(d.4)
}

/// The bytes of a list of position records.
pub open spec fn spec_encode(ds: Seq<(usize, State, usize, u32, Seq<EvaluatedAction>)>) -> Seq<u8>
    decreases ds.len(),
{
    if ds.len() == 0 {
        seq![]
    } else {
        spec_encode(ds.drop_last()) + spec_encode_record(ds.last())
    }
}

/// `be_bytes(v, n)` has `n` bytes.
proof fn lemma_be_bytes_len(v: nat, n: nat)
    ensures
        be_bytes(v, n).len() == n,
    decreases n,
{
    if n > 0 {
        lemma_be_bytes_len(v / 256, (n - 1) as nat);
    }
}

/// A move record has nine bytes.
proof fn lemma_encode_actions_len(acts: Seq<EvaluatedAction>)
    ensures
        spec_encode_actions(acts).len() == 9 * acts.len(),
    decreases acts.len(),
{
    if acts.len() > 0 {
        lemma_encode_actions_len(acts.drop_last());
        let a = acts.last();
        lemma_be_bytes_len((a.visit_count as u32) as nat, 4);
        lemma_be_bytes_len(a.value_bits as nat, 4);
    }
}

/// The bytes of a prefix of the records are a prefix of the bytes of all.
proof fn lemma_encode_prefix_len(ds: Seq<(usize, State, usize, u32, Seq<EvaluatedAction>)>, i: int)
    requires
        0 <= i <= ds.len(),
    ensures
        spec_encode(ds.take(i)).len() <= spec_encode(ds).len(),
    decreases ds.len() - i,
{
    if i < ds.len() {
        lemma_encode_prefix_len(ds, i + 1);
        assert(ds.take(i + 1).drop_last() =~= ds.take(i));
    } else {
        assert(ds.take(i) =~= ds);
    }
}

/// Writes the records of `dataset` (see `spec_encode_record`).
pub fn encode_dataset(dataset: &Vec<Datapoint>) -> (r: Vec<u8>)
    requires
        spec_encode(views(dataset@)).len() <= isize::MAX,
    ensures
        r@ == spec_encode(views(dataset@)),
{
    let mut buf: Vec<u8> = Vec::new();
    let ghost all = views(dataset@);
    let mut i: usize = 0;
    proof {
        assert(all.take(0) =~= Seq::<(usize, State, usize, u32, Seq<EvaluatedAction>)>::empty());
    }
    while i < dataset.len()
        invariant
            i <= dataset@.len(),
            all == views(dataset@),
            spec_encode(all).len() <= isize::MAX,
            buf@ == spec_encode(all.take(i as int)),
        decreases dataset@.len() - i,
    {
        let d = &dataset[i];
        proof {
            lemma_encode_prefix_len(all, i + 1);
            assert(all.take(i + 1).drop_last() =~= all.take(i as int));
            assert(all.take(i + 1).last() == d@);
        }
        let ghost start = buf@;
        proof {
            lemma_be_bytes_len(d.value_bits as nat, 4);
            lemma_be_bytes_len(d.state.small_win as nat, 16);
            lemma_be_bytes_len(d.state.small_lose as nat, 16);
            lemma_encode_actions_len(d.evaluated_actions@);
        }
        write_u8(&mut buf, d.depth as u8);
        write_u8(&mut buf, (d.visit_count / 10000) as u8);
        write_u32(&mut buf, d.value_bits);
        write_u128(&mut buf, d.state.small_win);
        write_u128(&mut buf, d.state.small_lose);
        write_u8(&mut buf, d.state.last_big as u8);
        write_u8(&mut buf, d.evaluated_actions.len() as u8);
        let ghost head = buf@;
        proof {
            assert(head =~= start + (seq![d.depth as u8, (d.visit_count / 10000) as u8] + be_bytes(
                d.value_bits as nat,
                4,
            ) + be_bytes(d.state.small_win as nat, 16) + be_bytes(d.state.small_lose as nat, 16) + seq![
                d.state.last_big as u8,
                d.evaluated_actions@.len() as u8,
            ]));
        }
        let mut j: usize = 0;
        while j < d.evaluated_actions.len()
            invariant
                j <= d.evaluated_actions@.len(),
                buf@ == head + spec_encode_actions(d.evaluated_actions@.take(j as int)),
                head + spec_encode_actions(d.evaluated_actions@) == spec_encode(all.take(i + 1)),
                spec_encode(all.take(i + 1)).len() <= isize::MAX,
            decreases d.evaluated_actions@.len() - j,
        {
            let a = d.evaluated_actions[j];
            proof {
                let acts = d.evaluated_actions@;
                assert(acts.take(j + 1).drop_last() =~= acts.take(j as int));
                lemma_actions_prefix_len(acts, j + 1);
                lemma_be_bytes_len((a.visit_count as u32) as nat, 4);
                lemma_be_bytes_len(a.value_bits as nat, 4);
            }
            write_u8(&mut buf, a.index as u8);
            write_u32(&mut buf, a.visit_count as u32);
            write_u32(&mut buf, a.value_bits);
            proof {
                let acts = d.evaluated_actions@;
                assert(buf@ =~= head + spec_encode_actions(acts.take(j + 1)));
            }
            j = j + 1;
        }
        proof {
            assert(d.evaluated_actions@.take(d.evaluated_actions@.len() as int) =~= d.evaluated_actions@);
        }
        i = i + 1;
    }
    proof {
        assert(all.take(dataset@.len() as int) =~= all);
    }
    buf
}

/// The bytes of a prefix of the move records are no longer than those of all.
proof fn lemma_actions_prefix_len(acts: Seq<EvaluatedAction>, j: int)
    requires
        0 <= j <= acts.len(),
    ensures
        spec_encode_actions(acts.take(j)).len() <= spec_encode_actions(acts).len(),
    decreases acts.len() - j,
{
    if j < acts.len() {
        lemma_actions_prefix_len(acts, j + 1);
        assert(acts.take(j + 1).drop_last() =~= acts.take(j));
    } else {
        assert(acts.take(j) =~= acts);
    }
}

/// The fields of a record fit the bytes they are written to: depth, visit
/// count / 10000, sub-board sent to and number of moves fit a byte, the visit
/// count is a multiple of 10000, and each move's cell fits a byte and its
/// visit count 32 bits.
pub open spec fn fits(d: (usize, State, usize, u32, Seq<EvaluatedAction>)) -> bool {
    &&& d.0 < 256
    &&& d.2 % 10000 == 0
    &&& d.2 / 10000 < 256
    &&& d.1.last_big < 256
    &&& d.4.len() < 256
    &&& forall|j: int| 0 <= j < d.4.len() ==> (#[trigger] d.4[j]).index < 256 && d.4[j].visit_count < 0x1_0000_0000
}

/// The record that reading gives back for `d`: the same fields, with the
/// sub-boards judged from the cells (see `derived_bigs`), hash 0, and `turn`
/// telling whether the depth is odd.
pub open spec fn as_read(d: (usize, State, usize, u32, Seq<EvaluatedAction>)) -> (
    usize,
    State,
    usize,
    u32,
    Seq<EvaluatedAction>,
) {
    let bigs = derived_bigs(d.1.small_win, d.1.small_lose, 9);
    (
        d.0,
        State {
            big_win: bigs.0,
            big_lose: bigs.1,
            big_draw: bigs.2,
            hash: 0,
            turn: d.0 % 2 == 1,
            ..d.1
        },
        d.2,
        d.3,
        d.4,
    )
}

proof fn lemma_byte_powers()
    ensures
        byte_power(4) == 0x1_0000_0000,
        byte_power(16) == 0x1_0000_0000_0000_0000_0000_0000_0000_0000,
{
    assert(byte_power(0) == 1);
    assert(byte_power(1) == 0x100);
    assert(byte_power(2) == 0x1_0000);
    assert(byte_power(3) == 0x100_0000);
    assert(byte_power(4) == 0x1_0000_0000);
    assert(byte_power(5) == 0x100_0000_0000);
    assert(byte_power(6) == 0x1_0000_0000_0000);
    assert(byte_power(7) == 0x100_0000_0000_0000);
    assert(byte_power(8) == 0x1_0000_0000_0000_0000);
    assert(byte_power(9) == 0x100_0000_0000_0000_0000);
    assert(byte_power(10) == 0x1_0000_0000_0000_0000_0000);
    assert(byte_power(11) == 0x100_0000_0000_0000_0000_0000);
    assert(byte_power(12) == 0x1_0000_0000_0000_0000_0000_0000);
    assert(byte_power(13) == 0x100_0000_0000_0000_0000_0000_0000);
    assert(byte_power(14) == 0x1_0000_0000_0000_0000_0000_0000_0000);
    assert(byte_power(15) == 0x100_0000_0000_0000_0000_0000_0000_0000);
    assert(byte_power(16) == 0x1_0000_0000_0000_0000_0000_0000_0000_0000);
}

/// Reading back the `n` bytes of `v < 256^n` gives `v`.
proof fn lemma_be_round_trip(v: nat, n: nat)
    requires
        v < byte_power(n),
    ensures
        be_value(be_bytes(v, n)) == v,
    decreases n,
{
    if n > 0 {
        let p = byte_power((n - 1) as nat);
        assert(v / 256 < p) by (nonlinear_arith)
            requires
                v < 256 * p,
        ;
        lemma_be_round_trip(v / 256, (n - 1) as nat);
        let bb = be_bytes(v, n);
        assert(bb.drop_last() =~= be_bytes(v / 256, (n - 1) as nat));
        assert(v == (v / 256) * 256 + v % 256) by (nonlinear_arith);
    }
}

/// The bytes of the records are those of the first followed by those of the rest.
proof fn lemma_encode_front(ds: Seq<(usize, State, usize, u32, Seq<EvaluatedAction>)>)
    requires
        ds.len() > 0,
    ensures
        spec_encode(ds) == spec_encode_record(ds[0]) + spec_encode(ds.drop_first()),
    decreases ds.len(),
{
    if ds.len() == 1 {
        assert(ds.drop_last() =~= Seq::<(usize, State, usize, u32, Seq<EvaluatedAction>)>::empty());
        assert(ds.drop_first() =~= Seq::<(usize, State, usize, u32, Seq<EvaluatedAction>)>::empty());
        assert(spec_encode(ds) =~= spec_encode_record(ds[0]) + spec_encode(ds.drop_first()));
    } else {
        lemma_encode_front(ds.drop_last());
        assert(ds.drop_last().drop_first() =~= ds.drop_first().drop_last());
        assert(ds.drop_first().last() == ds.last());
        assert(spec_encode(ds) =~= spec_encode_record(ds[0]) + spec_encode(ds.drop_first()));
    }
}

/// Move record `j` sits at bytes `9 * j .. 9 * j + 9`.
proof fn lemma_actions_layout(acts: Seq<EvaluatedAction>, j: int)
    requires
        0 <= j < acts.len(),
    ensures
        spec_encode_actions(acts).subrange(9 * j, 9 * j + 9) == spec_encode_action(acts[j]),
    decreases acts.len(),
{
    lemma_encode_actions_len(acts.drop_last());
    let a = acts.last();
    lemma_be_bytes_len((a.visit_count as u32) as nat, 4);
    lemma_be_bytes_len(a.value_bits as nat, 4);
    if j == acts.len() - 1 {
        assert(spec_encode_actions(acts).subrange(9 * j, 9 * j + 9) =~= spec_encode_action(acts[j]));
    } else {
        lemma_actions_layout(acts.drop_last(), j);
        assert(spec_encode_actions(acts).subrange(9 * j, 9 * j + 9) =~= spec_encode_actions(
            acts.drop_last(),
        ).subrange(9 * j, 9 * j + 9));
    }
}

/// Reading inside `a + b` past `a` is reading `b`.
proof fn lemma_decode_shift(a: Seq<u8>, b: Seq<u8>, p: int)
    requires
        0 <= p,
    ensures
        spec_decode(a + b, a.len() + p) == spec_decode(b, p),
    decreases b.len() - p,
{
    let ab = a + b;
    let q = a.len() + p;
    if p < b.len() && p + 40 <= b.len() && p + 40 + 9 * b[p + 39] <= b.len() {
        assert(ab[q + 39] == b[p + 39]);
        lemma_decode_shift(a, b, p + 40 + 9 * b[p + 39]);
        assert(ab.subrange(q + 2, q + 6) =~= b.subrange(p + 2, p + 6));
        assert(ab.subrange(q + 6, q + 22) =~= b.subrange(p + 6, p + 22));
        assert(ab.subrange(q + 22, q + 38) =~= b.subrange(p + 22, p + 38));
        assert forall|j: int| 0 <= j < b[p + 39] implies #[trigger] spec_record(ab, q).4[j]
            == spec_record(b, p).4[j] by {
            assert(ab.subrange(q + 40 + 9 * j + 1, q + 40 + 9 * j + 5) =~= b.subrange(
                p + 40 + 9 * j + 1,
                p + 40 + 9 * j + 5,
            ));
            assert(ab.subrange(q + 40 + 9 * j + 5, q + 40 + 9 * j + 9) =~= b.subrange(
                p + 40 + 9 * j + 5,
                p + 40 + 9 * j + 9,
            ));
        }
        assert(spec_record(ab, q).4 =~= spec_record(b, p).4);
        assert(spec_record(ab, q) == spec_record(b, p));
    } else if p < b.len() && p + 40 <= b.len() {
        assert(ab[q + 39] == b[p + 39]);
    }
}

/// Reading a written record gives it back, and reading goes on after it.
proof fn lemma_record_round_trip(d: (usize, State, usize, u32, Seq<EvaluatedAction>), rest: Seq<u8>)
    requires
        fits(d),
    ensures
        ({
            let bytes = spec_encode_record(d) + rest;
            &&& 40 <= bytes.len()
            &&& bytes[39] == d.4.len()
            &&& spec_encode_record(d).len() == 40 + 9 * d.4.len()
            &&& spec_record(bytes, 0) == as_read(d)
        }),
{
    let rec = spec_encode_record(d);
    let bytes = rec + rest;
    lemma_byte_powers();
    lemma_be_bytes_len(d.3 as nat, 4);
    lemma_be_bytes_len(d.1.small_win as nat, 16);
    lemma_be_bytes_len(d.1.small_lose as nat, 16);
    lemma_encode_actions_len(d.4);
    lemma_be_round_trip(d.3 as nat, 4);
    lemma_be_round_trip(d.1.small_win as nat, 16);
    lemma_be_round_trip(d.1.small_lose as nat, 16);
    assert(bytes.subrange(2, 6) =~= be_bytes(d.3 as nat, 4));
    assert(bytes.subrange(6, 22) =~= be_bytes(d.1.small_win as nat, 16));
    assert(bytes.subrange(22, 38) =~= be_bytes(d.1.small_lose as nat, 16));
    let acts_bytes = spec_encode_actions(d.4);
    assert forall|j: int| 0 <= j < d.4.len() implies #[trigger] spec_record(bytes, 0).4[j] == d.4[j] by {
        lemma_actions_layout(d.4, j);
        let a = d.4[j];
        let ab = spec_encode_action(a);
        lemma_be_bytes_len((a.visit_count as u32) as nat, 4);
        lemma_be_bytes_len(a.value_bits as nat, 4);
        lemma_be_round_trip((a.visit_count as u32) as nat, 4);
        lemma_be_round_trip(a.value_bits as nat, 4);
        let w = bytes.subrange(40 + 9 * j, 40 + 9 * j + 9);
        assert(w =~= acts_bytes.subrange(9 * j, 9 * j + 9));
        assert(w == ab);
        assert(ab.subrange(1, 5) =~= be_bytes((a.visit_count as u32) as nat, 4));
        assert(ab.subrange(5, 9) =~= be_bytes(a.value_bits as nat, 4));
        assert(bytes.subrange(40 + 9 * j + 1, 40 + 9 * j + 5) =~= w.subrange(1, 5));
        assert(bytes.subrange(40 + 9 * j + 5, 40 + 9 * j + 9) =~= w.subrange(5, 9));
        assert(bytes[40 + 9 * j] == w[0]);
    }
    assert(spec_record(bytes, 0).4 =~= d.4);
    assert(d.2 == (d.2 / 10000) * 10000);
    assert(spec_record(bytes, 0).1 == as_read(d).1);
}

/// `as_read` of each record.
pub open spec fn all_as_read(ds: Seq<(usize, State, usize, u32, Seq<EvaluatedAction>)>) -> Seq<
    (usize, State, usize, u32, Seq<EvaluatedAction>),
> {
    ds.map_values(|d: (usize, State, usize, u32, Seq<EvaluatedAction>)| as_read(d))
}

/// Writing records whose fields fit their bytes and reading the bytes back
/// gives each record field by field, with its sub-boards judged from its
/// cells, hash 0 and `turn` from the depth (see `as_read`); a record already
/// in that form comes back unchanged.
pub proof fn lemma_decode_encode(ds: Seq<(usize, State, usize, u32, Seq<EvaluatedAction>)>)
    requires
        forall|i: int| 0 <= i < ds.len() ==> fits(#[trigger] ds[i]),
    ensures
        spec_decode(spec_encode(ds), 0) == Some(all_as_read(ds)),
        (forall|i: int| 0 <= i < ds.len() ==> as_read(#[trigger] ds[i]) == ds[i]) ==> spec_decode(
            spec_encode(ds),
            0,
        ) == Some(ds),
    decreases ds.len(),
{
    let read = all_as_read(ds);
    if ds.len() == 0 {
        assert(read =~= ds);
        assert(spec_decode(spec_encode(ds), 0) == Some(ds));
    } else {
        lemma_encode_front(ds);
        let rest = ds.drop_first();
        assert forall|i: int| 0 <= i < rest.len() implies fits(#[trigger] rest[i]) by {
            assert(rest[i] == ds[i + 1]);
        }
        lemma_decode_encode(rest);
        let rec = spec_encode_record(ds[0]);
        lemma_record_round_trip(ds[0], spec_encode(rest));
        lemma_decode_shift(rec, spec_encode(rest), 0);
        let read_rest = all_as_read(rest);
        assert(seq![as_read(ds[0])] + read_rest =~= read);
        if forall|i: int| 0 <= i < ds.len() ==> as_read(#[trigger] ds[i]) == ds[i] {
            assert(read =~= ds);
        }
    }
}

/// A big-endian number of `n` bytes is below `256^n`.
proof fn lemma_be_value_bound(x: Seq<u8>)
    ensures
        be_value(x) < byte_power(x.len()),
    decreases x.len(),
{
    if x.len() > 0 {
        let a = be_value(x.drop_last());
        let p = byte_power((x.len() - 1) as nat);
        lemma_be_value_bound(x.drop_last());
        let l = x.last() as nat;
        assert(a * 256 + l < p * 256) by (nonlinear_arith)
            requires
                a < p,
                l < 256,
        ;
    }
}

/// Writing back the value of `n` bytes gives the same bytes.
proof fn lemma_be_bytes_of_value(x: Seq<u8>)
    ensures
        be_bytes(be_value(x), x.len()) == x,
    decreases x.len(),
{
    if x.len() > 0 {
        let a = be_value(x.drop_last());
        let l = x.last() as nat;
        let v = a * 256 + l;
        assert(v / 256 == a && v % 256 == l) by (nonlinear_arith)
            requires
                v == a * 256 + l,
                l < 256,
        ;
        lemma_be_bytes_of_value(x.drop_last());
        assert(be_bytes(be_value(x), x.len()) =~= x.drop_last().push(x.last()));
        assert(x.drop_last().push(x.last()) =~= x);
    }
}

/// Writing back the move records read at `p` gives the bytes they were read from.
proof fn lemma_actions_reencode(bytes: Seq<u8>, p: int, m: nat)
    requires
        0 <= p,
        p + 9 * m <= bytes.len(),
    ensures
        spec_encode_actions(Seq::new(m, |j: int| spec_action_record(bytes, p + 9 * j))) == bytes.subrange(
            p,
            p + 9 * m,
        ),
    decreases m,
{
    let acts = Seq::new(m, |j: int| spec_action_record(bytes, p + 9 * j));
    if m == 0 {
        assert(bytes.subrange(p, p) =~= Seq::<u8>::empty());
    } else {
        let prev = Seq::new((m - 1) as nat, |j: int| spec_action_record(bytes, p + 9 * j));
        assert(acts.drop_last() =~= prev);
        lemma_actions_reencode(bytes, p, (m - 1) as nat);
        let q = p + 9 * (m - 1);
        let a = acts.last();
        assert(a == spec_action_record(bytes, q));
        let v1 = bytes.subrange(q + 1, q + 5);
        let v2 = bytes.subrange(q + 5, q + 9);
        lemma_byte_powers();
        lemma_be_value_bound(v1);
        lemma_be_value_bound(v2);
        lemma_be_bytes_of_value(v1);
        lemma_be_bytes_of_value(v2);
        assert((a.visit_count as u32) as nat == be_value(v1));
        assert(a.value_bits as nat == be_value(v2));
        assert(spec_encode_action(a) =~= bytes.subrange(q, q + 9));
        assert(bytes.subrange(p, q) + bytes.subrange(q, q + 9) =~= bytes.subrange(p, p + 9 * m));
    }
}

/// Writing back the position record read at `pos` gives the bytes it was read from.
proof fn lemma_record_reencode(bytes: Seq<u8>, pos: int)
    requires
        0 <= pos,
        pos + 40 <= bytes.len(),
        pos + 40 + 9 * bytes[pos + 39] <= bytes.len(),
    ensures
        spec_encode_record(spec_record(bytes, pos)) == bytes.subrange(pos, pos + 40 + 9 * bytes[pos + 39]),
{
    let d = spec_record(bytes, pos);
    let m = bytes[pos + 39] as nat;
    let x1 = bytes.subrange(pos + 2, pos + 6);
    let x2 = bytes.subrange(pos + 6, pos + 22);
    let x3 = bytes.subrange(pos + 22, pos + 38);
    lemma_byte_powers();
    lemma_be_value_bound(x1);
    lemma_be_value_bound(x2);
    lemma_be_value_bound(x3);
    lemma_be_bytes_of_value(x1);
    lemma_be_bytes_of_value(x2);
    lemma_be_bytes_of_value(x3);
    let v = bytes[pos + 1] as nat;
    assert((v * 10000) / 10000 == v) by (nonlinear_arith);
    assert(d.4 =~= Seq::new(m, |j: int| spec_action_record(bytes, pos + 40 + 9 * j)));
    lemma_actions_reencode(bytes, pos + 40, m);
    assert(spec_encode_record(d) =~= bytes.subrange(pos, pos + 40 + 9 * m));
}

/// Reading records from `pos` and writing them back gives the bytes from `pos` on.
proof fn lemma_reencode_from(bytes: Seq<u8>, pos: int)
    requires
        0 <= pos <= bytes.len(),
        spec_decode(bytes, pos).is_some(),
    ensures
        spec_encode(spec_decode(bytes, pos).unwrap()) == bytes.subrange(pos, bytes.len() as int),
    decreases bytes.len() - pos,
{
    if pos == bytes.len() {
        assert(bytes.subrange(pos, pos) =~= Seq::<u8>::empty());
    } else {
        let next = pos + 40 + 9 * bytes[pos + 39];
        lemma_reencode_from(bytes, next);
        let rest = spec_decode(bytes, next).unwrap();
        let ds = spec_decode(bytes, pos).unwrap();
        assert(ds == seq![spec_record(bytes, pos)] + rest);
        lemma_encode_front(ds);
        assert(ds[0] == spec_record(bytes, pos));
        assert(ds.drop_first() =~= rest);
        lemma_record_reencode(bytes, pos);
        assert(bytes.subrange(pos, next) + bytes.subrange(next, bytes.len() as int) =~= bytes.subrange(
            pos,
            bytes.len() as int,
        ));
    }
}

/// Reading a dataset and writing it back gives the same bytes.
pub proof fn lemma_encode_decode(bytes: Seq<u8>)
    requires
        spec_decode(bytes, 0).is_some(),
    ensures
        spec_encode(spec_decode(bytes, 0).unwrap()) == bytes,
{
    lemma_reencode_from(bytes, 0);
    assert(bytes.subrange(0, bytes.len() as int) =~= bytes);
}

proof fn lemma_derived_bits(sw: u128, sl: u128, n: nat)
    requires
        n <= 9,
    ensures
        forall|i: int|
            0 <= i < 16 ==> #[trigger] bit16(derived_bigs(sw, sl, n).0, i) == (i < n && line_complete(
                small_bits(sw, i as u16),
            )),
        forall|i: int|
            0 <= i < 16 ==> #[trigger] bit16(derived_bigs(sw, sl, n).1, i) == (i < n && !line_complete(
                small_bits(sw, i as u16),
            ) && line_complete(small_bits(sl, i as u16))),
        forall|i: int|
            0 <= i < 16 ==> #[trigger] bit16(derived_bigs(sw, sl, n).2, i) == (i < n && !line_complete(
                small_bits(sw, i as u16),
            ) && !line_complete(small_bits(sl, i as u16)) && small_bits(sw | sl, i as u16) == 0x1ffu16),
    decreases n,
{
    if n == 0 {
        assert forall|i: int| 0 <= i < 16 implies !#[trigger] bit16(0u16, i) by {
            lemma_bit16_ops(0, 0, i);
        }
    } else {
        lemma_derived_bits(sw, sl, (n - 1) as nat);
        let (w, l, d) = derived_bigs(sw, sl, (n - 1) as nat);
        let k = (n - 1) as u16;
        assert forall|i: int|
            #![trigger bit16(derived_bigs(sw, sl, n).0, i)]
            #![trigger bit16(derived_bigs(sw, sl, n).1, i)]
            #![trigger bit16(derived_bigs(sw, sl, n).2, i)]
            0 <= i < 16 implies bit16(derived_bigs(sw, sl, n).0, i) == (i < n
            && line_complete(small_bits(sw, i as u16))) && bit16(derived_bigs(sw, sl, n).1, i) == (i < n
            && !line_complete(small_bits(sw, i as u16)) && line_complete(small_bits(sl, i as u16)))
            && bit16(derived_bigs(sw, sl, n).2, i) == (i < n && !line_complete(small_bits(sw, i as u16))
            && !line_complete(small_bits(sl, i as u16)) && small_bits(sw | sl, i as u16) == 0x1ffu16) by {
            lemma_bit16_ops(w, 1u16 << k, i);
            lemma_bit16_ops(l, 1u16 << k, i);
            lemma_bit16_ops(d, 1u16 << k, i);
            lemma_bit16_ops(w, k, i);
            assert(bit16(w, i) == (i < n - 1 && line_complete(small_bits(sw, i as u16))));
            assert(bit16(l, i) == (i < n - 1 && !line_complete(small_bits(sw, i as u16)) && line_complete(
                small_bits(sl, i as u16),
            )));
            assert(bit16(d, i) == (i < n - 1 && !line_complete(small_bits(sw, i as u16)) && !line_complete(
                small_bits(sl, i as u16),
            ) && small_bits(sw | sl, i as u16) == 0x1ffu16));
        }
    }
}

proof fn lemma_decoded_bigs(bytes: Seq<u8>, pos: int)
    requires
        0 <= pos,
        spec_decode(bytes, pos).is_some(),
    ensures
        forall|j: int|
            0 <= j < spec_decode(bytes, pos).unwrap().len() ==> ({
                let st = (#[trigger] spec_decode(bytes, pos).unwrap()[j]).1;
                (st.big_win, st.big_lose, st.big_draw) == derived_bigs(st.small_win, st.small_lose, 9)
            }),
    decreases bytes.len() - pos,
{
    if pos < bytes.len() {
        let next = pos + 40 + 9 * bytes[pos + 39];
        lemma_decoded_bigs(bytes, next);
        let rest = spec_decode(bytes, next).unwrap();
        let v = spec_decode(bytes, pos).unwrap();
        assert(v == seq![spec_record(bytes, pos)] + rest);
        assert forall|j: int| 0 <= j < v.len() implies ({
            let st = (#[trigger] v[j]).1;
            (st.big_win, st.big_lose, st.big_draw) == derived_bigs(st.small_win, st.small_lose, 9)
        }) by {
            if j > 0 {
                assert(v[j] == rest[j - 1]);
            }
        }
    }
}

/// Every position that reading gives back has its sub-boards judged from
/// its cells: sub-board `i` is won exactly when the side to move's cells
/// there hold a line; lost exactly when the other side's cells hold a line
/// and the side to move's do not; drawn exactly when neither holds a line and
/// all nine cells are marked.
pub proof fn lemma_decoded_sub_boards(bytes: Seq<u8>, v: Seq<(usize, State, usize, u32, Seq<EvaluatedAction>)>, j: int, i: int)
    requires
        spec_decode(bytes, 0) == Some(v),
        0 <= j < v.len(),
        0 <= i < 9,
    ensures
        ({
            let st = v[j].1;
            let w = small_bits(st.small_win, i as u16);
            let l = small_bits(st.small_lose, i as u16);
            &&& bit16(st.big_win, i) == line_complete(w)
            &&& bit16(st.big_lose, i) == (line_complete(l) && !line_complete(w))
            &&& bit16(st.big_draw, i) == (!line_complete(w) && !line_complete(l) && small_bits(
                st.small_win | st.small_lose,
                i as u16,
            ) == 0x1ffu16)
        }),
{
    lemma_decoded_bigs(bytes, 0);
    assert(v[j] == spec_decode(bytes, 0).unwrap()[j]);
    let st = v[j].1;
    assert((st.big_win, st.big_lose, st.big_draw) == derived_bigs(st.small_win, st.small_lose, 9));
    lemma_derived_bits(st.small_win, st.small_lose, 9);
    assert(bit16(derived_bigs(st.small_win, st.small_lose, 9).0, i) == bit16(st.big_win, i));
    assert(bit16(derived_bigs(st.small_win, st.small_lose, 9).1, i) == bit16(st.big_lose, i));
    assert(bit16(derived_bigs(st.small_win, st.small_lose, 9).2, i) == bit16(st.big_draw, i));
}

} // verus!
