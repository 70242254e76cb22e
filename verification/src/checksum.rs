//! The mathematical model of the Adler-32 checksum.
//!
//! `spec_update` is the defining per-byte recurrence: both running sums are
//! reduced modulo `MOD` after every byte. The engines never compute it that
//! way; they accumulate unreduced 32-bit sums over bounded blocks and reduce
//! only at block boundaries. The lemmas in this module justify that scheme:
//! the unreduced recurrence (`raw_update`) has a closed form built from a
//! plain byte sum and a position-weighted sum, deferring the reduction does
//! not change the reduced result, and the accumulators stay below `2^32` as
//! long as no more than `NMAX` bytes are summed between reductions.

use vstd::prelude::*;
use vstd::arithmetic::div_mod::{
    lemma_add_mod_noop, lemma_add_mod_noop_right, lemma_mod_bound, lemma_small_mod,
};

verus! {

/// The Adler-32 modulus: the largest prime below 2^16.
pub const MOD: u32 = 65521;

/// The largest number of bytes whose running sums fit in 32-bit accumulators
/// between two modular reductions: with seeds below 2^16, summing one more
/// byte could overflow the sum-of-sums.
pub const NMAX: usize = 5552;

/// One step of the defining recurrence: add the byte to `a`, then add the
/// new `a` to `b`, reducing both modulo `MOD`.
pub open spec fn spec_step(st: (int, int), x: u8) -> (int, int) {
    let a = (st.0 + x) % (MOD as int);
    let b = (st.1 + a) % (MOD as int);
    (a, b)
}

/// The per-byte Adler-32 state update over a whole byte sequence, starting
/// from the state `(a, b)`. This is the specification every engine is held
/// to; the identity state is `(1, 0)`.
pub open spec fn spec_update(a: int, b: int, s: Seq<u8>) -> (int, int)
    decreases s.len(),
{
    if s.len() == 0 {
        (a, b)
    } else {
        spec_step(spec_update(a, b, s.drop_last()), s.last())
    }
}

/// The state an engine must reach from the seed pair `(a, b)` after the
/// bytes `s`: seeds are first brought into the reduced range, which is a
/// no-op for every state the accumulator ever holds.
pub open spec fn checksum_pair(a: u16, b: u16, s: Seq<u8>) -> (int, int) {
    spec_update((a as int) % (MOD as int), (b as int) % (MOD as int), s)
}

/// The 32-bit Adler-32 checksum of a byte sequence: `b` in the high half,
/// `a` in the low half, from the identity seed.
pub open spec fn adler32_of(s: Seq<u8>) -> int {
    let st = spec_update(1, 0, s);
    st.1 * 0x10000 + st.0
}

/// One step of the unreduced recurrence.
pub open spec fn raw_step(st: (int, int), x: u8) -> (int, int) {
    (st.0 + x, st.1 + st.0 + x)
}

/// The unreduced state update: what the engines accumulate between modular
/// reductions.
pub open spec fn raw_update(a: int, b: int, s: Seq<u8>) -> (int, int)
    decreases s.len(),
{
    if s.len() == 0 {
        (a, b)
    } else {
        raw_step(raw_update(a, b, s.drop_last()), s.last())
    }
}

/// The plain sum of the bytes of `s`.
pub open spec fn sum_bytes(s: Seq<u8>) -> int
    decreases s.len(),
{
    if s.len() == 0 {
        0
    } else {
        sum_bytes(s.drop_last()) + s.last()
    }
}

/// The position-weighted sum of `s`: byte `i` counts `s.len() - i` times,
/// once for itself and once for every later byte.
pub open spec fn weighted_sum(s: Seq<u8>) -> int
    decreases s.len(),
{
    if s.len() == 0 {
        0
    } else {
        weighted_sum(s.drop_last()) + sum_bytes(s)
    }
}

/// The dot product a wide-lane engine computes over a block: byte `i` of `s`
/// carries the weight `w - i`. For `w == s.len()` this is `weighted_sum`.
pub open spec fn dot_from(s: Seq<u8>, w: int) -> int
    decreases s.len(),
{
    if s.len() == 0 {
        0
    } else {
        dot_from(s.drop_last(), w) + (w - (s.len() - 1)) * s.last()
    }
}

/// A whole block folded in one step of a wide-lane engine: the byte sum
/// joins `a`, while `b` gains one `a` per lane plus the weighted sum.
pub open spec fn block_step(a: int, b: int, v: Seq<u8>) -> (int, int) {
    (a + sum_bytes(v), b + v.len() * a + weighted_sum(v))
}

/// The block-parallel update order of a wide-lane engine: whole blocks of
/// `lanes` bytes are folded by `block_step`, a trailing partial block byte
/// by byte.
pub open spec fn lane_blocks_update(a: int, b: int, s: Seq<u8>, lanes: nat) -> (int, int)
    decreases s.len(),
{
    if lanes > 0 && s.len() >= lanes {
        let st = block_step(a, b, s.take(lanes as int));
        lane_blocks_update(st.0, st.1, s.skip(lanes as int), lanes)
    } else {
        raw_update(a, b, s)
    }
}

/// Lane `j` of a four-way interleaved engine: every fourth byte of `s`,
/// starting at offset `j`.
pub open spec fn lane_seq(s: Seq<u8>, j: int) -> Seq<u8> {
    Seq::new((s.len() / 4) as nat, |t: int| s[4 * t + j])
}

/// Splitting a stream into four interleaved lanes splits the byte sum
/// lane by lane, and the position-weighted sum becomes four times the
/// lanes' own weighted sums minus each lane's offset times its byte sum:
/// within one four-byte group, lane `j` sits `j` positions later, so each
/// of its bytes counts `j` fewer times.
pub proof fn lemma_interleave_sums(s: Seq<u8>)
    requires
        s.len() % 4 == 0,
    ensures
        sum_bytes(s) == sum_bytes(lane_seq(s, 0)) + sum_bytes(lane_seq(s, 1))
            + sum_bytes(lane_seq(s, 2)) + sum_bytes(lane_seq(s, 3)),
        weighted_sum(s) == 4 * weighted_sum(lane_seq(s, 0))
            + 4 * weighted_sum(lane_seq(s, 1)) - sum_bytes(lane_seq(s, 1))
            + 4 * weighted_sum(lane_seq(s, 2)) - 2 * sum_bytes(lane_seq(s, 2))
            + 4 * weighted_sum(lane_seq(s, 3)) - 3 * sum_bytes(lane_seq(s, 3)),
    decreases s.len(),
{
    let len = s.len() as int;
    if s.len() == 0 {
        assert(lane_seq(s, 0) =~= Seq::<u8>::empty());
        assert(lane_seq(s, 1) =~= Seq::<u8>::empty());
        assert(lane_seq(s, 2) =~= Seq::<u8>::empty());
        assert(lane_seq(s, 3) =~= Seq::<u8>::empty());
    } else {
        if len < 4 {
            lemma_small_mod(s.len(), 4);
        }
        let q = len / 4;
        vstd::arithmetic::div_mod::lemma_fundamental_div_mod(len, 4);
        vstd::arithmetic::div_mod::lemma_mod_sub_multiples_vanish(len, 4);
        vstd::arithmetic::div_mod::lemma_div_by_multiple(q - 1, 4);
        let s4 = s.take(len - 4);
        assert(s4.len() % 4 == 0);
        lemma_interleave_sums(s4);
        let t3 = s.drop_last();
        let t2 = t3.drop_last();
        let t1 = t2.drop_last();
        assert(t1.drop_last() =~= s4);
        assert(lane_seq(s4, 0) =~= lane_seq(s, 0).drop_last());
        assert(lane_seq(s4, 1) =~= lane_seq(s, 1).drop_last());
        assert(lane_seq(s4, 2) =~= lane_seq(s, 2).drop_last());
        assert(lane_seq(s4, 3) =~= lane_seq(s, 3).drop_last());
        assert(lane_seq(s, 0).last() == s[len - 4]);
        assert(lane_seq(s, 1).last() == s[len - 3]);
        assert(lane_seq(s, 2).last() == s[len - 2]);
        assert(lane_seq(s, 3).last() == s[len - 1]);
        // Unfold the whole-stream sums over the last four bytes.
        assert(sum_bytes(s) == sum_bytes(t3) + s[len - 1]);
        assert(sum_bytes(t3) == sum_bytes(t2) + s[len - 2]);
        assert(sum_bytes(t2) == sum_bytes(t1) + s[len - 3]);
        assert(sum_bytes(t1) == sum_bytes(s4) + s[len - 4]);
        assert(weighted_sum(s) == weighted_sum(t3) + sum_bytes(s));
        assert(weighted_sum(t3) == weighted_sum(t2) + sum_bytes(t3));
        assert(weighted_sum(t2) == weighted_sum(t1) + sum_bytes(t2));
        assert(weighted_sum(t1) == weighted_sum(s4) + sum_bytes(t1));
        // Unfold each lane's sums over its last byte.
        assert(sum_bytes(lane_seq(s, 0)) == sum_bytes(lane_seq(s4, 0)) + s[len - 4]);
        assert(sum_bytes(lane_seq(s, 1)) == sum_bytes(lane_seq(s4, 1)) + s[len - 3]);
        assert(sum_bytes(lane_seq(s, 2)) == sum_bytes(lane_seq(s4, 2)) + s[len - 2]);
        assert(sum_bytes(lane_seq(s, 3)) == sum_bytes(lane_seq(s4, 3)) + s[len - 1]);
        assert(weighted_sum(lane_seq(s, 0))
            == weighted_sum(lane_seq(s4, 0)) + sum_bytes(lane_seq(s, 0)));
        assert(weighted_sum(lane_seq(s, 1))
            == weighted_sum(lane_seq(s4, 1)) + sum_bytes(lane_seq(s, 1)));
        assert(weighted_sum(lane_seq(s, 2))
            == weighted_sum(lane_seq(s4, 2)) + sum_bytes(lane_seq(s, 2)));
        assert(weighted_sum(lane_seq(s, 3))
            == weighted_sum(lane_seq(s4, 3)) + sum_bytes(lane_seq(s, 3)));
    }
}

/// Both components of `raw_update` grow monotonically and never leave the
/// range a 32-bit accumulator can hold while the block stays within `NMAX`
/// bytes and the seeds are 16-bit values.
pub proof fn lemma_raw_update_fits(a: int, b: int, s: Seq<u8>)
    requires
        0 <= a < 0x10000,
        0 <= b < 0x1_0000_0000,
        2 * b + 2 * s.len() * a + 255 * s.len() * (s.len() + 1) < 0x2_0000_0000,
    ensures
        a <= raw_update(a, b, s).0 <= a + 255 * s.len(),
        b <= raw_update(a, b, s).1,
        2 * raw_update(a, b, s).1 <= 2 * b + 2 * s.len() * a + 255 * s.len() * (s.len() + 1),
        raw_update(a, b, s).1 < 0x1_0000_0000,
{
    lemma_raw_update_closed(a, b, s);
    lemma_sum_bytes_bounds(s);
    lemma_weighted_sum_bounds(s);
    let n = s.len() as int;
    assert(0 <= n * a) by (nonlinear_arith)
        requires 0 <= n && 0 <= a;
    assert(2 * (n * a) == 2 * n * a) by (nonlinear_arith);
}

/// Seeds and block length drawn from the engines' actual use always satisfy
/// the size hypothesis of `lemma_raw_update_fits`.
pub proof fn lemma_nmax_block_fits(a: int, b: int, s: Seq<u8>)
    requires
        0 <= a < 0x10000,
        0 <= b < 0x10000,
        s.len() <= NMAX,
    ensures
        a <= raw_update(a, b, s).0 <= a + 255 * s.len(),
        b <= raw_update(a, b, s).1,
        raw_update(a, b, s).1 < 0x1_0000_0000,
{
    let n = s.len() as int;
    assert(2 * n * a <= 2 * 5552 * 65535) by (nonlinear_arith)
        requires 0 <= n <= 5552 && 0 <= a < 0x10000;
    assert(255 * n * (n + 1) <= 255 * 5552 * 5553) by (nonlinear_arith)
        requires 0 <= n <= 5552;
    lemma_raw_update_fits(a, b, s);
}

/// The closed form of the unreduced recurrence: `a` gains the byte sum, `b`
/// gains one `a` per byte plus the position-weighted sum.
pub proof fn lemma_raw_update_closed(a: int, b: int, s: Seq<u8>)
    ensures
        raw_update(a, b, s).0 == a + sum_bytes(s),
        raw_update(a, b, s).1 == b + s.len() * a + weighted_sum(s),
    decreases s.len(),
{
    if s.len() == 0 {
    } else {
        lemma_raw_update_closed(a, b, s.drop_last());
        let n = s.len() as int;
        assert(n * a == (n - 1) * a + a) by (nonlinear_arith);
    }
}

/// The byte sum of `s` lies between 0 and 255 per byte.
pub proof fn lemma_sum_bytes_bounds(s: Seq<u8>)
    ensures
        0 <= sum_bytes(s) <= 255 * s.len(),
    decreases s.len(),
{
    if s.len() == 0 {
    } else {
        lemma_sum_bytes_bounds(s.drop_last());
    }
}

/// The weighted sum of `s` is at most 255 times the triangular number of
/// `s.len()`, stated without division.
pub proof fn lemma_weighted_sum_bounds(s: Seq<u8>)
    ensures
        0 <= weighted_sum(s),
        2 * weighted_sum(s) <= 255 * s.len() * (s.len() + 1),
    decreases s.len(),
{
    if s.len() == 0 {
    } else {
        lemma_weighted_sum_bounds(s.drop_last());
        lemma_sum_bytes_bounds(s);
        let n = s.len() as int;
        assert(s.drop_last().len() == n - 1);
        assert(2 * weighted_sum(s.drop_last()) <= 255 * (n - 1) * n);
        assert(sum_bytes(s) <= 255 * n);
        assert(2 * sum_bytes(s) <= 510 * n);
        assert(255 * (n - 1) * n + 2 * 255 * n == 255 * n * (n + 1)) by (nonlinear_arith);
        assert(2 * weighted_sum(s) <= 255 * n * (n + 1));
    }
}

/// Raising every weight of a dot product by one adds the plain byte sum.
pub proof fn lemma_dot_from_shift(s: Seq<u8>, w: int)
    ensures
        dot_from(s, w + 1) == dot_from(s, w) + sum_bytes(s),
    decreases s.len(),
{
    if s.len() == 0 {
    } else {
        lemma_dot_from_shift(s.drop_last(), w);
        let n = s.len() as int;
        let x = s.last() as int;
        assert((w + 1 - (n - 1)) * x == (w - (n - 1)) * x + x) by (nonlinear_arith);
    }
}

/// With the weight of the first byte set to the block length, the dot
/// product is exactly the position-weighted sum.
pub proof fn lemma_dot_from_weighted(s: Seq<u8>)
    ensures
        dot_from(s, s.len() as int) == weighted_sum(s),
    decreases s.len(),
{
    if s.len() == 0 {
    } else {
        lemma_dot_from_weighted(s.drop_last());
        lemma_dot_from_shift(s.drop_last(), s.len() as int - 1);
        let n = s.len() as int;
        let x = s.last() as int;
        assert((n - (n - 1)) * x == x) by (nonlinear_arith);
    }
}

/// The unreduced recurrence composes over concatenation.
pub proof fn lemma_raw_update_concat(a: int, b: int, s: Seq<u8>, t: Seq<u8>)
    ensures
        raw_update(a, b, s + t)
            == raw_update(raw_update(a, b, s).0, raw_update(a, b, s).1, t),
    decreases t.len(),
{
    if t.len() == 0 {
        assert(s + t =~= s);
    } else {
        lemma_raw_update_concat(a, b, s, t.drop_last());
        assert((s + t).drop_last() =~= s + t.drop_last());
        assert((s + t).last() == t.last());
    }
}

/// The per-byte recurrence composes over concatenation: feeding a stream in
/// two pieces reaches the same state as feeding it whole.
pub proof fn lemma_spec_update_concat(a: int, b: int, s: Seq<u8>, t: Seq<u8>)
    ensures
        spec_update(a, b, s + t)
            == spec_update(spec_update(a, b, s).0, spec_update(a, b, s).1, t),
    decreases t.len(),
{
    if t.len() == 0 {
        assert(s + t =~= s);
    } else {
        lemma_spec_update_concat(a, b, s, t.drop_last());
        assert((s + t).drop_last() =~= s + t.drop_last());
        assert((s + t).last() == t.last());
    }
}

/// Deferring the modular reduction to the end of a block changes nothing:
/// the reduced result of the unreduced recurrence is the state the per-byte
/// recurrence reaches from the reduced seeds.
pub proof fn lemma_spec_update_is_raw_mod(a: int, b: int, s: Seq<u8>)
    ensures
        spec_update(a % (MOD as int), b % (MOD as int), s).0 == raw_update(a, b, s).0 % (MOD as int),
        spec_update(a % (MOD as int), b % (MOD as int), s).1 == raw_update(a, b, s).1 % (MOD as int),
    decreases s.len(),
{
    let m = MOD as int;
    if s.len() == 0 {
    } else {
        lemma_spec_update_is_raw_mod(a, b, s.drop_last());
        let x = s.last() as int;
        let ra = raw_update(a, b, s.drop_last()).0;
        let rb = raw_update(a, b, s.drop_last()).1;
        // (ra % m + x) % m == (ra + x) % m
        lemma_add_mod_noop_right(x, ra, m);
        let a2 = (ra + x) % m;
        lemma_mod_bound(ra + x, m);
        lemma_small_mod(a2 as nat, m as nat);
        // (rb % m + a2) % m == (rb + a2) % m
        lemma_add_mod_noop(rb, a2, m);
        // (rb + (ra + x) % m) % m == (rb + ra + x) % m
        lemma_add_mod_noop_right(rb, ra + x, m);
    }
}

/// From reduced seeds the per-byte recurrence stays in the reduced range.
pub proof fn lemma_spec_update_bounds(a: int, b: int, s: Seq<u8>)
    requires
        0 <= a < MOD as int,
        0 <= b < MOD as int,
    ensures
        0 <= spec_update(a, b, s).0 < MOD as int,
        0 <= spec_update(a, b, s).1 < MOD as int,
    decreases s.len(),
{
    if s.len() == 0 {
    } else {
        lemma_spec_update_bounds(a, b, s.drop_last());
        let st = spec_update(a, b, s.drop_last());
        lemma_mod_bound(st.0 + s.last(), MOD as int);
        lemma_mod_bound(st.1 + spec_step(st, s.last()).0, MOD as int);
    }
}

/// Splitting a stream at any point and feeding the two pieces in order
/// reaches the same checksum as feeding the whole stream at once.
pub proof fn lemma_checksum_split(s: Seq<u8>, k: int)
    requires
        0 <= k <= s.len(),
    ensures
        ({
            let st = spec_update(1, 0, s.take(k));
            let fin = spec_update(st.0, st.1, s.skip(k));
            adler32_of(s) == fin.1 * 0x10000 + fin.0
        }),
{
    lemma_spec_update_concat(1, 0, s.take(k), s.skip(k));
    assert(s.take(k) + s.skip(k) =~= s);
}

/// The reduction glue shared by every engine loop: if the state reached
/// after `data[..i]` is the reduced pair `(sa, sb)`, then reducing the
/// unreduced sums over `data[i..end)` yields the state after `data[..end]`.
pub proof fn glue_chunk(a: u16, b: u16, data: Seq<u8>, i: int, end: int, sa: int, sb: int)
    requires
        0 <= i <= end <= data.len(),
        0 <= sa < MOD as int,
        0 <= sb < MOD as int,
        sa == checksum_pair(a, b, data.take(i)).0,
        sb == checksum_pair(a, b, data.take(i)).1,
    ensures
        raw_update(sa, sb, data.subrange(i, end)).0 % (MOD as int)
            == checksum_pair(a, b, data.take(end)).0,
        raw_update(sa, sb, data.subrange(i, end)).1 % (MOD as int)
            == checksum_pair(a, b, data.take(end)).1,
        0 <= raw_update(sa, sb, data.subrange(i, end)).0 % (MOD as int) < MOD as int,
        0 <= raw_update(sa, sb, data.subrange(i, end)).1 % (MOD as int) < MOD as int,
{
    let m = MOD as int;
    let prefix = data.take(i);
    let block = data.subrange(i, end);
    lemma_spec_update_concat((a as int) % m, (b as int) % m, prefix, block);
    assert(prefix + block =~= data.take(end));
    lemma_spec_update_is_raw_mod(sa, sb, block);
    lemma_small_mod(sa as nat, MOD as nat);
    lemma_small_mod(sb as nat, MOD as nat);
    lemma_mod_bound(raw_update(sa, sb, block).0, m);
    lemma_mod_bound(raw_update(sa, sb, block).1, m);
}

/// A block engine's whole summation order as one function: the stream is
/// cut into chunks of `chunk` bytes, each chunk is folded blockwise by
/// `lane_blocks_update`, and the accumulators are reduced after every
/// chunk and once at the end.
pub open spec fn chunked_blocks_update(a: int, b: int, s: Seq<u8>, chunk: nat, lanes: nat) -> (int, int)
    decreases s.len(),
{
    let m = MOD as int;
    if chunk > 0 && s.len() >= chunk {
        let st = lane_blocks_update(a, b, s.take(chunk as int), lanes);
        chunked_blocks_update(st.0 % m, st.1 % m, s.skip(chunk as int), chunk, lanes)
    } else {
        let st = lane_blocks_update(a, b, s, lanes);
        (st.0 % m, st.1 % m)
    }
}

/// Every chunked blockwise order is the defining per-byte recurrence from
/// the reduced seeds, whatever the chunk span and lane width.
pub proof fn lemma_chunked_blocks_is_defining(a: int, b: int, s: Seq<u8>, chunk: nat, lanes: nat)
    ensures
        chunked_blocks_update(a, b, s, chunk, lanes)
            == spec_update(a % (MOD as int), b % (MOD as int), s),
    decreases s.len(),
{
    let m = MOD as int;
    if chunk > 0 && s.len() >= chunk {
        let head = s.take(chunk as int);
        let rest = s.skip(chunk as int);
        lemma_lane_blocks_is_raw(a, b, head, lanes);
        lemma_spec_update_is_raw_mod(a, b, head);
        let st = lane_blocks_update(a, b, head, lanes);
        lemma_mod_bound(st.0, m);
        lemma_mod_bound(st.1, m);
        lemma_chunked_blocks_is_defining(st.0 % m, st.1 % m, rest, chunk, lanes);
        lemma_small_mod((st.0 % m) as nat, m as nat);
        lemma_small_mod((st.1 % m) as nat, m as nat);
        lemma_spec_update_concat(a % m, b % m, head, rest);
        assert(head + rest =~= s);
    } else {
        lemma_lane_blocks_is_raw(a, b, s, lanes);
        lemma_spec_update_is_raw_mod(a, b, s);
    }
}

/// Folding whole blocks through `block_step` is only a reassociation of the
/// unreduced recurrence: the lane-parallel order loses nothing.
pub proof fn lemma_lane_blocks_is_raw(a: int, b: int, s: Seq<u8>, lanes: nat)
    ensures
        lane_blocks_update(a, b, s, lanes) == raw_update(a, b, s),
    decreases s.len(),
{
    if lanes > 0 && s.len() >= lanes {
        let v = s.take(lanes as int);
        let rest = s.skip(lanes as int);
        lemma_raw_update_closed(a, b, v);
        let st = raw_update(a, b, v);
        assert(block_step(a, b, v) == st);
        lemma_lane_blocks_is_raw(st.0, st.1, rest, lanes);
        lemma_raw_update_concat(a, b, v, rest);
        assert(v + rest =~= s);
    }
}

} // verus!
