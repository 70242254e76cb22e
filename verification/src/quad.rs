//! The four-lane interleaved engine.
//!
//! Bytes are dealt round-robin into four lanes: lane `j` receives bytes
//! `j`, `j + 4`, `j + 8`, and so on, and runs its own unreduced recurrence
//! over them — the order a 128-bit implementation built from four packed
//! 32-bit adders sums in. Because lane `j` sits `j` positions later within
//! every four-byte group, the true sum-of-sums is recovered by scaling
//! each lane's prefix-sum total by four and discounting its byte sum `j`
//! times; `MOD - a_j` stands in for `-a_j` so the fold stays in unsigned
//! arithmetic. The chunk span lets every lane sum `NMAX` bytes between
//! reductions, the same margin the other engines get per accumulator.

use vstd::prelude::*;
use vstd::arithmetic::div_mod::{
    lemma_fundamental_div_mod, lemma_mod_bound, lemma_mod_multiples_basic,
    lemma_mod_multiples_vanish, lemma_mod_sub_multiples_vanish, lemma_small_mod,
};
use crate::checksum::{
    MOD, NMAX, checksum_pair, glue_chunk, lane_seq, lemma_interleave_sums,
    lemma_nmax_block_fits, lemma_raw_update_closed, lemma_spec_update_concat,
    lemma_spec_update_is_raw_mod, raw_update, spec_update, sum_bytes, weighted_sum,
};
use crate::engine::Engine;

verus! {

/// The reduction span: four lanes, each allowed `NMAX` bytes per chunk.
pub const CHUNK_SIZE: usize = NMAX * 4;

/// One chunk of the interleaved order folded in a single step: the lanes'
/// byte sums join `a`; `b` gains one `a` per byte plus the lanes' totals,
/// scaled and discounted by their offsets.
pub open spec fn quad_step(a: int, b: int, v: Seq<u8>) -> (int, int) {
    (
        a + sum_bytes(lane_seq(v, 0)) + sum_bytes(lane_seq(v, 1)) + sum_bytes(lane_seq(v, 2))
            + sum_bytes(lane_seq(v, 3)),
        b + v.len() * a + 4 * weighted_sum(lane_seq(v, 0))
            + 4 * weighted_sum(lane_seq(v, 1)) - sum_bytes(lane_seq(v, 1))
            + 4 * weighted_sum(lane_seq(v, 2)) - 2 * sum_bytes(lane_seq(v, 2))
            + 4 * weighted_sum(lane_seq(v, 3)) - 3 * sum_bytes(lane_seq(v, 3)),
    )
}

/// The whole interleaved order: whole chunks folded by `quad_step` with a
/// reduction after each; of the remainder, first the whole four-byte
/// groups, then the trailing bytes one at a time, then the final
/// reduction.
pub open spec fn quad_model(a: int, b: int, s: Seq<u8>) -> (int, int)
    decreases s.len(),
{
    let m = MOD as int;
    if s.len() >= CHUNK_SIZE {
        let st = quad_step(a, b, s.take(CHUNK_SIZE as int));
        quad_model(st.0 % m, st.1 % m, s.skip(CHUNK_SIZE as int))
    } else {
        let grp = s.len() - (s.len() % 4);
        let st = quad_step(a, b, s.take(grp as int));
        let st2 = raw_update(st.0 % m, st.1 % m, s.skip(grp as int));
        (st2.0 % m, st2.1 % m)
    }
}

/// Over a whole number of four-byte groups, the interleaved fold is only a
/// reassociation of the unreduced recurrence.
pub proof fn lemma_quad_step_is_raw(a: int, b: int, v: Seq<u8>)
    requires
        v.len() % 4 == 0,
    ensures
        quad_step(a, b, v) == raw_update(a, b, v),
{
    lemma_interleave_sums(v);
    lemma_raw_update_closed(a, b, v);
}

/// The interleaved order is the defining per-byte recurrence from the
/// reduced seeds.
pub proof fn lemma_quad_model_is_defining(a: int, b: int, s: Seq<u8>)
    ensures
        quad_model(a, b, s) == spec_update(a % (MOD as int), b % (MOD as int), s),
    decreases s.len(),
{
    let m = MOD as int;
    if s.len() >= CHUNK_SIZE {
        let head = s.take(CHUNK_SIZE as int);
        let rest = s.skip(CHUNK_SIZE as int);
        assert(head.len() % 4 == 0);
        lemma_quad_step_is_raw(a, b, head);
        lemma_spec_update_is_raw_mod(a, b, head);
        let st = quad_step(a, b, head);
        lemma_mod_bound(st.0, m);
        lemma_mod_bound(st.1, m);
        lemma_quad_model_is_defining(st.0 % m, st.1 % m, rest);
        lemma_small_mod((st.0 % m) as nat, m as nat);
        lemma_small_mod((st.1 % m) as nat, m as nat);
        lemma_spec_update_concat(a % m, b % m, head, rest);
        assert(head + rest =~= s);
    } else {
        let len = s.len() as int;
        lemma_fundamental_div_mod(len, 4);
        lemma_mod_multiples_basic(len / 4, 4);
        let grp = len - (len % 4);
        let head = s.take(grp);
        let rest = s.skip(grp);
        assert(head.len() % 4 == 0);
        lemma_quad_step_is_raw(a, b, head);
        lemma_spec_update_is_raw_mod(a, b, head);
        let st = quad_step(a, b, head);
        lemma_mod_bound(st.0, m);
        lemma_mod_bound(st.1, m);
        lemma_small_mod((st.0 % m) as nat, m as nat);
        lemma_small_mod((st.1 % m) as nat, m as nat);
        lemma_spec_update_is_raw_mod(st.0 % m, st.1 % m, rest);
        lemma_spec_update_concat(a % m, b % m, head, rest);
        assert(head + rest =~= s);
    }
}

/// The four pairs of unreduced lane accumulators.
#[derive(Clone, Copy)]
struct Lanes {
    a0: u32,
    a1: u32,
    a2: u32,
    a3: u32,
    b0: u32,
    b1: u32,
    b2: u32,
    b3: u32,
}

/// Deal the bytes of `data[start..end)` into the four lanes, each lane
/// running the unreduced recurrence over every fourth byte.
fn accumulate(v: &mut Lanes, data: &[u8], start: usize, end: usize)
    requires
        start <= end <= data@.len(),
        (end - start) % 4 == 0,
        end - start <= CHUNK_SIZE,
        old(v).a0 < 0x10000,
        old(v).a1 < 0x10000,
        old(v).a2 < 0x10000,
        old(v).a3 < 0x10000,
        old(v).b0 < 0x10000,
        old(v).b1 < 0x10000,
        old(v).b2 < 0x10000,
        old(v).b3 < 0x10000,
    ensures
        ({
            let chunk = data@.subrange(start as int, end as int);
            &&& final(v).a0 as int == raw_update(old(v).a0 as int, old(v).b0 as int, lane_seq(chunk, 0)).0
            &&& final(v).b0 as int == raw_update(old(v).a0 as int, old(v).b0 as int, lane_seq(chunk, 0)).1
            &&& final(v).a1 as int == raw_update(old(v).a1 as int, old(v).b1 as int, lane_seq(chunk, 1)).0
            &&& final(v).b1 as int == raw_update(old(v).a1 as int, old(v).b1 as int, lane_seq(chunk, 1)).1
            &&& final(v).a2 as int == raw_update(old(v).a2 as int, old(v).b2 as int, lane_seq(chunk, 2)).0
            &&& final(v).b2 as int == raw_update(old(v).a2 as int, old(v).b2 as int, lane_seq(chunk, 2)).1
            &&& final(v).a3 as int == raw_update(old(v).a3 as int, old(v).b3 as int, lane_seq(chunk, 3)).0
            &&& final(v).b3 as int == raw_update(old(v).a3 as int, old(v).b3 as int, lane_seq(chunk, 3)).1
        }),
{
    let ghost chunk = data@.subrange(start as int, end as int);
    let ghost a00 = v.a0 as int;
    let ghost a10 = v.a1 as int;
    let ghost a20 = v.a2 as int;
    let ghost a30 = v.a3 as int;
    let ghost b00 = v.b0 as int;
    let ghost b10 = v.b1 as int;
    let ghost b20 = v.b2 as int;
    let ghost b30 = v.b3 as int;
    proof {
        lemma_fundamental_div_mod((end - start) as int, 4);
        assert(lane_seq(chunk, 0).take(0) =~= Seq::<u8>::empty());
        assert(lane_seq(chunk, 1).take(0) =~= Seq::<u8>::empty());
        assert(lane_seq(chunk, 2).take(0) =~= Seq::<u8>::empty());
        assert(lane_seq(chunk, 3).take(0) =~= Seq::<u8>::empty());
    }
    let mut k = start;
    let ghost mut g: int = 0;
    while k < end
        invariant
            start <= k <= end <= data@.len(),
            end - start <= CHUNK_SIZE,
            (end - k) % 4 == 0,
            k - start == 4 * g,
            0 <= g,
            4 * g <= chunk.len(),
            chunk == data@.subrange(start as int, end as int),
            chunk.len() == end - start,
            0 <= a00 < 0x10000,
            0 <= a10 < 0x10000,
            0 <= a20 < 0x10000,
            0 <= a30 < 0x10000,
            0 <= b00 < 0x10000,
            0 <= b10 < 0x10000,
            0 <= b20 < 0x10000,
            0 <= b30 < 0x10000,
            v.a0 as int == raw_update(a00, b00, lane_seq(chunk, 0).take(g)).0,
            v.b0 as int == raw_update(a00, b00, lane_seq(chunk, 0).take(g)).1,
            v.a1 as int == raw_update(a10, b10, lane_seq(chunk, 1).take(g)).0,
            v.b1 as int == raw_update(a10, b10, lane_seq(chunk, 1).take(g)).1,
            v.a2 as int == raw_update(a20, b20, lane_seq(chunk, 2).take(g)).0,
            v.b2 as int == raw_update(a20, b20, lane_seq(chunk, 2).take(g)).1,
            v.a3 as int == raw_update(a30, b30, lane_seq(chunk, 3).take(g)).0,
            v.b3 as int == raw_update(a30, b30, lane_seq(chunk, 3).take(g)).1,
        decreases end - k,
    {
        proof {
            if end - k < 4 {
                lemma_small_mod((end - k) as nat, 4nat);
            }
            assert(g + 1 <= chunk.len() / 4) by {
                lemma_fundamental_div_mod(chunk.len() as int, 4);
                lemma_mod_bound(chunk.len() as int, 4);
            }
            assert(lane_seq(chunk, 0).take(g + 1).drop_last() =~= lane_seq(chunk, 0).take(g));
            assert(lane_seq(chunk, 1).take(g + 1).drop_last() =~= lane_seq(chunk, 1).take(g));
            assert(lane_seq(chunk, 2).take(g + 1).drop_last() =~= lane_seq(chunk, 2).take(g));
            assert(lane_seq(chunk, 3).take(g + 1).drop_last() =~= lane_seq(chunk, 3).take(g));
            assert(lane_seq(chunk, 0).take(g + 1).last() == data@[k as int]);
            assert(lane_seq(chunk, 1).take(g + 1).last() == data@[k as int + 1]);
            assert(lane_seq(chunk, 2).take(g + 1).last() == data@[k as int + 2]);
            assert(lane_seq(chunk, 3).take(g + 1).last() == data@[k as int + 3]);
            lemma_nmax_block_fits(a00, b00, lane_seq(chunk, 0).take(g + 1));
            lemma_nmax_block_fits(a10, b10, lane_seq(chunk, 1).take(g + 1));
            lemma_nmax_block_fits(a20, b20, lane_seq(chunk, 2).take(g + 1));
            lemma_nmax_block_fits(a30, b30, lane_seq(chunk, 3).take(g + 1));
        }
        v.a0 = v.a0 + (data[k] as u32);
        v.b0 = v.b0 + v.a0;
        v.a1 = v.a1 + (data[k + 1] as u32);
        v.b1 = v.b1 + v.a1;
        v.a2 = v.a2 + (data[k + 2] as u32);
        v.b2 = v.b2 + v.a2;
        v.a3 = v.a3 + (data[k + 3] as u32);
        v.b3 = v.b3 + v.a3;
        k = k + 4;
        proof {
            g = g + 1;
            lemma_mod_sub_multiples_vanish((end - k) as int, 4);
        }
    }
    proof {
        assert(lane_seq(chunk, 0).take(g) =~= lane_seq(chunk, 0));
        assert(lane_seq(chunk, 1).take(g) =~= lane_seq(chunk, 1));
        assert(lane_seq(chunk, 2).take(g) =~= lane_seq(chunk, 2));
        assert(lane_seq(chunk, 3).take(g) =~= lane_seq(chunk, 3));
    }
}

/// Reduce the four lanes and fold them into the running state: each
/// lane's total scaled by four and discounted by its offset times its
/// byte sum, plus one `a` per byte of the chunk.
fn fold_lanes(a: &mut u32, b: &mut u32, v: Lanes, m4: usize, Ghost(chunk): Ghost<Seq<u8>>)
    requires
        *old(a) < MOD,
        *old(b) < MOD,
        chunk.len() == m4,
        m4 % 4 == 0,
        m4 <= CHUNK_SIZE,
        v.a0 as int == raw_update(0, 0, lane_seq(chunk, 0)).0,
        v.b0 as int == raw_update(0, 0, lane_seq(chunk, 0)).1,
        v.a1 as int == raw_update(0, 0, lane_seq(chunk, 1)).0,
        v.b1 as int == raw_update(0, 0, lane_seq(chunk, 1)).1,
        v.a2 as int == raw_update(0, 0, lane_seq(chunk, 2)).0,
        v.b2 as int == raw_update(0, 0, lane_seq(chunk, 2)).1,
        v.a3 as int == raw_update(0, 0, lane_seq(chunk, 3)).0,
        v.b3 as int == raw_update(0, 0, lane_seq(chunk, 3)).1,
    ensures
        *final(a) as int == raw_update(*old(a) as int, *old(b) as int, chunk).0 % (MOD as int),
        *final(b) as int == raw_update(*old(a) as int, *old(b) as int, chunk).1 % (MOD as int),
        *final(a) < MOD,
        *final(b) < MOD,
{
    let ghost m = MOD as int;
    proof {
        lemma_raw_update_closed(0, 0, lane_seq(chunk, 0));
        lemma_raw_update_closed(0, 0, lane_seq(chunk, 1));
        lemma_raw_update_closed(0, 0, lane_seq(chunk, 2));
        lemma_raw_update_closed(0, 0, lane_seq(chunk, 3));
        lemma_interleave_sums(chunk);
        lemma_raw_update_closed(*a as int, *b as int, chunk);
    }
    let ar0 = v.a0 % MOD;
    let ar1 = v.a1 % MOD;
    let ar2 = v.a2 % MOD;
    let ar3 = v.a3 % MOD;
    let br0 = v.b0 % MOD;
    let br1 = v.b1 % MOD;
    let br2 = v.b2 % MOD;
    let br3 = v.b3 % MOD;
    let asum = ar0 + ar1 + ar2 + ar3;
    let bsum = 4 * br0 + 4 * br1 + (MOD - ar1) + 4 * br2 + 2 * (MOD - ar2) + 4 * br3
        + 3 * (MOD - ar3);
    let olda = *a;
    proof {
        assert((m4 as int) * (olda as int) <= 22208 * 65520) by (nonlinear_arith)
            requires 0 <= m4 <= 22208, olda < 65521;
    }
    let t = *b + (m4 as u32) * olda + bsum;
    *a = (*a + asum) % MOD;
    *b = t % MOD;
    proof {
        let sa = olda as int;
        let sb = *old(b) as int;
        let aa0 = v.a0 as int;
        let aa1 = v.a1 as int;
        let aa2 = v.a2 as int;
        let aa3 = v.a3 as int;
        let bb0 = v.b0 as int;
        let bb1 = v.b1 as int;
        let bb2 = v.b2 as int;
        let bb3 = v.b3 as int;
        lemma_fundamental_div_mod(aa0, m);
        lemma_fundamental_div_mod(aa1, m);
        lemma_fundamental_div_mod(aa2, m);
        lemma_fundamental_div_mod(aa3, m);
        lemma_fundamental_div_mod(bb0, m);
        lemma_fundamental_div_mod(bb1, m);
        lemma_fundamental_div_mod(bb2, m);
        lemma_fundamental_div_mod(bb3, m);
        let raw = raw_update(sa, sb, chunk);
        // The reduced fold differs from the unreduced sums by a multiple
        // of the modulus, which vanishes under `% m`.
        let ka = (aa0 / m) + (aa1 / m) + (aa2 / m) + (aa3 / m);
        assert(m * ka == m * (aa0 / m) + m * (aa1 / m) + m * (aa2 / m) + m * (aa3 / m))
            by (nonlinear_arith)
            requires ka == (aa0 / m) + (aa1 / m) + (aa2 / m) + (aa3 / m);
        assert(raw.0 == m * ka + (sa + asum));
        lemma_mod_multiples_vanish(ka, sa + asum, m);
        let kb = -4 * (bb0 / m) - 4 * (bb1 / m) - 4 * (bb2 / m) - 4 * (bb3 / m)
            + (1 + aa1 / m) + 2 * (1 + aa2 / m) + 3 * (1 + aa3 / m);
        assert(m * kb == -4 * (m * (bb0 / m)) - 4 * (m * (bb1 / m)) - 4 * (m * (bb2 / m))
            - 4 * (m * (bb3 / m)) + m + m * (aa1 / m) + 2 * m + 2 * (m * (aa2 / m)) + 3 * m
            + 3 * (m * (aa3 / m)))
            by (nonlinear_arith)
            requires kb == -4 * (bb0 / m) - 4 * (bb1 / m) - 4 * (bb2 / m) - 4 * (bb3 / m)
                + (1 + aa1 / m) + 2 * (1 + aa2 / m) + 3 * (1 + aa3 / m);
        assert(t == m * kb + raw.1);
        lemma_mod_multiples_vanish(kb, raw.1, m);
        lemma_mod_bound(raw.0, m);
        lemma_mod_bound(raw.1, m);
    }
}

/// Advance the checksum state `(a, b)` over `data` in the four-lane
/// interleaved order and return the reduced state.
pub fn update(a: u16, b: u16, data: &[u8]) -> (r: (u16, u16))
    ensures
        r.0 as int == checksum_pair(a, b, data@).0,
        r.1 as int == checksum_pair(a, b, data@).1,
{
    let mut a32: u32 = (a as u32) % MOD;
    let mut b32: u32 = (b as u32) % MOD;
    let len = data.len();
    let len4 = len - len % 4;
    proof {
        lemma_fundamental_div_mod(len as int, 4);
        lemma_mod_bound(len as int, 4);
        lemma_mod_multiples_basic((len / 4) as int, 4);
        assert(data@.take(0) =~= Seq::<u8>::empty());
    }
    let mut i: usize = 0;
    while len4 - i >= CHUNK_SIZE
        invariant
            i <= len4 <= len,
            len == data@.len(),
            (len4 - i) % 4 == 0,
            a32 < MOD,
            b32 < MOD,
            a32 as int == checksum_pair(a, b, data@.take(i as int)).0,
            b32 as int == checksum_pair(a, b, data@.take(i as int)).1,
        decreases len4 - i,
    {
        let ghost sa = a32 as int;
        let ghost sb = b32 as int;
        let end = i + CHUNK_SIZE;
        let mut v = Lanes { a0: 0, a1: 0, a2: 0, a3: 0, b0: 0, b1: 0, b2: 0, b3: 0 };
        accumulate(&mut v, data, i, end);
        fold_lanes(&mut a32, &mut b32, v, CHUNK_SIZE,
            Ghost(data@.subrange(i as int, end as int)));
        proof {
            glue_chunk(a, b, data@, i as int, end as int, sa, sb);
        }
        i = end;
    }
    // Remainder: the whole four-byte groups first.
    let ghost sa = a32 as int;
    let ghost sb = b32 as int;
    let mut v = Lanes { a0: 0, a1: 0, a2: 0, a3: 0, b0: 0, b1: 0, b2: 0, b3: 0 };
    accumulate(&mut v, data, i, len4);
    fold_lanes(&mut a32, &mut b32, v, len4 - i, Ghost(data@.subrange(i as int, len4 as int)));
    proof {
        glue_chunk(a, b, data@, i as int, len4 as int, sa, sb);
    }
    // Then the trailing bytes, one at a time.
    let ghost sa2 = a32 as int;
    let ghost sb2 = b32 as int;
    let mut j = len4;
    while j < len
        invariant
            len4 <= j <= len,
            len == data@.len(),
            len - len4 < 4,
            0 <= sa2 < MOD,
            0 <= sb2 < MOD,
            a32 as int == raw_update(sa2, sb2, data@.subrange(len4 as int, j as int)).0,
            b32 as int == raw_update(sa2, sb2, data@.subrange(len4 as int, j as int)).1,
        decreases len - j,
    {
        proof {
            let sub1 = data@.subrange(len4 as int, j as int + 1);
            assert(sub1.drop_last() =~= data@.subrange(len4 as int, j as int));
            lemma_nmax_block_fits(sa2, sb2, sub1);
        }
        a32 = a32 + (data[j] as u32);
        b32 = b32 + a32;
        j = j + 1;
    }
    a32 = a32 % MOD;
    b32 = b32 % MOD;
    proof {
        glue_chunk(a, b, data@, len4 as int, len as int, sa2, sb2);
        assert(data@.take(len as int) =~= data@);
    }
    (a32 as u16, b32 as u16)
}

/// Offer this engine to the dispatcher when the host supports it; this
/// module's engine is portable code, so the probe always succeeds.
pub fn get_imp() -> (r: Option<Engine>)
    ensures
        r == Some(Engine::Quad),
{
    if Engine::Quad.is_supported() {
        Some(Engine::Quad)
    } else {
        None
    }
}

} // verus!
