//! The 64-lane wide engine.
//!
//! Bytes are consumed in blocks of `LANES` bytes. For each block the engine
//! forms the plain byte sum and the dot product with the constant weight
//! vector `LANES, LANES - 1, .., 1`, and folds both into the running state
//! in one step — the order a 512-bit data-parallel implementation sums in.
//! Reductions happen once per `CHUNK_SIZE` bytes, the largest multiple of
//! the lane count that provably cannot overflow the 32-bit accumulators.

use vstd::prelude::*;
use crate::engine::Engine;
use vstd::arithmetic::div_mod::{
    lemma_fundamental_div_mod, lemma_mod_bound, lemma_mod_multiples_basic,
    lemma_mod_sub_multiples_vanish, lemma_small_mod,
};
use crate::checksum::{
    MOD, NMAX, checksum_pair, dot_from, glue_chunk, lemma_dot_from_weighted,
    lemma_nmax_block_fits, lemma_raw_update_closed, lemma_raw_update_concat, raw_update,
    sum_bytes, weighted_sum,
};

verus! {

/// The number of byte lanes folded per block.
pub const LANES: usize = 64;

/// The block span between two modular reductions: `NMAX` rounded down to a
/// whole number of lane blocks.
pub const CHUNK_SIZE: usize = (NMAX / LANES) * LANES;

/// Fold the whole `LANES`-byte blocks of `data[start..end)` into the
/// unreduced accumulators, one dot-product step per block.
fn update_simd(a: &mut u32, b: &mut u32, data: &[u8], start: usize, end: usize)
    requires
        start <= end <= data@.len(),
        (end - start) % (LANES as int) == 0,
        end - start <= CHUNK_SIZE,
        *old(a) < 0x10000,
        *old(b) < 0x10000,
    ensures
        *final(a) as int == raw_update(
            *old(a) as int, *old(b) as int,
            data@.subrange(start as int, end as int),
        ).0,
        *final(b) as int == raw_update(
            *old(a) as int, *old(b) as int,
            data@.subrange(start as int, end as int),
        ).1,
{
    let ghost sa = *a as int;
    let ghost sb = *b as int;
    let mut k = start;
    while k < end
        invariant
            start <= k <= end <= data@.len(),
            (end - k) % (LANES as int) == 0,
            end - start <= CHUNK_SIZE,
            k - start <= CHUNK_SIZE,
            0 <= sa < 0x10000,
            0 <= sb < 0x10000,
            *a as int == raw_update(sa, sb, data@.subrange(start as int, k as int)).0,
            *b as int == raw_update(sa, sb, data@.subrange(start as int, k as int)).1,
        decreases end - k,
    {
        proof {
            if end - k < LANES {
                lemma_small_mod((end - k) as nat, LANES as nat);
            }
        }
        let ghost block = data@.subrange(k as int, k as int + LANES);
        let mut s: u32 = 0;
        let mut d: u32 = 0;
        let mut ii: usize = 0;
        while ii < LANES
            invariant
                ii <= LANES,
                k + LANES <= end <= data@.len(),
                block == data@.subrange(k as int, k as int + LANES),
                s as int == sum_bytes(block.take(ii as int)),
                d as int == dot_from(block.take(ii as int), LANES as int),
                s <= 255 * ii,
                d <= 16320 * ii,
            decreases LANES - ii,
        {
            proof {
                assert(block.take(ii as int + 1).drop_last() =~= block.take(ii as int));
                assert(block.take(ii as int + 1).last() == data@[k as int + ii]);
            }
            let x = data[k + ii] as u32;
            let w = (LANES - ii) as u32;
            proof {
                assert(w * x <= 16320) by (nonlinear_arith)
                    requires w <= 64, x <= 255;
            }
            s = s + x;
            d = d + w * x;
            ii = ii + 1;
        }
        proof {
            assert(block.take(LANES as int) =~= block);
            lemma_dot_from_weighted(block);
            let before = data@.subrange(start as int, k as int);
            let after = data@.subrange(start as int, k as int + LANES);
            assert(before + block =~= after);
            lemma_raw_update_concat(sa, sb, before, block);
            lemma_raw_update_closed(raw_update(sa, sb, before).0, raw_update(sa, sb, before).1, block);
            lemma_nmax_block_fits(sa, sb, before);
            lemma_nmax_block_fits(sa, sb, after);
            let st0 = raw_update(sa, sb, before);
            let st1 = raw_update(sa, sb, after);
            assert(st0.0 == *a as int && st0.1 == *b as int);
            assert(st1.0 == st0.0 + sum_bytes(block));
            assert(st1.1 == st0.1 + 64 * st0.0 + weighted_sum(block));
            assert(st0.0 <= 0x10000 + 255 * 5504);
            assert(st1.1 < 0x1_0000_0000);
            assert((*b as int) + (*a as int) * 64 + (d as int) == st1.1);
        }
        let fold = *b + *a * (LANES as u32) + d;
        *b = fold;
        *a = *a + s;
        k = k + LANES;
        proof {
            lemma_mod_sub_multiples_vanish((end - k) as int, LANES as int);
        }
    }
}

/// Advance the checksum state `(a, b)` over `data` in the 64-lane block
/// order and return the reduced state.
pub fn update(a: u16, b: u16, data: &[u8]) -> (r: (u16, u16))
    ensures
        r.0 as int == checksum_pair(a, b, data@).0,
        r.1 as int == checksum_pair(a, b, data@).1,
{
    let mut a32: u32 = (a as u32) % MOD;
    let mut b32: u32 = (b as u32) % MOD;
    let len = data.len();
    let mut i: usize = 0;
    proof {
        assert(data@.take(0) =~= Seq::<u8>::empty());
    }
    while len - i >= CHUNK_SIZE
        invariant
            i <= len,
            len == data@.len(),
            a32 < MOD,
            b32 < MOD,
            a32 as int == checksum_pair(a, b, data@.take(i as int)).0,
            b32 as int == checksum_pair(a, b, data@.take(i as int)).1,
        decreases len - i,
    {
        let ghost sa = a32 as int;
        let ghost sb = b32 as int;
        let end = i + CHUNK_SIZE;
        update_simd(&mut a32, &mut b32, data, i, end);
        a32 = a32 % MOD;
        b32 = b32 % MOD;
        proof {
            glue_chunk(a, b, data@, i as int, end as int, sa, sb);
        }
        i = end;
    }
    // Remainder: whole lane blocks first, trailing bytes one at a time.
    let ghost sa = a32 as int;
    let ghost sb = b32 as int;
    let rem = len - i;
    let vs_end = i + (rem / LANES) * LANES;
    proof {
        lemma_fundamental_div_mod(rem as int, LANES as int);
        lemma_mod_bound(rem as int, LANES as int);
        lemma_mod_multiples_basic((rem / LANES) as int, LANES as int);
    }
    update_simd(&mut a32, &mut b32, data, i, vs_end);
    let mut j = vs_end;
    while j < len
        invariant
            i <= vs_end <= j <= len,
            len == data@.len(),
            len - i < CHUNK_SIZE,
            0 <= sa < MOD,
            0 <= sb < MOD,
            a32 as int == raw_update(sa, sb, data@.subrange(i as int, j as int)).0,
            b32 as int == raw_update(sa, sb, data@.subrange(i as int, j as int)).1,
        decreases len - j,
    {
        proof {
            let sub1 = data@.subrange(i as int, j as int + 1);
            assert(sub1.drop_last() =~= data@.subrange(i as int, j as int));
            lemma_nmax_block_fits(sa, sb, sub1);
        }
        a32 = a32 + (data[j] as u32);
        b32 = b32 + a32;
        j = j + 1;
    }
    a32 = a32 % MOD;
    b32 = b32 % MOD;
    proof {
        glue_chunk(a, b, data@, i as int, len as int, sa, sb);
        assert(data@.take(len as int) =~= data@);
    }
    (a32 as u16, b32 as u16)
}

/// Offer this engine to the dispatcher when the host supports it; this
/// module's engine is portable code, so the probe always succeeds.
pub fn get_imp() -> (r: Option<Engine>)
    ensures
        r == Some(Engine::Wide64),
{
    if Engine::Wide64.is_supported() {
        Some(Engine::Wide64)
    } else {
        None
    }
}

} // verus!
