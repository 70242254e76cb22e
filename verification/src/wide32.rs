//! The 32-byte-block wide engine.
//!
//! This engine sums in the order of the 128-bit data-parallel
//! implementations: within a run of whole 32-byte blocks it keeps, besides
//! the running byte sum `av` and the dot products gathered in `bv`, a
//! deferred positional carry `p`. Before each block, `p` absorbs the byte
//! sum gathered so far; only once the run ends is `32 * p` folded into the
//! sum-of-sums, which restores exactly the position weighting the defining
//! recurrence gives each byte. Seeding `p` with `a` times the number of
//! blocks accounts for the `a` the recurrence adds once per byte.

use vstd::prelude::*;
use crate::engine::Engine;
use vstd::arithmetic::div_mod::{lemma_fundamental_div_mod, lemma_mod_bound};
use crate::checksum::{
    MOD, NMAX, checksum_pair, dot_from, glue_chunk, lemma_dot_from_weighted,
    lemma_nmax_block_fits, lemma_raw_update_closed, lemma_raw_update_concat, raw_update,
    sum_bytes, weighted_sum,
};

verus! {

/// The number of bytes one block step folds.
pub const BLOCK_SIZE: usize = 32;

/// The block span between two modular reductions: `NMAX` rounded down to a
/// whole number of blocks.
pub const CHUNK_SIZE: usize = (NMAX / BLOCK_SIZE) * BLOCK_SIZE;

/// Fold the whole 32-byte blocks of `data[start..end)` into the unreduced
/// accumulators using the deferred-carry order, and return the index where
/// the remaining partial block starts.
fn reduce_add_blocks(a: &mut u32, b: &mut u32, data: &[u8], start: usize, end: usize) -> (tail: usize)
    requires
        start <= end <= data@.len(),
        end - start <= CHUNK_SIZE,
        *old(a) < 0x10000,
        *old(b) < 0x10000,
    ensures
        start <= tail <= end,
        end - tail == (end - start) % (BLOCK_SIZE as int),
        *final(a) as int == raw_update(
            *old(a) as int, *old(b) as int,
            data@.subrange(start as int, tail as int),
        ).0,
        *final(b) as int == raw_update(
            *old(a) as int, *old(b) as int,
            data@.subrange(start as int, tail as int),
        ).1,
{
    let ghost sa = *a as int;
    let ghost sb = *b as int;
    if end - start < BLOCK_SIZE {
        proof {
            vstd::arithmetic::div_mod::lemma_small_mod((end - start) as nat, BLOCK_SIZE as nat);
            assert(data@.subrange(start as int, start as int) =~= Seq::<u8>::empty());
        }
        return start;
    }
    let n_blocks = (end - start) / BLOCK_SIZE;
    let blocks_end = start + n_blocks * BLOCK_SIZE;
    proof {
        lemma_fundamental_div_mod((end - start) as int, BLOCK_SIZE as int);
        lemma_mod_bound((end - start) as int, BLOCK_SIZE as int);
        assert(n_blocks <= 173) by {
            vstd::arithmetic::div_mod::lemma_div_is_ordered(
                (end - start) as int, CHUNK_SIZE as int, BLOCK_SIZE as int);
        }
    }
    let ghost n = n_blocks as int;
    proof {
        assert((*a as int) * (n_blocks as int) <= 65535 * 173) by (nonlinear_arith)
            requires *a < 0x10000, 0 <= n_blocks <= 173;
    }
    let mut p: u32 = *a * (n_blocks as u32);
    let mut av: u32 = 0;
    let mut bv: u32 = *b;
    let mut k = start;
    let ghost mut j: int = 0;
    proof {
        assert(data@.subrange(start as int, start as int) =~= Seq::<u8>::empty());
        assert(2 * (sa * n) <= 2 * 65535 * 173) by (nonlinear_arith)
            requires 0 <= sa < 0x10000, 0 <= n <= 173;
    }
    while k < blocks_end
        invariant
            start <= k <= blocks_end <= end <= data@.len(),
            end - start <= CHUNK_SIZE,
            0 <= sa < 0x10000,
            0 <= sb < 0x10000,
            1 <= n <= 173,
            blocks_end - start == n * (BLOCK_SIZE as int),
            k - start == j * (BLOCK_SIZE as int),
            0 <= j <= n,
            sa * n <= p,
            2 * (p as int) <= 2 * (sa * n) + 8160 * j * (j - 1),
            bv <= 0x10000 + 261120 * j,
            (sa + av) as int == raw_update(sa, sb, data@.subrange(start as int, k as int)).0,
            raw_update(sa, sb, data@.subrange(start as int, k as int)).1
                == bv + 32 * sa * j + 32 * (p - sa * n),
        decreases blocks_end - k,
    {
        let ghost block = data@.subrange(k as int, k as int + BLOCK_SIZE);
        proof {
            assert(k + BLOCK_SIZE <= blocks_end) by (nonlinear_arith)
                requires
                    k - start == j * 32,
                    blocks_end - start == n * 32,
                    j < n;
        }
        let mut s: u32 = 0;
        let mut d: u32 = 0;
        let mut ii: usize = 0;
        while ii < BLOCK_SIZE
            invariant
                ii <= BLOCK_SIZE,
                k + BLOCK_SIZE <= end <= data@.len(),
                block == data@.subrange(k as int, k as int + BLOCK_SIZE),
                s as int == sum_bytes(block.take(ii as int)),
                d as int == dot_from(block.take(ii as int), BLOCK_SIZE as int),
                s <= 255 * ii,
                d <= 8160 * ii,
            decreases BLOCK_SIZE - ii,
        {
            proof {
                assert(block.take(ii as int + 1).drop_last() =~= block.take(ii as int));
                assert(block.take(ii as int + 1).last() == data@[k as int + ii]);
            }
            let x = data[k + ii] as u32;
            let w = (BLOCK_SIZE - ii) as u32;
            proof {
                assert(w * x <= 8160) by (nonlinear_arith)
                    requires w <= 32, x <= 255;
            }
            s = s + x;
            d = d + w * x;
            ii = ii + 1;
        }
        proof {
            assert(block.take(BLOCK_SIZE as int) =~= block);
            lemma_dot_from_weighted(block);
            let before = data@.subrange(start as int, k as int);
            let after = data@.subrange(start as int, k as int + BLOCK_SIZE);
            assert(before + block =~= after);
            lemma_raw_update_concat(sa, sb, before, block);
            lemma_raw_update_closed(raw_update(sa, sb, before).0, raw_update(sa, sb, before).1, block);
            let st0 = raw_update(sa, sb, before);
            let st1 = raw_update(sa, sb, after);
            assert(st1.0 == st0.0 + sum_bytes(block));
            assert(st1.1 == st0.1 + 32 * st0.0 + weighted_sum(block));
            lemma_nmax_block_fits(sa, sb, before);
            lemma_nmax_block_fits(sa, sb, after);
            // The carry absorbs one more copy of the bytes summed so far;
            // its triangular bound steps with the block count.
            assert(2 * (sa * n) + 8160 * j * (j - 1) + 2 * (8160 * j)
                == 2 * (sa * n) + 8160 * (j + 1) * j) by (nonlinear_arith);
            assert(2 * (sa * n) <= 2 * 65535 * 173) by (nonlinear_arith)
                requires 0 <= sa < 0x10000, 0 <= n <= 173;
            assert(av <= 8160 * j) by {
                assert(st0.0 <= sa + 255 * (k - start));
                assert(255 * (j * 32) == 8160 * j) by (nonlinear_arith);
            }
        }
        p = p + av;
        av = av + s;
        bv = bv + d;
        k = k + BLOCK_SIZE;
        proof {
            j = j + 1;
            assert(32 * sa * (j - 1) + 32 * sa == 32 * sa * j) by (nonlinear_arith);
        }
    }
    proof {
        assert(j == n) by (nonlinear_arith)
            requires
                k - start == j * 32,
                blocks_end - start == n * 32,
                k == blocks_end;
        let run = data@.subrange(start as int, blocks_end as int);
        lemma_nmax_block_fits(sa, sb, run);
        assert(raw_update(sa, sb, run).1 == bv + 32 * (p as int)) by {
            assert(32 * sa * n + 32 * ((p as int) - sa * n) == 32 * (p as int)) by (nonlinear_arith);
        }
        assert(2 * (sa * n) <= 2 * 65535 * 173) by (nonlinear_arith)
            requires 0 <= sa < 0x10000, 0 <= n <= 173;
        assert(8160 * j * (j - 1) <= 8160 * 173 * 172) by (nonlinear_arith)
            requires 0 <= j <= 173;
    }
    *a = *a + av;
    *b = bv + p * 32;
    blocks_end
}

/// Advance the accumulators over one whole chunk starting at `start`, then
/// reduce them.
fn update_chunk_block(a: &mut u32, b: &mut u32, data: &[u8], start: usize)
    requires
        start + CHUNK_SIZE <= data@.len(),
        *old(a) < MOD,
        *old(b) < MOD,
    ensures
        *final(a) as int == raw_update(
            *old(a) as int, *old(b) as int,
            data@.subrange(start as int, start as int + CHUNK_SIZE),
        ).0 % (MOD as int),
        *final(b) as int == raw_update(
            *old(a) as int, *old(b) as int,
            data@.subrange(start as int, start as int + CHUNK_SIZE),
        ).1 % (MOD as int),
        *final(a) < MOD,
        *final(b) < MOD,
{
    proof {
        vstd::slice::axiom_spec_len(data);
    }
    let end = start + CHUNK_SIZE;
    let tail = reduce_add_blocks(a, b, data, start, end);
    proof {
        assert(tail == end);
        lemma_mod_bound(raw_update(*old(a) as int, *old(b) as int,
            data@.subrange(start as int, start as int + CHUNK_SIZE)).0, MOD as int);
        lemma_mod_bound(raw_update(*old(a) as int, *old(b) as int,
            data@.subrange(start as int, start as int + CHUNK_SIZE)).1, MOD as int);
    }
    *a = *a % MOD;
    *b = *b % MOD;
}

/// Advance the accumulators over the trailing partial chunk
/// `data[start..end)`: whole blocks first, the last few bytes one at a
/// time, then reduce.
fn update_block(a: &mut u32, b: &mut u32, data: &[u8], start: usize, end: usize)
    requires
        start <= end <= data@.len(),
        end - start <= CHUNK_SIZE,
        *old(a) < MOD,
        *old(b) < MOD,
    ensures
        *final(a) as int == raw_update(
            *old(a) as int, *old(b) as int,
            data@.subrange(start as int, end as int),
        ).0 % (MOD as int),
        *final(b) as int == raw_update(
            *old(a) as int, *old(b) as int,
            data@.subrange(start as int, end as int),
        ).1 % (MOD as int),
        *final(a) < MOD,
        *final(b) < MOD,
{
    let ghost sa = *a as int;
    let ghost sb = *b as int;
    let tail = reduce_add_blocks(a, b, data, start, end);
    let mut j = tail;
    while j < end
        invariant
            start <= tail <= j <= end <= data@.len(),
            end - start <= CHUNK_SIZE,
            0 <= sa < MOD,
            0 <= sb < MOD,
            *a as int == raw_update(sa, sb, data@.subrange(start as int, j as int)).0,
            *b as int == raw_update(sa, sb, data@.subrange(start as int, j as int)).1,
        decreases end - j,
    {
        proof {
            let sub1 = data@.subrange(start as int, j as int + 1);
            assert(sub1.drop_last() =~= data@.subrange(start as int, j as int));
            lemma_nmax_block_fits(sa, sb, sub1);
        }
        let x = data[j] as u32;
        *a = *a + x;
        *b = *b + *a;
        j = j + 1;
    }
    proof {
        lemma_mod_bound(raw_update(sa, sb, data@.subrange(start as int, end as int)).0, MOD as int);
        lemma_mod_bound(raw_update(sa, sb, data@.subrange(start as int, end as int)).1, MOD as int);
    }
    *a = *a % MOD;
    *b = *b % MOD;
}

/// Advance the checksum state `(a, b)` over `data` in the 32-byte block
/// order and return the reduced state.
pub fn update(a: u16, b: u16, data: &[u8]) -> (r: (u16, u16))
    ensures
        r.0 as int == checksum_pair(a, b, data@).0,
        r.1 as int == checksum_pair(a, b, data@).1,
{
    let mut a32: u32 = (a as u32) % MOD;
    let mut b32: u32 = (b as u32) % MOD;
    let len = data.len();
    let mut i: usize = 0;
    proof {
        assert(data@.take(0) =~= Seq::<u8>::empty());
    }
    while len - i >= CHUNK_SIZE
        invariant
            i <= len,
            len == data@.len(),
            a32 < MOD,
            b32 < MOD,
            a32 as int == checksum_pair(a, b, data@.take(i as int)).0,
            b32 as int == checksum_pair(a, b, data@.take(i as int)).1,
        decreases len - i,
    {
        let ghost sa = a32 as int;
        let ghost sb = b32 as int;
        update_chunk_block(&mut a32, &mut b32, data, i);
        proof {
            glue_chunk(a, b, data@, i as int, i as int + CHUNK_SIZE, sa, sb);
        }
        i = i + CHUNK_SIZE;
    }
    let ghost sa = a32 as int;
    let ghost sb = b32 as int;
    update_block(&mut a32, &mut b32, data, i, len);
    proof {
        glue_chunk(a, b, data@, i as int, len as int, sa, sb);
        assert(data@.take(len as int) =~= data@);
    }
    (a32 as u16, b32 as u16)
}

/// Offer this engine to the dispatcher when the host supports it; this
/// module's engine is portable code, so the probe always succeeds.
pub fn get_imp() -> (r: Option<Engine>)
    ensures
        r == Some(Engine::Wide32),
{
    if Engine::Wide32.is_supported() {
        Some(Engine::Wide32)
    } else {
        None
    }
}

} // verus!
