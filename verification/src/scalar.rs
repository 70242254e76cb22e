//! The byte-at-a-time reference engine.
//!
//! Bytes are folded into 32-bit accumulators one at a time; a modular
//! reduction happens only after each block of at most `NMAX` bytes, the
//! largest block for which the unreduced sums provably stay below `2^32`.

use vstd::prelude::*;
use crate::checksum::{
    MOD, NMAX, checksum_pair, glue_chunk, lemma_nmax_block_fits, raw_update,
};

verus! {

/// Advance the checksum state `(a, b)` over `data`, byte by byte in blocks
/// of at most `NMAX` bytes, and return the reduced state.
pub fn update(a: u16, b: u16, data: &[u8]) -> (r: (u16, u16))
    ensures
        r.0 as int == checksum_pair(a, b, data@).0,
        r.1 as int == checksum_pair(a, b, data@).1,
{
    let mut a32: u32 = (a as u32) % MOD;
    let mut b32: u32 = (b as u32) % MOD;
    let len = data.len();
    let mut i: usize = 0;
    proof {
        assert(data@.take(0) =~= Seq::<u8>::empty());
    }
    while i < len
        invariant
            i <= len,
            len == data@.len(),
            a32 < MOD,
            b32 < MOD,
            a32 as int == checksum_pair(a, b, data@.take(i as int)).0,
            b32 as int == checksum_pair(a, b, data@.take(i as int)).1,
        decreases len - i,
    {
        let end = if len - i > NMAX { i + NMAX } else { len };
        let ghost sa = a32 as int;
        let ghost sb = b32 as int;
        let mut j = i;
        while j < end
            invariant
                i <= j <= end <= len,
                end - i <= NMAX,
                len == data@.len(),
                0 <= sa < MOD,
                0 <= sb < MOD,
                a32 as int == raw_update(sa, sb, data@.subrange(i as int, j as int)).0,
                b32 as int == raw_update(sa, sb, data@.subrange(i as int, j as int)).1,
            decreases end - j,
        {
            proof {
                let sub1 = data@.subrange(i as int, j as int + 1);
                assert(sub1.drop_last() =~= data@.subrange(i as int, j as int));
                lemma_nmax_block_fits(sa, sb, sub1);
            }
            a32 = a32 + (data[j] as u32);
            b32 = b32 + a32;
            j = j + 1;
        }
        a32 = a32 % MOD;
        b32 = b32 % MOD;
        proof {
            glue_chunk(a, b, data@, i as int, end as int, sa, sb);
        }
        i = end;
    }
    proof {
        assert(data@.take(len as int) =~= data@);
    }
    (a32 as u16, b32 as u16)
}

} // verus!
