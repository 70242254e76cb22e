//! A verified Adler-32 rolling checksum.
//!
//! The crate offers a family of engines that all compute the Adler-32
//! checksum of a byte stream: a byte-at-a-time scalar engine, two
//! wide-lane engines that fold whole blocks by dot product, and a
//! four-lane interleaved engine — each summing in the order some
//! data-parallel implementation would. Every engine is proved to return
//! exactly the state of the per-byte defining recurrence, so the
//! dispatcher may hand out whichever engine it picks without any
//! observable difference.
//!
//! The public entry point is [`Adler32`]: construct one, feed it bytes
//! with `update` in as many pieces as convenient, and take the checksum
//! with `finalize`, which also resets the accumulator for reuse.

use vstd::prelude::*;
use vstd::arithmetic::div_mod::lemma_small_mod;
use crate::checksum::{MOD, lemma_spec_update_bounds, spec_update};
use crate::dispatch::chosen_engine;
use crate::engine::Engine;

pub mod checksum;
pub mod dispatch;
pub mod engine;
pub mod quad;
pub mod scalar;
pub mod wide32;
pub mod wide64;

verus! {

/// A rolling hash generator: the reduced running sums of one checksum
/// session, bound to the engine picked when it was constructed.
#[derive(Clone)]
pub struct Adler32 {
    low: u16,
    high: u16,
    engine: Engine,
}

impl Adler32 {
    /// The running byte sum `a`, kept in the low half of the checksum.
    pub closed spec fn sum_a(self) -> int {
        self.low as int
    }

    /// The running sum of sums `b`, kept in the high half of the checksum.
    pub closed spec fn sum_b(self) -> int {
        self.high as int
    }

    /// The engine this accumulator is bound to.
    pub closed spec fn spec_engine(self) -> Engine {
        self.engine
    }

    /// Between calls both sums are reduced modulo `MOD`.
    pub closed spec fn wf(self) -> bool {
        self.low < MOD && self.high < MOD
    }

    /// Construct a fresh accumulator: identity state `(1, 0)`, bound to
    /// the dispatched engine.
    pub fn new() -> (r: Adler32)
        ensures
            r.wf(),
            r.sum_a() == 1,
            r.sum_b() == 0,
            r.spec_engine() == chosen_engine(),
    {
        Adler32 { low: 1, high: 0, engine: crate::dispatch::get_imp() }
    }

    /// Fold `data` into the running state: the new sums are the state the
    /// defining recurrence reaches from the old ones. Feeding a stream in
    /// any pieces therefore reaches the same state as feeding it whole.
    pub fn update(&mut self, data: &[u8])
        requires
            old(self).wf(),
        ensures
            final(self).wf(),
            final(self).sum_a() == spec_update(old(self).sum_a(), old(self).sum_b(), data@).0,
            final(self).sum_b() == spec_update(old(self).sum_a(), old(self).sum_b(), data@).1,
            final(self).spec_engine() == old(self).spec_engine(),
    {
        let r = self.engine.update(self.low, self.high, data);
        proof {
            lemma_small_mod(self.low as nat, MOD as nat);
            lemma_small_mod(self.high as nat, MOD as nat);
            lemma_spec_update_bounds(self.low as int, self.high as int, data@);
        }
        self.low = r.0;
        self.high = r.1;
    }

    /// Return the checksum of the bytes folded so far — `b` in the high 16
    /// bits, `a` in the low 16 — and reset the state to the identity, so
    /// the same accumulator can start an independent session.
    pub fn finalize(&mut self) -> (checksum: u32)
        requires
            old(self).wf(),
        ensures
            checksum == old(self).sum_b() * 0x10000 + old(self).sum_a(),
            final(self).wf(),
            final(self).sum_a() == 1,
            final(self).sum_b() == 0,
            final(self).spec_engine() == old(self).spec_engine(),
    {
        let h = self.high as u32;
        let l = self.low as u32;
        proof {
            assert(h < 0x10000 && l < 0x10000 ==> (h << 16u32 | l) == h * 0x10000 + l)
                by (bit_vector);
        }
        let checksum = h << 16u32 | l;
        self.low = 1;
        self.high = 0;
        checksum
    }
}

impl Default for Adler32 {
    /// The same accumulator `new` builds: identity state, dispatched
    /// engine.
    fn default() -> (r: Adler32)
        ensures
            r.wf(),
            r.sum_a() == 1,
            r.sum_b() == 0,
            r.spec_engine() == chosen_engine(),
    {
        Adler32::new()
    }
}

} // verus!
