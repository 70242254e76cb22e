//! The engine strategy type.
//!
//! An `Engine` names one update order: the byte-at-a-time scalar order or
//! one of the wide block orders. Each has its own reduction span and block
//! width, yet `lemma_engine_equivalence` proves that all of them map every
//! seed and every byte sequence to the same state — the one the per-byte
//! defining recurrence reaches. The dispatcher may therefore hand out any
//! engine without changing a single checksum.

use vstd::prelude::*;
use crate::checksum::{
    MOD, checksum_pair, chunked_blocks_update, lemma_chunked_blocks_is_defining, spec_update,
};
use crate::quad::{lemma_quad_model_is_defining, quad_model};

verus! {

/// One update algorithm, stateless and pure: engines may be copied and
/// shared freely, and independent accumulators never interfere.
#[derive(Clone, Copy, PartialEq, Eq, Debug, Structural)]
pub enum Engine {
    /// Folds 64-byte blocks by dot product, the 512-bit lane order.
    Wide64,
    /// Folds 32-byte blocks through a deferred positional carry, the
    /// 128-bit lane order.
    Wide32,
    /// Deals bytes round-robin into four interleaved lanes, the order of
    /// a 128-bit implementation built from packed 32-bit adders.
    Quad,
    /// The byte-at-a-time reference order; always available.
    Scalar,
}

impl Engine {
    /// How many bytes one block step of this engine folds.
    pub open spec fn lanes(self) -> nat {
        match self {
            Engine::Wide64 => 64,
            Engine::Wide32 => 32,
            Engine::Quad => 4,
            Engine::Scalar => 1,
        }
    }

    /// The span between two modular reductions: the largest whole number
    /// of blocks that provably cannot overflow the 32-bit accumulators.
    pub open spec fn chunk_size(self) -> nat {
        match self {
            Engine::Wide64 => 5504,
            Engine::Wide32 => 5536,
            Engine::Quad => 22208,
            Engine::Scalar => 5552,
        }
    }

    /// The summation order of this engine as a mathematical function. The
    /// block engines cut the stream at their reduction span, fold each
    /// chunk's whole lane blocks by dot-product steps and its tail byte
    /// by byte, and reduce once per chunk and once at the end; the
    /// interleaved engine deals the bytes into four lanes instead.
    pub open spec fn model(self, a: int, b: int, s: Seq<u8>) -> (int, int) {
        match self {
            Engine::Quad => quad_model(a, b, s),
            _ => chunked_blocks_update(a, b, s, self.chunk_size(), self.lanes()),
        }
    }

    /// True when the running host can execute this engine. Every engine in
    /// this library is portable code, so support is unconditional; the
    /// probe is kept because the dispatch chain is built around it.
    pub fn is_supported(self) -> (r: bool)
        ensures
            r,
    {
        true
    }

    /// Advance the checksum state `(a, b)` over `data` with this engine.
    /// Whichever engine runs, the result is the state of the defining
    /// recurrence, and therefore also this engine's own summation order.
    pub fn update(self, a: u16, b: u16, data: &[u8]) -> (r: (u16, u16))
        ensures
            r.0 as int == checksum_pair(a, b, data@).0,
            r.1 as int == checksum_pair(a, b, data@).1,
            r.0 as int == self.model(a as int, b as int, data@).0,
            r.1 as int == self.model(a as int, b as int, data@).1,
    {
        proof {
            lemma_model_is_defining(self, a as int, b as int, data@);
        }
        match self {
            Engine::Wide64 => crate::wide64::update(a, b, data),
            Engine::Wide32 => crate::wide32::update(a, b, data),
            Engine::Quad => crate::quad::update(a, b, data),
            Engine::Scalar => crate::scalar::update(a, b, data),
        }
    }
}

/// Every engine model is the defining per-byte recurrence from the reduced
/// seeds: each order is a reassociation of the unreduced sums, and
/// reducing only at chunk ends does not change the reduced result.
pub proof fn lemma_model_is_defining(e: Engine, a: int, b: int, s: Seq<u8>)
    ensures
        e.model(a, b, s) == spec_update(a % (MOD as int), b % (MOD as int), s),
{
    match e {
        Engine::Quad => lemma_quad_model_is_defining(a, b, s),
        _ => lemma_chunked_blocks_is_defining(a, b, s, e.chunk_size(), e.lanes()),
    }
}

/// All engines compute the same function: for every pair of engines, every
/// seed state and every byte sequence, the two summation orders reach the
/// same state.
pub proof fn lemma_engine_equivalence(e1: Engine, e2: Engine, a: int, b: int, s: Seq<u8>)
    ensures
        e1.model(a, b, s) == e2.model(a, b, s),
{
    lemma_model_is_defining(e1, a, b, s);
    lemma_model_is_defining(e2, a, b, s);
}

} // verus!
