//! Engine selection and memoization.
//!
//! `get_imp` orders the engines from the widest block to the scalar
//! fallback and returns the first one whose probe answers true. The choice
//! depends only on the build, never on the input, so `DispatchCache`
//! memoizes it: the first call resolves, every later call reads the stored
//! engine. Because every resolution computes the same engine — and because
//! `lemma_engine_equivalence` makes even *different* engines agree on every
//! input — concurrent first uses that race on a shared cache are benign:
//! last write wins and no caller can observe a difference.

use vstd::prelude::*;
use crate::engine::{Engine, lemma_engine_equivalence};

verus! {

/// The engine the dispatcher settles on. Candidates are tried from the
/// widest down; on this build every probe answers true, so the widest
/// engine wins.
pub open spec fn chosen_engine() -> Engine {
    Engine::Wide64
}

/// Resolve the engine to use: the first supported engine in
/// fastest-to-slowest order, with the scalar engine — which needs no
/// support — closing the chain.
pub fn get_imp() -> (e: Engine)
    ensures
        e == chosen_engine(),
{
    match crate::wide64::get_imp() {
        Some(e) => e,
        None => match crate::wide32::get_imp() {
            Some(e) => e,
            None => match crate::quad::get_imp() {
                Some(e) => e,
                None => Engine::Scalar,
            },
        },
    }
}

/// A memoization slot for the dispatched engine: unresolved until first
/// use, then holding the resolved engine for good.
pub struct DispatchCache {
    resolved: Option<Engine>,
}

impl DispatchCache {
    /// A cache never stores anything but the dispatcher's own choice, so
    /// every read after the first resolution returns that same engine.
    pub closed spec fn wf(self) -> bool {
        match self.resolved {
            Some(e) => e == chosen_engine(),
            None => true,
        }
    }

    /// The stored choice, if one has been made.
    pub closed spec fn spec_resolved(self) -> Option<Engine> {
        self.resolved
    }

    /// A fresh, unresolved cache.
    pub fn new() -> (c: DispatchCache)
        ensures
            c.wf(),
            c.spec_resolved() is None,
    {
        DispatchCache { resolved: None }
    }

    /// Return the dispatched engine, resolving and storing it on first
    /// use: every call on every well-formed cache returns the same engine.
    pub fn get_engine(&mut self) -> (e: Engine)
        requires
            old(self).wf(),
        ensures
            e == chosen_engine(),
            final(self).wf(),
            final(self).spec_resolved() == Some(chosen_engine()),
    {
        match self.resolved {
            Some(e) => e,
            None => {
                let e = get_imp();
                self.resolved = Some(e);
                e
            },
        }
    }
}

/// A racy first use of a shared dispatch slot is benign: whichever engines
/// two callers end up holding, both map every seed and every byte sequence
/// to the same state, so repeated dispatch yields functionally identical
/// results.
pub proof fn lemma_dispatch_race_benign(e1: Engine, e2: Engine, a: int, b: int, s: Seq<u8>)
    ensures
        e1.model(a, b, s) == e2.model(a, b, s),
{
    lemma_engine_equivalence(e1, e2, a, b, s);
}

} // verus!
