//! The public accumulator: identity, reset, streaming splits, and the
//! dispatch cache.

use simd_adler32::Adler32;
use simd_adler32::dispatch::DispatchCache;
use simd_adler32::engine::Engine;

/// A fresh accumulator holds the identity state `(1, 0)`, so finalizing it
/// at once yields 1.
#[test]
fn fresh_finalize_is_identity() {
    let mut adler = Adler32::new();
    assert_eq!(adler.finalize(), 1);
}

#[test]
fn single_update_session() {
    let mut adler = Adler32::new();
    adler.update(b"rust is pretty cool, man");
    assert_eq!(adler.finalize(), 1921255656);
}

/// After `finalize` the accumulator behaves exactly like a fresh one.
#[test]
fn reset_after_finalize() {
    let mut used = Adler32::new();
    used.update(b"a first, independent session");
    let first = used.finalize();
    used.update(b"Wikipedia");
    assert_eq!(used.finalize(), 0x11E60398);

    used.update(b"a first, independent session");
    assert_eq!(used.finalize(), first);

    let mut fresh = Adler32::new();
    fresh.update(b"Wikipedia");
    assert_eq!(fresh.finalize(), 0x11E60398);
}

/// Feeding a stream in two pieces gives the same checksum as feeding it
/// whole, for every split point tried.
#[test]
fn streaming_split_invariance() {
    let mut data = vec![0u8; 12000];
    rand::Rng::fill(&mut rand::thread_rng(), &mut data[..]);

    let mut whole = Adler32::new();
    whole.update(&data);
    let expected = whole.finalize();

    for &k in &[0usize, 1, 2, 63, 64, 100, 5503, 5504, 5536, 5552, 5553, 11999, 12000] {
        let mut split = Adler32::new();
        split.update(&data[..k]);
        split.update(&data[k..]);
        assert_eq!(split.finalize(), expected, "split at {}", k);
    }

    let mut trickle = Adler32::new();
    for chunk in data.chunks(997) {
        trickle.update(chunk);
    }
    assert_eq!(trickle.finalize(), expected);
}

#[test]
fn default_matches_new() {
    let mut by_default = Adler32::default();
    let mut by_new = Adler32::new();
    by_default.update(b"Wikipedia");
    by_new.update(b"Wikipedia");
    assert_eq!(by_default.finalize(), by_new.finalize());
}

/// Repeated dispatch always lands on the same engine, from one cache or
/// many, and the dispatched engine computes the same checksums as every
/// other engine.
#[test]
fn dispatch_cache_idempotence() {
    let mut first = DispatchCache::new();
    let mut second = DispatchCache::new();

    let e1 = first.get_engine();
    let e2 = first.get_engine();
    let e3 = second.get_engine();
    assert_eq!(e1, e2);
    assert_eq!(e1, e3);

    let mut data = vec![0u8; 30000];
    rand::Rng::fill(&mut rand::thread_rng(), &mut data[..]);
    let dispatched = e1.update(1, 0, &data);
    for engine in [Engine::Wide64, Engine::Wide32, Engine::Quad, Engine::Scalar] {
        assert_eq!(engine.update(1, 0, &data), dispatched);
    }
}

/// Engines agree pairwise from arbitrary (even unreduced) seed states, not
/// only from the identity.
#[test]
fn engine_equivalence_from_any_seed() {
    let mut data = vec![0u8; 7000];
    rand::Rng::fill(&mut rand::thread_rng(), &mut data[..]);

    for &(a, b) in &[(1u16, 0u16), (345, 678), (65520, 65520), (65535, 65535)] {
        let scalar = Engine::Scalar.update(a, b, &data);
        assert_eq!(Engine::Wide64.update(a, b, &data), scalar);
        assert_eq!(Engine::Wide32.update(a, b, &data), scalar);
        assert_eq!(Engine::Quad.update(a, b, &data), scalar);
    }
}
