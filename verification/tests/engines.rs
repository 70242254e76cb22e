//! Every engine against an independent Adler-32 oracle, on zero, constant
//! and random inputs, and around each engine's block and chunk thresholds.

use simd_adler32::engine::Engine;

fn assert_wide64_eq(data: &[u8]) {
    let (a, b) = simd_adler32::wide64::update(1, 0, data);
    let left = u32::from(b) << 16 | u32::from(a);
    let right = adler::adler32_slice(data);

    assert_eq!(left, right, "len({})", data.len());
}

fn assert_wide32_eq(data: &[u8]) {
    let (a, b) = simd_adler32::wide32::update(1, 0, data);
    let left = u32::from(b) << 16 | u32::from(a);
    let right = adler::adler32_slice(data);

    assert_eq!(left, right, "len({})", data.len());
}

fn assert_quad_eq(data: &[u8]) {
    let (a, b) = simd_adler32::quad::update(1, 0, data);
    let left = u32::from(b) << 16 | u32::from(a);
    let right = adler::adler32_slice(data);

    assert_eq!(left, right, "len({})", data.len());
}

fn assert_scalar_eq(data: &[u8]) {
    let (a, b) = simd_adler32::scalar::update(1, 0, data);
    let left = u32::from(b) << 16 | u32::from(a);
    let right = adler::adler32_slice(data);

    assert_eq!(left, right, "len({})", data.len());
}

#[test]
fn avx2_zeroes() {
    assert_wide64_eq(&[]);
    assert_wide64_eq(&[0]);
    assert_wide64_eq(&[0, 0]);
    assert_wide64_eq(&[0; 100]);
    assert_wide64_eq(&[0; 1024]);
    assert_wide64_eq(&vec![0; 1024 * 1024]);
}

#[test]
fn avx2_ones() {
    assert_wide64_eq(&[]);
    assert_wide64_eq(&[1]);
    assert_wide64_eq(&[1, 1]);
    assert_wide64_eq(&[1; 100]);
    assert_wide64_eq(&[1; 1024]);
    assert_wide64_eq(&vec![1; 1024 * 1024]);
}

#[test]
fn avx2_random() {
    let mut random = vec![0; 1024 * 1024];
    rand::Rng::fill(&mut rand::thread_rng(), &mut random[..]);

    assert_wide64_eq(&random[..1]);
    assert_wide64_eq(&random[..100]);
    assert_wide64_eq(&random[..1024]);
    assert_wide64_eq(&random[..1024 * 1024]);
}

/// Example calculation from https://en.wikipedia.org/wiki/Adler-32.
#[test]
fn avx2_wiki() {
    assert_wide64_eq(b"Wikipedia");
}

#[test]
fn neon_zeroes() {
    assert_wide32_eq(&[]);
    assert_wide32_eq(&[0]);
    assert_wide32_eq(&[0, 0]);
    assert_wide32_eq(&[0; 100]);
    assert_wide32_eq(&[0; 1024]);
    assert_wide32_eq(&vec![0; 1024 * 1024]);
}

#[test]
fn neon_ones() {
    assert_wide32_eq(&[]);
    assert_wide32_eq(&[1]);
    assert_wide32_eq(&[1, 1]);
    assert_wide32_eq(&[1; 100]);
    assert_wide32_eq(&[1; 1024]);
    assert_wide32_eq(&vec![1; 1024 * 1024]);
}

#[test]
fn neon_random() {
    let mut random = vec![0; 1024 * 1024];
    rand::Rng::fill(&mut rand::thread_rng(), &mut random[..]);

    assert_wide32_eq(&random[..1]);
    assert_wide32_eq(&random[..100]);
    assert_wide32_eq(&random[..1024]);
    assert_wide32_eq(&random[..1024 * 1024]);
}

/// Example calculation from https://en.wikipedia.org/wiki/Adler-32.
#[test]
fn neon_wiki() {
    assert_wide32_eq(b"Wikipedia");
}

#[test]
fn stdsimd_zeroes() {
    assert_sum_eq(&[]);
    assert_sum_eq(&[0]);
    assert_sum_eq(&[0, 0]);
    assert_sum_eq(&[0; 100]);
    assert_sum_eq(&[0; 1024]);
    assert_sum_eq(&vec![0; 1024 * 1024]);
}

#[test]
fn stdsimd_ones() {
    assert_sum_eq(&[]);
    assert_sum_eq(&[1]);
    assert_sum_eq(&[1, 1]);
    assert_sum_eq(&[1; 100]);
    assert_sum_eq(&[1; 1024]);
    assert_sum_eq(&vec![1; 1024 * 1024]);
}

#[test]
fn stdsimd_random() {
    let mut random = vec![0; 1024 * 1024];
    rand::Rng::fill(&mut rand::thread_rng(), &mut random[..]);

    assert_sum_eq(&random[..1]);
    assert_sum_eq(&random[..8]);
    assert_sum_eq(&random[..64]);
    assert_sum_eq(&random[..100]);
    assert_sum_eq(&random[..1024]);
    assert_sum_eq(&random[..1024 * 1024]);
}

/// Example calculation from https://en.wikipedia.org/wiki/Adler-32.
#[test]
fn stdsimd_wiki() {
    assert_sum_eq(b"Wikipedia");
}

fn assert_sum_eq(data: &[u8]) {
    if let Some(engine) = simd_adler32::wide64::get_imp() {
        let (a, b) = engine.update(1, 0, data);
        let left = u32::from(b) << 16 | u32::from(a);
        let right = adler::adler32_slice(data);

        assert_eq!(left, right, "len({})", data.len());
    }
}

#[test]
fn quad_oracle() {
    let mut random = vec![0; 64 * 1024];
    rand::Rng::fill(&mut rand::thread_rng(), &mut random[..]);

    assert_quad_eq(&[]);
    assert_quad_eq(&[0]);
    assert_quad_eq(b"Wikipedia");
    assert_quad_eq(&random[..3]);
    assert_quad_eq(&random[..4]);
    assert_quad_eq(&random[..5]);
    assert_quad_eq(&random[..22207]);
    assert_quad_eq(&random[..22208]);
    assert_quad_eq(&random[..22209]);
    assert_quad_eq(&random[..64 * 1024]);
}

#[test]
fn scalar_oracle() {
    let mut random = vec![0; 64 * 1024];
    rand::Rng::fill(&mut rand::thread_rng(), &mut random[..]);

    assert_scalar_eq(&[]);
    assert_scalar_eq(&[0]);
    assert_scalar_eq(b"Wikipedia");
    assert_scalar_eq(&random[..1]);
    assert_scalar_eq(&random[..5551]);
    assert_scalar_eq(&random[..5552]);
    assert_scalar_eq(&random[..5553]);
    assert_scalar_eq(&random[..64 * 1024]);
}

/// Every engine must agree with the scalar engine (and the oracle) for
/// inputs sized exactly at, just under and just past each engine's block
/// and chunk thresholds.
#[test]
fn block_threshold_boundaries() {
    let mut data = vec![0u8; 2 * 5552 + 2];
    // Covers two chunks plus a tail for each block engine; the interleaved
    // engine's own chunk threshold is exercised in `quad_oracle`.
    rand::Rng::fill(&mut rand::thread_rng(), &mut data[..]);

    let boundaries: &[usize] = &[
        0, 1, 3, 4, 5, 31, 32, 33, 63, 64, 65, 5503, 5504, 5505, 5535, 5536, 5537, 5551, 5552,
        5553, 11007, 11008, 11009, 11071, 11072, 11073, 11104, 11105, 11106,
    ];
    for &len in boundaries {
        let input = &data[..len];
        let oracle = adler::adler32_slice(input);
        for engine in [Engine::Wide64, Engine::Wide32, Engine::Quad, Engine::Scalar] {
            let (a, b) = engine.update(1, 0, input);
            let got = u32::from(b) << 16 | u32::from(a);
            assert_eq!(got, oracle, "engine {:?}, len {}", engine, len);
        }
    }
}
