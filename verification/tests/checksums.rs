//! Checksum values on fixed inputs, checked against literal expected
//! outputs, through the four-lane interleaved engine.

fn adler32(data: &[u8]) -> u32 {
    let (a, b) = simd_adler32::quad::update(1, 0, data);
    u32::from(b) << 16 | u32::from(a)
}

#[test]
fn ssse3_zeroes() {
    assert_eq!(adler32(&[]), 1);
    assert_eq!(adler32(&[0]), 1 | 1 << 16);
    assert_eq!(adler32(&[0, 0]), 1 | 2 << 16);
    assert_eq!(adler32(&[0; 100]), 0x00640001);
    assert_eq!(adler32(&[0; 1024]), 0x04000001);
    assert_eq!(adler32(&vec![0; 1024 * 1024]), 0x00f00001);
}

#[test]
fn ssse3_ones() {
    assert_eq!(adler32(&[0xff; 1024]), 0x79a6fc2e);
    assert_eq!(adler32(&vec![0xff; 1024 * 1024]), 0x8e88ef11);
}

#[test]
fn mixed() {
    assert_eq!(adler32(&[1]), 2 | 2 << 16);
    assert_eq!(adler32(&[40]), 41 | 41 << 16);

    assert_eq!(adler32(&vec![0xA5; 1024 * 1024]), 0xd5009ab1);
}

/// Example calculation from https://en.wikipedia.org/wiki/Adler-32.
#[test]
fn wiki() {
    assert_eq!(adler32(b"Wikipedia"), 0x11E60398);
}

#[test]
fn known_vectors_through_accumulator() {
    let mut adler = simd_adler32::Adler32::new();
    assert_eq!(adler.finalize(), 1);

    adler.update(&[0x00]);
    assert_eq!(adler.finalize(), 0x00010001);

    adler.update(&[0; 100]);
    assert_eq!(adler.finalize(), 0x00640001);

    adler.update(&[0; 1024]);
    assert_eq!(adler.finalize(), 0x04000001);

    adler.update(&vec![0; 1024 * 1024]);
    assert_eq!(adler.finalize(), 0x00F00001);

    adler.update(&[0xFF; 1024]);
    assert_eq!(adler.finalize(), 0x79A6FC2E);

    adler.update(&vec![0xFF; 1024 * 1024]);
    assert_eq!(adler.finalize(), 0x8E88EF11);

    adler.update(b"Wikipedia");
    assert_eq!(adler.finalize(), 0x11E60398);
}
