use qoi_rs::{Decoder, Encoder, Pixel};

fn header(w: u32, h: u32) -> Vec<u8> {
    let mut v = vec![0x71u8, 0x6f, 0x69, 0x66];
    v.extend(w.to_be_bytes());
    v.extend(h.to_be_bytes());
    v.push(4);
    v.push(0);
    v
}

const FOOTER: [u8; 8] = [0, 0, 0, 0, 0, 0, 0, 1];

#[test]
fn single_black_pixel_is_one_run() {
    let mut enc = Encoder::new(1, 1);
    let data = enc.encode(&[Pixel::new(0, 0, 0, 255)]);
    let mut expected = header(1, 1);
    expected.push(0xC0);
    expected.extend(FOOTER);
    assert_eq!(data, expected);
}

#[test]
fn two_identical_pixels_are_one_run_of_two() {
    let mut enc = Encoder::new(1, 2);
    let data = enc.encode(&[Pixel::new(0, 0, 0, 255), Pixel::new(0, 0, 0, 255)]);
    let mut expected = header(1, 2);
    expected.push(0xC1);
    expected.extend(FOOTER);
    assert_eq!(data, expected);
}

#[test]
fn index_hit_after_rgb() {
    // first pixel goes out as RGB; the second equals the untouched cache
    // entry at slot 53, so it goes out as Index{53}
    let mut enc = Encoder::new(2, 1);
    let data = enc.encode(&[Pixel::new(10, 20, 30, 255), Pixel::new(0, 0, 0, 255)]);
    let mut expected = header(2, 1);
    expected.extend([0xFE, 10, 20, 30]);
    expected.push(53);
    expected.extend(FOOTER);
    assert_eq!(data, expected);
}

#[test]
fn run_of_one_hundred_splits_at_sixty_two() {
    let mut enc = Encoder::new(10, 10);
    let pixels = vec![Pixel::new(0, 0, 0, 255); 100];
    let data = enc.encode(&pixels);
    let mut expected = header(10, 10);
    expected.push(0xFD); // Run{62}
    expected.push(0xE5); // Run{38}
    expected.extend(FOOTER);
    assert_eq!(data, expected);
}

#[test]
fn luma_selection() {
    // predictor (100,100,100,255), next (108,110,112,255): green delta +10,
    // dr-dg = -2, db-dg = +2, all in range, so Luma{42, 6, 10}
    let mut enc = Encoder::new(2, 1);
    let data = enc.encode(&[Pixel::new(100, 100, 100, 255), Pixel::new(108, 110, 112, 255)]);
    let mut expected = header(2, 1);
    expected.extend([0xFE, 100, 100, 100]);
    expected.extend([0xAA, 0x6A]); // 0x80 | 42, (6 << 4) | 10
    expected.extend(FOOTER);
    assert_eq!(data, expected);
}

#[test]
fn diff_selection() {
    // deltas (+1, -2, 0) from the initial predictor, alpha unchanged:
    // Diff{3, 0, 2} = 0b01_11_00_10
    let mut enc = Encoder::new(1, 1);
    let data = enc.encode(&[Pixel::new(1, 254, 0, 255)]);
    let mut expected = header(1, 1);
    expected.push(0b0111_0010);
    expected.extend(FOOTER);
    assert_eq!(data, expected);
}

#[test]
fn rgba_when_alpha_changes() {
    let mut enc = Encoder::new(1, 1);
    let data = enc.encode(&[Pixel::new(9, 8, 7, 100)]);
    let mut expected = header(1, 1);
    expected.extend([0xFF, 9, 8, 7, 100]);
    expected.extend(FOOTER);
    assert_eq!(data, expected);
}

#[test]
fn hash_of_black_is_53_and_always_below_64() {
    assert_eq!(Pixel::new(0, 0, 0, 255).hash(), 53);
    assert_eq!(Pixel::new(0, 0, 0, 0).hash(), 0);
    assert_eq!(Pixel::new(10, 20, 30, 255).hash(), 9);
    assert_eq!(Pixel::new(108, 110, 112, 255).hash(), 47);
    for v in [0u8, 1, 2, 63, 64, 127, 128, 200, 254, 255] {
        assert!(Pixel::new(v, v.wrapping_mul(7), 255 - v, v ^ 0x55).hash() < 64);
    }
}

#[test]
fn pixel_to_bytes_is_rgba_order() {
    assert_eq!(Pixel::new(1, 2, 3, 4).to_bytes(), [1, 2, 3, 4]);
}

#[test]
fn decode_reads_dimensions_and_pixels() {
    let mut enc = Encoder::new(2, 1);
    let data = enc.encode(&[Pixel::new(10, 20, 30, 255), Pixel::new(0, 0, 0, 255)]);
    let mut dec = Decoder::new();
    let img = dec.decode(&data).unwrap();
    assert_eq!(img.width, 2);
    assert_eq!(img.height, 1);
    assert_eq!(img.pixels, vec![Pixel::new(10, 20, 30, 255), Pixel::new(0, 0, 0, 255)]);
}
