use qoi_rs::{Decoder, Encoder, Pixel, QoiError};

fn sample_pixels() -> Vec<Pixel> {
    // exercises every operator: runs (long enough to split), Diff, Luma,
    // RGB, RGBA (alpha change), and an Index hit
    let mut pixels = Vec::new();
    for _ in 0..70 {
        pixels.push(Pixel::new(0, 0, 0, 255));
    }
    pixels.push(Pixel::new(1, 255, 0, 255)); // Diff
    pixels.push(Pixel::new(252, 245, 244, 255)); // Luma
    pixels.push(Pixel::new(200, 10, 30, 255)); // RGB
    pixels.push(Pixel::new(200, 10, 30, 128)); // RGBA
    pixels.push(Pixel::new(1, 255, 0, 255)); // Index hit
    for _ in 0..5 {
        pixels.push(Pixel::new(1, 255, 0, 255)); // Run
    }
    pixels
}

#[test]
fn round_trip_reproduces_pixels() {
    let pixels = sample_pixels();
    let mut enc = Encoder::new(pixels.len() as u32, 1);
    let data = enc.encode(&pixels);
    let mut dec = Decoder::new();
    let img = dec.decode(&data).unwrap();
    assert_eq!(img.width, pixels.len());
    assert_eq!(img.height, 1);
    assert_eq!(img.pixels, pixels);
}

#[test]
fn reencode_is_stable() {
    let pixels = sample_pixels();
    let mut enc = Encoder::new(pixels.len() as u32, 1);
    let data = enc.encode(&pixels);
    let mut dec = Decoder::new();
    let img = dec.decode(&data).unwrap();
    let mut enc2 = Encoder::new(img.width as u32, img.height as u32);
    let data2 = enc2.encode(&img.pixels);
    assert_eq!(data, data2);
}

#[test]
fn encoder_and_decoder_reset_between_calls() {
    let pixels = vec![Pixel::new(5, 6, 7, 255), Pixel::new(0, 0, 0, 255)];
    let mut enc = Encoder::new(2, 1);
    let first = enc.encode(&pixels);
    let second = enc.encode(&pixels);
    assert_eq!(first, second);
    let mut dec = Decoder::new();
    let a = dec.decode(&first).unwrap();
    let b = dec.decode(&second).unwrap();
    assert_eq!(a.pixels, b.pixels);
}

#[test]
fn truncated_footer_is_bad_footer() {
    let mut enc = Encoder::new(2, 1);
    let mut data = enc.encode(&[Pixel::new(10, 20, 30, 255), Pixel::new(0, 0, 0, 255)]);
    data.pop();
    let mut dec = Decoder::new();
    assert!(matches!(dec.decode(&data), Err(QoiError::BadFooter)));
}

#[test]
fn corrupt_footer_is_bad_footer() {
    let mut enc = Encoder::new(1, 1);
    let mut data = enc.encode(&[Pixel::new(0, 0, 0, 255)]);
    let last = data.len() - 1;
    data[last] = 2;
    let mut dec = Decoder::new();
    assert!(matches!(dec.decode(&data), Err(QoiError::BadFooter)));
}

#[test]
fn trailing_garbage_is_bad_footer() {
    let mut enc = Encoder::new(1, 1);
    let mut data = enc.encode(&[Pixel::new(0, 0, 0, 255)]);
    data.push(0);
    let mut dec = Decoder::new();
    assert!(matches!(dec.decode(&data), Err(QoiError::BadFooter)));
}

#[test]
fn wrong_magic_is_bad_magic() {
    let mut enc = Encoder::new(1, 1);
    let mut data = enc.encode(&[Pixel::new(0, 0, 0, 255)]);
    data[3] = b'x';
    let mut dec = Decoder::new();
    assert!(matches!(dec.decode(&data), Err(QoiError::BadMagic)));
}

#[test]
fn short_input_is_truncated_stream() {
    let mut dec = Decoder::new();
    assert!(matches!(dec.decode(&[]), Err(QoiError::TruncatedStream)));
    assert!(matches!(dec.decode(&[0x71, 0x6f]), Err(QoiError::TruncatedStream)));
    // valid magic but header cut short
    assert!(matches!(
        dec.decode(&[0x71, 0x6f, 0x69, 0x66, 0, 0]),
        Err(QoiError::TruncatedStream)
    ));
}

#[test]
fn operator_cut_short_is_truncated_stream() {
    // 1x1 header followed by an RGB tag with only one of its three bytes
    let mut data = vec![0x71u8, 0x6f, 0x69, 0x66, 0, 0, 0, 1, 0, 0, 0, 1, 4, 0];
    data.extend([0xFE, 10]);
    let mut dec = Decoder::new();
    assert!(matches!(dec.decode(&data), Err(QoiError::TruncatedStream)));
}

#[test]
fn missing_pixels_is_truncated_stream() {
    // 1x2 header, only one pixel worth of operators, then the footer: the
    // decoder still needs a pixel when it reaches the footer bytes, and the
    // first footer byte parses as an Index operator into slot 0, which
    // produces a pixel; craft instead a stream that simply ends
    let data = vec![0x71u8, 0x6f, 0x69, 0x66, 0, 0, 0, 1, 0, 0, 0, 2, 4, 0, 0xC0];
    let mut dec = Decoder::new();
    assert!(matches!(dec.decode(&data), Err(QoiError::TruncatedStream)));
}

#[test]
fn run_past_pixel_count_is_overflow_run() {
    // 1x1 header followed by Run{2}
    let mut data = vec![0x71u8, 0x6f, 0x69, 0x66, 0, 0, 0, 1, 0, 0, 0, 1, 4, 0, 0xC1];
    data.extend([0, 0, 0, 0, 0, 0, 0, 1]);
    let mut dec = Decoder::new();
    assert!(matches!(dec.decode(&data), Err(QoiError::OverflowRun)));
}

#[test]
fn zero_pixel_image_round_trips() {
    let mut enc = Encoder::new(0, 0);
    let data = enc.encode(&[]);
    let mut dec = Decoder::new();
    let img = dec.decode(&data).unwrap();
    assert_eq!(img.width, 0);
    assert_eq!(img.height, 0);
    assert_eq!(img.pixels, Vec::<Pixel>::new());
}

#[test]
fn channels_byte_is_read_but_ignored() {
    // same stream with a channels byte of 3 still decodes as RGBA
    let mut enc = Encoder::new(1, 1);
    let mut data = enc.encode(&[Pixel::new(0, 0, 0, 255)]);
    data[12] = 3;
    let mut dec = Decoder::new();
    let img = dec.decode(&data).unwrap();
    assert_eq!(img.pixels, vec![Pixel::new(0, 0, 0, 255)]);
}

#[test]
fn arbitrary_bytes_never_panic() {
    let mut dec = Decoder::new();
    let mut noise: Vec<u8> = Vec::new();
    let mut x: u32 = 0x12345678;
    for _ in 0..4096 {
        x = x.wrapping_mul(1664525).wrapping_add(1013904223);
        noise.push((x >> 24) as u8);
        for len in [0usize, 1, 5, 13, 14, 20] {
            if noise.len() >= len {
                let _ = dec.decode(&noise[..len]);
            }
        }
    }
    let _ = dec.decode(&noise);
}
