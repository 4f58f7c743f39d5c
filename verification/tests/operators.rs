use qoi_rs::ops::QoiOp;
use qoi_rs::{Decoder, Encoder, Pixel, QoiError};

#[test]
fn parse_each_operator_form() {
    assert_eq!(
        QoiOp::from_bytes(&[0xFE, 1, 2, 3], 0),
        Some((QoiOp::RGB { r: 1, g: 2, b: 3 }, 4))
    );
    assert_eq!(
        QoiOp::from_bytes(&[0xFF, 1, 2, 3, 4], 0),
        Some((QoiOp::RGBA { r: 1, g: 2, b: 3, a: 4 }, 5))
    );
    assert_eq!(
        QoiOp::from_bytes(&[0x35], 0),
        Some((QoiOp::Index { idx: 53 }, 1))
    );
    assert_eq!(
        QoiOp::from_bytes(&[0b0111_0010], 0),
        Some((QoiOp::Diff { dr: 3, dg: 0, db: 2 }, 1))
    );
    assert_eq!(
        QoiOp::from_bytes(&[0xAA, 0x6A], 0),
        Some((QoiOp::Luma { dg: 42, dr_dg: 6, db_dg: 10 }, 2))
    );
    assert_eq!(
        QoiOp::from_bytes(&[0xC1], 0),
        Some((QoiOp::Run { len: 2 }, 1))
    );
}

#[test]
fn parse_reports_missing_bytes() {
    assert_eq!(QoiOp::from_bytes(&[], 0), None);
    assert_eq!(QoiOp::from_bytes(&[0xFE, 1, 2], 0), None);
    assert_eq!(QoiOp::from_bytes(&[0xFF, 1, 2, 3], 0), None);
    assert_eq!(QoiOp::from_bytes(&[0xAA], 0), None);
}

#[test]
fn parse_starts_at_the_given_position() {
    let data = [0xC0u8, 0xFE, 9, 8, 7];
    assert_eq!(QoiOp::from_bytes(&data, 0), Some((QoiOp::Run { len: 1 }, 1)));
    assert_eq!(
        QoiOp::from_bytes(&data, 1),
        Some((QoiOp::RGB { r: 9, g: 8, b: 7 }, 5))
    );
    assert_eq!(QoiOp::from_bytes(&data, 5), None);
}

#[test]
fn serialization_parses_back_to_the_same_operator() {
    let ops = [
        QoiOp::RGB { r: 0, g: 128, b: 255 },
        QoiOp::RGBA { r: 1, g: 2, b: 3, a: 4 },
        QoiOp::Index { idx: 0 },
        QoiOp::Index { idx: 63 },
        QoiOp::Diff { dr: 0, dg: 3, db: 1 },
        QoiOp::Luma { dg: 0, dr_dg: 15, db_dg: 0 },
        QoiOp::Luma { dg: 63, dr_dg: 0, db_dg: 15 },
        QoiOp::Run { len: 1 },
        QoiOp::Run { len: 62 },
    ];
    for op in ops {
        let mut buf = Vec::new();
        op.append_bytes(&mut buf);
        assert_eq!(QoiOp::from_bytes(&buf, 0), Some((op, buf.len())));
    }
}

#[test]
fn header_dimensions_count_not_the_slice_length() {
    // a 1x1 header over two pixels worth of operators: the decoder stops
    // after one pixel and finds operator bytes where the footer belongs
    let mut enc = Encoder::new(1, 1);
    let data = enc.encode(&[Pixel::new(1, 254, 0, 255), Pixel::new(9, 8, 7, 100)]);
    let mut dec = Decoder::new();
    assert!(matches!(dec.decode(&data), Err(QoiError::BadFooter)));
}
