use vstd::prelude::*;

verus! {

/// One encoded unit of a QOI stream: exactly one of six variants.
#[derive(Clone, Copy, Debug, PartialEq, Eq, Structural)]
pub enum QoiOp {
    /// Absolute red, green and blue; alpha is inherited from the predictor.
    RGB { r: u8, g: u8, b: u8 },
    /// Absolute values for all four channels.
    RGBA { r: u8, g: u8, b: u8, a: u8 },
    /// The pixel stored in cache slot `idx`; `idx` is below 64.
    Index { idx: u8 },
    /// Per-channel deltas in `[-2, +1]`, stored with a bias of +2.
    Diff { dr: u8, dg: u8, db: u8 },
    /// Green delta with bias +32; red and blue deltas relative to the green
    /// delta, with bias +8.
    Luma { dg: u8, dr_dg: u8, db_dg: u8 },
    /// Repeat the predictor pixel `len` times; `len` is in `[1, 62]`.
    Run { len: u8 },
}

/// The numeric field bounds every operator must satisfy before it may be
/// serialized.
pub open spec fn op_wf(op: QoiOp) -> bool {
    match op {
        QoiOp::RGB { .. } => true,
        QoiOp::RGBA { .. } => true,
        QoiOp::Index { idx } => idx < 64,
        QoiOp::Diff { dr, dg, db } => dr < 4 && dg < 4 && db < 4,
        QoiOp::Luma { dg, dr_dg, db_dg } => dg < 64 && dr_dg < 16 && db_dg < 16,
        QoiOp::Run { len } => 1 <= len <= 62,
    }
}

/// The bit-exact serialization of one well-formed operator.
///
/// Tag layout: `0xFE` opens RGB, `0xFF` opens RGBA; otherwise the top two
/// bits of the first byte select Index (00), Diff (01), Luma (10) or
/// Run (11), and the low six bits carry the payload.
pub open spec fn op_bytes(op: QoiOp) -> Seq<u8>
    recommends
        op_wf(op),
{
    match op {
        QoiOp::RGB { r, g, b } => seq![254u8, r, g, b],
        QoiOp::RGBA { r, g, b, a } => seq![255u8, r, g, b, a],
        QoiOp::Index { idx } => seq![idx],
        QoiOp::Diff { dr, dg, db } => seq![(64 + dr * 16 + dg * 4 + db) as u8],
        QoiOp::Luma { dg, dr_dg, db_dg } => seq![(128 + dg) as u8, (dr_dg * 16 + db_dg) as u8],
        QoiOp::Run { len } => seq![(192 + (len - 1)) as u8],
    }
}

/// What parsing one operator from the front of `data` yields: the operator
/// and the number of bytes consumed, or nothing if a required byte is
/// missing. Pure: the parse never consults predictor state.
pub open spec fn parse_op(data: Seq<u8>) -> Option<(QoiOp, int)> {
    if data.len() == 0 {
        None
    } else {
        let b = data[0];
        if b == 254 {
            if data.len() >= 4 {
                Some((QoiOp::RGB { r: data[1], g: data[2], b: data[3] }, 4))
            } else {
                None
            }
        } else if b == 255 {
            if data.len() >= 5 {
                Some((QoiOp::RGBA { r: data[1], g: data[2], b: data[3], a: data[4] }, 5))
            } else {
                None
            }
        } else if b < 64 {
            Some((QoiOp::Index { idx: b }, 1))
        } else if b < 128 {
            Some(
                (
                    QoiOp::Diff {
                        dr: (((b as int) % 64) / 16) as u8,
                        dg: (((b as int) % 16) / 4) as u8,
                        db: ((b as int) % 4) as u8,
                    },
                    1,
                ),
            )
        } else if b < 192 {
            if data.len() >= 2 {
                Some(
                    (
                        QoiOp::Luma {
                            dg: ((b as int) % 64) as u8,
                            dr_dg: ((data[1] as int) / 16) as u8,
                            db_dg: ((data[1] as int) % 16) as u8,
                        },
                        2,
                    ),
                )
            } else {
                None
            }
        } else {
            Some((QoiOp::Run { len: ((b as int) % 64 + 1) as u8 }, 1))
        }
    }
}

impl QoiOp {
    /// Append the serialization of this operator to `buf`. Out-of-range
    /// fields are a programmer error, so callers must establish `op_wf`.
    pub fn append_bytes(&self, buf: &mut Vec<u8>)
        requires
            op_wf(*self),
        ensures
            final(buf)@ == old(buf)@ + op_bytes(*self),
    {
        match *self {
            QoiOp::RGB { r, g, b } => {
                buf.push(254);
                buf.push(r);
                buf.push(g);
                buf.push(b);
                proof {
                    assert(buf@ =~= old(buf)@ + op_bytes(*self));
                }
            },
            QoiOp::RGBA { r, g, b, a } => {
                buf.push(255);
                buf.push(r);
                buf.push(g);
                buf.push(b);
                buf.push(a);
                proof {
                    assert(buf@ =~= old(buf)@ + op_bytes(*self));
                }
            },
            QoiOp::Index { idx } => {
                buf.push(idx);
                proof {
                    assert(buf@ =~= old(buf)@ + op_bytes(*self));
                }
            },
            QoiOp::Diff { dr, dg, db } => {
                buf.push(64 + dr * 16 + dg * 4 + db);
                proof {
                    assert(buf@ =~= old(buf)@ + op_bytes(*self));
                }
            },
            QoiOp::Luma { dg, dr_dg, db_dg } => {
                buf.push(128 + dg);
                buf.push(dr_dg * 16 + db_dg);
                proof {
                    assert(buf@ =~= old(buf)@ + op_bytes(*self));
                }
            },
            QoiOp::Run { len } => {
                buf.push(192 + (len - 1));
                proof {
                    assert(buf@ =~= old(buf)@ + op_bytes(*self));
                }
            },
        }
    }

    /// Parse one operator from `data` starting at `at`, returning the
    /// operator and the position just past its bytes, or `None` when the
    /// input ends inside the operator.
    pub fn from_bytes(data: &[u8], at: usize) -> (r: Option<(QoiOp, usize)>)
        requires
            at <= data@.len(),
        ensures
            match r {
                Some((op, next)) => {
                    &&& parse_op(data@.skip(at as int)) == Some((op, next - at))
                    &&& at < next <= data@.len()
                    &&& op_wf(op)
                },
                None => parse_op(data@.skip(at as int)) is None,
            },
    {
        let ghost rest = data@.skip(at as int);
        if at >= data.len() {
            return None;
        }
        let b = data[at];
        assert(b == rest[0]);
        if b == 254 {
            if data.len() - at >= 4 {
                assert(data@[at + 1] == rest[1] && data@[at + 2] == rest[2] && data@[at + 3]
                    == rest[3]);
                Some((QoiOp::RGB { r: data[at + 1], g: data[at + 2], b: data[at + 3] }, at + 4))
            } else {
                None
            }
        } else if b == 255 {
            if data.len() - at >= 5 {
                assert(data@[at + 1] == rest[1] && data@[at + 2] == rest[2] && data@[at + 3]
                    == rest[3] && data@[at + 4] == rest[4]);
                Some(
                    (
                        QoiOp::RGBA {
                            r: data[at + 1],
                            g: data[at + 2],
                            b: data[at + 3],
                            a: data[at + 4],
                        },
                        at + 5,
                    ),
                )
            } else {
                None
            }
        } else if b < 64 {
            Some((QoiOp::Index { idx: b }, at + 1))
        } else if b < 128 {
            Some((QoiOp::Diff { dr: (b % 64) / 16, dg: (b % 16) / 4, db: b % 4 }, at + 1))
        } else if b < 192 {
            if data.len() - at >= 2 {
                let next = data[at + 1];
                assert(next == rest[1]);
                Some((QoiOp::Luma { dg: b % 64, dr_dg: next / 16, db_dg: next % 16 }, at + 2))
            } else {
                None
            }
        } else {
            assert(b % 64 <= 61) by (bit_vector)
                requires
                    192 <= b < 254,
            ;
            Some((QoiOp::Run { len: b % 64 + 1 }, at + 1))
        }
    }
}

/// Splitting a tag byte built as `tag * 64 + low` recovers both parts.
proof fn lemma_tag_split(t: u8, low: u8)
    by (bit_vector)
    requires
        t < 4,
        low < 64,
    ensures
        (t * 64 + low) / 64 == t,
        (t * 64 + low) % 64 == low,
        t * 64 + low < 256,
{
}

/// Splitting a payload byte built as `hi * 16 + lo` (each below 16)
/// recovers both parts.
proof fn lemma_nibble_split(hi: u8, lo: u8)
    by (bit_vector)
    requires
        hi < 16,
        lo < 16,
    ensures
        (hi * 16 + lo) / 16 == hi,
        (hi * 16 + lo) % 16 == lo,
        hi * 16 + lo < 256,
{
}

/// Serialization followed by parsing is the identity: parsing a stream that
/// starts with the bytes of a well-formed operator yields that operator and
/// consumes exactly its bytes.
pub proof fn lemma_parse_op_bytes(op: QoiOp, tail: Seq<u8>)
    requires
        op_wf(op),
    ensures
        parse_op(op_bytes(op) + tail) == Some((op, op_bytes(op).len() as int)),
{
    let data = op_bytes(op) + tail;
    match op {
        QoiOp::RGB { r, g, b } => {
            assert(data[0] == 254 && data[1] == r && data[2] == g && data[3] == b);
        },
        QoiOp::RGBA { r, g, b, a } => {
            assert(data[0] == 255 && data[1] == r && data[2] == g && data[3] == b && data[4] == a);
        },
        QoiOp::Index { idx } => {
            assert(data[0] == idx);
        },
        QoiOp::Diff { dr, dg, db } => {
            let byte = (64 + dr * 16 + dg * 4 + db) as u8;
            assert(64 <= byte < 128 && ((byte as int) % 64) / 16 == dr && ((byte as int) % 16) / 4
                == dg && (byte as int) % 4 == db) by (bit_vector)
                requires
                    dr < 4 && dg < 4 && db < 4 && byte == (64 + dr * 16 + dg * 4 + db) as u8,
            ;
            assert(data[0] == byte);
        },
        QoiOp::Luma { dg, dr_dg, db_dg } => {
            let byte0 = (128 + dg) as u8;
            let byte1 = (dr_dg * 16 + db_dg) as u8;
            assert(128 <= byte0 < 192 && (byte0 as int) % 64 == dg) by (bit_vector)
                requires
                    dg < 64 && byte0 == (128 + dg) as u8,
            ;
            lemma_nibble_split(dr_dg, db_dg);
            assert(data[0] == byte0 && data[1] == byte1);
        },
        QoiOp::Run { len } => {
            let byte = (192 + (len - 1)) as u8;
            assert(192 <= byte && byte < 254 && (byte as int) % 64 + 1 == len) by (bit_vector)
                requires
                    1 <= len <= 62 && byte == (192 + (len - 1)) as u8,
            ;
            assert(data[0] == byte);
        },
    }
}

} // verus!
