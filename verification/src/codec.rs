use crate::ops::op_bytes;
use crate::ops::op_wf;
use crate::ops::parse_op;
use crate::ops::QoiOp;
use crate::pixel::hash_of;
use crate::pixel::Pixel;
use vstd::prelude::*;

verus! {

/// A well-formed predictor state: 64 cache slots, and the slot the previous
/// pixel hashes to holds that pixel. Both the encoder and the decoder
/// establish the second part every time they produce a pixel, so it is an
/// invariant of every reachable state.
pub open spec fn st_wf(prev: Pixel, cache: Seq<Pixel>) -> bool {
    &&& cache.len() == 64
    &&& cache[hash_of(prev)] == prev
}

/// The pixel one operator produces, given the predictor state. For `Run`
/// the produced pixel is the predictor pixel, repeated `op_count` times.
pub open spec fn op_pixel(op: QoiOp, prev: Pixel, cache: Seq<Pixel>) -> Pixel {
    match op {
        QoiOp::RGB { r, g, b } => Pixel { r, g, b, a: prev.a },
        QoiOp::RGBA { r, g, b, a } => Pixel { r, g, b, a },
        QoiOp::Index { idx } => cache[idx as int],
        QoiOp::Diff { dr, dg, db } => Pixel {
            r: prev.r.wrapping_add(dr).wrapping_sub(2),
            g: prev.g.wrapping_add(dg).wrapping_sub(2),
            b: prev.b.wrapping_add(db).wrapping_sub(2),
            a: prev.a,
        },
        QoiOp::Luma { dg, dr_dg, db_dg } => {
            let vg = dg.wrapping_sub(32);
            Pixel {
                r: prev.r.wrapping_add(dr_dg.wrapping_add(vg).wrapping_sub(8)),
                g: prev.g.wrapping_add(vg),
                b: prev.b.wrapping_add(db_dg.wrapping_add(vg).wrapping_sub(8)),
                a: prev.a,
            }
        },
        QoiOp::Run { .. } => prev,
    }
}

/// How many pixels one operator produces.
pub open spec fn op_count(op: QoiOp) -> int {
    match op {
        QoiOp::Run { len } => len as int,
        _ => 1,
    }
}

/// The operator the encoder picks for a pixel that differs from the
/// predictor pixel, in the fixed priority: Index, then Diff, then Luma,
/// then RGB (alpha unchanged), then RGBA. All deltas wrap at 8 bits.
pub open spec fn choose_op(p: Pixel, prev: Pixel, cache: Seq<Pixel>) -> QoiOp {
    if cache[hash_of(p)] == p {
        QoiOp::Index { idx: hash_of(p) as u8 }
    } else {
        let dr = p.r.wrapping_sub(prev.r).wrapping_add(2);
        let dg = p.g.wrapping_sub(prev.g).wrapping_add(2);
        let db = p.b.wrapping_sub(prev.b).wrapping_add(2);
        if p.a == prev.a && dr <= 3 && dg <= 3 && db <= 3 {
            QoiOp::Diff { dr, dg, db }
        } else {
            let vg = p.g.wrapping_sub(prev.g);
            let dr_dg = p.r.wrapping_sub(prev.r).wrapping_sub(vg).wrapping_add(8);
            let db_dg = p.b.wrapping_sub(prev.b).wrapping_sub(vg).wrapping_add(8);
            let dg2 = vg.wrapping_add(32);
            if p.a == prev.a && dg2 < 64 && dr_dg < 16 && db_dg < 16 {
                QoiOp::Luma { dg: dg2, dr_dg, db_dg }
            } else if p.a == prev.a {
                QoiOp::RGB { r: p.r, g: p.g, b: p.b }
            } else {
                QoiOp::RGBA { r: p.r, g: p.g, b: p.b, a: p.a }
            }
        }
    }
}

/// The operator sequence the encoder emits for `pixels`, starting from the
/// given predictor state with a pending run of `run` pixels (0 for none;
/// the pending pixels all equal `prev`). A pixel equal to `prev` extends
/// the run, splitting it at length 62; any other pixel first flushes the
/// pending run, then gets the operator `choose_op` picks, after which the
/// cache slot it hashes to is set to it.
pub open spec fn encode_ops(pixels: Seq<Pixel>, prev: Pixel, cache: Seq<Pixel>, run: int) -> Seq<
    QoiOp,
>
    decreases pixels.len(),
{
    if pixels.len() == 0 {
        if run > 0 {
            seq![QoiOp::Run { len: run as u8 }]
        } else {
            Seq::empty()
        }
    } else {
        let p = pixels[0];
        let rest = pixels.drop_first();
        if p == prev {
            if run >= 62 {
                seq![QoiOp::Run { len: 62u8 }] + encode_ops(rest, p, cache, 1)
            } else {
                encode_ops(rest, p, cache, run + 1)
            }
        } else {
            let tail = seq![choose_op(p, prev, cache)] + encode_ops(
                rest,
                p,
                cache.update(hash_of(p), p),
                0,
            );
            if run > 0 {
                seq![QoiOp::Run { len: run as u8 }] + tail
            } else {
                tail
            }
        }
    }
}

/// The concatenated serialization of a sequence of operators.
pub open spec fn ops_bytes(ops: Seq<QoiOp>) -> Seq<u8>
    decreases ops.len(),
{
    if ops.len() == 0 {
        Seq::empty()
    } else {
        op_bytes(ops[0]) + ops_bytes(ops.drop_first())
    }
}

/// Appending one operator appends its bytes to the serialization.
pub proof fn lemma_ops_bytes_snoc(s: Seq<QoiOp>, op: QoiOp)
    ensures
        ops_bytes(s.push(op)) == ops_bytes(s) + op_bytes(op),
    decreases s.len(),
{
    if s.len() == 0 {
        assert(s.push(op)[0] == op);
        assert(s.push(op).drop_first() =~= Seq::<QoiOp>::empty());
        assert(ops_bytes(Seq::<QoiOp>::empty()) == Seq::<u8>::empty());
        assert(s =~= Seq::<QoiOp>::empty());
        assert(ops_bytes(s.push(op)) =~= ops_bytes(s) + op_bytes(op));
    } else {
        assert(s.push(op)[0] == s[0]);
        assert(s.push(op).drop_first() =~= s.drop_first().push(op));
        lemma_ops_bytes_snoc(s.drop_first(), op);
        assert(op_bytes(s[0]) + (ops_bytes(s.drop_first()) + op_bytes(op)) =~= (op_bytes(s[0])
            + ops_bytes(s.drop_first())) + op_bytes(op));
    }
}

/// The four bytes of `w` in big-endian order.
pub open spec fn u32_be_bytes(w: u32) -> Seq<u8> {
    seq![
        (w / 0x1000000) as u8,
        ((w / 0x10000) % 0x100) as u8,
        ((w / 0x100) % 0x100) as u8,
        (w % 0x100) as u8,
    ]
}

/// The value of four big-endian bytes.
pub open spec fn be32_val(b0: u8, b1: u8, b2: u8, b3: u8) -> int {
    b0 * 0x1000000 + b1 * 0x10000 + b2 * 0x100 + b3
}

/// The magic bytes `qoif` that open every stream.
pub open spec fn magic_bytes() -> Seq<u8> {
    seq![113u8, 111u8, 105u8, 102u8]
}

/// The 14-byte header: magic, big-endian width and height, the channel
/// count (always 4) and the colorspace tag (always 0).
pub open spec fn header_bytes(w: u32, h: u32) -> Seq<u8> {
    magic_bytes() + u32_be_bytes(w) + u32_be_bytes(h) + seq![4u8, 0u8]
}

/// The eight footer bytes that close every stream.
pub open spec fn footer_bytes() -> Seq<u8> {
    seq![0u8, 0u8, 0u8, 0u8, 0u8, 0u8, 0u8, 1u8]
}

/// The complete byte stream the encoder produces for an image.
pub open spec fn encode_bytes(w: u32, h: u32, pixels: Seq<Pixel>) -> Seq<u8> {
    header_bytes(w, h) + ops_bytes(
        encode_ops(pixels, crate::pixel::init_pixel(), crate::pixel::init_cache(), 0),
    ) + footer_bytes()
}

/// Why a decode failed.
#[derive(Clone, Copy, Debug, PartialEq, Eq, Structural)]
pub enum QoiError {
    /// The stream does not start with the magic bytes `qoif`.
    BadMagic,
    /// A header field or an operator runs off the end of the input.
    TruncatedStream,
    /// A run would push the pixel count past `width * height`.
    OverflowRun,
    /// The bytes after the last pixel are not the 8-byte footer.
    BadFooter,
    /// An `Index` operator addressed a slot at or above 64; a valid parse
    /// never produces one, so this is defensive only.
    BadIndex,
}

/// The decoder's main loop on the operator stream: starting from the given
/// predictor state, consume operators from `data` until `need` pixels have
/// been produced, returning the pixels and the unconsumed bytes. Fails with
/// `TruncatedStream` when the input ends inside an operator, and with
/// `OverflowRun` when an operator would produce more pixels than are still
/// needed.
pub open spec fn decode_body(data: Seq<u8>, prev: Pixel, cache: Seq<Pixel>, need: int) -> Result<
    (Seq<Pixel>, Seq<u8>),
    QoiError,
>
    decreases need,
{
    if need <= 0 {
        Ok((Seq::empty(), data))
    } else {
        match parse_op(data) {
            None => Err(QoiError::TruncatedStream),
            Some((op, used)) => {
                let px = op_pixel(op, prev, cache);
                let c = op_count(op);
                if c > need {
                    Err(QoiError::OverflowRun)
                } else {
                    match decode_body(
                        data.skip(used),
                        px,
                        cache.update(hash_of(px), px),
                        need - c,
                    ) {
                        Err(e) => Err(e),
                        Ok((pxs, rest)) => Ok((Seq::new(c as nat, |i: int| px) + pxs, rest)),
                    }
                }
            },
        }
    }
}

/// What decoding a whole stream yields: the width, height and pixels on
/// success, or the first failure. The channel and colorspace header bytes
/// are read but ignored; the output is always 4-channel RGBA.
pub open spec fn decode_spec(data: Seq<u8>) -> Result<(u32, u32, Seq<Pixel>), QoiError> {
    if data.len() < 4 {
        Err(QoiError::TruncatedStream)
    } else if data.subrange(0, 4) != magic_bytes() {
        Err(QoiError::BadMagic)
    } else if data.len() < 14 {
        Err(QoiError::TruncatedStream)
    } else {
        let w = be32_val(data[4], data[5], data[6], data[7]) as u32;
        let h = be32_val(data[8], data[9], data[10], data[11]) as u32;
        match decode_body(
            data.skip(14),
            crate::pixel::init_pixel(),
            crate::pixel::init_cache(),
            w * h,
        ) {
            Err(e) => Err(e),
            Ok((pixels, rest)) => if rest == footer_bytes() {
                Ok((w, h, pixels))
            } else {
                Err(QoiError::BadFooter)
            },
        }
    }
}

/// Reading four big-endian bytes back gives the word they were made from.
pub proof fn lemma_be32_round_trip(w: u32)
    ensures
        be32_val(
            u32_be_bytes(w)[0],
            u32_be_bytes(w)[1],
            u32_be_bytes(w)[2],
            u32_be_bytes(w)[3],
        ) == w,
{
    assert((w / 0x1000000) * 0x1000000 + ((w / 0x10000) % 0x100) * 0x10000 + ((w / 0x100) % 0x100)
        * 0x100 + (w % 0x100) == w) by (bit_vector);
    assert(w / 0x1000000 < 0x100) by (bit_vector);
}

/// Producing the predictor pixel again, as a `Run` does, leaves the cache
/// unchanged: its slot already holds that pixel in every reachable state.
pub proof fn lemma_run_preserves_state(prev: Pixel, cache: Seq<Pixel>)
    requires
        st_wf(prev, cache),
    ensures
        cache.update(hash_of(prev), prev) == cache,
{
    assert(cache.update(hash_of(prev), prev) =~= cache);
}

/// The operator chosen for a pixel that differs from the predictor pixel
/// decodes back to that pixel, and both sides move to the same state: the
/// new predictor pixel is the pixel itself and its cache slot now holds it.
pub proof fn lemma_choose_op_inverts(p: Pixel, prev: Pixel, cache: Seq<Pixel>)
    requires
        cache.len() == 64,
        p != prev,
    ensures
        op_wf(choose_op(p, prev, cache)),
        op_pixel(choose_op(p, prev, cache), prev, cache) == p,
        op_count(choose_op(p, prev, cache)) == 1,
        st_wf(p, cache.update(hash_of(p), p)),
{
    let op = choose_op(p, prev, cache);
    if cache[hash_of(p)] == p {
        assert(op_pixel(op, prev, cache) == p);
    } else {
        let dr = p.r.wrapping_sub(prev.r).wrapping_add(2);
        let dg = p.g.wrapping_sub(prev.g).wrapping_add(2);
        let db = p.b.wrapping_sub(prev.b).wrapping_add(2);
        if p.a == prev.a && dr <= 3 && dg <= 3 && db <= 3 {
            assert(prev.r.wrapping_add(dr).wrapping_sub(2) == p.r);
            assert(prev.g.wrapping_add(dg).wrapping_sub(2) == p.g);
            assert(prev.b.wrapping_add(db).wrapping_sub(2) == p.b);
        } else {
            let vg = p.g.wrapping_sub(prev.g);
            let dr_dg = p.r.wrapping_sub(prev.r).wrapping_sub(vg).wrapping_add(8);
            let db_dg = p.b.wrapping_sub(prev.b).wrapping_sub(vg).wrapping_add(8);
            let dg2 = vg.wrapping_add(32);
            if p.a == prev.a && dg2 < 64 && dr_dg < 16 && db_dg < 16 {
                assert(dg2.wrapping_sub(32) == vg);
                assert(dr_dg.wrapping_add(vg).wrapping_sub(8) == p.r.wrapping_sub(prev.r));
                assert(db_dg.wrapping_add(vg).wrapping_sub(8) == p.b.wrapping_sub(prev.b));
                assert(prev.r.wrapping_add(p.r.wrapping_sub(prev.r)) == p.r);
                assert(prev.g.wrapping_add(vg) == p.g);
                assert(prev.b.wrapping_add(p.b.wrapping_sub(prev.b)) == p.b);
            }
        }
    }
}

/// Every operator `encode_ops` emits satisfies its field bounds.
pub proof fn lemma_encode_ops_wf(pixels: Seq<Pixel>, prev: Pixel, cache: Seq<Pixel>, run: int)
    requires
        cache.len() == 64,
        0 <= run <= 62,
    ensures
        forall|i: int|
            0 <= i < encode_ops(pixels, prev, cache, run).len() ==> op_wf(
                #[trigger] encode_ops(pixels, prev, cache, run)[i],
            ),
    decreases pixels.len(),
{
    let ops = encode_ops(pixels, prev, cache, run);
    if pixels.len() == 0 {
        if run > 0 {
            assert(ops == seq![QoiOp::Run { len: run as u8 }]);
            assert(op_wf(ops[0]));
        }
    } else {
        let p = pixels[0];
        let rest = pixels.drop_first();
        if p == prev {
            if run >= 62 {
                lemma_encode_ops_wf(rest, p, cache, 1);
                let sub = encode_ops(rest, p, cache, 1);
                assert forall|i: int| 0 <= i < ops.len() implies op_wf(ops[i]) by {
                    if i > 0 {
                        assert(ops[i] == sub[i - 1]);
                    }
                }
            } else {
                lemma_encode_ops_wf(rest, p, cache, run + 1);
                assert(ops == encode_ops(rest, p, cache, run + 1));
            }
        } else {
            lemma_choose_op_inverts(p, prev, cache);
            lemma_encode_ops_wf(rest, p, cache.update(hash_of(p), p), 0);
            let sub = encode_ops(rest, p, cache.update(hash_of(p), p), 0);
            let tail = seq![choose_op(p, prev, cache)] + sub;
            assert forall|i: int| 0 <= i < ops.len() implies op_wf(ops[i]) by {
                let j: int = if run > 0 {
                    i - 1
                } else {
                    i
                };
                if j >= 1 {
                    assert(ops[i] == sub[j - 1]);
                } else if j == 0 {
                    assert(ops[i] == choose_op(p, prev, cache));
                }
            }
        }
    }
}

} // verus!
