use crate::codec::be32_val;
use crate::codec::decode_body;
use crate::codec::decode_spec;
use crate::codec::footer_bytes;
use crate::codec::magic_bytes;
use crate::codec::op_count;
use crate::codec::op_pixel;
use crate::codec::QoiError;
use crate::ops::QoiOp;
use crate::pixel::fresh_cache;
use crate::pixel::hash_of;
use crate::pixel::init_cache;
use crate::pixel::init_pixel;
use crate::pixel::Image;
use crate::pixel::Pixel;
use vstd::prelude::*;

verus! {

/// The QOI decoder: the predictor state (previous pixel and 64-entry
/// cache). The predictor is reset at the start of every `decode` call, so
/// calls are independent.
pub struct Decoder {
    cache: Vec<Pixel>,
    prev: Pixel,
}

/// Read four big-endian bytes starting at `at`.
fn read_be32(data: &[u8], at: usize) -> (w: u32)
    requires
        at + 4 <= data@.len(),
    ensures
        w == be32_val(data@[at as int], data@[at + 1], data@[at + 2], data@[at + 3]),
{
    data[at] as u32 * 0x1000000 + data[at + 1] as u32 * 0x10000 + data[at + 2] as u32 * 0x100
        + data[at + 3] as u32
}

impl Decoder {
    /// A usable decoder: full cache.
    pub closed spec fn wf(&self) -> bool {
        self.cache@.len() == 64
    }

    pub fn new() -> (d: Self)
        ensures
            d.wf(),
    {
        Self { cache: fresh_cache(), prev: Pixel::new(0, 0, 0, 255) }
    }

    /// Decode a complete QOI stream: header, operator stream, footer.
    /// Succeeds exactly when `decode_spec` does, returning the image it
    /// describes — `width * height` pixels — and fails with the same error
    /// it picks. The channel and colorspace header bytes are read but
    /// ignored; the output is always 4-channel RGBA.
    pub fn decode(&mut self, data: &[u8]) -> (r: Result<Image<Pixel>, QoiError>)
        requires
            old(self).wf(),
        ensures
            final(self).wf(),
            match (decode_spec(data@), r) {
                (Ok(t), Ok(img)) => {
                    &&& img.width as int == t.0 as int
                    &&& img.height as int == t.1 as int
                    &&& img.pixels@ == t.2
                },
                (Err(e), Err(e2)) => e == e2,
                _ => false,
            },
    {
        // every decode starts from the initial predictor state
        self.prev = Pixel::new(0, 0, 0, 255);
        self.cache = fresh_cache();

        if data.len() < 4 {
            return Err(QoiError::TruncatedStream);
        }
        if !(data[0] == 113 && data[1] == 111 && data[2] == 105 && data[3] == 102) {
            proof {
                assert(data@.subrange(0, 4)[0] == data@[0]);
                assert(data@.subrange(0, 4)[1] == data@[1]);
                assert(data@.subrange(0, 4)[2] == data@[2]);
                assert(data@.subrange(0, 4)[3] == data@[3]);
            }
            return Err(QoiError::BadMagic);
        }
        proof {
            assert(data@.subrange(0, 4) =~= magic_bytes());
        }
        if data.len() < 14 {
            return Err(QoiError::TruncatedStream);
        }
        let w = read_be32(data, 4);
        let h = read_be32(data, 8);
        proof {
            assert(w as int == be32_val(data@[4], data@[5], data@[6], data@[7]) as u32 as int);
            assert((w as u64) * (h as u64) <= 0xffffffffu64 * 0xffffffffu64)
                by (nonlinear_arith)
                requires
                    w <= 0xffffffffu32,
                    h <= 0xffffffffu32,
            ;
        }
        let need: u64 = (w as u64) * (h as u64);
        let ghost goal = decode_body(data@.skip(14), init_pixel(), init_cache(), (w * h) as int);
        proof {
            assert(need as int == (w * h) as int) by (nonlinear_arith)
                requires
                    need == (w as u64) * (h as u64),
            ;
            assert(decode_spec(data@) == (match goal {
                Ok((pxs, rest)) => if rest == footer_bytes() {
                    Ok::<_, QoiError>((w, h, pxs))
                } else {
                    Err::<(u32, u32, Seq<Pixel>), _>(QoiError::BadFooter)
                },
                Err(e) => Err(e),
            }));
        }

        let mut pixels: Vec<Pixel> = Vec::new();
        let mut pos: usize = 14;
        let mut produced: u64 = 0;
        while produced < need
            invariant
                self.wf(),
                14 <= pos <= data@.len(),
                produced == pixels@.len(),
                produced <= need,
                need == (w * h) as int,
                goal == decode_body(data@.skip(14), init_pixel(), init_cache(), (w * h) as int),
                decode_spec(data@) == (match goal {
                    Ok((pxs, rest)) => if rest == footer_bytes() {
                        Ok::<_, QoiError>((w, h, pxs))
                    } else {
                        Err::<(u32, u32, Seq<Pixel>), _>(QoiError::BadFooter)
                    },
                    Err(e) => Err(e),
                }),
                match decode_body(
                    data@.skip(pos as int),
                    self.prev,
                    self.cache@,
                    need - produced,
                ) {
                    Ok(t) => goal == Ok::<_, QoiError>((pixels@ + t.0, t.1)),
                    Err(e) => goal == Err::<(Seq<Pixel>, Seq<u8>), _>(e),
                },
            decreases need - produced,
        {
            let ghost pos0 = pos as int;
            let ghost state0 = (data@.skip(pos as int), self.prev, self.cache@, need - produced);
            match QoiOp::from_bytes(data, pos) {
                None => {
                    return Err(QoiError::TruncatedStream);
                },
                Some((op, next)) => {
                    let prev = self.prev;
                    let count: u8;
                    let px: Pixel;
                    match op {
                        QoiOp::RGB { r, g, b } => {
                            px = Pixel::new(r, g, b, prev.a);
                            count = 1;
                        },
                        QoiOp::RGBA { r, g, b, a } => {
                            px = Pixel::new(r, g, b, a);
                            count = 1;
                        },
                        QoiOp::Index { idx } => {
                            px = self.cache[idx as usize];
                            count = 1;
                        },
                        QoiOp::Diff { dr, dg, db } => {
                            px = Pixel::new(
                                prev.r.wrapping_add(dr).wrapping_sub(2),
                                prev.g.wrapping_add(dg).wrapping_sub(2),
                                prev.b.wrapping_add(db).wrapping_sub(2),
                                prev.a,
                            );
                            count = 1;
                        },
                        QoiOp::Luma { dg, dr_dg, db_dg } => {
                            let vg = dg.wrapping_sub(32);
                            px = Pixel::new(
                                prev.r.wrapping_add(dr_dg.wrapping_add(vg).wrapping_sub(8)),
                                prev.g.wrapping_add(vg),
                                prev.b.wrapping_add(db_dg.wrapping_add(vg).wrapping_sub(8)),
                                prev.a,
                            );
                            count = 1;
                        },
                        QoiOp::Run { len } => {
                            px = prev;
                            count = len;
                        },
                    }
                    proof {
                        assert(px == op_pixel(op, self.prev, self.cache@));
                        assert(count as int == op_count(op));
                    }
                    if count as u64 > need - produced {
                        return Err(QoiError::OverflowRun);
                    }
                    self.prev = px;
                    let hh = px.hash();
                    self.cache[hh as usize] = px;
                    let ghost before = pixels@;
                    let mut j: u8 = 0;
                    while j < count
                        invariant
                            j <= count,
                            pixels@ == before + Seq::new(j as nat, |k: int| px),
                        decreases count - j,
                    {
                        proof {
                            assert(before + Seq::new(j as nat, |k: int| px) + seq![px] =~= before
                                + Seq::new((j + 1) as nat, |k: int| px));
                        }
                        pixels.push(px);
                        j = j + 1;
                    }
                    produced = produced + count as u64;
                    pos = next;
                    proof {
                        let used = next - pos0;
                        assert(state0.0.skip(used) =~= data@.skip(pos as int));
                        assert(state0.2.update(hash_of(px), px) == self.cache@);
                        assert(decode_body(state0.0, state0.1, state0.2, state0.3) == (
                        match decode_body(
                            data@.skip(pos as int),
                            self.prev,
                            self.cache@,
                            need - produced,
                        ) {
                            Err(e) => Err(e),
                            Ok((pxs, left)) => Ok(
                                (Seq::new(count as nat, |k: int| px) + pxs, left),
                            ),
                        }));
                        match decode_body(
                            data@.skip(pos as int),
                            self.prev,
                            self.cache@,
                            need - produced,
                        ) {
                            Ok(t) => {
                                assert(before + (Seq::new(count as nat, |k: int| px) + t.0)
                                    =~= pixels@ + t.0);
                            },
                            Err(e) => {},
                        }
                    }
                },
            }
        }
        proof {
            assert(decode_body(data@.skip(pos as int), self.prev, self.cache@, 0) == Ok::<
                _,
                QoiError,
            >((Seq::<Pixel>::empty(), data@.skip(pos as int))));
            assert(pixels@ + Seq::<Pixel>::empty() =~= pixels@);
        }
        if data.len() - pos != 8 {
            proof {
                assert(data@.skip(pos as int).len() != footer_bytes().len());
            }
            return Err(QoiError::BadFooter);
        }
        if !(data[pos] == 0 && data[pos + 1] == 0 && data[pos + 2] == 0 && data[pos + 3] == 0
            && data[pos + 4] == 0 && data[pos + 5] == 0 && data[pos + 6] == 0 && data[pos + 7]
            == 1) {
            proof {
                let rest = data@.skip(pos as int);
                assert(rest[0] == data@[pos as int] && rest[1] == data@[pos + 1] && rest[2]
                    == data@[pos + 2] && rest[3] == data@[pos + 3] && rest[4] == data@[pos + 4]
                    && rest[5] == data@[pos + 5] && rest[6] == data@[pos + 6] && rest[7] == data@[
                    pos + 7]);
            }
            return Err(QoiError::BadFooter);
        }
        proof {
            assert(data@.skip(pos as int) =~= footer_bytes());
        }
        Ok(Image { width: w as usize, height: h as usize, pixels })
    }
}

} // verus!
