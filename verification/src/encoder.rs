use crate::codec::choose_op;
use crate::codec::encode_bytes;
use crate::codec::encode_ops;
use crate::codec::footer_bytes;
use crate::codec::header_bytes;
use crate::codec::lemma_encode_ops_wf;
use crate::codec::lemma_ops_bytes_snoc;
use crate::codec::ops_bytes;
use crate::codec::u32_be_bytes;
use crate::ops::op_wf;
use crate::ops::QoiOp;
use crate::pixel::fresh_cache;
use crate::pixel::hash_of;
use crate::pixel::init_cache;
use crate::pixel::init_pixel;
use crate::pixel::Pixel;
use vstd::prelude::*;

verus! {

/// The QOI encoder: image dimensions plus the predictor state (previous
/// pixel and 64-entry cache). The predictor is reset at the start of every
/// `encode` call, so calls are independent.
pub struct Encoder {
    width: u32,
    height: u32,
    channels: u8,
    colorspace: u8,
    cache: Vec<Pixel>,
    prev: Pixel,
}

/// Append the four big-endian bytes of `w` to `buf`.
fn push_be32(buf: &mut Vec<u8>, w: u32)
    ensures
        final(buf)@ == old(buf)@ + u32_be_bytes(w),
{
    buf.push((w / 0x1000000) as u8);
    buf.push(((w / 0x10000) % 0x100) as u8);
    buf.push(((w / 0x100) % 0x100) as u8);
    buf.push((w % 0x100) as u8);
    proof {
        assert(buf@ =~= old(buf)@ + u32_be_bytes(w));
    }
}

impl Encoder {
    /// A usable encoder: full cache, 4 channels, linear colorspace tag.
    pub closed spec fn wf(&self) -> bool {
        &&& self.cache@.len() == 64
        &&& self.channels == 4
        &&& self.colorspace == 0
    }

    /// The width and height this encoder writes into its headers.
    pub closed spec fn dims(&self) -> (u32, u32) {
        (self.width, self.height)
    }

    pub fn new(width: u32, height: u32) -> (enc: Self)
        ensures
            enc.wf(),
            enc.dims() == (width, height),
    {
        Self {
            width,
            height,
            channels: 4,
            colorspace: 0,
            cache: fresh_cache(),
            prev: Pixel::new(0, 0, 0, 255),
        }
    }

    /// Append the 14-byte header: magic, dimensions, channels, colorspace.
    fn append_header(&self, buf: &mut Vec<u8>)
        requires
            self.wf(),
        ensures
            final(buf)@ == old(buf)@ + header_bytes(self.dims().0, self.dims().1),
    {
        buf.push(113);
        buf.push(111);
        buf.push(105);
        buf.push(102);
        push_be32(buf, self.width);
        push_be32(buf, self.height);
        buf.push(self.channels);
        buf.push(self.colorspace);
        proof {
            assert(buf@ =~= old(buf)@ + header_bytes(self.dims().0, self.dims().1));
        }
    }

    /// Encode `img` as a complete QOI stream: header, operator stream,
    /// footer. The result is exactly the byte sequence `encode_bytes`
    /// describes; the header states this encoder's dimensions whether or
    /// not they match `img.len()`, exactly as given to `new`.
    pub fn encode(&mut self, img: &[Pixel]) -> (buf: Vec<u8>)
        requires
            old(self).wf(),
        ensures
            final(self).wf(),
            final(self).dims() == old(self).dims(),
            buf@ == encode_bytes(old(self).dims().0, old(self).dims().1, img@),
    {
        // every encode starts from the initial predictor state
        self.prev = Pixel::new(0, 0, 0, 255);
        self.cache = fresh_cache();

        let mut buf: Vec<u8> = Vec::new();
        self.append_header(&mut buf);

        let ghost full_ops = encode_ops(img@, init_pixel(), init_cache(), 0);
        let mut ops: Vec<QoiOp> = Vec::new();
        let mut run: u8 = 0;
        let mut i: usize = 0;
        proof {
            assert(img@.skip(0) =~= img@);
            assert(Seq::<QoiOp>::empty() + full_ops =~= full_ops);
        }
        while i < img.len()
            invariant
                self.wf(),
                self.dims() == old(self).dims(),
                i <= img@.len(),
                run <= 62,
                full_ops == ops@ + encode_ops(
                    img@.skip(i as int),
                    self.prev,
                    self.cache@,
                    run as int,
                ),
            decreases img@.len() - i,
        {
            let ghost pre_ops = ops@;
            let ghost pix = img@.skip(i as int);
            proof {
                assert(pix[0] == img@[i as int]);
                assert(pix.drop_first() =~= img@.skip(i as int + 1));
            }
            let pixel = img[i];
            if pixel == self.prev {
                if run >= 62 {
                    ops.push(QoiOp::Run { len: 62 });
                    run = 1;
                    proof {
                        assert(ops@ =~= pre_ops + seq![QoiOp::Run { len: 62u8 }]);
                        assert(pre_ops + (seq![QoiOp::Run { len: 62u8 }] + encode_ops(
                            img@.skip(i as int + 1),
                            self.prev,
                            self.cache@,
                            1,
                        )) =~= ops@ + encode_ops(img@.skip(i as int + 1), self.prev, self.cache@, 1));
                    }
                } else {
                    run = run + 1;
                    proof {
                        assert(encode_ops(pix, self.prev, self.cache@, run as int - 1)
                            == encode_ops(
                            img@.skip(i as int + 1),
                            self.prev,
                            self.cache@,
                            run as int,
                        ));
                    }
                }
            } else {
                if run > 0 {
                    ops.push(QoiOp::Run { len: run });
                    proof {
                        assert(ops@ =~= pre_ops + seq![QoiOp::Run { len: run }]);
                    }
                }
                let ghost flushed = ops@;
                let ghost cache0 = self.cache@;
                let prev = self.prev;
                let h = pixel.hash();
                let op: QoiOp;
                if self.cache[h as usize] == pixel {
                    op = QoiOp::Index { idx: h };
                } else {
                    let dr = pixel.r.wrapping_sub(prev.r).wrapping_add(2);
                    let dg = pixel.g.wrapping_sub(prev.g).wrapping_add(2);
                    let db = pixel.b.wrapping_sub(prev.b).wrapping_add(2);
                    if pixel.a == prev.a && dr <= 3 && dg <= 3 && db <= 3 {
                        op = QoiOp::Diff { dr, dg, db };
                    } else {
                        let vg = pixel.g.wrapping_sub(prev.g);
                        let dr_dg = pixel.r.wrapping_sub(prev.r).wrapping_sub(vg).wrapping_add(8);
                        let db_dg = pixel.b.wrapping_sub(prev.b).wrapping_sub(vg).wrapping_add(8);
                        let dg2 = vg.wrapping_add(32);
                        if pixel.a == prev.a && dg2 < 64 && dr_dg < 16 && db_dg < 16 {
                            op = QoiOp::Luma { dg: dg2, dr_dg, db_dg };
                        } else if pixel.a == prev.a {
                            op = QoiOp::RGB { r: pixel.r, g: pixel.g, b: pixel.b };
                        } else {
                            op = QoiOp::RGBA { r: pixel.r, g: pixel.g, b: pixel.b, a: pixel.a };
                        }
                    }
                }
                proof {
                    assert(op == choose_op(pixel, prev, cache0));
                }
                ops.push(op);
                self.cache[h as usize] = pixel;
                self.prev = pixel;
                let ghost old_run = run;
                run = 0;
                proof {
                    let sub = encode_ops(
                        img@.skip(i as int + 1),
                        pixel,
                        cache0.update(hash_of(pixel), pixel),
                        0,
                    );
                    assert(self.cache@ == cache0.update(hash_of(pixel), pixel));
                    assert(ops@ =~= flushed + seq![op]);
                    if old_run > 0 {
                        assert(encode_ops(pix, prev, cache0, old_run as int) == seq![QoiOp::Run { len: old_run }]
                            + (seq![op] + sub));
                        assert(pre_ops + encode_ops(pix, prev, cache0, old_run as int) =~= ops@
                            + sub);
                    } else {
                        assert(encode_ops(pix, prev, cache0, 0) == seq![op] + sub);
                        assert(pre_ops + encode_ops(pix, prev, cache0, 0) =~= ops@ + sub);
                    }
                    assert(full_ops == ops@ + encode_ops(
                        img@.skip(i as int + 1),
                        self.prev,
                        self.cache@,
                        0,
                    ));
                }
            }
            i = i + 1;
        }
        if run > 0 {
            let ghost pre_ops = ops@;
            ops.push(QoiOp::Run { len: run });
            proof {
                assert(img@.skip(img@.len() as int) =~= Seq::<Pixel>::empty());
                assert(ops@ =~= pre_ops + seq![QoiOp::Run { len: run }]);
                assert(full_ops == ops@);
            }
        } else {
            proof {
                assert(img@.skip(img@.len() as int) =~= Seq::<Pixel>::empty());
                assert(ops@ + Seq::<QoiOp>::empty() =~= ops@);
                assert(full_ops == ops@);
            }
        }
        proof {
            lemma_encode_ops_wf(img@, init_pixel(), init_cache(), 0);
        }

        let mut j: usize = 0;
        while j < ops.len()
            invariant
                j <= ops@.len(),
                ops@ == full_ops,
                forall|k: int| 0 <= k < full_ops.len() ==> op_wf(#[trigger] full_ops[k]),
                buf@ == header_bytes(old(self).dims().0, old(self).dims().1) + ops_bytes(
                    ops@.take(j as int),
                ),
            decreases ops@.len() - j,
        {
            let ghost done = ops@.take(j as int);
            let op = ops[j];
            op.append_bytes(&mut buf);
            proof {
                assert(ops@.take(j as int + 1) =~= done.push(op));
                lemma_ops_bytes_snoc(done, op);
            }
            j = j + 1;
        }
        proof {
            assert(ops@.take(ops@.len() as int) =~= ops@);
        }
        let ghost before_footer = buf@;
        buf.push(0);
        buf.push(0);
        buf.push(0);
        buf.push(0);
        buf.push(0);
        buf.push(0);
        buf.push(0);
        buf.push(1);
        proof {
            assert(buf@ =~= before_footer + footer_bytes());
            assert(buf@ =~= encode_bytes(old(self).dims().0, old(self).dims().1, img@));
        }
        buf
    }
}

} // verus!
