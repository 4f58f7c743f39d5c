use crate::codec::choose_op;
use crate::codec::decode_body;
use crate::codec::decode_spec;
use crate::codec::encode_bytes;
use crate::codec::encode_ops;
use crate::codec::footer_bytes;
use crate::codec::header_bytes;
use crate::codec::lemma_be32_round_trip;
use crate::codec::lemma_choose_op_inverts;
use crate::codec::lemma_run_preserves_state;
use crate::codec::magic_bytes;
use crate::codec::op_count;
use crate::codec::op_pixel;
use crate::codec::ops_bytes;
use crate::codec::st_wf;
use crate::codec::u32_be_bytes;
use crate::codec::QoiError;
use crate::ops::lemma_parse_op_bytes;
use crate::ops::op_bytes;
use crate::ops::op_wf;
use crate::ops::parse_op;
use crate::ops::QoiOp;
use crate::pixel::hash_of;
use crate::pixel::init_cache;
use crate::pixel::init_pixel;
use crate::pixel::Pixel;
use vstd::prelude::*;

verus! {

/// `run` copies of `prev` followed by `pixels`: what decoding an encoded
/// stream with a pending run must produce.
pub open spec fn run_prefix(run: int, prev: Pixel, pixels: Seq<Pixel>) -> Seq<Pixel> {
    Seq::new(run as nat, |i: int| prev) + pixels
}

/// Serializing a sequence of operators serializes the head, then the rest.
proof fn lemma_ops_bytes_cons(op: QoiOp, ops: Seq<QoiOp>)
    ensures
        ops_bytes(seq![op] + ops) == op_bytes(op) + ops_bytes(ops),
{
    assert((seq![op] + ops)[0] == op);
    assert((seq![op] + ops).drop_first() =~= ops);
}

/// Decoding a stream that starts with one well-formed operator consumes
/// exactly its bytes, produces its pixels, and continues in the updated
/// predictor state.
proof fn lemma_decode_body_step(op: QoiOp, rest: Seq<u8>, prev: Pixel, cache: Seq<Pixel>, need: int)
    requires
        op_wf(op),
        op_count(op) <= need,
    ensures
        decode_body(op_bytes(op) + rest, prev, cache, need) == ({
            let px = op_pixel(op, prev, cache);
            let c = op_count(op);
            match decode_body(rest, px, cache.update(hash_of(px), px), need - c) {
                Err(e) => Err(e),
                Ok((pxs, left)) => Ok((Seq::new(c as nat, |i: int| px) + pxs, left)),
            }
        }),
{
    lemma_parse_op_bytes(op, rest);
    assert((op_bytes(op) + rest).skip(op_bytes(op).len() as int) =~= rest);
}

/// The round-trip statement for one starting state: decoding the encoder's
/// bytes for `pixels` (with `run` pending copies of `prev`) from the same
/// predictor state yields the pending copies followed by `pixels`, and
/// stops right at `tail`.
pub open spec fn decodes_back(
    pixels: Seq<Pixel>,
    prev: Pixel,
    cache: Seq<Pixel>,
    run: int,
    tail: Seq<u8>,
) -> bool {
    decode_body(ops_bytes(encode_ops(pixels, prev, cache, run)) + tail, prev, cache, run
        + pixels.len()) == Ok::<_, QoiError>((run_prefix(run, prev, pixels), tail))
}

/// Base case: no pixels are left; only a pending run may remain.
proof fn lemma_dee_base(pixels: Seq<Pixel>, prev: Pixel, cache: Seq<Pixel>, run: int, tail: Seq<u8>)
    requires
        st_wf(prev, cache),
        0 <= run <= 62,
        pixels.len() == 0,
    ensures
        decodes_back(pixels, prev, cache, run, tail),
{
    let ops = encode_ops(pixels, prev, cache, run);
    if run > 0 {
        let op = QoiOp::Run { len: run as u8 };
        assert(ops == seq![op]);
        lemma_ops_bytes_cons(op, Seq::<QoiOp>::empty());
        assert(seq![op] + Seq::<QoiOp>::empty() =~= ops);
        assert(ops_bytes(ops) =~= op_bytes(op));
        lemma_decode_body_step(op, tail, prev, cache, run);
        assert(decode_body(tail, prev, cache.update(hash_of(prev), prev), 0) == Ok::<_, QoiError>(
            (Seq::<Pixel>::empty(), tail),
        ));
        assert(Seq::new(run as nat, |i: int| prev) + Seq::<Pixel>::empty() =~= run_prefix(
            run,
            prev,
            pixels,
        ));
    } else {
        assert(ops_bytes(ops) + tail =~= tail);
        assert(run_prefix(0, prev, pixels) =~= Seq::<Pixel>::empty());
    }
}

/// A pixel equal to the predictor extends the pending run (below 62).
proof fn lemma_dee_extend(
    pixels: Seq<Pixel>,
    prev: Pixel,
    cache: Seq<Pixel>,
    run: int,
    tail: Seq<u8>,
)
    requires
        st_wf(prev, cache),
        0 <= run < 62,
        pixels.len() > 0,
        pixels[0] == prev,
        decodes_back(pixels.drop_first(), prev, cache, run + 1, tail),
    ensures
        decodes_back(pixels, prev, cache, run, tail),
{
    let rest = pixels.drop_first();
    assert(encode_ops(pixels, prev, cache, run) == encode_ops(rest, prev, cache, run + 1));
    assert(run_prefix(run + 1, prev, rest) =~= run_prefix(run, prev, pixels));
}

/// A pixel equal to the predictor when the run is full: flush `Run{62}`
/// and start a fresh run of one.
proof fn lemma_dee_split(
    pixels: Seq<Pixel>,
    prev: Pixel,
    cache: Seq<Pixel>,
    run: int,
    tail: Seq<u8>,
)
    requires
        st_wf(prev, cache),
        run == 62,
        pixels.len() > 0,
        pixels[0] == prev,
        decodes_back(pixels.drop_first(), prev, cache, 1, tail),
    ensures
        decodes_back(pixels, prev, cache, run, tail),
{
    let rest = pixels.drop_first();
    let op = QoiOp::Run { len: 62u8 };
    let sub = encode_ops(rest, prev, cache, 1);
    assert(encode_ops(pixels, prev, cache, run) == seq![op] + sub);
    lemma_ops_bytes_cons(op, sub);
    assert(ops_bytes(seq![op] + sub) + tail =~= op_bytes(op) + (ops_bytes(sub) + tail));
    lemma_decode_body_step(op, ops_bytes(sub) + tail, prev, cache, run + pixels.len());
    lemma_run_preserves_state(prev, cache);
    assert(run + pixels.len() - 62 == 1 + rest.len());
    assert(Seq::new(62nat, |i: int| prev) + run_prefix(1, prev, rest) =~= run_prefix(
        run,
        prev,
        pixels,
    ));
}

/// A pixel that differs from the predictor: flush any pending run, then
/// emit the chosen operator and update the cache.
proof fn lemma_dee_flush(
    pixels: Seq<Pixel>,
    prev: Pixel,
    cache: Seq<Pixel>,
    run: int,
    tail: Seq<u8>,
)
    requires
        st_wf(prev, cache),
        0 <= run <= 62,
        pixels.len() > 0,
        pixels[0] != prev,
        decodes_back(
            pixels.drop_first(),
            pixels[0],
            cache.update(hash_of(pixels[0]), pixels[0]),
            0,
            tail,
        ),
    ensures
        decodes_back(pixels, prev, cache, run, tail),
{
    let p = pixels[0];
    let rest = pixels.drop_first();
    let op = choose_op(p, prev, cache);
    lemma_choose_op_inverts(p, prev, cache);
    let cache2 = cache.update(hash_of(p), p);
    let sub = encode_ops(rest, p, cache2, 0);
    assert(run_prefix(0, p, rest) =~= rest);
    lemma_ops_bytes_cons(op, sub);
    lemma_decode_body_step(op, ops_bytes(sub) + tail, prev, cache, pixels.len() as int);
    assert(Seq::new(1nat, |i: int| p) + rest =~= pixels);
    assert(decode_body(op_bytes(op) + (ops_bytes(sub) + tail), prev, cache, pixels.len() as int)
        == Ok::<_, QoiError>((pixels, tail)));
    if run > 0 {
        let rop = QoiOp::Run { len: run as u8 };
        assert(encode_ops(pixels, prev, cache, run) == seq![rop] + (seq![op] + sub));
        lemma_ops_bytes_cons(rop, seq![op] + sub);
        assert(ops_bytes(seq![rop] + (seq![op] + sub)) + tail =~= op_bytes(rop) + ((op_bytes(op)
            + ops_bytes(sub)) + tail));
        assert((op_bytes(op) + ops_bytes(sub)) + tail =~= op_bytes(op) + (ops_bytes(sub) + tail));
        lemma_decode_body_step(
            rop,
            op_bytes(op) + (ops_bytes(sub) + tail),
            prev,
            cache,
            run + pixels.len(),
        );
        lemma_run_preserves_state(prev, cache);
        assert(Seq::new(run as nat, |i: int| prev) + pixels =~= run_prefix(run, prev, pixels));
    } else {
        assert(encode_ops(pixels, prev, cache, run) == seq![op] + sub);
        assert(ops_bytes(seq![op] + sub) + tail =~= op_bytes(op) + (ops_bytes(sub) + tail));
        assert(run_prefix(0, prev, pixels) =~= pixels);
    }
}

/// The heart of the round trip, by induction over the pixel stream: the
/// encoder's output decodes back to exactly the pixels it consumed.
pub proof fn lemma_decode_encode_ops(
    pixels: Seq<Pixel>,
    prev: Pixel,
    cache: Seq<Pixel>,
    run: int,
    tail: Seq<u8>,
)
    requires
        st_wf(prev, cache),
        0 <= run <= 62,
    ensures
        decodes_back(pixels, prev, cache, run, tail),
    decreases pixels.len(),
{
    if pixels.len() == 0 {
        lemma_dee_base(pixels, prev, cache, run, tail);
    } else {
        let p = pixels[0];
        let rest = pixels.drop_first();
        if p == prev {
            if run >= 62 {
                lemma_decode_encode_ops(rest, p, cache, 1, tail);
                lemma_dee_split(pixels, prev, cache, run, tail);
            } else {
                lemma_decode_encode_ops(rest, p, cache, run + 1, tail);
                lemma_dee_extend(pixels, prev, cache, run, tail);
            }
        } else {
            let cache2 = cache.update(hash_of(p), p);
            lemma_choose_op_inverts(p, prev, cache);
            lemma_decode_encode_ops(rest, p, cache2, 0, tail);
            lemma_dee_flush(pixels, prev, cache, run, tail);
        }
    }
}

/// PREDICTOR EQUALITY. Encoder and decoder stepped in lockstep keep equal
/// predictor states. From any reachable state: a pixel that differs from
/// the predictor pixel decodes back from its chosen operator, and both
/// sides move to the same state (the pixel itself, with its cache slot set
/// to it); a run pixel leaves both states exactly as they were.
pub proof fn lemma_predictor_lockstep(p: Pixel, prev: Pixel, cache: Seq<Pixel>)
    requires
        st_wf(prev, cache),
    ensures
        p != prev ==> op_pixel(choose_op(p, prev, cache), prev, cache) == p && st_wf(
            p,
            cache.update(hash_of(p), p),
        ),
        cache.update(hash_of(prev), prev) == cache,
{
    if p != prev {
        lemma_choose_op_inverts(p, prev, cache);
    }
    lemma_run_preserves_state(prev, cache);
}

/// HASH DOMAIN. Every pixel hashes to one of the 64 cache slots.
pub proof fn lemma_hash_domain(p: Pixel)
    ensures
        0 <= hash_of(p) < 64,
{
}

/// ROUND TRIP. For every image whose pixel count matches its dimensions,
/// decoding the encoder's output succeeds and returns exactly the original
/// width, height and pixels.
pub proof fn lemma_round_trip(w: u32, h: u32, pixels: Seq<Pixel>)
    requires
        pixels.len() == w * h,
    ensures
        decode_spec(encode_bytes(w, h, pixels)) == Ok::<_, QoiError>((w, h, pixels)),
{
    let data = encode_bytes(w, h, pixels);
    let hdr = header_bytes(w, h);
    let body = ops_bytes(encode_ops(pixels, init_pixel(), init_cache(), 0));
    assert(hdr.len() == 14);
    assert(data.len() == 14 + body.len() + 8);
    assert forall|i: int| 0 <= i < 14 implies data[i] == hdr[i] by {}
    assert(data.subrange(0, 4) =~= magic_bytes());
    lemma_be32_round_trip(w);
    lemma_be32_round_trip(h);
    assert(data[4] == u32_be_bytes(w)[0] && data[5] == u32_be_bytes(w)[1] && data[6]
        == u32_be_bytes(w)[2] && data[7] == u32_be_bytes(w)[3]);
    assert(data[8] == u32_be_bytes(h)[0] && data[9] == u32_be_bytes(h)[1] && data[10]
        == u32_be_bytes(h)[2] && data[11] == u32_be_bytes(h)[3]);
    assert(init_cache()[hash_of(init_pixel())] == init_pixel());
    assert(data.skip(14) =~= body + footer_bytes());
    lemma_decode_encode_ops(pixels, init_pixel(), init_cache(), 0, footer_bytes());
    assert(run_prefix(0, init_pixel(), pixels) =~= pixels);
}

/// RE-ENCODE STABILITY. Encoding what a decode of an encoded image returns
/// reproduces the original byte stream: the encoder is deterministic under
/// the fixed selection priority.
pub proof fn lemma_reencode_stable(w: u32, h: u32, pixels: Seq<Pixel>)
    requires
        pixels.len() == w * h,
    ensures
        decode_spec(encode_bytes(w, h, pixels)) matches Ok(t) && encode_bytes(t.0, t.1, t.2)
            == encode_bytes(w, h, pixels),
{
    lemma_round_trip(w, h, pixels);
}

/// DECODED LENGTH. Whenever the operator-stream loop succeeds it has
/// produced exactly the number of pixels it was asked for.
pub proof fn lemma_decode_body_len(data: Seq<u8>, prev: Pixel, cache: Seq<Pixel>, need: int)
    requires
        need >= 0,
    ensures
        decode_body(data, prev, cache, need) matches Ok(t) ==> t.0.len() == need,
    decreases need,
{
    if need > 0 {
        match parse_op(data) {
            None => {},
            Some((op, used)) => {
                let px = op_pixel(op, prev, cache);
                let c = op_count(op);
                if c <= need {
                    lemma_decode_body_len(
                        data.skip(used),
                        px,
                        cache.update(hash_of(px), px),
                        need - c,
                    );
                }
            },
        }
    }
}

/// ROBUST OUTPUT SHAPE. A successful decode of any byte sequence returns
/// exactly `width * height` pixels.
pub proof fn lemma_decode_len(data: Seq<u8>)
    ensures
        decode_spec(data) matches Ok(t) ==> t.2.len() == t.0 * t.1,
{
    if data.len() >= 14 && data.subrange(0, 4) == magic_bytes() {
        let w = crate::codec::be32_val(data[4], data[5], data[6], data[7]) as u32;
        let h = crate::codec::be32_val(data[8], data[9], data[10], data[11]) as u32;
        lemma_decode_body_len(data.skip(14), init_pixel(), init_cache(), w * h);
    }
}

} // verus!
