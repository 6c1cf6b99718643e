use crate::cache::{
    cache_tracks, initial_cache, lemma_cache_tracks_empty, lemma_cache_tracks_push,
    most_recent_with_hash,
};
use crate::header::{magic_ok, spec_parse_header, QOIHeader};
use crate::pixel::{initial_pixel, pixel_hash, wadd, wsub, Pixel};
use vstd::prelude::*;

verus! {

/// The fixed 8-byte sentinel that terminates every QOI op-stream.
pub open spec fn end_marker() -> Seq<u8> {
    seq![0u8, 0u8, 0u8, 0u8, 0u8, 0u8, 0u8, 1u8]
}

/// Prepends pixels already produced to the outcome of decoding the rest of
/// the stream.
pub open spec fn emit_then(
    now: Seq<Pixel>,
    rest: Option<(Seq<Pixel>, Pixel, Seq<Pixel>)>,
) -> Option<(Seq<Pixel>, Pixel, Seq<Pixel>)> {
    match rest {
        None => None,
        Some(t) => Some((now + t.0, t.1, t.2)),
    }
}

/// The pixel a DIFF op derives from its predecessor: each of R, G, B moves
/// by a 2-bit delta biased by -2, with 8-bit wraparound; alpha is unchanged.
pub open spec fn diff_pixel(prev: Pixel, op: u8) -> Pixel {
    Pixel {
        r: wadd(prev.r, wsub((op >> 4) & 3, 2)),
        g: wadd(prev.g, wsub((op >> 2) & 3, 2)),
        b: wadd(prev.b, wsub(op & 3, 2)),
        a: prev.a,
    }
}

/// The pixel a LUMA op derives from its predecessor: the green delta is the
/// op's 6 low bits biased by -32; red and blue move by the green delta plus
/// a 4-bit secondary delta biased by -8; alpha is unchanged.  `wsub(op, 168)`
/// is the green delta minus 8, ready to be combined with the 4-bit fields.
pub open spec fn luma_pixel(prev: Pixel, op: u8, b2: u8) -> Pixel {
    let dgm8 = wsub(op, 168);
    Pixel {
        r: wadd(prev.r, wadd(b2 >> 4, dgm8)),
        g: wadd(prev.g, wadd(dgm8, 8)),
        b: wadd(prev.b, wadd(b2 & 0x0f, dgm8)),
        a: prev.a,
    }
}

/// Sequentially interprets an op-stream from a given state.  Returns the
/// pixels produced together with the final current pixel and cache, or
/// `None` when an op's payload runs past the end of the stream.  Each op is
/// identified by its leading byte, most specific pattern first; after every
/// produced pixel the cache slot at that pixel's hash is refreshed.
#[verifier::opaque]
pub open spec fn decode_ops(ops: Seq<u8>, prev: Pixel, cache: Seq<Pixel>) -> Option<
    (Seq<Pixel>, Pixel, Seq<Pixel>),
>
    decreases ops.len(),
{
    if ops.len() == 0 {
        Some((Seq::<Pixel>::empty(), prev, cache))
    } else {
        let op = ops[0];
        if op == 0xffu8 {
            if ops.len() < 5 {
                None
            } else {
                let px = Pixel { r: ops[1], g: ops[2], b: ops[3], a: ops[4] };
                emit_then(
                    seq![px],
                    decode_ops(ops.skip(5), px, cache.update(pixel_hash(px), px)),
                )
            }
        } else if op == 0xfeu8 {
            if ops.len() < 4 {
                None
            } else {
                let px = Pixel { r: ops[1], g: ops[2], b: ops[3], a: prev.a };
                emit_then(
                    seq![px],
                    decode_ops(ops.skip(4), px, cache.update(pixel_hash(px), px)),
                )
            }
        } else if op & 0xc0 == 0x00 {
            let px = cache[(op & 0x3f) as int];
            emit_then(seq![px], decode_ops(ops.skip(1), px, cache.update(pixel_hash(px), px)))
        } else if op & 0xc0 == 0x40 {
            let px = diff_pixel(prev, op);
            emit_then(seq![px], decode_ops(ops.skip(1), px, cache.update(pixel_hash(px), px)))
        } else if op & 0xc0 == 0x80 {
            if ops.len() < 2 {
                None
            } else {
                let px = luma_pixel(prev, op, ops[1]);
                emit_then(
                    seq![px],
                    decode_ops(ops.skip(2), px, cache.update(pixel_hash(px), px)),
                )
            }
        } else {
            let n = (op & 0x3f) + 1;
            emit_then(
                Seq::new(n as nat, |k: int| prev),
                decode_ops(ops.skip(1), prev, cache.update(pixel_hash(prev), prev)),
            )
        }
    }
}

/// What a whole QOI byte stream denotes: its header and pixel sequence, or
/// `None` when the magic is wrong, the stream is too short, the end marker
/// is missing, or an op runs past the marker.
pub open spec fn spec_decode(bytes: Seq<u8>) -> Option<(QOIHeader, Seq<Pixel>)> {
    if !magic_ok(bytes) {
        None
    } else if bytes.len() < 22 {
        None
    } else if bytes.subrange(bytes.len() - 8, bytes.len() as int) != end_marker() {
        None
    } else {
        match decode_ops(
            bytes.subrange(14, bytes.len() - 8),
            initial_pixel(),
            initial_cache(),
        ) {
            None => None,
            Some(t) => Some((spec_parse_header(bytes), t.0)),
        }
    }
}

/// Produced pixels accumulate across `emit_then`.
pub proof fn lemma_emit_then_nest(
    a: Seq<Pixel>,
    b: Seq<Pixel>,
    rest: Option<(Seq<Pixel>, Pixel, Seq<Pixel>)>,
)
    ensures
        emit_then(a, emit_then(b, rest)) == emit_then(a + b, rest),
{
    match rest {
        None => {}
        Some(t) => {
            assert(a + (b + t.0) =~= (a + b) + t.0);
        }
    }
}

/// Prepending no pixels changes nothing.
pub proof fn lemma_emit_then_empty(rest: Option<(Seq<Pixel>, Pixel, Seq<Pixel>)>)
    ensures
        emit_then(Seq::<Pixel>::empty(), rest) == rest,
{
    match rest {
        None => {}
        Some(t) => {
            assert(Seq::<Pixel>::empty() + t.0 =~= t.0);
        }
    }
}

/// An empty op-stream produces nothing and leaves the state alone.
pub proof fn lemma_decode_ops_empty(prev: Pixel, cache: Seq<Pixel>)
    ensures
        decode_ops(Seq::<u8>::empty(), prev, cache) == Some(
            (Seq::<Pixel>::empty(), prev, cache),
        ),
{
    reveal_with_fuel(decode_ops, 1);
}

/// Common step for `lemma_decode_ops_append`: once one op of `b1` is peeled
/// off on both sides, the rest of the concatenation follows recursively.
proof fn lemma_append_step(
    b1: Seq<u8>,
    b2: Seq<u8>,
    k: int,
    now: Seq<Pixel>,
    px: Pixel,
    c2: Seq<Pixel>,
    prev: Pixel,
    cache: Seq<Pixel>,
    e1: Seq<Pixel>,
    p1: Pixel,
    c1: Seq<Pixel>,
)
    requires
        1 <= k <= b1.len(),
        decode_ops(b1, prev, cache) == emit_then(now, decode_ops(b1.skip(k), px, c2)),
        decode_ops(b1 + b2, prev, cache) == emit_then(
            now,
            decode_ops(b1.skip(k) + b2, px, c2),
        ),
        decode_ops(b1, prev, cache) == Some((e1, p1, c1)),
    ensures
        decode_ops(b1 + b2, prev, cache) == emit_then(e1, decode_ops(b2, p1, c1)),
    decreases b1.len(), 0int,
{
    reveal_with_fuel(decode_ops, 1);
    match decode_ops(b1.skip(k), px, c2) {
        None => {
            assert(false);
        }
        Some(t) => {
            lemma_decode_ops_append(b1.skip(k), b2, px, c2, t.0, t.1, t.2);
            assert(e1 == now + t.0 && p1 == t.1 && c1 == t.2);
            lemma_emit_then_nest(now, t.0, decode_ops(b2, p1, c1));
        }
    }
}

/// Decoding distributes over concatenation of op-streams: after the first
/// stream decodes, the second continues from the state it left behind.
pub proof fn lemma_decode_ops_append(
    b1: Seq<u8>,
    b2: Seq<u8>,
    prev: Pixel,
    cache: Seq<Pixel>,
    e1: Seq<Pixel>,
    p1: Pixel,
    c1: Seq<Pixel>,
)
    requires
        decode_ops(b1, prev, cache) == Some((e1, p1, c1)),
    ensures
        decode_ops(b1 + b2, prev, cache) == emit_then(e1, decode_ops(b2, p1, c1)),
    decreases b1.len(), 1int,
{
    reveal_with_fuel(decode_ops, 1);
    if b1.len() == 0 {
        assert(b1 + b2 =~= b2);
        assert(e1 =~= Seq::<Pixel>::empty());
        match decode_ops(b2, p1, c1) {
            None => {}
            Some(t) => {
                assert(e1 + t.0 =~= t.0);
            }
        }
    } else {
        let all = b1 + b2;
        let op = b1[0];
        assert(all[0] == op);
        if op == 0xffu8 {
            let px = Pixel { r: b1[1], g: b1[2], b: b1[3], a: b1[4] };
            let c2 = cache.update(pixel_hash(px), px);
            assert(all[1] == b1[1] && all[2] == b1[2] && all[3] == b1[3] && all[4] == b1[4]);
            assert(all.skip(5) =~= b1.skip(5) + b2);
            lemma_append_step(b1, b2, 5, seq![px], px, c2, prev, cache, e1, p1, c1);
        } else if op == 0xfeu8 {
            let px = Pixel { r: b1[1], g: b1[2], b: b1[3], a: prev.a };
            let c2 = cache.update(pixel_hash(px), px);
            assert(all[1] == b1[1] && all[2] == b1[2] && all[3] == b1[3]);
            assert(all.skip(4) =~= b1.skip(4) + b2);
            lemma_append_step(b1, b2, 4, seq![px], px, c2, prev, cache, e1, p1, c1);
        } else if op & 0xc0 == 0x00 {
            let px = cache[(op & 0x3f) as int];
            let c2 = cache.update(pixel_hash(px), px);
            assert(all.skip(1) =~= b1.skip(1) + b2);
            lemma_append_step(b1, b2, 1, seq![px], px, c2, prev, cache, e1, p1, c1);
        } else if op & 0xc0 == 0x40 {
            let px = diff_pixel(prev, op);
            let c2 = cache.update(pixel_hash(px), px);
            assert(all.skip(1) =~= b1.skip(1) + b2);
            lemma_append_step(b1, b2, 1, seq![px], px, c2, prev, cache, e1, p1, c1);
        } else if op & 0xc0 == 0x80 {
            let px = luma_pixel(prev, op, b1[1]);
            let c2 = cache.update(pixel_hash(px), px);
            assert(all[1] == b1[1]);
            assert(all.skip(2) =~= b1.skip(2) + b2);
            lemma_append_step(b1, b2, 2, seq![px], px, c2, prev, cache, e1, p1, c1);
        } else {
            let n = (op & 0x3f) + 1;
            let c2 = cache.update(pixel_hash(prev), prev);
            assert(all.skip(1) =~= b1.skip(1) + b2);
            lemma_append_step(
                b1,
                b2,
                1,
                Seq::new(n as nat, |k: int| prev),
                prev,
                c2,
                prev,
                cache,
                e1,
                p1,
                c1,
            );
        }
    }
}

/// Emitting the same pixel `n` times refreshes its cache slot once.
proof fn lemma_cache_tracks_run(cache: Seq<Pixel>, emitted: Seq<Pixel>, px: Pixel, n: nat)
    requires
        cache_tracks(cache, emitted),
        n >= 1,
    ensures
        cache_tracks(
            cache.update(pixel_hash(px), px),
            emitted + Seq::new(n, |k: int| px),
        ),
    decreases n,
{
    if n == 1 {
        lemma_cache_tracks_push(cache, emitted, px);
        assert(emitted + Seq::new(1nat, |k: int| px) =~= emitted.push(px));
    } else {
        lemma_cache_tracks_run(cache, emitted, px, (n - 1) as nat);
        let cu = cache.update(pixel_hash(px), px);
        let mid = emitted + Seq::new((n - 1) as nat, |k: int| px);
        lemma_cache_tracks_push(cu, mid, px);
        assert(cu.update(pixel_hash(px), px) =~= cu);
        assert(mid.push(px) =~= emitted + Seq::new(n, |k: int| px));
    }
}

/// Hash cache correctness: decoding any op-stream from a cache that tracks
/// the pixels emitted so far leaves a cache in which, for every hash value,
/// the slot holds the most recently emitted pixel with that hash, or the
/// zero pixel if none has been emitted yet.
pub proof fn lemma_hash_cache_correct(
    ops: Seq<u8>,
    prev: Pixel,
    cache: Seq<Pixel>,
    emitted: Seq<Pixel>,
    e: Seq<Pixel>,
    p2: Pixel,
    c2: Seq<Pixel>,
)
    requires
        cache_tracks(cache, emitted),
        decode_ops(ops, prev, cache) == Some((e, p2, c2)),
    ensures
        cache_tracks(c2, emitted + e),
        forall|h: int| 0 <= h < 64 ==> c2[h] == most_recent_with_hash(emitted + e, h),
    decreases ops.len(), 1int,
{
    reveal_with_fuel(decode_ops, 1);
    if ops.len() == 0 {
        assert(emitted + e =~= emitted);
    } else {
        let op = ops[0];
        if op == 0xffu8 {
            let px = Pixel { r: ops[1], g: ops[2], b: ops[3], a: ops[4] };
            lemma_cache_step(ops, 5, px, prev, cache, emitted, e, p2, c2);
        } else if op == 0xfeu8 {
            let px = Pixel { r: ops[1], g: ops[2], b: ops[3], a: prev.a };
            lemma_cache_step(ops, 4, px, prev, cache, emitted, e, p2, c2);
        } else if op & 0xc0 == 0x00 {
            let px = cache[(op & 0x3f) as int];
            lemma_cache_step(ops, 1, px, prev, cache, emitted, e, p2, c2);
        } else if op & 0xc0 == 0x40 {
            let px = diff_pixel(prev, op);
            lemma_cache_step(ops, 1, px, prev, cache, emitted, e, p2, c2);
        } else if op & 0xc0 == 0x80 {
            let px = luma_pixel(prev, op, ops[1]);
            lemma_cache_step(ops, 2, px, prev, cache, emitted, e, p2, c2);
        } else {
            let n = ((op & 0x3f) + 1) as nat;
            let runseq = Seq::new(n, |k: int| prev);
            let cu = cache.update(pixel_hash(prev), prev);
            lemma_cache_tracks_run(cache, emitted, prev, n);
            match decode_ops(ops.skip(1), prev, cu) {
                None => {
                    assert(false);
                }
                Some(t) => {
                    lemma_hash_cache_correct(
                        ops.skip(1),
                        prev,
                        cu,
                        emitted + runseq,
                        t.0,
                        t.1,
                        t.2,
                    );
                    assert((emitted + runseq) + t.0 =~= emitted + (runseq + t.0));
                    assert(e == runseq + t.0 && c2 == t.2);
                }
            }
        }
    }
}

/// Hash cache correctness from the start of a stream: after interpreting
/// any decodable prefix of an op-stream, every cache slot holds the most
/// recently produced pixel whose hash addresses it, or the zero pixel if no
/// such pixel has been produced.
pub proof fn lemma_hash_cache_correct_from_start(
    ops: Seq<u8>,
    e: Seq<Pixel>,
    p2: Pixel,
    c2: Seq<Pixel>,
)
    requires
        decode_ops(ops, initial_pixel(), initial_cache()) == Some((e, p2, c2)),
    ensures
        cache_tracks(c2, e),
{
    lemma_cache_tracks_empty();
    lemma_hash_cache_correct(ops, initial_pixel(), initial_cache(), Seq::<Pixel>::empty(), e, p2, c2);
    assert(Seq::<Pixel>::empty() + e =~= e);
}

/// Common step for `lemma_hash_cache_correct`: one op that produced the
/// single pixel `px` and consumed `k` bytes.
proof fn lemma_cache_step(
    ops: Seq<u8>,
    k: int,
    px: Pixel,
    prev: Pixel,
    cache: Seq<Pixel>,
    emitted: Seq<Pixel>,
    e: Seq<Pixel>,
    p2: Pixel,
    c2: Seq<Pixel>,
)
    requires
        cache_tracks(cache, emitted),
        1 <= k <= ops.len(),
        decode_ops(ops, prev, cache) == Some((e, p2, c2)),
        decode_ops(ops, prev, cache) == emit_then(
            seq![px],
            decode_ops(ops.skip(k), px, cache.update(pixel_hash(px), px)),
        ),
    ensures
        cache_tracks(c2, emitted + e),
    decreases ops.len(), 0int,
{
    reveal_with_fuel(decode_ops, 1);
    let cu = cache.update(pixel_hash(px), px);
    lemma_cache_tracks_push(cache, emitted, px);
    match decode_ops(ops.skip(k), px, cu) {
        None => {
            assert(false);
        }
        Some(t) => {
            lemma_hash_cache_correct(ops.skip(k), px, cu, emitted.push(px), t.0, t.1, t.2);
            assert(emitted.push(px) + t.0 =~= emitted + (seq![px] + t.0));
            assert(e == seq![px] + t.0 && c2 == t.2);
        }
    }
}

/// One RGBA literal op consumed at position `pos` of a byte stream.
pub proof fn lemma_step_rgba(
    bytes: Seq<u8>,
    pos: int,
    len: int,
    prev: Pixel,
    cache: Seq<Pixel>,
    out0: Seq<Pixel>,
    out1: Seq<Pixel>,
    px: Pixel,
)
    requires
        0 <= pos,
        pos + 5 <= len <= bytes.len(),
        bytes[pos] == 0xffu8,
        px == (Pixel { r: bytes[pos + 1], g: bytes[pos + 2], b: bytes[pos + 3], a: bytes[pos + 4] }),
        out1 == out0.push(px),
    ensures
        decode_ops(bytes.subrange(pos, len), prev, cache) == emit_then(
            out1.skip(out0.len() as int),
            decode_ops(bytes.subrange(pos + 5, len), px, cache.update(pixel_hash(px), px)),
        ),
{
    reveal_with_fuel(decode_ops, 1);
    let rem = bytes.subrange(pos, len);
    assert(rem.skip(5) =~= bytes.subrange(pos + 5, len));
    assert(out1.skip(out0.len() as int) =~= seq![px]);
    assert(rem[1] == bytes[pos + 1] && rem[2] == bytes[pos + 2] && rem[3] == bytes[pos + 3]
        && rem[4] == bytes[pos + 4]);
}

/// One RGB literal op consumed at position `pos` of a byte stream.
pub proof fn lemma_step_rgb(
    bytes: Seq<u8>,
    pos: int,
    len: int,
    prev: Pixel,
    cache: Seq<Pixel>,
    out0: Seq<Pixel>,
    out1: Seq<Pixel>,
    px: Pixel,
)
    requires
        0 <= pos,
        pos + 4 <= len <= bytes.len(),
        bytes[pos] == 0xfeu8,
        px == (Pixel { r: bytes[pos + 1], g: bytes[pos + 2], b: bytes[pos + 3], a: prev.a }),
        out1 == out0.push(px),
    ensures
        decode_ops(bytes.subrange(pos, len), prev, cache) == emit_then(
            out1.skip(out0.len() as int),
            decode_ops(bytes.subrange(pos + 4, len), px, cache.update(pixel_hash(px), px)),
        ),
{
    reveal_with_fuel(decode_ops, 1);
    let rem = bytes.subrange(pos, len);
    assert(rem.skip(4) =~= bytes.subrange(pos + 4, len));
    assert(out1.skip(out0.len() as int) =~= seq![px]);
    assert(rem[1] == bytes[pos + 1] && rem[2] == bytes[pos + 2] && rem[3] == bytes[pos + 3]);
}

/// One INDEX op consumed at position `pos` of a byte stream.
pub proof fn lemma_step_index(
    bytes: Seq<u8>,
    pos: int,
    len: int,
    prev: Pixel,
    cache: Seq<Pixel>,
    out0: Seq<Pixel>,
    out1: Seq<Pixel>,
    px: Pixel,
)
    requires
        0 <= pos,
        pos + 1 <= len <= bytes.len(),
        bytes[pos] != 0xffu8,
        bytes[pos] != 0xfeu8,
        bytes[pos] & 0xc0 == 0x00u8,
        px == cache[(bytes[pos] & 0x3f) as int],
        out1 == out0.push(px),
    ensures
        decode_ops(bytes.subrange(pos, len), prev, cache) == emit_then(
            out1.skip(out0.len() as int),
            decode_ops(bytes.subrange(pos + 1, len), px, cache.update(pixel_hash(px), px)),
        ),
{
    reveal_with_fuel(decode_ops, 1);
    let rem = bytes.subrange(pos, len);
    assert(rem.skip(1) =~= bytes.subrange(pos + 1, len));
    assert(out1.skip(out0.len() as int) =~= seq![px]);
}

/// One DIFF op consumed at position `pos` of a byte stream.
pub proof fn lemma_step_diff(
    bytes: Seq<u8>,
    pos: int,
    len: int,
    prev: Pixel,
    cache: Seq<Pixel>,
    out0: Seq<Pixel>,
    out1: Seq<Pixel>,
    px: Pixel,
)
    requires
        0 <= pos,
        pos + 1 <= len <= bytes.len(),
        bytes[pos] != 0xffu8,
        bytes[pos] != 0xfeu8,
        bytes[pos] & 0xc0 == 0x40u8,
        px == diff_pixel(prev, bytes[pos]),
        out1 == out0.push(px),
    ensures
        decode_ops(bytes.subrange(pos, len), prev, cache) == emit_then(
            out1.skip(out0.len() as int),
            decode_ops(bytes.subrange(pos + 1, len), px, cache.update(pixel_hash(px), px)),
        ),
{
    reveal_with_fuel(decode_ops, 1);
    let rem = bytes.subrange(pos, len);
    assert(rem.skip(1) =~= bytes.subrange(pos + 1, len));
    assert(out1.skip(out0.len() as int) =~= seq![px]);
}

/// One LUMA op consumed at position `pos` of a byte stream.
pub proof fn lemma_step_luma(
    bytes: Seq<u8>,
    pos: int,
    len: int,
    prev: Pixel,
    cache: Seq<Pixel>,
    out0: Seq<Pixel>,
    out1: Seq<Pixel>,
    px: Pixel,
)
    requires
        0 <= pos,
        pos + 2 <= len <= bytes.len(),
        bytes[pos] != 0xffu8,
        bytes[pos] != 0xfeu8,
        bytes[pos] & 0xc0 == 0x80u8,
        px == luma_pixel(prev, bytes[pos], bytes[pos + 1]),
        out1 == out0.push(px),
    ensures
        decode_ops(bytes.subrange(pos, len), prev, cache) == emit_then(
            out1.skip(out0.len() as int),
            decode_ops(bytes.subrange(pos + 2, len), px, cache.update(pixel_hash(px), px)),
        ),
{
    reveal_with_fuel(decode_ops, 1);
    let rem = bytes.subrange(pos, len);
    assert(rem.skip(2) =~= bytes.subrange(pos + 2, len));
    assert(out1.skip(out0.len() as int) =~= seq![px]);
    assert(rem[1] == bytes[pos + 1]);
}

/// One RUN op consumed at position `pos` of a byte stream.
pub proof fn lemma_step_run(
    bytes: Seq<u8>,
    pos: int,
    len: int,
    prev: Pixel,
    cache: Seq<Pixel>,
    out0: Seq<Pixel>,
    out1: Seq<Pixel>,
)
    requires
        0 <= pos,
        pos + 1 <= len <= bytes.len(),
        bytes[pos] != 0xffu8,
        bytes[pos] != 0xfeu8,
        bytes[pos] & 0xc0 == 0xc0u8,
        out1 == out0 + Seq::new(((bytes[pos] & 0x3f) + 1) as nat, |j: int| prev),
    ensures
        decode_ops(bytes.subrange(pos, len), prev, cache) == emit_then(
            out1.skip(out0.len() as int),
            decode_ops(bytes.subrange(pos + 1, len), prev, cache.update(pixel_hash(prev), prev)),
        ),
{
    reveal_with_fuel(decode_ops, 1);
    let rem = bytes.subrange(pos, len);
    assert(rem.skip(1) =~= bytes.subrange(pos + 1, len));
    assert(out1.skip(out0.len() as int) =~= Seq::new(
        ((bytes[pos] & 0x3f) + 1) as nat,
        |j: int| prev,
    ));
}

/// A DIFF op byte assembled from three 2-bit deltas carries the `01` tag and
/// gives each delta back on extraction.
pub proof fn lemma_diff_byte(d1: u8, d2: u8, d3: u8)
    by (bit_vector)
    requires
        d1 < 4,
        d2 < 4,
        d3 < 4,
    ensures
        (0x40u8 | (d1 << 4) | (d2 << 2) | d3) != 0xffu8,
        (0x40u8 | (d1 << 4) | (d2 << 2) | d3) != 0xfeu8,
        ((0x40u8 | (d1 << 4) | (d2 << 2) | d3) & 0xc0) == 0x40u8,
        (((0x40u8 | (d1 << 4) | (d2 << 2) | d3) >> 4) & 3) == d1,
        (((0x40u8 | (d1 << 4) | (d2 << 2) | d3) >> 2) & 3) == d2,
        ((0x40u8 | (d1 << 4) | (d2 << 2) | d3) & 3) == d3,
{
}

/// A LUMA op byte assembled from a 6-bit green delta carries the `10` tag,
/// and its value is the delta plus 128.
pub proof fn lemma_luma_byte1(v: u8)
    by (bit_vector)
    requires
        v < 64,
    ensures
        (0x80u8 | v) != 0xffu8,
        (0x80u8 | v) != 0xfeu8,
        ((0x80u8 | v) & 0xc0) == 0x80u8,
        (0x80u8 | v) == v + 128,
{
}

/// A LUMA payload byte assembled from two 4-bit fields gives both back.
pub proof fn lemma_luma_byte2(x: u8, y: u8)
    by (bit_vector)
    requires
        x < 16,
        y < 16,
    ensures
        (((x << 4) | y) >> 4) == x,
        (((x << 4) | y) & 0x0f) == y,
{
}

/// An INDEX op byte is the 6-bit hash itself, under the `00` tag.
pub proof fn lemma_index_byte(h: u8)
    by (bit_vector)
    requires
        h < 64,
    ensures
        h != 0xffu8,
        h != 0xfeu8,
        (h & 0xc0) == 0u8,
        (h & 0x3f) == h,
{
}

/// A RUN op byte built from a run length below 62 carries the `11` tag and
/// never collides with the RGB/RGBA literals.
pub proof fn lemma_run_byte(b: u8, k: u8)
    by (bit_vector)
    requires
        k <= 61,
        b == 0xc0 + k,
    ensures
        b != 0xffu8,
        b != 0xfeu8,
        (b & 0xc0) == 0xc0u8,
        (b & 0x3f) == k,
{
}

/// Decoding a lone RGBA op yields its literal pixel.
pub proof fn lemma_decode_one_rgba(r: u8, g: u8, b: u8, a: u8, prev: Pixel, cache: Seq<Pixel>)
    ensures
        (decode_ops(seq![0xffu8, r, g, b, a], prev, cache) == Some(
            (
                seq![(Pixel { r, g, b, a })],
                Pixel { r, g, b, a },
                cache.update(pixel_hash(Pixel { r, g, b, a }), Pixel { r, g, b, a }),
            ),
        )),
{
    reveal_with_fuel(decode_ops, 2);
    let ops = seq![0xffu8, r, g, b, a];
    let px = Pixel { r, g, b, a };
    let cu = cache.update(pixel_hash(px), px);
    assert(ops.skip(5) =~= Seq::<u8>::empty());
    assert(decode_ops(ops.skip(5), px, cu) == Some((Seq::<Pixel>::empty(), px, cu)));
    assert(seq![px] + Seq::<Pixel>::empty() =~= seq![px]);
}

/// Decoding a lone RGB op yields its literal pixel with alpha unchanged.
pub proof fn lemma_decode_one_rgb(r: u8, g: u8, b: u8, prev: Pixel, cache: Seq<Pixel>)
    ensures
        (decode_ops(seq![0xfeu8, r, g, b], prev, cache) == Some(
            (
                seq![(Pixel { r, g, b, a: prev.a })],
                Pixel { r, g, b, a: prev.a },
                cache.update(pixel_hash(Pixel { r, g, b, a: prev.a }), Pixel { r, g, b, a: prev.a }),
            ),
        )),
{
    reveal_with_fuel(decode_ops, 2);
    let ops = seq![0xfeu8, r, g, b];
    let px = Pixel { r, g, b, a: prev.a };
    let cu = cache.update(pixel_hash(px), px);
    assert(ops.skip(4) =~= Seq::<u8>::empty());
    assert(decode_ops(ops.skip(4), px, cu) == Some((Seq::<Pixel>::empty(), px, cu)));
    assert(seq![px] + Seq::<Pixel>::empty() =~= seq![px]);
}

/// Decoding a lone INDEX op yields the cache slot at its hash bits.
pub proof fn lemma_decode_one_index(op: u8, prev: Pixel, cache: Seq<Pixel>)
    requires
        op & 0xc0 == 0x00,
    ensures
        (decode_ops(seq![op], prev, cache) == Some(
            (
                seq![(cache[(op & 0x3f) as int])],
                cache[(op & 0x3f) as int],
                cache.update(
                    pixel_hash(cache[(op & 0x3f) as int]),
                    cache[(op & 0x3f) as int],
                ),
            ),
        )),
{
    assert(op != 0xffu8 && op != 0xfeu8) by (bit_vector)
        requires
            op & 0xc0 == 0x00,
    ;
    reveal_with_fuel(decode_ops, 2);
    let ops = seq![op];
    let px = cache[(op & 0x3f) as int];
    let cu = cache.update(pixel_hash(px), px);
    assert(ops.skip(1) =~= Seq::<u8>::empty());
    assert(decode_ops(ops.skip(1), px, cu) == Some((Seq::<Pixel>::empty(), px, cu)));
    assert(seq![px] + Seq::<Pixel>::empty() =~= seq![px]);
}

/// Decoding a lone DIFF op yields its delta-derived pixel.
pub proof fn lemma_decode_one_diff(op: u8, prev: Pixel, cache: Seq<Pixel>)
    requires
        op & 0xc0 == 0x40,
    ensures
        (decode_ops(seq![op], prev, cache) == Some(
            (
                seq![diff_pixel(prev, op)],
                diff_pixel(prev, op),
                cache.update(pixel_hash(diff_pixel(prev, op)), diff_pixel(prev, op)),
            ),
        )),
{
    assert(op != 0xffu8 && op != 0xfeu8) by (bit_vector)
        requires
            op & 0xc0 == 0x40,
    ;
    reveal_with_fuel(decode_ops, 2);
    let ops = seq![op];
    let px = diff_pixel(prev, op);
    let cu = cache.update(pixel_hash(px), px);
    assert(ops.skip(1) =~= Seq::<u8>::empty());
    assert(decode_ops(ops.skip(1), px, cu) == Some((Seq::<Pixel>::empty(), px, cu)));
    assert(seq![px] + Seq::<Pixel>::empty() =~= seq![px]);
}

/// Decoding a lone LUMA op yields its delta-derived pixel.
pub proof fn lemma_decode_one_luma(op: u8, b2: u8, prev: Pixel, cache: Seq<Pixel>)
    requires
        op != 0xffu8,
        op != 0xfeu8,
        op & 0xc0 == 0x80,
    ensures
        (decode_ops(seq![op, b2], prev, cache) == Some(
            (
                seq![luma_pixel(prev, op, b2)],
                luma_pixel(prev, op, b2),
                cache.update(pixel_hash(luma_pixel(prev, op, b2)), luma_pixel(prev, op, b2)),
            ),
        )),
{
    reveal_with_fuel(decode_ops, 2);
    let ops = seq![op, b2];
    let px = luma_pixel(prev, op, b2);
    let cu = cache.update(pixel_hash(px), px);
    assert(ops.skip(2) =~= Seq::<u8>::empty());
    assert(decode_ops(ops.skip(2), px, cu) == Some((Seq::<Pixel>::empty(), px, cu)));
    assert(seq![px] + Seq::<Pixel>::empty() =~= seq![px]);
}

/// Decoding a lone RUN op repeats the previous pixel and refreshes its slot.
pub proof fn lemma_decode_one_run(op: u8, prev: Pixel, cache: Seq<Pixel>)
    requires
        op != 0xffu8,
        op != 0xfeu8,
        op & 0xc0 == 0xc0,
    ensures
        (decode_ops(seq![op], prev, cache) == Some(
            (
                Seq::new(((op & 0x3f) + 1) as nat, |k: int| prev),
                prev,
                cache.update(pixel_hash(prev), prev),
            ),
        )),
{
    reveal_with_fuel(decode_ops, 2);
    let ops = seq![op];
    let cu = cache.update(pixel_hash(prev), prev);
    assert(ops.skip(1) =~= Seq::<u8>::empty());
    assert(decode_ops(ops.skip(1), prev, cu) == Some((Seq::<Pixel>::empty(), prev, cu)));
    let runseq = Seq::new(((op & 0x3f) + 1) as nat, |k: int| prev);
    assert(runseq + Seq::<Pixel>::empty() =~= runseq);
}

/// Expands a DIFF op byte `0b01_dr_dg_db` into the unbiased 2-bit deltas
/// `[dr, dg, db, 0]`.
pub fn op_diff_expand222(x: u8) -> (r: [u8; 4])
    ensures
        r[0] == (x >> 4) & 3,
        r[1] == (x >> 2) & 3,
        r[2] == x & 3,
        r[3] == 0,
{
    [(x >> 4) & 3, (x >> 2) & 3, x & 3, 0]
}

/// Expands a LUMA op byte and its payload byte into the four wrapped
/// channel deltas the op applies, `[dr, dg, db, 0]`.
pub fn op_luma_expand644(op_and_dg: u8, byte_2: u8) -> (r: [u8; 4])
    ensures
        r[0] == wadd(byte_2 >> 4, wsub(op_and_dg, 168)),
        r[1] == wadd(wsub(op_and_dg, 168), 8),
        r[2] == wadd(byte_2 & 0x0f, wsub(op_and_dg, 168)),
        r[3] == 0,
{
    let dg_m8 = op_and_dg.wrapping_sub(168);
    [
        (byte_2 >> 4).wrapping_add(dg_m8),
        dg_m8.wrapping_add(8),
        (byte_2 & 0x0f).wrapping_add(dg_m8),
        0,
    ]
}

} // verus!
