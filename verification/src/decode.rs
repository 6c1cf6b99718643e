use crate::cache::{initial_cache, HashIndexedArray};
use crate::header::{magic_ok, spec_image_size, QOIHeader};
use crate::pixel::{initial_pixel, Pixel};
use crate::stream::{
    decode_ops, diff_pixel, emit_then, end_marker, lemma_decode_ops_empty, lemma_emit_then_empty, lemma_emit_then_nest,
    lemma_step_diff, lemma_step_index, lemma_step_luma, lemma_step_rgb, lemma_step_rgba,
    lemma_step_run, luma_pixel, op_diff_expand222, op_luma_expand644, spec_decode,
};
use vstd::prelude::*;

verus! {

/// Why a byte stream failed to decode.
#[derive(Clone, Copy, Debug, PartialEq, Eq, Structural)]
pub enum DecodeError {
    /// The stream does not start with the magic `"qoif"`: not a QOI image.
    BadMagic,
    /// The op-stream is malformed or does not end with the 8-byte sentinel.
    BadEndMarker,
    /// The op-stream decoded cleanly but produced a number of pixels other
    /// than the `width * height` the header declares; carries both counts.
    SizeMismatch { produced: u64, expected: u64 },
}

/// What one decoding step guarantees: the byte position advanced, pixels
/// were only appended, and interpreting the ops from the old position and
/// state equals emitting the appended pixels and going on from the new
/// position and state.
pub open spec fn step_ok(
    bytes: Seq<u8>,
    pos: int,
    len: int,
    np: int,
    prev0: Pixel,
    cache0: Seq<Pixel>,
    out0: Seq<Pixel>,
    prev1: Pixel,
    cache1: Seq<Pixel>,
    out1: Seq<Pixel>,
) -> bool {
    &&& pos < np <= len
    &&& out1.len() >= out0.len()
    &&& out1.subrange(0, out0.len() as int) == out0
    &&& decode_ops(bytes.subrange(pos, len), prev0, cache0) == emit_then(
        out1.skip(out0.len() as int),
        decode_ops(bytes.subrange(np, len), prev1, cache1),
    )
}

/// Interprets one RGBA literal op.
#[verifier::rlimit(100)]
fn step_rgba(
    input: &Vec<u8>,
    pos: usize,
    len: usize,
    prev: &mut Pixel,
    cache: &mut HashIndexedArray,
    out: &mut Vec<Pixel>,
) -> (r: Option<usize>)
    requires
        14 <= pos < len,
        len + 8 == input@.len(),
        input@.len() <= usize::MAX,
        old(cache).wf(),
        input@[pos as int] == 0xffu8,
    ensures
        final(cache).wf(),
        (match r {
            Some(np) => step_ok(
                input@,
                pos as int,
                len as int,
                np as int,
                *old(prev),
                old(cache).pixels(),
                old(out)@,
                *final(prev),
                final(cache).pixels(),
                final(out)@,
            ),
            None => decode_ops(
                input@.subrange(pos as int, len as int),
                *old(prev),
                old(cache).pixels(),
            ) is None,
        }),
{
    let ghost out0 = out@;
    let ghost prev0 = *prev;
    let ghost cpix0 = cache.pixels();
    if pos + 5 > len {
        proof {
            reveal_with_fuel(decode_ops, 1);
        }
        return None;
    }
    let px = Pixel { r: input[pos + 1], g: input[pos + 2], b: input[pos + 3], a: input[pos + 4] };
    out.push(px);
    cache.store(px);
    *prev = px;
    proof {
        lemma_step_rgba(input@, pos as int, len as int, prev0, cpix0, out0, out@, px);
        assert(out@.subrange(0, out0.len() as int) =~= out0);
    }
    Some(pos + 5)
}

/// Interprets one RGB literal op; alpha is carried over.
#[verifier::rlimit(60)]
fn step_rgb(
    input: &Vec<u8>,
    pos: usize,
    len: usize,
    prev: &mut Pixel,
    cache: &mut HashIndexedArray,
    out: &mut Vec<Pixel>,
) -> (r: Option<usize>)
    requires
        14 <= pos < len,
        len + 8 == input@.len(),
        input@.len() <= usize::MAX,
        old(cache).wf(),
        input@[pos as int] == 0xfeu8,
    ensures
        final(cache).wf(),
        (match r {
            Some(np) => step_ok(
                input@,
                pos as int,
                len as int,
                np as int,
                *old(prev),
                old(cache).pixels(),
                old(out)@,
                *final(prev),
                final(cache).pixels(),
                final(out)@,
            ),
            None => decode_ops(
                input@.subrange(pos as int, len as int),
                *old(prev),
                old(cache).pixels(),
            ) is None,
        }),
{
    let ghost out0 = out@;
    let ghost prev0 = *prev;
    let ghost cpix0 = cache.pixels();
    if pos + 4 > len {
        proof {
            reveal_with_fuel(decode_ops, 1);
        }
        return None;
    }
    let px = Pixel { r: input[pos + 1], g: input[pos + 2], b: input[pos + 3], a: prev.a };
    out.push(px);
    cache.store(px);
    *prev = px;
    proof {
        lemma_step_rgb(input@, pos as int, len as int, prev0, cpix0, out0, out@, px);
        assert(out@.subrange(0, out0.len() as int) =~= out0);
    }
    Some(pos + 4)
}

/// Interprets one INDEX op: the current pixel becomes a cache slot's pixel.
#[verifier::rlimit(60)]
fn step_index(
    input: &Vec<u8>,
    pos: usize,
    len: usize,
    prev: &mut Pixel,
    cache: &mut HashIndexedArray,
    out: &mut Vec<Pixel>,
) -> (r: Option<usize>)
    requires
        14 <= pos < len,
        len + 8 == input@.len(),
        input@.len() <= usize::MAX,
        old(cache).wf(),
        input@[pos as int] != 0xffu8,
        input@[pos as int] != 0xfeu8,
        input@[pos as int] & 0xc0 == 0x00u8,
    ensures
        final(cache).wf(),
        (match r {
            Some(np) => step_ok(
                input@,
                pos as int,
                len as int,
                np as int,
                *old(prev),
                old(cache).pixels(),
                old(out)@,
                *final(prev),
                final(cache).pixels(),
                final(out)@,
            ),
            None => decode_ops(
                input@.subrange(pos as int, len as int),
                *old(prev),
                old(cache).pixels(),
            ) is None,
        }),
{
    let ghost out0 = out@;
    let ghost prev0 = *prev;
    let ghost cpix0 = cache.pixels();
    let op = input[pos];
    proof {
        assert(op & 0x3f < 64) by (bit_vector);
    }
    let px = cache.fetch(op & 0x3f);
    out.push(px);
    cache.store(px);
    *prev = px;
    proof {
        lemma_step_index(input@, pos as int, len as int, prev0, cpix0, out0, out@, px);
        assert(out@.subrange(0, out0.len() as int) =~= out0);
    }
    Some(pos + 1)
}

/// Interprets one DIFF op: 2-bit biased deltas on R, G, B.
#[verifier::rlimit(60)]
fn step_diff(
    input: &Vec<u8>,
    pos: usize,
    len: usize,
    prev: &mut Pixel,
    cache: &mut HashIndexedArray,
    out: &mut Vec<Pixel>,
) -> (r: Option<usize>)
    requires
        14 <= pos < len,
        len + 8 == input@.len(),
        input@.len() <= usize::MAX,
        old(cache).wf(),
        input@[pos as int] != 0xffu8,
        input@[pos as int] != 0xfeu8,
        input@[pos as int] & 0xc0 == 0x40u8,
    ensures
        final(cache).wf(),
        (match r {
            Some(np) => step_ok(
                input@,
                pos as int,
                len as int,
                np as int,
                *old(prev),
                old(cache).pixels(),
                old(out)@,
                *final(prev),
                final(cache).pixels(),
                final(out)@,
            ),
            None => decode_ops(
                input@.subrange(pos as int, len as int),
                *old(prev),
                old(cache).pixels(),
            ) is None,
        }),
{
    let ghost out0 = out@;
    let ghost prev0 = *prev;
    let ghost cpix0 = cache.pixels();
    let op = input[pos];
    let d = op_diff_expand222(op);
    let px = Pixel {
        r: prev.r.wrapping_add(d[0].wrapping_sub(2)),
        g: prev.g.wrapping_add(d[1].wrapping_sub(2)),
        b: prev.b.wrapping_add(d[2].wrapping_sub(2)),
        a: prev.a,
    };
    proof {
        assert(px == diff_pixel(prev0, op));
    }
    out.push(px);
    cache.store(px);
    *prev = px;
    proof {
        lemma_step_diff(input@, pos as int, len as int, prev0, cpix0, out0, out@, px);
        assert(out@.subrange(0, out0.len() as int) =~= out0);
    }
    Some(pos + 1)
}

/// Interprets one LUMA op: a 6-bit green delta plus 4-bit secondary deltas.
#[verifier::rlimit(100)]
fn step_luma(
    input: &Vec<u8>,
    pos: usize,
    len: usize,
    prev: &mut Pixel,
    cache: &mut HashIndexedArray,
    out: &mut Vec<Pixel>,
) -> (r: Option<usize>)
    requires
        14 <= pos < len,
        len + 8 == input@.len(),
        input@.len() <= usize::MAX,
        old(cache).wf(),
        input@[pos as int] != 0xffu8,
        input@[pos as int] != 0xfeu8,
        input@[pos as int] & 0xc0 == 0x80u8,
    ensures
        final(cache).wf(),
        (match r {
            Some(np) => step_ok(
                input@,
                pos as int,
                len as int,
                np as int,
                *old(prev),
                old(cache).pixels(),
                old(out)@,
                *final(prev),
                final(cache).pixels(),
                final(out)@,
            ),
            None => decode_ops(
                input@.subrange(pos as int, len as int),
                *old(prev),
                old(cache).pixels(),
            ) is None,
        }),
{
    let ghost out0 = out@;
    let ghost prev0 = *prev;
    let ghost cpix0 = cache.pixels();
    if pos + 2 > len {
        proof {
            reveal_with_fuel(decode_ops, 1);
        }
        return None;
    }
    let op = input[pos];
    let b2 = input[pos + 1];
    let d = op_luma_expand644(op, b2);
    let px = Pixel {
        r: prev.r.wrapping_add(d[0]),
        g: prev.g.wrapping_add(d[1]),
        b: prev.b.wrapping_add(d[2]),
        a: prev.a.wrapping_add(d[3]),
    };
    proof {
        assert(px == luma_pixel(prev0, op, b2));
    }
    out.push(px);
    cache.store(px);
    *prev = px;
    proof {
        lemma_step_luma(input@, pos as int, len as int, prev0, cpix0, out0, out@, px);
        assert(out@.subrange(0, out0.len() as int) =~= out0);
    }
    Some(pos + 2)
}

/// Interprets one RUN op: the current pixel is repeated.
#[verifier::rlimit(60)]
fn step_run(
    input: &Vec<u8>,
    pos: usize,
    len: usize,
    prev: &mut Pixel,
    cache: &mut HashIndexedArray,
    out: &mut Vec<Pixel>,
) -> (r: Option<usize>)
    requires
        14 <= pos < len,
        len + 8 == input@.len(),
        input@.len() <= usize::MAX,
        old(cache).wf(),
        input@[pos as int] != 0xffu8,
        input@[pos as int] != 0xfeu8,
        input@[pos as int] & 0xc0 == 0xc0u8,
    ensures
        final(cache).wf(),
        (match r {
            Some(np) => step_ok(
                input@,
                pos as int,
                len as int,
                np as int,
                *old(prev),
                old(cache).pixels(),
                old(out)@,
                *final(prev),
                final(cache).pixels(),
                final(out)@,
            ),
            None => decode_ops(
                input@.subrange(pos as int, len as int),
                *old(prev),
                old(cache).pixels(),
            ) is None,
        }),
{
    let ghost out0 = out@;
    let ghost cpix0 = cache.pixels();
    let op = input[pos];
    proof {
        assert(op & 0x3f < 64) by (bit_vector);
    }
    let run_count = (op & 0x3f) + 1;
    let cur = *prev;
    let mut k: u8 = 0;
    while k < run_count
        invariant
            k <= run_count,
            out@ == out0 + Seq::new(k as nat, |j: int| cur),
        decreases run_count - k,
    {
        out.push(cur);
        k = k + 1;
        proof {
            assert(out@ =~= out0 + Seq::new(k as nat, |j: int| cur));
        }
    }
    cache.store(cur);
    proof {
        lemma_step_run(input@, pos as int, len as int, cur, cpix0, out0, out@);
        assert(out@.subrange(0, out0.len() as int) =~= out0);
    }
    Some(pos + 1)
}

/// Interprets the single op at `pos`, dispatching on its leading byte:
/// the two literal patterns first, then the 2-bit tag.
fn decode_step(
    input: &Vec<u8>,
    pos: usize,
    len: usize,
    prev: &mut Pixel,
    cache: &mut HashIndexedArray,
    out: &mut Vec<Pixel>,
) -> (r: Option<usize>)
    requires
        14 <= pos < len,
        len + 8 == input@.len(),
        input@.len() <= usize::MAX,
        old(cache).wf(),
    ensures
        final(cache).wf(),
        (match r {
            Some(np) => step_ok(
                input@,
                pos as int,
                len as int,
                np as int,
                *old(prev),
                old(cache).pixels(),
                old(out)@,
                *final(prev),
                final(cache).pixels(),
                final(out)@,
            ),
            None => decode_ops(
                input@.subrange(pos as int, len as int),
                *old(prev),
                old(cache).pixels(),
            ) is None,
        }),
{
    let op = input[pos];
    proof {
        assert(input@.subrange(pos as int, len as int)[0] == op);
    }
    if op == 0xff {
        step_rgba(input, pos, len, prev, cache, out)
    } else if op == 0xfe {
        step_rgb(input, pos, len, prev, cache, out)
    } else {
        let tag = op & 0xc0;
        proof {
            assert(tag == 0x00 || tag == 0x40 || tag == 0x80 || tag == 0xc0) by (bit_vector)
                requires
                    tag == op & 0xc0,
            ;
        }
        if tag == 0x00 {
            step_index(input, pos, len, prev, cache, out)
        } else if tag == 0x40 {
            step_diff(input, pos, len, prev, cache, out)
        } else if tag == 0x80 {
            step_luma(input, pos, len, prev, cache, out)
        } else {
            step_run(input, pos, len, prev, cache, out)
        }
    }
}

/// Decodes a whole QOI byte stream into its header and pixel buffer.
///
/// Succeeds exactly on the streams the format denotes: valid magic, every op
/// complete, the 8-byte end marker in place, and the produced pixel count
/// equal to the header's `width * height`.  A count mismatch is reported
/// with both counts so the caller can decide what to do with a truncated or
/// corrupt stream.
#[verifier::rlimit(100)]
pub fn decode(input: &Vec<u8>) -> (r: Result<(QOIHeader, Vec<Pixel>), DecodeError>)
    ensures
        (match r {
            Ok(p) => spec_decode(input@) == Some((p.0, p.1@)) && p.1@.len() == spec_image_size(
                p.0,
            ),
            Err(DecodeError::BadMagic) => !magic_ok(input@),
            Err(DecodeError::BadEndMarker) => magic_ok(input@) && spec_decode(input@) is None,
            Err(DecodeError::SizeMismatch { produced, expected }) => match spec_decode(input@) {
                Some(t) => produced == t.1.len() && expected == spec_image_size(t.0) && produced
                    != expected,
                None => false,
            },
        }),
{
    let header = match QOIHeader::parse(input) {
        Some(h) => h,
        None => {
            return Err(DecodeError::BadMagic);
        }
    };
    let n = input.len();
    if n < 22 {
        return Err(DecodeError::BadEndMarker);
    }
    let len = n - 8;
    let ghost gops = input@.subrange(14, len as int);
    let mut out: Vec<Pixel> = Vec::new();
    let mut cache = HashIndexedArray::new();
    let mut prev = Pixel { r: 0, g: 0, b: 0, a: 255 };
    let mut pos: usize = 14;
    proof {
        lemma_emit_then_empty(decode_ops(gops, initial_pixel(), initial_cache()));
        assert(input@.subrange(pos as int, len as int) =~= gops);
    }
    while pos < len
        invariant
            14 <= pos <= len,
            len == n - 8,
            n == input@.len(),
            22 <= n,
            magic_ok(input@),
            cache.wf(),
            gops == input@.subrange(14, len as int),
            decode_ops(gops, initial_pixel(), initial_cache()) == emit_then(
                out@,
                decode_ops(input@.subrange(pos as int, len as int), prev, cache.pixels()),
            ),
        decreases len - pos,
    {
        let ghost out0 = out@;
        let stepped: Option<usize> = decode_step(input, pos, len, &mut prev, &mut cache, &mut out);
        match stepped {
            Some(np) => {
                proof {
                    lemma_emit_then_nest(
                        out0,
                        out@.skip(out0.len() as int),
                        decode_ops(input@.subrange(np as int, len as int), prev, cache.pixels()),
                    );
                    assert(out0 + out@.skip(out0.len() as int) =~= out@);
                }
                pos = np;
            }
            None => {
                return Err(DecodeError::BadEndMarker);
            }
        }
    }
    proof {
        assert(input@.subrange(pos as int, len as int) =~= Seq::<u8>::empty());
        lemma_decode_ops_empty(prev, cache.pixels());
        assert(out@ + Seq::<Pixel>::empty() =~= out@);
        assert(decode_ops(gops, initial_pixel(), initial_cache()) == Some(
            (out@, prev, cache.pixels()),
        ));
    }
    if !(input[len] == 0 && input[len + 1] == 0 && input[len + 2] == 0 && input[len + 3] == 0
        && input[len + 4] == 0 && input[len + 5] == 0 && input[len + 6] == 0 && input[len + 7]
        == 1) {
        proof {
            let tail = input@.subrange(n - 8, n as int);
            assert(tail[0] == input@[len as int] && tail[1] == input@[len + 1] && tail[2]
                == input@[len + 2] && tail[3] == input@[len + 3] && tail[4] == input@[len + 4]
                && tail[5] == input@[len + 5] && tail[6] == input@[len + 6] && tail[7]
                == input@[len + 7]);
            if tail == end_marker() {
                assert(tail[0] == 0 && tail[1] == 0 && tail[2] == 0 && tail[3] == 0 && tail[4]
                    == 0 && tail[5] == 0 && tail[6] == 0 && tail[7] == 1);
                assert(false);
            }
        }
        return Err(DecodeError::BadEndMarker);
    }
    proof {
        assert(input@.subrange(n - 8, n as int) =~= end_marker());
        assert(spec_decode(input@) == Some((header, out@)));
    }
    proof {
        vstd::arithmetic::mul::lemma_mul_upper_bound(
            header.width as int,
            0xffff_ffff,
            header.height as int,
            0xffff_ffff,
        );
    }
    let expected: u64 = (header.width as u64) * (header.height as u64);
    let produced: u64 = out.len() as u64;
    if produced == expected {
        Ok((header, out))
    } else {
        Err(DecodeError::SizeMismatch { produced, expected })
    }
}

} // verus!
