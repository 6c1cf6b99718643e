use crate::cache::{initial_cache, HashIndexedArray};
use crate::header::{
    lemma_header_roundtrip, magic_ok, spec_header_bytes, spec_image_size, spec_parse_header,
    QOIHeader,
};
use crate::pixel::{
    initial_pixel, lemma_luma_chain, lemma_luma_green_bias, lemma_wadd_wsub_cancel,
    lemma_wsub_wadd_cancel, pixel_hash, wadd, wsub, Pixel,
};
use crate::stream::{
    decode_ops, diff_pixel, end_marker, lemma_decode_one_diff, lemma_decode_one_index,
    lemma_decode_one_luma, lemma_decode_one_rgb, lemma_decode_one_rgba, lemma_decode_one_run,
    lemma_decode_ops_append, lemma_decode_ops_empty, lemma_diff_byte, lemma_index_byte,
    lemma_luma_byte1, lemma_luma_byte2, lemma_run_byte, luma_pixel, spec_decode,
};
use vstd::prelude::*;

verus! {

/// Appending an RGBA literal op extends the decoded pixels by the literal.
proof fn lemma_enc_rgba(ops0: Seq<u8>, pixels: Seq<Pixel>, j: int, prev: Pixel, dcache: Seq<Pixel>)
    requires
        0 <= j < pixels.len(),
        decode_ops(ops0, initial_pixel(), initial_cache()) == Some(
            (pixels.subrange(0, j), prev, dcache),
        ),
    ensures
        (decode_ops(
            ops0 + seq![0xffu8, pixels[j].r, pixels[j].g, pixels[j].b, pixels[j].a],
            initial_pixel(),
            initial_cache(),
        ) == Some(
            (
                pixels.subrange(0, j + 1),
                pixels[j],
                dcache.update(pixel_hash(pixels[j]), pixels[j]),
            ),
        )),
{
    let px = pixels[j];
    let nb = seq![0xffu8, px.r, px.g, px.b, px.a];
    lemma_decode_ops_append(
        ops0,
        nb,
        initial_pixel(),
        initial_cache(),
        pixels.subrange(0, j),
        prev,
        dcache,
    );
    lemma_decode_one_rgba(px.r, px.g, px.b, px.a, prev, dcache);
    assert(Pixel { r: px.r, g: px.g, b: px.b, a: px.a } == px);
    assert(pixels.subrange(0, j) + seq![px] =~= pixels.subrange(0, j + 1));
}

/// Appending an RGB literal op extends the decoded pixels by the literal
/// with alpha carried over.
proof fn lemma_enc_rgb(ops0: Seq<u8>, pixels: Seq<Pixel>, j: int, prev: Pixel, dcache: Seq<Pixel>)
    requires
        0 <= j < pixels.len(),
        pixels[j].a == prev.a,
        decode_ops(ops0, initial_pixel(), initial_cache()) == Some(
            (pixels.subrange(0, j), prev, dcache),
        ),
    ensures
        (decode_ops(
            ops0 + seq![0xfeu8, pixels[j].r, pixels[j].g, pixels[j].b],
            initial_pixel(),
            initial_cache(),
        ) == Some(
            (
                pixels.subrange(0, j + 1),
                pixels[j],
                dcache.update(pixel_hash(pixels[j]), pixels[j]),
            ),
        )),
{
    let px = pixels[j];
    let nb = seq![0xfeu8, px.r, px.g, px.b];
    lemma_decode_ops_append(
        ops0,
        nb,
        initial_pixel(),
        initial_cache(),
        pixels.subrange(0, j),
        prev,
        dcache,
    );
    lemma_decode_one_rgb(px.r, px.g, px.b, prev, dcache);
    assert(Pixel { r: px.r, g: px.g, b: px.b, a: prev.a } == px);
    assert(pixels.subrange(0, j) + seq![px] =~= pixels.subrange(0, j + 1));
}

/// Appending an INDEX op extends the decoded pixels by the cached pixel.
proof fn lemma_enc_index(
    ops0: Seq<u8>,
    pixels: Seq<Pixel>,
    j: int,
    prev: Pixel,
    dcache: Seq<Pixel>,
    h: u8,
)
    requires
        0 <= j < pixels.len(),
        h < 64,
        h as int == pixel_hash(pixels[j]),
        dcache[h as int] == pixels[j],
        decode_ops(ops0, initial_pixel(), initial_cache()) == Some(
            (pixels.subrange(0, j), prev, dcache),
        ),
    ensures
        (decode_ops(ops0 + seq![h], initial_pixel(), initial_cache()) == Some(
            (
                pixels.subrange(0, j + 1),
                pixels[j],
                dcache.update(pixel_hash(pixels[j]), pixels[j]),
            ),
        )),
{
    let px = pixels[j];
    lemma_index_byte(h);
    lemma_decode_ops_append(
        ops0,
        seq![h],
        initial_pixel(),
        initial_cache(),
        pixels.subrange(0, j),
        prev,
        dcache,
    );
    lemma_decode_one_index(h, prev, dcache);
    assert(pixels.subrange(0, j) + seq![px] =~= pixels.subrange(0, j + 1));
}

/// Appending a DIFF op extends the decoded pixels by the delta-derived
/// pixel, which the delta range conditions pin to the encoded pixel.
proof fn lemma_enc_diff(
    ops0: Seq<u8>,
    pixels: Seq<Pixel>,
    j: int,
    prev: Pixel,
    dcache: Seq<Pixel>,
    dr2: u8,
    dg2: u8,
    db2: u8,
    b: u8,
)
    requires
        0 <= j < pixels.len(),
        pixels[j].a == prev.a,
        dr2 == wadd(wsub(pixels[j].r, prev.r), 2),
        dg2 == wadd(wsub(pixels[j].g, prev.g), 2),
        db2 == wadd(wsub(pixels[j].b, prev.b), 2),
        dr2 < 4,
        dg2 < 4,
        db2 < 4,
        b == (0x40u8 | (dr2 << 4) | (dg2 << 2) | db2),
        decode_ops(ops0, initial_pixel(), initial_cache()) == Some(
            (pixels.subrange(0, j), prev, dcache),
        ),
    ensures
        (decode_ops(ops0 + seq![b], initial_pixel(), initial_cache()) == Some(
            (
                pixels.subrange(0, j + 1),
                pixels[j],
                dcache.update(pixel_hash(pixels[j]), pixels[j]),
            ),
        )),
{
    let px = pixels[j];
    lemma_diff_byte(dr2, dg2, db2);
    lemma_decode_one_diff(b, prev, dcache);
    lemma_wsub_wadd_cancel(wsub(px.r, prev.r), 2);
    lemma_wsub_wadd_cancel(wsub(px.g, prev.g), 2);
    lemma_wsub_wadd_cancel(wsub(px.b, prev.b), 2);
    lemma_wadd_wsub_cancel(prev.r, px.r);
    lemma_wadd_wsub_cancel(prev.g, px.g);
    lemma_wadd_wsub_cancel(prev.b, px.b);
    assert(diff_pixel(prev, b) == px);
    lemma_decode_ops_append(
        ops0,
        seq![b],
        initial_pixel(),
        initial_cache(),
        pixels.subrange(0, j),
        prev,
        dcache,
    );
    assert(pixels.subrange(0, j) + seq![px] =~= pixels.subrange(0, j + 1));
}

/// Appending a LUMA op extends the decoded pixels by the delta-derived
/// pixel, which the delta range conditions pin to the encoded pixel.
proof fn lemma_enc_luma(
    ops0: Seq<u8>,
    pixels: Seq<Pixel>,
    j: int,
    prev: Pixel,
    dcache: Seq<Pixel>,
    dg32: u8,
    drdg: u8,
    dbdg: u8,
    b1: u8,
    b2: u8,
)
    requires
        0 <= j < pixels.len(),
        pixels[j].a == prev.a,
        dg32 == wadd(wsub(pixels[j].g, prev.g), 32),
        drdg == wadd(wsub(wsub(pixels[j].r, prev.r), wsub(pixels[j].g, prev.g)), 8),
        dbdg == wadd(wsub(wsub(pixels[j].b, prev.b), wsub(pixels[j].g, prev.g)), 8),
        dg32 < 64,
        drdg < 16,
        dbdg < 16,
        b1 == (0x80u8 | dg32),
        b2 == ((drdg << 4) | dbdg),
        decode_ops(ops0, initial_pixel(), initial_cache()) == Some(
            (pixels.subrange(0, j), prev, dcache),
        ),
    ensures
        (decode_ops(ops0 + seq![b1, b2], initial_pixel(), initial_cache()) == Some(
            (
                pixels.subrange(0, j + 1),
                pixels[j],
                dcache.update(pixel_hash(pixels[j]), pixels[j]),
            ),
        )),
{
    let px = pixels[j];
    let dg = wsub(px.g, prev.g);
    let dr = wsub(px.r, prev.r);
    let db = wsub(px.b, prev.b);
    lemma_luma_byte1(dg32);
    lemma_luma_byte2(drdg, dbdg);
    lemma_decode_one_luma(b1, b2, prev, dcache);
    lemma_luma_green_bias(dg, b1);
    lemma_wsub_wadd_cancel(dg, 8);
    lemma_wadd_wsub_cancel(prev.g, px.g);
    lemma_luma_chain(dr, dg);
    lemma_wadd_wsub_cancel(prev.r, px.r);
    lemma_luma_chain(db, dg);
    lemma_wadd_wsub_cancel(prev.b, px.b);
    assert(luma_pixel(prev, b1, b2) == px);
    lemma_decode_ops_append(
        ops0,
        seq![b1, b2],
        initial_pixel(),
        initial_cache(),
        pixels.subrange(0, j),
        prev,
        dcache,
    );
    assert(pixels.subrange(0, j) + seq![px] =~= pixels.subrange(0, j + 1));
}

/// Appending a RUN op extends the decoded pixels by `n` copies of the
/// previous pixel.
proof fn lemma_enc_run(
    ops0: Seq<u8>,
    pixels: Seq<Pixel>,
    j: int,
    prev: Pixel,
    dcache: Seq<Pixel>,
    n: u8,
    b: u8,
)
    requires
        1 <= n <= 62,
        0 <= j,
        j + n <= pixels.len(),
        forall|k: int| j <= k < j + n ==> pixels[k] == prev,
        b == 0xc0 + (n - 1),
        decode_ops(ops0, initial_pixel(), initial_cache()) == Some(
            (pixels.subrange(0, j), prev, dcache),
        ),
    ensures
        (decode_ops(ops0 + seq![b], initial_pixel(), initial_cache()) == Some(
            (pixels.subrange(0, j + n), prev, dcache.update(pixel_hash(prev), prev)),
        )),
{
    lemma_run_byte(b, (n - 1) as u8);
    lemma_decode_one_run(b, prev, dcache);
    lemma_decode_ops_append(
        ops0,
        seq![b],
        initial_pixel(),
        initial_cache(),
        pixels.subrange(0, j),
        prev,
        dcache,
    );
    assert(Seq::new(((b & 0x3f) + 1) as nat, |k: int| prev) =~= Seq::new(
        n as nat,
        |k: int| prev,
    ));
    assert(pixels.subrange(0, j) + Seq::new(n as nat, |k: int| prev) =~= pixels.subrange(
        0,
        j + n,
    ));
}

/// Emits the RUN op for a pending run of `run` copies of `prev`.
fn flush_run(
    out: &mut Vec<u8>,
    run: u8,
    prev: Pixel,
    Ghost(pixels): Ghost<Seq<Pixel>>,
    Ghost(j): Ghost<int>,
    Ghost(dcache): Ghost<Seq<Pixel>>,
)
    requires
        1 <= run <= 62,
        0 <= j,
        j + run <= pixels.len(),
        forall|k: int| j <= k < j + run ==> pixels[k] == prev,
        old(out)@.len() >= 14,
        decode_ops(
            old(out)@.subrange(14, old(out)@.len() as int),
            initial_pixel(),
            initial_cache(),
        ) == Some((pixels.subrange(0, j), prev, dcache)),
    ensures
        final(out)@.len() == old(out)@.len() + 1,
        final(out)@.subrange(0, 14) == old(out)@.subrange(0, 14),
        decode_ops(
            final(out)@.subrange(14, final(out)@.len() as int),
            initial_pixel(),
            initial_cache(),
        ) == Some(
            (pixels.subrange(0, j + run), prev, dcache.update(pixel_hash(prev), prev)),
        ),
{
    let ghost o0 = out@;
    let b = 0xc0 + (run - 1);
    out.push(b);
    proof {
        assert(out@.subrange(14, out@.len() as int) =~= o0.subrange(14, o0.len() as int)
            + seq![b]);
        assert(out@.subrange(0, 14) =~= o0.subrange(0, 14));
        lemma_enc_run(o0.subrange(14, o0.len() as int), pixels, j, prev, dcache, run, b);
    }
}

/// Encodes a pixel buffer under a header into a complete QOI byte stream:
/// header bytes, then for each pixel the cheapest applicable op — run,
/// cache index, small delta, luma delta, or literal — then the end marker.
///
/// The returned stream decodes to exactly the given header and pixels: this
/// is the round-trip guarantee.
pub fn encode(pixels: &Vec<Pixel>, header: &QOIHeader) -> (r: Vec<u8>)
    requires
        pixels@.len() == spec_image_size(*header),
    ensures
        spec_decode(r@) == Some((*header, pixels@)),
        magic_ok(r@),
{
    let mut out: Vec<u8> = header.to_bytes();
    let mut prev = Pixel { r: 0, g: 0, b: 0, a: 255 };
    let mut cache = HashIndexedArray::new();
    let ghost mut dcache: Seq<Pixel> = initial_cache();
    let mut run: u8 = 0;
    let mut i: usize = 0;
    proof {
        lemma_decode_ops_empty(initial_pixel(), initial_cache());
        assert(out@.subrange(14, out@.len() as int) =~= Seq::<u8>::empty());
        assert(out@.subrange(0, 14) =~= out@);
        assert(pixels@.subrange(0, 0) =~= Seq::<Pixel>::empty());
    }
    while i < pixels.len()
        invariant
            i <= pixels@.len(),
            run as int <= i,
            run < 62,
            out@.len() >= 14,
            out@.subrange(0, 14) == spec_header_bytes(*header),
            cache.wf(),
            dcache.len() == 64,
            forall|k: int| i - run <= k < i ==> pixels@[k] == prev,
            (run == 0 ==> cache.pixels() == dcache),
            (run > 0 ==> cache.pixels() == dcache.update(pixel_hash(prev), prev)),
            decode_ops(out@.subrange(14, out@.len() as int), initial_pixel(), initial_cache())
                == Some((pixels@.subrange(0, i - run as int), prev, dcache)),
        decreases pixels@.len() - i,
    {
        let px = pixels[i];
        if px == prev {
            run = run + 1;
            cache.store(px);
            proof {
                assert(dcache.update(pixel_hash(prev), prev).update(pixel_hash(prev), prev)
                    =~= dcache.update(pixel_hash(prev), prev));
            }
            if run == 62 {
                flush_run(
                    &mut out,
                    62,
                    prev,
                    Ghost(pixels@),
                    Ghost(i as int + 1 - 62),
                    Ghost(dcache),
                );
                proof {
                    dcache = dcache.update(pixel_hash(prev), prev);
                }
                run = 0;
            }
            i = i + 1;
        } else {
            if run > 0 {
                flush_run(
                    &mut out,
                    run,
                    prev,
                    Ghost(pixels@),
                    Ghost(i as int - run as int),
                    Ghost(dcache),
                );
                proof {
                    dcache = dcache.update(pixel_hash(prev), prev);
                }
                run = 0;
            }
            let ghost o0 = out@;
            let ghost ops0 = o0.subrange(14, o0.len() as int);
            let h = px.hash_index();
            let cached = cache.fetch(h);
            if cached == px {
                out.push(h);
                proof {
                    assert(out@.subrange(14, out@.len() as int) =~= ops0 + seq![h]);
                    assert(out@.subrange(0, 14) =~= o0.subrange(0, 14));
                    lemma_enc_index(ops0, pixels@, i as int, prev, dcache, h);
                }
            } else if px.a == prev.a {
                let dr = px.r.wrapping_sub(prev.r);
                let dg = px.g.wrapping_sub(prev.g);
                let db = px.b.wrapping_sub(prev.b);
                let dr2 = dr.wrapping_add(2);
                let dg2 = dg.wrapping_add(2);
                let db2 = db.wrapping_add(2);
                if dr2 < 4 && dg2 < 4 && db2 < 4 {
                    let b = 0x40 | (dr2 << 4) | (dg2 << 2) | db2;
                    out.push(b);
                    proof {
                        assert(out@.subrange(14, out@.len() as int) =~= ops0 + seq![b]);
                        assert(out@.subrange(0, 14) =~= o0.subrange(0, 14));
                        lemma_enc_diff(ops0, pixels@, i as int, prev, dcache, dr2, dg2, db2, b);
                    }
                } else {
                    let dg32 = dg.wrapping_add(32);
                    let drdg = dr.wrapping_sub(dg).wrapping_add(8);
                    let dbdg = db.wrapping_sub(dg).wrapping_add(8);
                    if dg32 < 64 && drdg < 16 && dbdg < 16 {
                        let b1 = 0x80 | dg32;
                        let b2 = (drdg << 4) | dbdg;
                        out.push(b1);
                        out.push(b2);
                        proof {
                            assert(out@.subrange(14, out@.len() as int) =~= ops0 + seq![b1, b2]);
                            assert(out@.subrange(0, 14) =~= o0.subrange(0, 14));
                            lemma_enc_luma(
                                ops0,
                                pixels@,
                                i as int,
                                prev,
                                dcache,
                                dg32,
                                drdg,
                                dbdg,
                                b1,
                                b2,
                            );
                        }
                    } else {
                        out.push(0xfe);
                        out.push(px.r);
                        out.push(px.g);
                        out.push(px.b);
                        proof {
                            assert(out@.subrange(14, out@.len() as int) =~= ops0 + seq![
                                0xfeu8,
                                px.r,
                                px.g,
                                px.b,
                            ]);
                            assert(out@.subrange(0, 14) =~= o0.subrange(0, 14));
                            lemma_enc_rgb(ops0, pixels@, i as int, prev, dcache);
                        }
                    }
                }
            } else {
                out.push(0xff);
                out.push(px.r);
                out.push(px.g);
                out.push(px.b);
                out.push(px.a);
                proof {
                    assert(out@.subrange(14, out@.len() as int) =~= ops0 + seq![
                        0xffu8,
                        px.r,
                        px.g,
                        px.b,
                        px.a,
                    ]);
                    assert(out@.subrange(0, 14) =~= o0.subrange(0, 14));
                    lemma_enc_rgba(ops0, pixels@, i as int, prev, dcache);
                }
            }
            cache.store(px);
            prev = px;
            proof {
                dcache = dcache.update(pixel_hash(px), px);
            }
            i = i + 1;
        }
    }
    if run > 0 {
        flush_run(
            &mut out,
            run,
            prev,
            Ghost(pixels@),
            Ghost(i as int - run as int),
            Ghost(dcache),
        );
        proof {
            dcache = dcache.update(pixel_hash(prev), prev);
        }
    }
    proof {
        assert(pixels@.subrange(0, pixels@.len() as int) =~= pixels@);
    }
    let ghost body = out@;
    out.push(0);
    out.push(0);
    out.push(0);
    out.push(0);
    out.push(0);
    out.push(0);
    out.push(0);
    out.push(1);
    proof {
        let full = out@;
        assert(full =~= body + seq![0u8, 0u8, 0u8, 0u8, 0u8, 0u8, 0u8, 1u8]);
        assert(full.subrange(0, 14) =~= body.subrange(0, 14));
        assert(full.subrange(14, full.len() - 8) =~= body.subrange(14, body.len() as int));
        assert(full.subrange(full.len() - 8, full.len() as int) =~= end_marker());
        lemma_header_roundtrip(*header);
        let hb = spec_header_bytes(*header);
        assert(full.subrange(0, 14) == hb);
        assert(full[0] == hb[0] && full[1] == hb[1] && full[2] == hb[2] && full[3] == hb[3]);
        assert(magic_ok(full));
        assert(full[4] == hb[4] && full[5] == hb[5] && full[6] == hb[6] && full[7] == hb[7]
            && full[8] == hb[8] && full[9] == hb[9] && full[10] == hb[10] && full[11] == hb[11]
            && full[12] == hb[12] && full[13] == hb[13]);
        assert(spec_parse_header(full) == spec_parse_header(hb));
        assert(spec_decode(full) == Some((*header, pixels@)));
    }
    out
}

} // verus!
