use qoi_codec::{decode, encode, DecodeError, HashIndexedArray, Pixel, QOIHeader};

fn px(r: u8, g: u8, b: u8, a: u8) -> Pixel {
    Pixel { r, g, b, a }
}

#[test]
fn header_roundtrip() {
    let h = QOIHeader { width: 70000, height: 3, has_alpha: true, linear_rgb: false };
    let bytes = h.to_bytes();
    assert_eq!(bytes.len(), 14);
    assert_eq!(&bytes[0..4], b"qoif");
    // 70000 = 0x00011170, big-endian
    assert_eq!(&bytes[4..8], &[0x00, 0x01, 0x11, 0x70]);
    assert_eq!(&bytes[8..12], &[0x00, 0x00, 0x00, 0x03]);
    assert_eq!(bytes[12], 4);
    assert_eq!(bytes[13], 0);
    let parsed = QOIHeader::parse(&bytes).unwrap();
    assert_eq!(parsed, h);
}

#[test]
fn header_roundtrip_no_alpha_linear() {
    let h = QOIHeader { width: 1, height: 1, has_alpha: false, linear_rgb: true };
    let bytes = h.to_bytes();
    assert_eq!(bytes[12], 3);
    assert_eq!(bytes[13], 1);
    assert_eq!(QOIHeader::parse(&bytes).unwrap(), h);
}

#[test]
fn parse_rejects_short_input() {
    let bytes: Vec<u8> = b"qoi".to_vec();
    assert!(QOIHeader::parse(&bytes).is_none());
}

#[test]
fn image_size_is_width_times_height() {
    let h = QOIHeader { width: 20, height: 10, has_alpha: false, linear_rgb: false };
    assert_eq!(h.image_size(), 200);
}

#[test]
fn run_cap_splits_200_into_62_62_62_14() {
    let h = QOIHeader { width: 20, height: 10, has_alpha: true, linear_rgb: false };
    let pixels = vec![px(0, 0, 0, 255); 200];
    let bytes = encode(&pixels, &h);
    // header, then exactly four RUN ops, then the end marker
    assert_eq!(bytes.len(), 14 + 4 + 8);
    assert_eq!(&bytes[14..18], &[0xfd, 0xfd, 0xfd, 0xc0 + 13]);
    assert_eq!(&bytes[18..26], &[0, 0, 0, 0, 0, 0, 0, 1]);
    let (h2, out) = decode(&bytes).unwrap();
    assert_eq!(h2, h);
    assert_eq!(out, pixels);
}

#[test]
fn boundary_deltas_use_diff_only_in_range() {
    let h = QOIHeader { width: 3, height: 1, has_alpha: true, linear_rgb: false };
    let pixels = vec![px(10, 10, 10, 255), px(11, 8, 11, 255), px(13, 8, 11, 255)];
    let bytes = encode(&pixels, &h);
    // first pixel: luma op (2 bytes); second: (+1,-2,+1) is the DIFF corner
    assert_eq!(bytes[16], 0x40 | (3 << 4) | (0 << 2) | 3);
    // third: (+2,0,0) is out of DIFF range and falls through to LUMA
    assert_eq!(bytes[17] & 0xc0, 0x80);
    let (_, out) = decode(&bytes).unwrap();
    assert_eq!(out, pixels);
}

#[test]
fn corrupt_magic_is_detected() {
    let h = QOIHeader { width: 1, height: 1, has_alpha: false, linear_rgb: false };
    let pixels = vec![px(1, 2, 3, 255)];
    let mut bytes = encode(&pixels, &h);
    bytes[3] = b'g';
    assert!(matches!(decode(&bytes), Err(DecodeError::BadMagic)));
}

#[test]
fn truncated_stream_reports_both_counts() {
    let h = QOIHeader { width: 10, height: 10, has_alpha: false, linear_rgb: false };
    let mut bytes = h.to_bytes();
    bytes.push(0xfd); // run of 62
    bytes.push(0xc0 + 27); // run of 28: 90 pixels in all
    bytes.extend_from_slice(&[0, 0, 0, 0, 0, 0, 0, 1]);
    match decode(&bytes) {
        Err(DecodeError::SizeMismatch { produced, expected }) => {
            assert_eq!(produced, 90);
            assert_eq!(expected, 100);
        }
        other => panic!("expected a size mismatch, got {:?}", other),
    }
}

#[test]
fn excess_pixels_report_both_counts() {
    let h = QOIHeader { width: 1, height: 1, has_alpha: false, linear_rgb: false };
    let mut bytes = h.to_bytes();
    bytes.push(0xfd); // run of 62 against a declared single pixel
    bytes.extend_from_slice(&[0, 0, 0, 0, 0, 0, 0, 1]);
    match decode(&bytes) {
        Err(DecodeError::SizeMismatch { produced, expected }) => {
            assert_eq!(produced, 62);
            assert_eq!(expected, 1);
        }
        other => panic!("expected a size mismatch, got {:?}", other),
    }
}

#[test]
fn bad_end_marker_is_detected() {
    let h = QOIHeader { width: 1, height: 1, has_alpha: false, linear_rgb: false };
    let pixels = vec![px(1, 2, 3, 255)];
    let mut bytes = encode(&pixels, &h);
    let last = bytes.len() - 1;
    bytes[last] = 2;
    assert!(matches!(decode(&bytes), Err(DecodeError::BadEndMarker)));
}

#[test]
fn op_crossing_into_marker_is_detected() {
    let h = QOIHeader { width: 1, height: 1, has_alpha: true, linear_rgb: false };
    let mut bytes = h.to_bytes();
    bytes.push(0xff); // RGBA op with its payload missing
    bytes.push(1);
    bytes.push(2);
    bytes.extend_from_slice(&[0, 0, 0, 0, 0, 0, 0, 1]);
    assert!(matches!(decode(&bytes), Err(DecodeError::BadEndMarker)));
}

#[test]
fn empty_image_roundtrips() {
    let h = QOIHeader { width: 0, height: 0, has_alpha: false, linear_rgb: false };
    let pixels: Vec<Pixel> = Vec::new();
    let bytes = encode(&pixels, &h);
    assert_eq!(bytes.len(), 22);
    let (h2, out) = decode(&bytes).unwrap();
    assert_eq!(h2, h);
    assert!(out.is_empty());
}

#[test]
fn decode_literal_and_index_ops() {
    let h = QOIHeader { width: 3, height: 1, has_alpha: true, linear_rgb: false };
    let mut bytes = h.to_bytes();
    bytes.extend_from_slice(&[0xff, 1, 2, 3, 4]);
    bytes.extend_from_slice(&[0xff, 9, 8, 7, 6]);
    // hash of (1,2,3,4) is (3 + 10 + 21 + 44) % 64 = 14
    bytes.push(14);
    bytes.extend_from_slice(&[0, 0, 0, 0, 0, 0, 0, 1]);
    let (_, out) = decode(&bytes).unwrap();
    assert_eq!(out, vec![px(1, 2, 3, 4), px(9, 8, 7, 6), px(1, 2, 3, 4)]);
}

#[test]
fn decode_diff_luma_run_rgb_ops() {
    let h = QOIHeader { width: 5, height: 1, has_alpha: false, linear_rgb: false };
    let mut bytes = h.to_bytes();
    bytes.push(0x40 | (3 << 4) | (0 << 2) | 3); // diff (+1,-2,+1) from {0,0,0,255}
    bytes.push(0x80 | 32); // luma: green delta 0
    bytes.push(0xa8); // red delta 2, blue delta 0
    bytes.push(0xc0 + 1); // run of 2
    bytes.extend_from_slice(&[0xfe, 5, 6, 7]); // rgb literal, alpha kept
    bytes.extend_from_slice(&[0, 0, 0, 0, 0, 0, 0, 1]);
    let (_, out) = decode(&bytes).unwrap();
    assert_eq!(
        out,
        vec![
            px(1, 254, 1, 255),
            px(3, 254, 1, 255),
            px(3, 254, 1, 255),
            px(3, 254, 1, 255),
            px(5, 6, 7, 255),
        ]
    );
}

#[test]
fn roundtrip_exercises_every_op() {
    let h = QOIHeader { width: 7, height: 1, has_alpha: true, linear_rgb: true };
    let pixels = vec![
        px(0, 0, 0, 255),       // run with the initial pixel
        px(0, 0, 0, 255),       // run continues
        px(100, 110, 120, 200), // alpha changes: RGBA literal
        px(101, 109, 121, 200), // small deltas: DIFF
        px(0, 0, 0, 255),       // back in the cache: INDEX
        px(130, 140, 150, 200), // alpha changes again: RGBA literal
        px(140, 100, 150, 200), // large red/green gap: RGB literal
    ];
    let bytes = encode(&pixels, &h);
    let (h2, out) = decode(&bytes).unwrap();
    assert_eq!(h2, h);
    assert_eq!(out, pixels);
}

#[test]
fn roundtrip_wrapping_deltas() {
    // deltas that wrap around 0/255 must still round-trip exactly
    let h = QOIHeader { width: 4, height: 1, has_alpha: false, linear_rgb: false };
    let pixels = vec![
        px(254, 1, 128, 255),
        px(255, 0, 129, 255), // (+1,-1,+1) wraps green below zero
        px(1, 255, 127, 255), // (+2,-1,-2) wraps red above 255
        px(200, 30, 60, 255),
    ];
    let bytes = encode(&pixels, &h);
    let (_, out) = decode(&bytes).unwrap();
    assert_eq!(out, pixels);
}

#[test]
fn index_op_is_emitted_for_cached_pixel() {
    let h = QOIHeader { width: 3, height: 1, has_alpha: true, linear_rgb: false };
    let a = px(1, 2, 3, 4);
    let b = px(9, 8, 7, 6);
    let pixels = vec![a, b, a];
    let bytes = encode(&pixels, &h);
    // after two RGBA literals the third pixel is a cache hit: one INDEX byte
    assert_eq!(bytes.len(), 14 + 5 + 5 + 1 + 8);
    assert_eq!(bytes[24], 14); // hash of (1,2,3,4)
    let (_, out) = decode(&bytes).unwrap();
    assert_eq!(out, pixels);
}

#[test]
fn hash_cache_tracks_most_recent_pixel() {
    let mut cache = HashIndexedArray::new();
    assert_eq!(cache.fetch(0), px(0, 0, 0, 0));
    assert_eq!(cache.fetch(63), px(0, 0, 0, 0));
    let a = px(1, 2, 3, 4);
    cache.store(a);
    assert_eq!(cache.fetch(a.hash_index()), a);
    // a second pixel with the same hash evicts the first
    let b = px(1, 2, 3, 68); // 64 more in alpha shifts the sum by 64*11, same mod 64
    assert_eq!(b.hash_index(), a.hash_index());
    cache.store(b);
    assert_eq!(cache.fetch(a.hash_index()), b);
}

#[test]
fn pixel_hash_formula() {
    assert_eq!(px(1, 2, 3, 4).hash_index(), 14);
    assert_eq!(px(0, 0, 0, 255).hash_index(), 53);
    assert_eq!(px(0, 0, 0, 0).hash_index(), 0);
}

#[test]
fn diff_op_expansion() {
    let expanded = qoi_codec::op_diff_expand222(0x40 | (3 << 4) | (0 << 2) | 1);
    assert_eq!(expanded, [3, 0, 1, 0]);
}

#[test]
fn luma_op_expansion() {
    // green delta 10: op byte 0x80 | 42; secondary deltas zero: payload 0x88
    let expanded = qoi_codec::op_luma_expand644(0x80 | 42, 0x88);
    assert_eq!(expanded, [10, 10, 10, 0]);
}
