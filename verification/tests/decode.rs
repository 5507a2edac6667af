use image_qoi::{ColorFormat, QoiDecoder, QoiError, QoiHeader, QoiReader, Rgba};

fn header_bytes(width: u32, height: u32, channels: u8, colorspace: u8) -> Vec<u8> {
    let mut v = vec![0x71, 0x6f, 0x69, 0x66];
    v.extend_from_slice(&width.to_be_bytes());
    v.extend_from_slice(&height.to_be_bytes());
    v.push(channels);
    v.push(colorspace);
    v
}

fn stream(width: u32, height: u32, channels: u8, body: &[u8]) -> Vec<u8> {
    let mut v = header_bytes(width, height, channels, 0);
    v.extend_from_slice(body);
    v
}

#[test]
fn header_parses_fields() {
    let bytes = header_bytes(300, 200, 4, 1);
    let h = QoiHeader::try_from(&bytes).unwrap();
    assert_eq!(h.width, 300);
    assert_eq!(h.height, 200);
    assert_eq!(h.channels, 4);
    assert_eq!(h.colorspace, 1);
    assert_eq!(h.magic, [0x71, 0x6f, 0x69, 0x66]);
    assert!(h.is_rgba());
}

#[test]
fn header_rejects_short_input() {
    let bytes = header_bytes(1, 1, 4, 0);
    assert_eq!(QoiHeader::try_from(&bytes[..13]), Err(QoiError::TruncatedHeader));
    assert_eq!(QoiHeader::try_from(&[]), Err(QoiError::TruncatedHeader));
}

#[test]
fn header_rejects_bad_magic() {
    let mut bytes = header_bytes(1, 1, 4, 0);
    bytes[3] = b'x';
    assert_eq!(QoiHeader::try_from(&bytes), Err(QoiError::BadMagic));
    let decoder_err = QoiDecoder::new(bytes).unwrap_err();
    assert_eq!(decoder_err, QoiError::BadMagic);
}

#[test]
fn decoder_exposes_dimensions_and_format() {
    let d = QoiDecoder::new(stream(7, 5, 3, &[])).unwrap();
    assert_eq!(d.dimensions(), (7, 5));
    assert_eq!(d.color_format(), ColorFormat::Rgb);
    assert_eq!(d.scanline_bytes(), 3);
    let d = QoiDecoder::new(stream(7, 5, 4, &[])).unwrap();
    assert_eq!(d.color_format(), ColorFormat::Rgba);
    assert_eq!(d.scanline_bytes(), 4);
}

#[test]
fn rgb_literal_then_run() {
    // RGB literal inherits the initial alpha of 255; the RUN of length 1
    // repeats it once more.
    let d = QoiDecoder::new(stream(2, 1, 4, &[0xfe, 10, 20, 30, 0xc0])).unwrap();
    let img = d.read_image().unwrap();
    assert_eq!(img, vec![10, 20, 30, 255, 10, 20, 30, 255]);
}

#[test]
fn rgba_literal_sets_all_lanes() {
    let d = QoiDecoder::new(stream(1, 1, 4, &[0xff, 1, 2, 3, 128])).unwrap();
    assert_eq!(d.read_image().unwrap(), vec![1, 2, 3, 128]);
}

#[test]
fn rgb_literal_carries_alpha_forward() {
    let body = [0xff, 1, 2, 3, 128, 0xfe, 4, 5, 6];
    let d = QoiDecoder::new(stream(2, 1, 4, &body)).unwrap();
    assert_eq!(d.read_image().unwrap(), vec![1, 2, 3, 128, 4, 5, 6, 128]);
}

#[test]
fn run_repeats_latest_pixel() {
    // One literal, then a RUN of length 3 over 3-channel output.
    let body = [0xfe, 1, 2, 3, 0xc2];
    let d = QoiDecoder::new(stream(4, 1, 3, &body)).unwrap();
    assert_eq!(d.read_image().unwrap(), vec![1, 2, 3, 1, 2, 3, 1, 2, 3, 1, 2, 3]);
}

#[test]
fn diff_wraps_at_eight_bits() {
    // latest = (255, 0, 0, 255); small DIFF with dr = +1, dg = 0, db = 0 must
    // wrap red to 0 rather than trap or saturate.
    let body = [0xff, 255, 0, 0, 255, 0x7a];
    let d = QoiDecoder::new(stream(2, 1, 4, &body)).unwrap();
    assert_eq!(d.read_image().unwrap(), vec![255, 0, 0, 255, 0, 0, 0, 255]);
}

#[test]
fn diff_wraps_downward() {
    // latest all zero lanes except alpha; dr = db = -2 wrap to 254.
    let body = [0xff, 0, 0, 0, 255, 0x48];
    let d = QoiDecoder::new(stream(2, 1, 4, &body)).unwrap();
    assert_eq!(d.read_image().unwrap(), vec![0, 0, 0, 255, 254, 0, 254, 255]);
}

#[test]
fn luma_applies_green_biased_deltas() {
    // dg = +5 (tag 0xa5), dr - dg = +2, db - dg = -3 (follow byte 0xa5):
    // (10, 20, 30, 255) becomes (17, 25, 32, 255).
    let body = [0xff, 10, 20, 30, 255, 0xa5, 0xa5];
    let d = QoiDecoder::new(stream(2, 1, 4, &body)).unwrap();
    assert_eq!(d.read_image().unwrap(), vec![10, 20, 30, 255, 17, 25, 32, 255]);
}

#[test]
fn index_recalls_cached_pixel() {
    // (10, 20, 30, 255) hashes to slot 9; after another literal displaces
    // `latest`, INDEX 9 recalls it.
    let body = [0xff, 10, 20, 30, 255, 0xff, 0, 0, 0, 255, 0x09];
    let d = QoiDecoder::new(stream(3, 1, 4, &body)).unwrap();
    assert_eq!(
        d.read_image().unwrap(),
        vec![10, 20, 30, 255, 0, 0, 0, 255, 10, 20, 30, 255]
    );
}

#[test]
fn index_sees_hash_collisions() {
    // (21, 0, 0, 255) and (0, 0, 9, 255) share cache slot 52; the later save
    // displaces the earlier one, so INDEX 52 yields the second pixel.
    assert_eq!(Rgba { r: 21, g: 0, b: 0, a: 255 }.hash(), 52);
    assert_eq!(Rgba { r: 0, g: 0, b: 9, a: 255 }.hash(), 52);
    let body = [0xff, 21, 0, 0, 255, 0xff, 0, 0, 9, 255, 0x34];
    let d = QoiDecoder::new(stream(3, 1, 4, &body)).unwrap();
    assert_eq!(
        d.read_image().unwrap(),
        vec![21, 0, 0, 255, 0, 0, 9, 255, 0, 0, 9, 255]
    );
}

#[test]
fn index_zero_on_fresh_cache_is_black_transparent() {
    // The cache starts all-zero, so INDEX 0 before any save yields (0,0,0,0).
    let d = QoiDecoder::new(stream(1, 1, 4, &[0x00])).unwrap();
    assert_eq!(d.read_image().unwrap(), vec![0, 0, 0, 0]);
}

#[test]
fn all_opcodes_in_one_stream() {
    // RGBA literal, RGB literal, small DIFF, LUMA, RUN, INDEX of an earlier
    // pixel, INDEX of an untouched zero slot.
    let body = [
        0xff, 100, 110, 120, 130, // p0 = (100,110,120,130), saved in slot 48
        0xfe, 1, 2, 3, // p1 = (1,2,3,130)
        0x7f, // p2 = p1 + (+1,+1,+1)
        0x90, 0x53, // p3 = p2 + (-19,-16,-21), wrapping
        0xc1, // p4, p5 = p3 repeated
        0x30, // p6 = cache slot 48 = p0
        0x00, // p7 = untouched slot 0 = (0,0,0,0)
    ];
    let d = QoiDecoder::new(stream(8, 1, 4, &body)).unwrap();
    let expected = vec![
        100, 110, 120, 130,
        1, 2, 3, 130,
        2, 3, 4, 130,
        239, 243, 239, 130,
        239, 243, 239, 130,
        239, 243, 239, 130,
        100, 110, 120, 130,
        0, 0, 0, 0,
    ];
    assert_eq!(d.read_image().unwrap(), expected);
}

#[test]
fn truncated_body_fails_mid_decode() {
    // An RGBA literal missing its last byte.
    let d = QoiDecoder::new(stream(1, 1, 4, &[0xff, 1, 2, 3])).unwrap();
    assert_eq!(d.read_image().unwrap_err(), QoiError::TruncatedStream);
    // No body at all while a pixel is still owed.
    let d = QoiDecoder::new(stream(1, 1, 4, &[])).unwrap();
    assert_eq!(d.read_image().unwrap_err(), QoiError::TruncatedStream);
}

#[test]
fn single_byte_reads_match_one_large_read() {
    let body = [0xfe, 10, 20, 30, 0xc1, 0xff, 9, 8, 7, 6, 0xa5, 0xa5, 0x7a];
    let bytes = stream(6, 1, 4, &body);
    let whole = QoiDecoder::new(bytes.clone()).unwrap().read_image().unwrap();
    assert_eq!(whole.len(), 24);

    let mut reader = QoiDecoder::new(bytes).unwrap().into_reader();
    let mut piecemeal = Vec::new();
    while piecemeal.len() < 24 {
        let mut buf = vec![0u8; 1];
        let n = reader.read(&mut buf).unwrap();
        assert_eq!(n, 1);
        piecemeal.push(buf[0]);
    }
    assert_eq!(piecemeal, whole);
}

#[test]
fn uneven_chunked_reads_match_one_large_read() {
    let body = [0xff, 3, 1, 4, 1, 0xc4, 0x6f, 0x00];
    let bytes = stream(8, 1, 3, &body);
    let whole = QoiDecoder::new(bytes.clone()).unwrap().read_image().unwrap();
    assert_eq!(whole.len(), 24);

    let mut reader = QoiDecoder::new(bytes).unwrap().into_reader();
    let mut piecemeal: Vec<u8> = Vec::new();
    let sizes = [5usize, 1, 7, 2, 11, 4, 9];
    let mut s = 0;
    while piecemeal.len() < 24 {
        let want = sizes[s % sizes.len()].min(24 - piecemeal.len());
        s += 1;
        let mut buf = vec![0u8; want];
        let mut got = 0;
        while got < want {
            let mut part = vec![0u8; want - got];
            let n = reader.read(&mut part).unwrap();
            assert!(n > 0);
            buf[got..got + n].copy_from_slice(&part[..n]);
            got += n;
        }
        piecemeal.extend_from_slice(&buf);
    }
    assert_eq!(piecemeal, whole);
}

#[test]
fn reader_reports_per_chunk_remainders() {
    let bytes = stream(3, 1, 4, &[0xfe, 10, 20, 30, 0xc1]);
    let mut reader = QoiDecoder::new(bytes).unwrap().into_reader();
    let rem = reader.load_next_pixel().unwrap();
    assert_eq!(rem.count, 4);
    assert_eq!(rem.chans, 4);
    assert_eq!(&rem.bytes[..], &[10, 20, 30, 255]);
    let rem = reader.load_next_pixel().unwrap();
    assert_eq!(rem.count, 8);
    assert_eq!(&rem.bytes[..], &[10, 20, 30, 255]);
}

#[test]
fn run_does_not_touch_the_cache() {
    // A RUN must not re-save `latest`: (2, 0, 0, 0) hashes to slot 6, and a
    // RUN of the all-zero latest pixel must not overwrite slot 0 either.
    let bytes = stream(3, 1, 4, &[0xc1, 0x00, 0x00]);
    let mut reader = QoiDecoder::new(bytes).unwrap().into_reader();
    let before = reader.pixels.clone();
    let _ = reader.load_next_pixel().unwrap();
    for i in 0..64 {
        assert_eq!(reader.pixels[i], before[i]);
    }
}

#[test]
fn pixel_hash_matches_reference_values() {
    assert_eq!(Rgba { r: 1, g: 1, b: 1, a: 1 }.hash(), 26);
    assert_eq!(Rgba { r: 255, g: 255, b: 255, a: 255 }.hash(), 38);
    assert_eq!(Rgba { r: 0, g: 0, b: 0, a: 0 }.hash(), 0);
    assert_eq!(Rgba { r: 0, g: 0, b: 0, a: 255 }.hash(), (255u32 * 11 % 64) as u8);
}

#[test]
fn pixel_bytes_round_trip() {
    let p = Rgba::from_bytes([9, 8, 7, 6]);
    assert_eq!(p.bytes(), [9, 8, 7, 6]);
    assert_eq!(p.alpha(), 6);
}

#[test]
fn remainder_rotates_across_partial_reads() {
    // Drain a 2-pixel remainder in 3-byte steps: the pattern must rotate so
    // byte order is preserved across the pixel boundary.
    let bytes = stream(2, 1, 4, &[0xff, 1, 2, 3, 4, 0xc0]);
    let mut reader = QoiDecoder::new(bytes).unwrap().into_reader();
    let mut out = Vec::new();
    while out.len() < 8 {
        let mut buf = vec![0u8; 3];
        let n = reader.read(&mut buf).unwrap();
        out.extend_from_slice(&buf[..n]);
    }
    assert_eq!(out, vec![1, 2, 3, 4, 1, 2, 3, 4]);
}

#[test]
fn streaming_reader_can_be_built_directly() {
    let header = QoiHeader {
        magic: [0x71, 0x6f, 0x69, 0x66],
        width: 1,
        height: 1,
        channels: 3,
        colorspace: 0,
    };
    let mut reader = QoiReader::new(header, vec![0xfe, 40, 50, 60]);
    let mut buf = vec![0u8; 3];
    assert_eq!(reader.read(&mut buf), Ok(3));
    assert_eq!(buf, vec![40, 50, 60]);
}

#[test]
fn exhausted_body_errors_on_further_reads() {
    let bytes = stream(1, 1, 4, &[0x00]);
    let mut reader = QoiDecoder::new(bytes).unwrap().into_reader();
    let mut buf = vec![0u8; 4];
    assert_eq!(reader.read(&mut buf), Ok(4));
    let mut more = vec![0u8; 1];
    assert_eq!(reader.read(&mut more), Err(QoiError::TruncatedStream));
}
