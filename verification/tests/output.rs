use gamescope_led_sync::output::{adler32, crc32, drgb_packet, png_bytes, preview_zones, Preview};

#[test]
fn drgb_packet_is_header_then_colours() {
    assert_eq!(drgb_packet(2, &[[1, 2, 3], [4, 5, 6]]), vec![2, 2, 1, 2, 3, 4, 5, 6]);
    assert_eq!(drgb_packet(255, &[]), vec![2, 255]);
}

#[test]
fn drgb_packet_of_a_full_strip() {
    let colors = vec![[9u8, 8, 7]; 490];
    let p = drgb_packet(2, &colors);
    assert_eq!(p.len(), 1472);
    assert_eq!(&p[1469..], &[9, 8, 7]);
}

#[test]
fn crc32_check_value() {
    assert_eq!(crc32(0xFFFF_FFFF, b"123456789") ^ 0xFFFF_FFFF, 0xCBF4_3926);
    assert_eq!(crc32(0xFFFF_FFFF, b"") ^ 0xFFFF_FFFF, 0);
    assert_eq!(crc32(7, b""), 7);
}

#[test]
fn crc32_runs_over_pieces() {
    let whole = crc32(0xFFFF_FFFF, b"IENDsome data");
    assert_eq!(crc32(crc32(0xFFFF_FFFF, b"IEND"), b"some data"), whole);
}

#[test]
fn adler32_check_values() {
    assert_eq!(adler32(b"Wikipedia"), 0x11E6_0398);
    assert_eq!(adler32(b""), 1);
    assert_eq!(adler32(&[255; 6000]), {
        let (mut a, mut b) = (1u32, 0u32);
        for _ in 0..6000 {
            a = (a + 255) % 65521;
            b = (b + a) % 65521;
        }
        (b << 16) | a
    });
}

#[test]
fn png_of_one_red_pixel() {
    let expected: Vec<u8> = vec![
        0x89, 0x50, 0x4e, 0x47, 0x0d, 0x0a, 0x1a, 0x0a, 0x00, 0x00, 0x00, 0x0d, 0x49, 0x48, 0x44, 0x52, 0x00, 0x00,
        0x00, 0x01, 0x00, 0x00, 0x00, 0x01, 0x08, 0x02, 0x00, 0x00, 0x00, 0x90, 0x77, 0x53, 0xde, 0x00, 0x00, 0x00,
        0x0f, 0x49, 0x44, 0x41, 0x54, 0x78, 0x01, 0x01, 0x04, 0x00, 0xfb, 0xff, 0x00, 0xff, 0x00, 0x00, 0x03, 0x01,
        0x01, 0x00, 0x8d, 0x1d, 0xe5, 0x82, 0x00, 0x00, 0x00, 0x00, 0x49, 0x45, 0x4e, 0x44, 0xae, 0x42, 0x60, 0x82,
    ];
    assert_eq!(png_bytes(1, 1, &[255, 0, 0]), expected);
}

#[test]
fn png_of_two_pixels() {
    let expected: Vec<u8> = vec![
        0x89, 0x50, 0x4e, 0x47, 0x0d, 0x0a, 0x1a, 0x0a, 0x00, 0x00, 0x00, 0x0d, 0x49, 0x48, 0x44, 0x52, 0x00, 0x00,
        0x00, 0x02, 0x00, 0x00, 0x00, 0x01, 0x08, 0x02, 0x00, 0x00, 0x00, 0x7b, 0x40, 0xe8, 0xdd, 0x00, 0x00, 0x00,
        0x12, 0x49, 0x44, 0x41, 0x54, 0x78, 0x01, 0x01, 0x07, 0x00, 0xf8, 0xff, 0x00, 0x01, 0x02, 0x03, 0x04, 0x05,
        0x06, 0x00, 0x3f, 0x00, 0x16, 0x68, 0x41, 0x5f, 0x8d, 0x00, 0x00, 0x00, 0x00, 0x49, 0x45, 0x4e, 0x44, 0xae,
        0x42, 0x60, 0x82,
    ];
    // Bytes past the image are not read.
    assert_eq!(png_bytes(2, 1, &[1, 2, 3, 4, 5, 6, 7, 8]), expected);
}

#[test]
fn png_of_an_empty_image() {
    let expected: Vec<u8> = vec![
        0x89, 0x50, 0x4e, 0x47, 0x0d, 0x0a, 0x1a, 0x0a, 0x00, 0x00, 0x00, 0x0d, 0x49, 0x48, 0x44, 0x52, 0x00, 0x00,
        0x00, 0x03, 0x00, 0x00, 0x00, 0x00, 0x08, 0x02, 0x00, 0x00, 0x00, 0x5f, 0xde, 0x50, 0x46, 0x00, 0x00, 0x00,
        0x06, 0x49, 0x44, 0x41, 0x54, 0x78, 0x01, 0x00, 0x00, 0x00, 0x01, 0x9d, 0xe0, 0x8f, 0x4a, 0x00, 0x00, 0x00,
        0x00, 0x49, 0x45, 0x4e, 0x44, 0xae, 0x42, 0x60, 0x82,
    ];
    assert_eq!(png_bytes(3, 0, &[]), expected);
}

fn be32(b: &[u8]) -> usize {
    u32::from_be_bytes([b[0], b[1], b[2], b[3]]) as usize
}

#[test]
fn png_blocks_carry_the_scanlines() {
    // 700 rows of 301 bytes need four stored blocks.
    let (w, h) = (100usize, 700usize);
    let rgb: Vec<u8> = (0..w * h * 3).map(|i| (i % 251) as u8).collect();
    let png = png_bytes(w, h, &rgb);
    let idat_len = be32(&png[33..37]);
    assert_eq!(&png[37..41], b"IDAT");
    let idat = &png[41..41 + idat_len];
    assert_eq!(&idat[0..2], &[0x78, 0x01]);
    let mut raw = Vec::new();
    let mut pos = 2;
    let mut blocks = 0;
    loop {
        let last = idat[pos];
        let len = u16::from_le_bytes([idat[pos + 1], idat[pos + 2]]) as usize;
        let nlen = u16::from_le_bytes([idat[pos + 3], idat[pos + 4]]) as usize;
        assert_eq!(nlen, 0xffff - len);
        raw.extend_from_slice(&idat[pos + 5..pos + 5 + len]);
        pos += 5 + len;
        blocks += 1;
        if last == 1 {
            break;
        }
        assert_eq!(len, 65535);
    }
    assert_eq!(blocks, 4);
    assert_eq!(raw.len(), h * (1 + 3 * w));
    for y in 0..h {
        let row = &raw[y * (1 + 3 * w)..(y + 1) * (1 + 3 * w)];
        assert_eq!(row[0], 0);
        assert_eq!(&row[1..], &rgb[y * w * 3..(y + 1) * w * 3]);
    }
    assert_eq!(be32(&idat[pos..pos + 4]), adler32(&raw) as usize);
    let crc = crc32(0xFFFF_FFFF, &png[37..41 + idat_len]) ^ 0xFFFF_FFFF;
    assert_eq!(be32(&png[41 + idat_len..45 + idat_len]), crc as usize);
    assert_eq!(&png[png.len() - 12..], &[0, 0, 0, 0, 0x49, 0x45, 0x4e, 0x44, 0xae, 0x42, 0x60, 0x82]);
}

#[test]
fn preview_zones_spread_evenly() {
    assert_eq!(preview_zones(0), Vec::<usize>::new());
    assert_eq!(preview_zones(1), vec![0]);
    assert_eq!(preview_zones(5), vec![0, 1, 2, 3, 4]);
    let z = preview_zones(132);
    assert_eq!(z.len(), 60);
    assert_eq!(z[0], 0);
    assert_eq!(z[1], 2);
    assert_eq!(z[30], 66);
    assert_eq!(z[59], 131);
}

#[test]
fn preview_redraws_after_the_first_frame() {
    let mut p = Preview::new();
    assert!(!p.begin_frame());
    assert!(p.begin_frame());
    assert!(p.begin_frame());
}
