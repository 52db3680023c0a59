//! What leaves the program: WLED DRGB packets, PNG dumps of a frame, and
//! the terminal preview's choice of zones.

use vstd::prelude::*;
use crate::geometry::{LayoutModel, MAX_LEDS};

verus! {

/// WLED UDP realtime, protocol 2 (DRGB).
pub const DRGB_PROTOCOL: u8 = 2;

/// The colours as bytes, three per LED: red, green, blue.
pub open spec fn color_bytes(colors: Seq<[u8; 3]>) -> Seq<u8> {
    Seq::new(3 * colors.len(), |k: int| colors[k / 3][k % 3])
}

/// A DRGB packet: the protocol number, the seconds WLED waits after the
/// stream stops before it returns to its preset, then the colours.
pub open spec fn drgb_packet_bytes(timeout_s: u8, colors: Seq<[u8; 3]>) -> Seq<u8> {
    seq![DRGB_PROTOCOL, timeout_s] + color_bytes(colors)
}

/// Builds the DRGB realtime packet that sets the strip to `colors`.
pub fn drgb_packet(timeout_s: u8, colors: &[[u8; 3]]) -> (packet: Vec<u8>)
    ensures
        packet@ == drgb_packet_bytes(timeout_s, colors@),
        packet@.len() == 2 + 3 * colors@.len(),
        packet@[0] == 2,
        packet@[1] == timeout_s,
        forall|i: int, c: int|
            0 <= i < colors@.len() && 0 <= c < 3 ==> #[trigger] packet@[2 + 3 * i + c] == colors@[i][c],
{
    let mut packet: Vec<u8> = Vec::new();
    packet.push(DRGB_PROTOCOL);
    packet.push(timeout_s);
    let n = colors.len();
    for i in 0..n
        invariant
            n == colors@.len(),
            packet@ == seq![DRGB_PROTOCOL, timeout_s] + Seq::new(
                3 * i as nat,
                |k: int| colors@[k / 3][k % 3],
            ),
    {
        let c = colors[i];
        let ghost before = packet@;
        packet.push(c[0]);
        packet.push(c[1]);
        packet.push(c[2]);
        assert(packet@ =~= seq![DRGB_PROTOCOL, timeout_s] + Seq::new(
            3 * (i + 1) as nat,
            |k: int| colors@[k / 3][k % 3],
        ));
    }
    assert(packet@ =~= drgb_packet_bytes(timeout_s, colors@));
    assert forall|i: int, c: int|
        0 <= i < colors@.len() && 0 <= c < 3 implies #[trigger] packet@[2 + 3 * i + c] == colors@[i][c] by {
        assert((3 * i + c) / 3 == i && (3 * i + c) % 3 == c);
    }
    packet
}

/// The reflected CRC-32 polynomial.
pub const CRC32_POLY: u32 = 0xEDB8_8320;

/// One bit of the reflected CRC-32 register update.
pub open spec fn crc_shift(c: u32) -> u32 {
    if c & 1 != 0 {
        (c >> 1) ^ CRC32_POLY
    } else {
        c >> 1
    }
}

/// `n` bits of the register update.
pub open spec fn crc_shifts(c: u32, n: nat) -> u32
    decreases n,
{
    if n == 0 {
        c
    } else {
        crc_shift(crc_shifts(c, (n - 1) as nat))
    }
}

/// The CRC-32 register after one more byte.
pub open spec fn crc_byte(c: u32, b: u8) -> u32 {
    crc_shifts(c ^ (b as u32), 8)
}

/// The CRC-32 register after `data`, starting from `seed` (no final
/// inversion).
pub open spec fn crc32_update(seed: u32, data: Seq<u8>) -> u32
    decreases data.len(),
{
    if data.len() == 0 {
        seed
    } else {
        crc_byte(crc32_update(seed, data.drop_last()), data.last())
    }
}

/// Runs the CRC-32 register (reflected, polynomial 0xEDB88320) over
/// `data`, starting from `seed`, without the final inversion.
pub fn crc32(seed: u32, data: &[u8]) -> (r: u32)
    ensures
        r == crc32_update(seed, data@),
{
    let mut crc = seed;
    let n = data.len();
    for i in 0..n
        invariant
            n == data@.len(),
            crc == crc32_update(seed, data@.take(i as int)),
    {
        let byte = data[i];
        let ghost start = crc ^ (byte as u32);
        crc = crc ^ (byte as u32);
        for j in 0..8u32
            invariant
                crc == crc_shifts(start, j as nat),
        {
            crc = if crc & 1 != 0 {
                (crc >> 1) ^ CRC32_POLY
            } else {
                crc >> 1
            };
        }
        assert(data@.take(i + 1).drop_last() =~= data@.take(i as int));
    }
    assert(data@.take(n as int) =~= data@);
    crc
}

/// Running the register over two pieces in turn is running it over both.
pub proof fn lemma_crc32_concat(seed: u32, a: Seq<u8>, b: Seq<u8>)
    ensures
        crc32_update(seed, a + b) == crc32_update(crc32_update(seed, a), b),
    decreases b.len(),
{
    if b.len() == 0 {
        assert(a + b =~= a);
    } else {
        lemma_crc32_concat(seed, a, b.drop_last());
        assert((a + b).drop_last() =~= a + b.drop_last());
        assert((a + b).last() == b.last());
    }
}

/// The Adler-32 modulus.
pub const ADLER_MOD: u32 = 65521;

/// The two Adler-32 sums after `data`.
pub open spec fn adler_sums(data: Seq<u8>) -> (int, int)
    decreases data.len(),
{
    if data.len() == 0 {
        (1, 0)
    } else {
        let (a, b) = adler_sums(data.drop_last());
        let a2 = (a + data.last()) % (ADLER_MOD as int);
        (a2, (b + a2) % (ADLER_MOD as int))
    }
}

/// The Adler-32 checksum of `data`: the second sum in the high half, the
/// first in the low half.
pub open spec fn adler32_of(data: Seq<u8>) -> u32 {
    (adler_sums(data).1 * 65536 + adler_sums(data).0) as u32
}

proof fn lemma_adler_sums_bound(data: Seq<u8>)
    ensures
        0 <= adler_sums(data).0 < ADLER_MOD,
        0 <= adler_sums(data).1 < ADLER_MOD,
    decreases data.len(),
{
    if data.len() > 0 {
        lemma_adler_sums_bound(data.drop_last());
    }
}

/// The Adler-32 checksum of `data`.
pub fn adler32(data: &[u8]) -> (r: u32)
    ensures
        r == adler32_of(data@),
        r as int == adler_sums(data@).1 * 65536 + adler_sums(data@).0,
{
    let mut a: u32 = 1;
    let mut b: u32 = 0;
    let n = data.len();
    for i in 0..n
        invariant
            n == data@.len(),
            (a as int, b as int) == adler_sums(data@.take(i as int)),
            a < ADLER_MOD,
            b < ADLER_MOD,
    {
        assert(data@.take(i + 1).drop_last() =~= data@.take(i as int));
        a = (a + data[i] as u32) % ADLER_MOD;
        b = (b + a) % ADLER_MOD;
    }
    assert(data@.take(n as int) =~= data@);
    proof {
        lemma_adler_sums_bound(data@);
    }
    b * 65536 + a
}

/// `x` as four bytes, most significant first.
pub open spec fn be32(x: u32) -> Seq<u8> {
    seq![
        (x / 0x100_0000) as u8,
        (x / 0x1_0000 % 256) as u8,
        (x / 0x100 % 256) as u8,
        (x % 256) as u8,
    ]
}

/// `x` as two bytes, least significant first.
pub open spec fn le16(x: nat) -> Seq<u8> {
    seq![(x % 256) as u8, (x / 256 % 256) as u8]
}

/// The eight bytes that open every PNG file.
pub open spec fn png_signature() -> Seq<u8> {
    seq![0x89u8, 0x50, 0x4e, 0x47, 0x0d, 0x0a, 0x1a, 0x0a]
}

/// The chunk type `IHDR`.
pub open spec fn tag_ihdr() -> Seq<u8> {
    seq![0x49u8, 0x48, 0x44, 0x52]
}

/// The chunk type `IDAT`.
pub open spec fn tag_idat() -> Seq<u8> {
    seq![0x49u8, 0x44, 0x41, 0x54]
}

/// The chunk type `IEND`.
pub open spec fn tag_iend() -> Seq<u8> {
    seq![0x49u8, 0x45, 0x4e, 0x44]
}

/// A PNG chunk: the data's length, the type, the data, and the CRC-32 of
/// type and data.
pub open spec fn png_chunk(tag: Seq<u8>, data: Seq<u8>) -> Seq<u8> {
    be32(data.len() as u32) + tag + data + be32(
        crc32_update(crc32_update(0xFFFF_FFFF, tag), data) ^ 0xFFFF_FFFF,
    )
}

/// The image header of an 8-bit RGB image, not interlaced.
pub open spec fn ihdr_data(width: nat, height: nat) -> Seq<u8> {
    be32(width as u32) + be32(height as u32) + seq![8u8, 2, 0, 0, 0]
}

/// The first `rows` scanlines of an RGB image `width` pixels wide: each is
/// the filter type 0 (none) followed by the row's bytes.
pub open spec fn scanlines(width: nat, rgb: Seq<u8>, rows: nat) -> Seq<u8>
    decreases rows,
{
    if rows == 0 {
        Seq::empty()
    } else {
        scanlines(width, rgb, (rows - 1) as nat) + seq![0u8] + rgb.subrange(
            (rows - 1) * width * 3,
            (rows * width * 3) as int,
        )
    }
}

/// The largest payload of a stored deflate block.
pub const STORED_BLOCK_MAX: usize = 65535;

/// A stored (uncompressed) deflate block: the final-block flag, the
/// payload's length and its complement, then the payload.
pub open spec fn stored_block(payload: Seq<u8>, last: bool) -> Seq<u8> {
    seq![if last { 1u8 } else { 0u8 }] + le16(payload.len()) + le16(
        (STORED_BLOCK_MAX - payload.len()) as nat,
    ) + payload
}

/// `raw` cut into stored blocks of at most 65535 bytes; the last is
/// flagged final. Nothing is left of an empty `raw`.
pub open spec fn stored_blocks(raw: Seq<u8>) -> Seq<u8>
    decreases raw.len(),
{
    if raw.len() == 0 {
        Seq::empty()
    } else if raw.len() <= STORED_BLOCK_MAX {
        stored_block(raw, true)
    } else {
        stored_block(raw.take(STORED_BLOCK_MAX as int), false) + stored_blocks(
            raw.skip(STORED_BLOCK_MAX as int),
        )
    }
}

/// A zlib stream of `raw` with stored blocks: header, blocks, Adler-32.
pub open spec fn zlib_stored(raw: Seq<u8>) -> Seq<u8> {
    seq![0x78u8, 0x01] + stored_blocks(raw) + be32(adler32_of(raw))
}

/// The PNG file of an 8-bit RGB image: signature, `IHDR`, one `IDAT` with
/// the zlib stream of the scanlines, and `IEND`.
pub open spec fn png_file(width: nat, height: nat, rgb: Seq<u8>) -> Seq<u8> {
    png_signature() + png_chunk(tag_ihdr(), ihdr_data(width, height)) + png_chunk(
        tag_idat(),
        zlib_stored(scanlines(width, rgb, height)),
    ) + png_chunk(tag_iend(), Seq::empty())
}

fn push_be32(out: &mut Vec<u8>, x: u32)
    ensures
        final(out)@ == old(out)@ + be32(x),
{
    out.push((x / 0x100_0000) as u8);
    out.push((x / 0x1_0000 % 256) as u8);
    out.push((x / 0x100 % 256) as u8);
    out.push((x % 256) as u8);
    assert(out@ =~= old(out)@ + be32(x));
}

fn push_le16(out: &mut Vec<u8>, x: usize)
    requires
        x <= 0xffff,
    ensures
        final(out)@ == old(out)@ + le16(x as nat),
{
    out.push((x % 256) as u8);
    out.push((x / 256 % 256) as u8);
    assert(out@ =~= old(out)@ + le16(x as nat));
}

fn push_range(out: &mut Vec<u8>, data: &[u8], start: usize, end: usize)
    requires
        start <= end <= data@.len(),
    ensures
        final(out)@ == old(out)@ + data@.subrange(start as int, end as int),
{
    let ghost before = out@;
    for k in start..end
        invariant
            start <= end <= data@.len(),
            out@ == before + data@.subrange(start as int, k as int),
    {
        out.push(data[k]);
        assert(data@.subrange(start as int, k + 1) =~= data@.subrange(start as int, k as int).push(
            data@[k as int],
        ));
    }
}

fn push_chunk(out: &mut Vec<u8>, tag: &[u8], data: &[u8])
    ensures
        final(out)@ == old(out)@ + png_chunk(tag@, data@),
{
    push_be32(out, data.len() as u32);
    let n = tag.len();
    push_range(out, tag, 0, n);
    let m = data.len();
    push_range(out, data, 0, m);
    let crc = crc32(crc32(0xFFFF_FFFF, tag), data) ^ 0xFFFF_FFFF;
    push_be32(out, crc);
    assert(tag@.subrange(0, n as int) =~= tag@);
    assert(data@.subrange(0, m as int) =~= data@);
    assert(out@ =~= old(out)@ + png_chunk(tag@, data@));
}

/// The scanlines of the image: a filter byte, then the row's bytes.
fn scanline_bytes(width: usize, height: usize, rgb: &[u8]) -> (raw: Vec<u8>)
    requires
        height * width * 3 <= rgb@.len(),
    ensures
        raw@ == scanlines(width as nat, rgb@, height as nat),
{
    let mut raw: Vec<u8> = Vec::new();
    let len = rgb.len();
    for y in 0..height
        invariant
            height * width * 3 <= rgb@.len(),
            rgb@.len() == len,
            raw@ == scanlines(width as nat, rgb@, y as nat),
    {
        assert((y + 1) * width * 3 <= height * width * 3 && y * width * 3 <= (y + 1) * width * 3)
            by (nonlinear_arith)
            requires
                y < height,
        ;
        raw.push(0);
        push_range(&mut raw, rgb, y * width * 3, (y + 1) * width * 3);
        assert(raw@ =~= scanlines(width as nat, rgb@, (y + 1) as nat));
    }
    raw
}

/// The stored deflate blocks of `raw`.
fn push_stored_blocks(out: &mut Vec<u8>, raw: &[u8])
    ensures
        final(out)@ == old(out)@ + stored_blocks(raw@),
{
    let n = raw.len();
    let mut pos: usize = 0;
    assert(raw@.skip(0) =~= raw@);
    while pos < n
        invariant
            n == raw@.len(),
            pos <= n,
            out@ + stored_blocks(raw@.skip(pos as int)) == old(out)@ + stored_blocks(raw@),
        decreases n - pos,
    {
        let end = if n - pos > STORED_BLOCK_MAX {
            pos + STORED_BLOCK_MAX
        } else {
            n
        };
        let last = end == n;
        let len = end - pos;
        let ghost rest = raw@.skip(pos as int);
        let ghost before = out@;
        out.push(if last { 1u8 } else { 0u8 });
        push_le16(out, len);
        push_le16(out, STORED_BLOCK_MAX - len);
        push_range(out, raw, pos, end);
        proof {
            if last {
                assert(rest =~= raw@.subrange(pos as int, end as int));
                assert(raw@.skip(end as int) =~= Seq::<u8>::empty());
            } else {
                assert(rest.take(STORED_BLOCK_MAX as int) =~= raw@.subrange(pos as int, end as int));
                assert(rest.skip(STORED_BLOCK_MAX as int) =~= raw@.skip(end as int));
            }
            assert(out@ =~= before + stored_block(raw@.subrange(pos as int, end as int), last));
            assert(stored_blocks(rest) =~= stored_block(raw@.subrange(pos as int, end as int), last)
                + stored_blocks(raw@.skip(end as int)));
            assert(out@ + stored_blocks(raw@.skip(end as int)) =~= before + stored_blocks(rest));
        }
        pos = end;
    }
    assert(raw@.skip(n as int) =~= Seq::<u8>::empty());
    assert(out@ =~= old(out)@ + stored_blocks(raw@));
}

/// The PNG file (8-bit RGB) of an image `width` by `height` whose rows of
/// packed red, green, blue bytes lie one after another in `rgb`. The zlib
/// stream uses stored (uncompressed) deflate blocks, which every reader
/// accepts.
pub fn png_bytes(width: usize, height: usize, rgb: &[u8]) -> (png: Vec<u8>)
    requires
        height * width * 3 <= rgb@.len(),
    ensures
        png@ == png_file(width as nat, height as nat, rgb@),
        png@.len() >= 33,
        png@.subrange(0, 8) == seq![0x89u8, 0x50, 0x4e, 0x47, 0x0d, 0x0a, 0x1a, 0x0a],
        png@.subrange(12, 16) == seq![0x49u8, 0x48, 0x44, 0x52],
        width <= u32::MAX ==> be32_value(png@, 16) == width,
        height <= u32::MAX ==> be32_value(png@, 20) == height,
        png@.subrange(24, 29) == seq![8u8, 2, 0, 0, 0],
{
    let raw = scanline_bytes(width, height, rgb);
    let mut idat: Vec<u8> = Vec::new();
    idat.push(0x78);
    idat.push(0x01);
    push_stored_blocks(&mut idat, raw.as_slice());
    push_be32(&mut idat, adler32(raw.as_slice()));
    assert(idat@ =~= zlib_stored(raw@));

    let mut ihdr: Vec<u8> = Vec::new();
    push_be32(&mut ihdr, width as u32);
    push_be32(&mut ihdr, height as u32);
    ihdr.push(8);
    ihdr.push(2);
    ihdr.push(0);
    ihdr.push(0);
    ihdr.push(0);
    assert(ihdr@ =~= ihdr_data(width as nat, height as nat));

    let mut png: Vec<u8> = vec![0x89, 0x50, 0x4e, 0x47, 0x0d, 0x0a, 0x1a, 0x0a];
    let tag_h: Vec<u8> = vec![0x49, 0x48, 0x44, 0x52];
    let tag_d: Vec<u8> = vec![0x49, 0x44, 0x41, 0x54];
    let tag_e: Vec<u8> = vec![0x49, 0x45, 0x4e, 0x44];
    let empty: Vec<u8> = Vec::new();
    assert(png@ =~= png_signature());
    push_chunk(&mut png, tag_h.as_slice(), ihdr.as_slice());
    push_chunk(&mut png, tag_d.as_slice(), idat.as_slice());
    push_chunk(&mut png, tag_e.as_slice(), empty.as_slice());
    assert(tag_h@ =~= tag_ihdr());
    assert(tag_d@ =~= tag_idat());
    assert(tag_e@ =~= tag_iend());
    assert(empty@ =~= Seq::<u8>::empty());
    assert(png@ =~= png_file(width as nat, height as nat, rgb@));
    proof {
        lemma_png_header(width as nat, height as nat, rgb@);
    }
    png
}

/// The number in two bytes at `i`, least significant first.
pub open spec fn read_le16(s: Seq<u8>, i: int) -> nat {
    (s[i] + 256 * s[i + 1]) as nat
}

/// What a deflate reader takes from a run of stored blocks: the payloads
/// in order, up to and including the block flagged final, which must end
/// the input. A bad flag, a length whose complement does not match, or a
/// short block is refused.
pub open spec fn inflate_stored(s: Seq<u8>) -> Option<Seq<u8>>
    decreases s.len(),
{
    if s.len() < 5 {
        None
    } else {
        let len = read_le16(s, 1) as int;
        if s[0] > 1 || read_le16(s, 3) != STORED_BLOCK_MAX - len || s.len() < 5 + len {
            None
        } else if s[0] == 1 {
            if s.len() == 5 + len {
                Some(s.subrange(5, 5 + len))
            } else {
                None
            }
        } else {
            match inflate_stored(s.skip(5 + len)) {
                Some(rest) => Some(s.subrange(5, 5 + len) + rest),
                None => None,
            }
        }
    }
}

proof fn lemma_le16_value(x: nat)
    requires
        x <= 0xffff,
    ensures
        le16(x)[0] + 256 * le16(x)[1] == x,
{
    assert(x / 256 < 256);
}

proof fn lemma_stored_block_fields(payload: Seq<u8>, last: bool, rest: Seq<u8>)
    requires
        payload.len() <= STORED_BLOCK_MAX,
    ensures
        ({
            let s = stored_block(payload, last) + rest;
            let len = payload.len() as int;
            &&& s.len() == 5 + len + rest.len()
            &&& s[0] == if last { 1u8 } else { 0u8 }
            &&& read_le16(s, 1) == len
            &&& read_le16(s, 3) == STORED_BLOCK_MAX - len
            &&& s.subrange(5, 5 + len) =~= payload
            &&& s.skip(5 + len) =~= rest
        }),
{
    let len = payload.len();
    lemma_le16_value(len);
    lemma_le16_value((STORED_BLOCK_MAX - len) as nat);
    let s = stored_block(payload, last) + rest;
    assert(s[1] == le16(len)[0] && s[2] == le16(len)[1]);
    assert(s[3] == le16((STORED_BLOCK_MAX - len) as nat)[0]);
    assert(s[4] == le16((STORED_BLOCK_MAX - len) as nat)[1]);
}

/// A deflate reader gets back exactly the bytes that were cut into stored
/// blocks, provided there was at least one byte (of nothing, no block is
/// written).
pub proof fn lemma_stored_blocks_read_back(raw: Seq<u8>)
    requires
        raw.len() > 0,
    ensures
        inflate_stored(stored_blocks(raw)) == Some(raw),
    decreases raw.len(),
{
    let blocks = stored_blocks(raw);
    if raw.len() <= STORED_BLOCK_MAX {
        lemma_stored_block_fields(raw, true, Seq::empty());
        assert(stored_block(raw, true) + Seq::<u8>::empty() =~= blocks);
    } else {
        let head = raw.take(STORED_BLOCK_MAX as int);
        let tail = raw.skip(STORED_BLOCK_MAX as int);
        lemma_stored_blocks_read_back(tail);
        lemma_stored_block_fields(head, false, stored_blocks(tail));
        assert(head + tail =~= raw);
    }
}

/// The most cells a preview bar has.
pub const PREVIEW_WIDTH: usize = 60;

/// The number of cells in the preview bar of an edge with `len` zones.
pub open spec fn preview_cell_count(len: nat) -> nat {
    if len < PREVIEW_WIDTH {
        len
    } else {
        PREVIEW_WIDTH as nat
    }
}

/// The zone that cell `i` of a bar of `cells` shows, out of `len` zones:
/// the cells spread evenly from the first zone to the last.
pub open spec fn preview_zone(i: int, cells: int, len: int) -> int {
    if cells > 1 {
        i * (len - 1) / (cells - 1)
    } else {
        0
    }
}

/// The zones that the cells of a preview bar show, for an edge of `len`
/// zones. Every cell shows a zone of the edge; the first shows the first
/// zone and the last the last.
pub fn preview_zones(len: usize) -> (zones: Vec<usize>)
    ensures
        zones@.len() == preview_cell_count(len as nat),
        zones@.len() == if len < 60 { len as nat } else { 60 },
        forall|i: int|
            0 <= i < zones@.len() ==> #[trigger] zones@[i] == preview_zone(
                i,
                zones@.len() as int,
                len as int,
            ),
        forall|i: int| 0 <= i < zones@.len() ==> #[trigger] zones@[i] < len,
        zones@.len() > 0 ==> zones@[0] == 0 && zones@[zones@.len() - 1] == len - 1,
{
    let cells = if len < PREVIEW_WIDTH {
        len
    } else {
        PREVIEW_WIDTH
    };
    let mut zones: Vec<usize> = Vec::new();
    for i in 0..cells
        invariant
            cells == preview_cell_count(len as nat),
            cells <= len,
            zones@.len() == i,
            forall|k: int|
                0 <= k < i ==> #[trigger] zones@[k] == preview_zone(k, cells as int, len as int),
            forall|k: int| 0 <= k < i ==> #[trigger] zones@[k] < len,
    {
        let idx = if cells > 1 {
            proof {
                assert(i * (len - 1) <= (cells - 1) * (len - 1)) by (nonlinear_arith)
                    requires
                        i <= cells - 1,
                        len >= 1,
                ;
                assert(i * (len - 1) <= u128::MAX) by (nonlinear_arith)
                    requires
                        i < 60,
                        1 <= len <= usize::MAX,
                        usize::MAX < 0x1_0000_0000_0000_0000,
                ;
                vstd::arithmetic::div_mod::lemma_multiply_divide_le(
                    i * (len - 1),
                    (cells - 1) as int,
                    (len - 1) as int,
                );
                vstd::arithmetic::div_mod::lemma_div_pos_is_pos(i * (len - 1), (cells - 1) as int);
            }
            ((i as u128) * ((len - 1) as u128) / ((cells - 1) as u128)) as usize
        } else {
            0
        };
        zones.push(idx);
    }
    proof {
        if cells > 1 {
            vstd::arithmetic::div_mod::lemma_div_by_multiple((len - 1) as int, (cells - 1) as int);
            assert((cells - 1) * (len - 1) == (len - 1) * (cells - 1)) by (nonlinear_arith);
        }
    }
    zones
}

/// The state of the terminal preview: whether it has drawn its bars, so
/// that the next frame moves the cursor back over them.
pub struct Preview {
    drawn: bool,
}

impl View for Preview {
    type V = bool;

    closed spec fn view(&self) -> bool {
        self.drawn
    }
}

impl Preview {
    /// A preview that has drawn nothing yet.
    pub fn new() -> (p: Preview)
        ensures
            !p@,
    {
        Preview { drawn: false }
    }

    /// Starts drawing a frame of bars. Says whether bars were drawn
    /// before, in which case the cursor must first move up over them.
    pub fn begin_frame(&mut self) -> (redraw: bool)
        ensures
            redraw == old(self)@,
            final(self)@,
    {
        let redraw = self.drawn;
        self.drawn = true;
        redraw
    }
}

/// The colours of a whole strip, one per LED of a layout, fit one DRGB
/// packet of at most 1472 bytes.
pub proof fn lemma_strip_fits_one_packet(l: LayoutModel, timeout_s: u8, colors: Seq<[u8; 3]>)
    requires
        l.count() <= MAX_LEDS,
        colors.len() == l.count(),
    ensures
        drgb_packet_bytes(timeout_s, colors).len() == 2 + 3 * l.count(),
        drgb_packet_bytes(timeout_s, colors).len() <= 1472,
{
}

/// The number that four bytes stand for, most significant first.
pub open spec fn be32_value(s: Seq<u8>, i: int) -> int {
    s[i] * 0x100_0000 + s[i + 1] * 0x1_0000 + s[i + 2] * 0x100 + s[i + 3]
}

proof fn lemma_be32_reads_back(x: u32)
    ensures
        be32(x).len() == 4,
        be32_value(be32(x), 0) == x,
{
    let b = be32(x);
    let q3 = x / 0x100_0000;
    let q2 = x / 0x1_0000;
    let q1 = x / 0x100;
    assert(q3 < 256);
    assert(b[0] == q3 && b[1] == q2 % 256 && b[2] == q1 % 256 && b[3] == x % 256);
    assert(q2 == q3 * 256 + q2 % 256);
    assert(q1 == q2 * 256 + q1 % 256);
    assert(x == q1 * 256 + x % 256);
}

/// A PNG file opens with its signature and an image header that states the
/// image's width and height (each read as a 32-bit number, most significant
/// byte first), 8 bits a sample, RGB colour, no interlacing.
pub proof fn lemma_png_header(width: nat, height: nat, rgb: Seq<u8>)
    ensures
        ({
            let png = png_file(width, height, rgb);
            &&& png.len() >= 33
            &&& png.subrange(0, 8) == seq![0x89u8, 0x50, 0x4e, 0x47, 0x0d, 0x0a, 0x1a, 0x0a]
            &&& be32_value(png, 8) == 13
            &&& png.subrange(12, 16) == seq![0x49u8, 0x48, 0x44, 0x52]
            &&& width <= u32::MAX ==> be32_value(png, 16) == width
            &&& height <= u32::MAX ==> be32_value(png, 20) == height
            &&& png.subrange(24, 29) == seq![8u8, 2, 0, 0, 0]
        }),
{
    let png = png_file(width, height, rgb);
    let ihdr = ihdr_data(width, height);
    lemma_be32_reads_back(13);
    lemma_be32_reads_back(width as u32);
    lemma_be32_reads_back(height as u32);
    let head = png_signature() + be32(ihdr.len() as u32) + tag_ihdr() + ihdr;
    assert(ihdr.len() == 13);
    assert(png.subrange(0, 29) =~= head) by {
        assert(head.len() == 29);
        assert forall|i: int| 0 <= i < 29 implies png[i] == head[i] by {}
    }
    assert(png.subrange(0, 8) =~= png_signature());
    assert(png.subrange(12, 16) =~= tag_ihdr());
    assert(png.subrange(24, 29) =~= seq![8u8, 2, 0, 0, 0]);
    assert(be32_value(png, 8) == be32_value(be32(13), 0));
    assert(be32_value(png, 16) == be32_value(be32(width as u32), 0));
    assert(be32_value(png, 20) == be32_value(be32(height as u32), 0));
}

/// The sum of the bytes of `data`.
pub open spec fn byte_sum(data: Seq<u8>) -> int
    decreases data.len(),
{
    if data.len() == 0 {
        0
    } else {
        byte_sum(data.drop_last()) + data.last()
    }
}

/// The sum, over every non-empty prefix of `data`, of that prefix's byte
/// sum.
pub open spec fn prefix_sums(data: Seq<u8>) -> int
    decreases data.len(),
{
    if data.len() == 0 {
        0
    } else {
        prefix_sums(data.drop_last()) + byte_sum(data)
    }
}

/// Adler-32 in closed form: its low half is one plus the sum of the bytes,
/// its high half the number of bytes plus the sum of every prefix's byte
/// sum, both modulo 65521.
pub proof fn lemma_adler32_closed_form(data: Seq<u8>)
    ensures
        adler_sums(data).0 == (1 + byte_sum(data)) % 65521,
        adler_sums(data).1 == (data.len() + prefix_sums(data)) % 65521,
    decreases data.len(),
{
    if data.len() > 0 {
        let d = data.drop_last();
        lemma_adler32_closed_form(d);
        let x = data.last() as int;
        vstd::arithmetic::div_mod::lemma_add_mod_noop_right(x, 1 + byte_sum(d), 65521);
        assert(adler_sums(data).0 == (1 + byte_sum(data)) % 65521);
        let a2 = (1 + byte_sum(data)) % 65521;
        vstd::arithmetic::div_mod::lemma_add_mod_noop(d.len() + prefix_sums(d), 1 + byte_sum(data), 65521);
        vstd::arithmetic::div_mod::lemma_mod_twice(d.len() + prefix_sums(d), 65521);
        vstd::arithmetic::div_mod::lemma_mod_twice(1 + byte_sum(data), 65521);
        vstd::arithmetic::div_mod::lemma_add_mod_noop(
            (d.len() + prefix_sums(d)) % 65521,
            a2,
            65521,
        );
    }
}

proof fn lemma_scanlines_len(width: nat, rgb: Seq<u8>, rows: nat)
    requires
        rows * width * 3 <= rgb.len(),
    ensures
        scanlines(width, rgb, rows).len() == rows * (1 + 3 * width),
    decreases rows,
{
    if rows > 0 {
        assert((rows - 1) * width * 3 <= rows * width * 3) by (nonlinear_arith);
        lemma_scanlines_len(width, rgb, (rows - 1) as nat);
        assert((rows - 1) * (1 + 3 * width) + 1 + (rows * width * 3 - (rows - 1) * width * 3) == rows * (1
            + 3 * width)) by (nonlinear_arith);
    } else {
        assert(rows * (1 + 3 * width) == 0) by (nonlinear_arith)
            requires
                rows == 0,
        ;
    }
}

/// The scanlines hold each row of the image in turn, `1 + 3 * width` bytes
/// a row: the filter type 0 (none), then the row's bytes unchanged.
pub proof fn lemma_scanline_rows(width: nat, rgb: Seq<u8>, rows: nat, y: nat, k: nat)
    requires
        rows * width * 3 <= rgb.len(),
        y < rows,
        k < 3 * width,
    ensures
        scanlines(width, rgb, rows).len() == rows * (1 + 3 * width),
        scanlines(width, rgb, rows)[(y * (1 + 3 * width)) as int] == 0,
        scanlines(width, rgb, rows)[(y * (1 + 3 * width) + 1 + k) as int] == rgb[(y * width * 3 + k) as int],
    decreases rows,
{
    lemma_scanlines_len(width, rgb, rows);
    assert((rows - 1) * width * 3 <= rows * width * 3) by (nonlinear_arith);
    lemma_scanlines_len(width, rgb, (rows - 1) as nat);
    let prev = scanlines(width, rgb, (rows - 1) as nat);
    if y < rows - 1 {
        lemma_scanline_rows(width, rgb, (rows - 1) as nat, y, k);
        assert(y * (1 + 3 * width) + 1 + k < (rows - 1) * (1 + 3 * width)) by (nonlinear_arith)
            requires
                y < rows - 1,
                k < 3 * width,
        ;
    } else {
        assert(y * (1 + 3 * width) == prev.len()) by (nonlinear_arith)
            requires
                y == rows - 1,
                prev.len() == (rows - 1) * (1 + 3 * width),
        ;
        assert(rows * width * 3 == y * width * 3 + 3 * width) by (nonlinear_arith)
            requires
                y == rows - 1,
        ;
    }
}

/// `x` as four bytes, least significant first.
pub open spec fn le32(x: u32) -> Seq<u8> {
    seq![(x % 256) as u8, (x / 0x100 % 256) as u8, (x / 0x1_0000 % 256) as u8, (x / 0x100_0000) as u8]
}

proof fn lemma_shifts_of_clear(d: u32, n: nat)
    requires
        n <= 8,
        d & 0xff == 0,
    ensures
        crc_shifts(d, n) == d >> (n as u32),
    decreases n,
{
    if n == 0 {
        assert(d >> 0u32 == d) by (bit_vector);
    } else {
        lemma_shifts_of_clear(d, (n - 1) as nat);
        let k = (n - 1) as u32;
        assert((d >> k) & 1 == 0 && (d >> k) >> 1u32 == d >> (k + 1)) by (bit_vector)
            requires
                d & 0xff == 0,
                k < 8,
        ;
        assert((n as u32) == k + 1);
    }
}

proof fn lemma_crc_byte_of_low_byte(c: u32)
    ensures
        crc_byte(c, (c % 256) as u8) == c >> 8,
{
    let d = c ^ ((c % 256) as u8 as u32);
    assert(d & 0xff == 0 && d >> 8u32 == c >> 8u32) by (bit_vector)
        requires
            d == c ^ ((c % 256) as u8 as u32),
    ;
    lemma_shifts_of_clear(d, 8);
}

/// Running the register over a message and then over its own value, least
/// significant byte first, leaves the register at zero.
pub proof fn lemma_crc32_residue(seed: u32, data: Seq<u8>)
    ensures
        crc32_update(seed, data + le32(crc32_update(seed, data))) == 0,
{
    let c = crc32_update(seed, data);
    let t = le32(c);
    lemma_crc32_concat(seed, data, t);
    assert(t.take(1).drop_last() =~= Seq::<u8>::empty());
    assert(t.take(2).drop_last() =~= t.take(1));
    assert(t.take(3).drop_last() =~= t.take(2));
    assert(t.drop_last() =~= t.take(3));
    assert(t[1] == ((c >> 8) % 256) as u8 && t[2] == ((c >> 16) % 256) as u8 && t[3] == ((c >> 24) % 256)
        as u8) by {
        assert(c / 0x100 % 256 == (c >> 8) % 256 && c / 0x1_0000 % 256 == (c >> 16) % 256 && c / 0x100_0000
            == (c >> 24) % 256) by (bit_vector);
    }
    lemma_crc_byte_of_low_byte(c);
    lemma_crc_byte_of_low_byte(c >> 8);
    lemma_crc_byte_of_low_byte(c >> 16);
    lemma_crc_byte_of_low_byte(c >> 24);
    assert(c >> 8 >> 8 == c >> 16 && c >> 16 >> 8 == c >> 24 && c >> 24 >> 8 == 0) by (bit_vector);
    assert(crc32_update(c, Seq::<u8>::empty()) == c);
    assert(t.take(1).last() == t[0] && t[0] == (c % 256) as u8);
    assert(crc32_update(c, t.take(1)) == c >> 8);
    assert(crc32_update(c, t.take(2)) == c >> 16);
    assert(crc32_update(c, t.take(3)) == c >> 24);
    assert(crc32_update(c, t) == 0);
}

} // verus!
