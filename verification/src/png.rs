//! A dependency-free PNG encoder: CRC-32, Adler-32, zlib "stored" blocks and
//! the chunk layout of an 8-bit RGBA image.
use vstd::prelude::*;
use crate::binary::{be32, le16, push_be32, push_le16, push_range};

verus! {

// ── CRC-32 (reflected, polynomial 0xEDB88320) ────────────────────────────────

/// One bit of the reflected CRC-32 shift register.
pub open spec fn crc_step(x: u32) -> u32 {
    if x & 1 != 0 {
        0xEDB8_8320u32 ^ (x >> 1u32)
    } else {
        x >> 1u32
    }
}

/// Eight register steps: the effect of one byte.
pub open spec fn crc_shift8(x: u32) -> u32 {
    crc_step(crc_step(crc_step(crc_step(crc_step(crc_step(crc_step(crc_step(x))))))))
}

/// `k` register steps.
pub open spec fn crc_steps(x: u32, k: nat) -> u32
    decreases k,
{
    if k == 0 {
        x
    } else {
        crc_step(crc_steps(x, (k - 1) as nat))
    }
}

/// The register after feeding byte `b`.
pub open spec fn crc_byte(c: u32, b: u8) -> u32 {
    crc_shift8(c ^ (b as u32))
}

/// The register after feeding all of `s`, starting from all ones.
pub open spec fn crc_register(s: Seq<u8>) -> u32
    decreases s.len(),
{
    if s.len() == 0 {
        0xFFFF_FFFFu32
    } else {
        crc_byte(crc_register(s.drop_last()), s.last())
    }
}

/// The CRC-32 of `s` as PNG and zlib use it.
pub open spec fn crc32(s: Seq<u8>) -> u32 {
    crc_register(s) ^ 0xFFFF_FFFFu32
}

proof fn lemma_steps8(x: u32)
    ensures
        crc_steps(x, 8) == crc_shift8(x),
{
    reveal_with_fuel(crc_steps, 9);
}

/// The byte-at-a-time table lookup computes the bitwise register update:
/// the low byte of `c ^ b` selects the table entry, the rest shifts out.
pub proof fn lemma_crc_table_lookup(c: u32, b: u8)
    ensures
        ((c ^ (b as u32)) & 0xFFu32) < 256,
        crc_byte(c, b) == crc_shift8((c ^ (b as u32)) & 0xFFu32) ^ (c >> 8u32),
{
    let x: u32 = c ^ (b as u32);
    assert(crc_shift8(x) == crc_shift8(x & 0xFFu32) ^ (x >> 8u32)) by (bit_vector);
    assert(x >> 8u32 == c >> 8u32) by (bit_vector)
        requires
            x == c ^ (b as u32),
    ;
    assert((x & 0xFFu32) < 256) by (bit_vector);
}

/// The 256-entry lookup table: entry `n` is the register after eight steps from `n`.
fn crc32_table() -> (t: Vec<u32>)
    ensures
        t@.len() == 256,
        forall|n: int| 0 <= n < 256 ==> #[trigger] t@[n] == crc_shift8(n as u32),
{
    let mut table: Vec<u32> = Vec::new();
    let mut n: u32 = 0;
    while n < 256
        invariant
            n <= 256,
            table@.len() == n,
            forall|k: int| 0 <= k < n ==> #[trigger] table@[k] == crc_shift8(k as u32),
        decreases 256 - n,
    {
        let mut c = n;
        let mut k: u32 = 0;
        while k < 8
            invariant
                k <= 8,
                c == crc_steps(n, k as nat),
            decreases 8 - k,
        {
            if c & 1 != 0 {
                c = 0xEDB8_8320u32 ^ (c >> 1u32);
            } else {
                c = c >> 1u32;
            }
            k = k + 1;
        }
        proof {
            lemma_steps8(n);
        }
        table.push(c);
        n = n + 1;
    }
    table
}

proof fn lemma_register_push(s: Seq<u8>, b: u8)
    ensures
        crc_register(s.push(b)) == crc_byte(crc_register(s), b),
{
    assert(s.push(b).drop_last() =~= s);
}

/// Feeds `bytes` into the register `crc` using the lookup table.
fn crc_feed(table: &Vec<u32>, crc: u32, bytes: &[u8], Ghost(prefix): Ghost<Seq<u8>>) -> (r: u32)
    requires
        table@.len() == 256,
        forall|n: int| 0 <= n < 256 ==> #[trigger] table@[n] == crc_shift8(n as u32),
        crc == crc_register(prefix),
    ensures
        r == crc_register(prefix + bytes@),
{
    let mut c = crc;
    let mut i: usize = 0;
    while i < bytes.len()
        invariant
            table@.len() == 256,
            forall|n: int| 0 <= n < 256 ==> #[trigger] table@[n] == crc_shift8(n as u32),
            i <= bytes@.len(),
            c == crc_register(prefix + bytes@.subrange(0, i as int)),
        decreases bytes@.len() - i,
    {
        let b = bytes[i];
        proof {
            lemma_crc_table_lookup(c, b);
            lemma_register_push(prefix + bytes@.subrange(0, i as int), b);
            assert(prefix + bytes@.subrange(0, i as int + 1) =~= (prefix + bytes@.subrange(
                0,
                i as int,
            )).push(b));
        }
        let idx = ((c ^ (b as u32)) & 0xFFu32) as usize;
        c = table[idx] ^ (c >> 8u32);
        i = i + 1;
    }
    proof {
        assert(bytes@.subrange(0, bytes@.len() as int) =~= bytes@);
    }
    c
}

/// The CRC-32 of `tag` followed by `data`.
fn png_crc(tag: &[u8], data: &[u8]) -> (r: u32)
    ensures
        r == crc32(tag@ + data@),
{
    let table = crc32_table();
    proof {
        assert(Seq::<u8>::empty() + tag@ =~= tag@);
        assert(crc_register(Seq::<u8>::empty()) == 0xFFFF_FFFFu32);
    }
    let c1 = crc_feed(&table, 0xFFFF_FFFFu32, tag, Ghost(Seq::<u8>::empty()));
    let c2 = crc_feed(&table, c1, data, Ghost(tag@));
    c2 ^ 0xFFFF_FFFFu32
}

// ── Adler-32 ─────────────────────────────────────────────────────────────────

/// The two running sums of Adler-32 after all of `s`.
pub open spec fn adler_sums(s: Seq<u8>) -> (nat, nat)
    decreases s.len(),
{
    if s.len() == 0 {
        (1, 0)
    } else {
        let (a, b) = adler_sums(s.drop_last());
        let a2: nat = ((a + s.last()) % 65521) as nat;
        (a2, ((b + a2) % 65521) as nat)
    }
}

/// The Adler-32 checksum of `s`.
pub open spec fn adler32(s: Seq<u8>) -> u32 {
    (adler_sums(s).1 * 65536 + adler_sums(s).0) as u32
}

proof fn lemma_adler_bounds(s: Seq<u8>)
    ensures
        adler_sums(s).0 < 65521,
        adler_sums(s).1 < 65521,
    decreases s.len(),
{
    if s.len() > 0 {
        lemma_adler_bounds(s.drop_last());
    }
}

fn adler32_of(data: &[u8]) -> (r: u32)
    ensures
        r == adler32(data@),
{
    let mut s1: u32 = 1;
    let mut s2: u32 = 0;
    let mut i: usize = 0;
    while i < data.len()
        invariant
            i <= data@.len(),
            s1 == adler_sums(data@.subrange(0, i as int)).0,
            s2 == adler_sums(data@.subrange(0, i as int)).1,
            s1 < 65521,
            s2 < 65521,
        decreases data@.len() - i,
    {
        proof {
            assert(data@.subrange(0, i as int + 1).drop_last() =~= data@.subrange(0, i as int));
        }
        s1 = (s1 + data[i] as u32) % 65521;
        s2 = (s2 + s1) % 65521;
        i = i + 1;
    }
    proof {
        assert(data@.subrange(0, data@.len() as int) =~= data@);
        assert((s2 << 16u32) | s1 == s2 * 65536 + s1) by (bit_vector)
            requires
                s1 < 65536,
                s2 < 65536,
        ;
    }
    (s2 << 16u32) | s1
}

// ── zlib stream of stored (uncompressed) deflate blocks ──────────────────────

/// Stored deflate blocks of at most 65535 bytes each; the last one is flagged final.
pub open spec fn stored_blocks(d: Seq<u8>) -> Seq<u8>
    decreases d.len(),
{
    if d.len() <= 65535 {
        seq![1u8] + le16(d.len() as u16) + le16((65535 - d.len()) as u16) + d
    } else {
        seq![0u8] + le16(65535) + le16(0) + d.take(65535) + stored_blocks(d.skip(65535))
    }
}

/// A zlib stream holding `d` uncompressed.
pub open spec fn zlib_stored(d: Seq<u8>) -> Seq<u8> {
    seq![0x78u8, 0x01u8] + stored_blocks(d) + be32(adler32(d))
}

/// Wraps `data` in a zlib stream of stored blocks.
pub fn deflate_store(data: &[u8]) -> (out: Vec<u8>)
    ensures
        out@ == zlib_stored(data@),
{
    let mut out: Vec<u8> = Vec::new();
    out.push(0x78u8);
    out.push(0x01u8);
    let ghost head = seq![0x78u8, 0x01u8];
    let mut off: usize = 0;
    proof {
        assert(data@.skip(0) =~= data@);
        assert(out@ =~= head);
    }
    loop
        invariant_except_break
            off <= data@.len(),
            out@ + stored_blocks(data@.skip(off as int)) == head + stored_blocks(data@),
        ensures
            out@ == head + stored_blocks(data@),
        decreases data@.len() - off,
    {
        let remaining = data.len() - off;
        let last = remaining <= 65535;
        let n: usize = if last {
            remaining
        } else {
            65535
        };
        let ghost before = out@;
        let ghost rest = data@.skip(off as int);
        out.push(if last {
            1u8
        } else {
            0u8
        });
        push_le16(&mut out, n as u16);
        push_le16(&mut out, 65535u16 - n as u16);
        push_range(&mut out, data, off, off + n);
        proof {
            assert(data@.subrange(off as int, (off + n) as int) =~= rest.take(n as int));
            if last {
                assert(rest.take(n as int) =~= rest);
                assert(out@ =~= before + stored_blocks(rest));
            } else {
                assert(rest.skip(65535) =~= data@.skip((off + n) as int));
                assert(stored_blocks(rest) == seq![0u8] + le16(65535) + le16(0) + rest.take(65535)
                    + stored_blocks(rest.skip(65535)));
                assert(out@ + stored_blocks(data@.skip((off + n) as int)) =~= before
                    + stored_blocks(rest));
            }
        }
        off = off + n;
        if last {
            break ;
        }
    }
    let adler = adler32_of(data);
    push_be32(&mut out, adler);
    out
}

// ── PNG chunks ───────────────────────────────────────────────────────────────

/// A PNG chunk: length, four-byte tag, data, CRC of tag and data.
pub open spec fn png_chunk(tag: Seq<u8>, d: Seq<u8>) -> Seq<u8> {
    be32(d.len() as u32) + tag + d + be32(crc32(tag + d))
}

/// Appends one PNG chunk to `out`.
fn write_png_chunk(out: &mut Vec<u8>, tag: &[u8; 4], data: &[u8])
    ensures
        final(out)@ == old(out)@ + png_chunk(tag@, data@),
{
    push_be32(out, data.len() as u32);
    let t = tag.as_slice();
    push_range(out, t, 0, 4);
    push_range(out, data, 0, data.len());
    let crc = png_crc(t, data);
    push_be32(out, crc);
    proof {
        assert(t@.subrange(0, 4) =~= tag@);
        assert(data@.subrange(0, data@.len() as int) =~= data@);
        assert(final(out)@ =~= old(out)@ + png_chunk(tag@, data@));
    }
}

/// The eight-byte PNG file signature.
pub open spec fn png_signature() -> Seq<u8> {
    seq![137u8, 80, 78, 71, 13, 10, 26, 10]
}

/// Chunk tags "IHDR", "IDAT" and "IEND".
pub open spec fn ihdr_tag() -> Seq<u8> {
    seq![73u8, 72, 68, 82]
}

pub open spec fn idat_tag() -> Seq<u8> {
    seq![73u8, 68, 65, 84]
}

pub open spec fn iend_tag() -> Seq<u8> {
    seq![73u8, 69, 78, 68]
}

/// IHDR data: size, 8 bits per sample, RGBA, no interlacing.
pub open spec fn ihdr_data(width: u32, height: u32) -> Seq<u8> {
    be32(width) + be32(height) + seq![8u8, 6, 0, 0, 0]
}

/// The first `rows` scanlines, each a filter byte 0 followed by `row_len` bytes of `rgba`.
pub open spec fn scanlines(rgba: Seq<u8>, row_len: nat, rows: nat) -> Seq<u8>
    decreases rows,
{
    if rows == 0 {
        Seq::empty()
    } else {
        scanlines(rgba, row_len, (rows - 1) as nat) + seq![0u8] + rgba.subrange(
            ((rows - 1) * row_len) as int,
            (rows * row_len) as int,
        )
    }
}

/// The PNG file of a `width` x `height` RGBA image.
pub open spec fn png_file(width: u32, height: u32, rgba: Seq<u8>) -> Seq<u8> {
    png_signature() + png_chunk(ihdr_tag(), ihdr_data(width, height)) + png_chunk(
        idat_tag(),
        zlib_stored(scanlines(rgba, width as nat * 4, height as nat)),
    ) + png_chunk(iend_tag(), Seq::empty())
}

/// What `encode_png_rgba` needs: the row length fits a `u32`, the pixel bytes
/// cover every row, and the scanlines fit in memory.
pub open spec fn png_fits(width: u32, height: u32, rgba_len: nat) -> bool {
    &&& width * 4 <= u32::MAX
    &&& rgba_len >= width * 4 * height
    &&& (width * 4 + 1) * height <= usize::MAX
}

/// Encodes `rgba` (row-major, four bytes per pixel) as a PNG file.
pub fn encode_png_rgba(width: u32, height: u32, rgba: &[u8]) -> (out: Vec<u8>)
    requires
        png_fits(width, height, rgba@.len()),
    ensures
        out@ == png_file(width, height, rgba@),
{
    let mut out: Vec<u8> = Vec::new();
    let sig: [u8; 8] = [137u8, 80, 78, 71, 13, 10, 26, 10];
    let sig_s = sig.as_slice();
    push_range(&mut out, sig_s, 0, 8);

    let mut ihdr: Vec<u8> = Vec::new();
    push_be32(&mut ihdr, width);
    push_be32(&mut ihdr, height);
    ihdr.push(8u8);
    ihdr.push(6u8);
    ihdr.push(0u8);
    ihdr.push(0u8);
    ihdr.push(0u8);
    let ihdr_t: [u8; 4] = [73u8, 72, 68, 82];
    write_png_chunk(&mut out, &ihdr_t, ihdr.as_slice());

    let row_len: usize = (width * 4) as usize;
    let mut raw: Vec<u8> = Vec::new();
    let mut row: usize = 0;
    let mut start: usize = 0;
    let total = rgba.len();
    while row < height as usize
        invariant
            total == rgba@.len(),
            png_fits(width, height, rgba@.len()),
            row_len == width * 4,
            row <= height,
            start == row * row_len,
            raw@ == scanlines(rgba@, row_len as nat, row as nat),
        decreases height - row,
    {
        proof {
            assert((row + 1) * row_len == row * row_len + row_len) by (nonlinear_arith);
            assert((row + 1) * row_len <= height * row_len) by (nonlinear_arith)
                requires
                    row + 1 <= height,
            ;
            assert(height * row_len == width * 4 * height) by (nonlinear_arith)
                requires
                    row_len == width * 4,
            ;
        }
        raw.push(0u8);
        push_range(&mut raw, rgba, start, start + row_len);
        start = start + row_len;
        row = row + 1;
    }
    let compressed = deflate_store(raw.as_slice());
    let idat_t: [u8; 4] = [73u8, 68, 65, 84];
    write_png_chunk(&mut out, &idat_t, compressed.as_slice());
    let iend_t: [u8; 4] = [73u8, 69, 78, 68];
    let empty: [u8; 0] = [];
    write_png_chunk(&mut out, &iend_t, empty.as_slice());
    proof {
        assert(sig_s@.subrange(0, 8) =~= png_signature());
        assert(ihdr@ =~= ihdr_data(width, height));
        assert(empty@ =~= Seq::<u8>::empty());
        assert(out@ =~= png_file(width, height, rgba@));
    }
    out
}

} // verus!
