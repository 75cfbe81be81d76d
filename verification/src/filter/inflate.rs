//! A dependency-free DEFLATE (RFC 1951) decompressor with a zlib (RFC 1950)
//! front-end for PDF `FlateDecode` streams.
//!
//! The decoder follows zlib's reference decoder *puff*: an LSB-first bit
//! reader, canonical Huffman decoding by the count/offset method, and the
//! stored/fixed/dynamic block paths. [`flate_decode`] strips the optional
//! 2-byte zlib header (the Adler-32 trailer is ignored) before inflating; raw
//! DEFLATE with no header decodes too.
//!
//! The format is specified here over bit positions: [`inflate_spec`] is the
//! RFC 1951 decoding procedure, `None` meaning the data is corrupt.

use vstd::prelude::*;

use crate::encode::{stored_blocks, stored_header, zlib_stored_spec};
use crate::error::{ErrorCode, TurboParsePdfError};

verus! {

// ---------------------------------------------------------------- bits

/// `2^n`.
pub open spec fn pow2n(n: nat) -> nat
    decreases n,
{
    if n == 0 {
        1
    } else {
        2 * pow2n((n - 1) as nat)
    }
}

/// Bit `k` of the stream, least significant bit of each byte first.
pub open spec fn lsb_bit(data: Seq<u8>, k: int) -> int {
    ((data[k / 8] >> ((k % 8) as u8)) & 1u8) as int
}

/// The `n`-bit value at bit position `pos`, the first bit least significant.
pub open spec fn lsb_bits(data: Seq<u8>, pos: int, n: nat) -> int
    decreases n,
{
    if n == 0 {
        0
    } else {
        lsb_bits(data, pos, (n - 1) as nat) + pow2n((n - 1) as nat) * lsb_bit(data, pos + n - 1)
    }
}

/// Reading `n` bits at `pos`: their value and the next position, or `None`
/// when the stream ends first.
pub open spec fn take_bits_spec(data: Seq<u8>, pos: int, n: nat) -> Option<(int, int)> {
    if pos + n > 8 * data.len() {
        None
    } else {
        Some((lsb_bits(data, pos, n), pos + n))
    }
}

/// The bit position rounded up to a byte boundary.
pub open spec fn ceil8(p: int) -> int {
    (p + 7) / 8 * 8
}

// ---------------------------------------------------------------- canonical Huffman codes

/// The symbols below `k` whose code length is `len`, in increasing order.
pub open spec fn syms_of_len(lens: Seq<u8>, len: int, k: int) -> Seq<u16>
    decreases k,
{
    if k <= 0 {
        seq![]
    } else {
        let p = syms_of_len(lens, len, k - 1);
        if lens[k - 1] == len {
            p.push((k - 1) as u16)
        } else {
            p
        }
    }
}

/// The number of codes of length `len`.
pub open spec fn count_len(lens: Seq<u8>, len: int) -> int {
    syms_of_len(lens, len, lens.len() as int).len() as int
}

/// The number of codes shorter than `len` (lengths 1 and up): where the codes
/// of length `len` start in the canonical symbol order.
pub open spec fn start_of(lens: Seq<u8>, len: int) -> int
    decreases len,
{
    if len <= 1 {
        0
    } else {
        start_of(lens, len - 1) + count_len(lens, len - 1)
    }
}

/// Canonical decoding (RFC 1951 §3.2.2): the codes of length `len` are the
/// consecutive values from `first`, given to the symbols of that length in
/// increasing order. `code` holds the bits read so far, most significant first.
pub open spec fn decode_walk(lens: Seq<u8>, data: Seq<u8>, pos: int, len: int, code: int, first: int) -> Option<(u16, int)>
    decreases 16 - len,
{
    if len < 1 || len >= 16 {
        None
    } else if pos < 0 || pos >= 8 * data.len() {
        None
    } else {
        let c = code + lsb_bit(data, pos);
        let count = count_len(lens, len);
        if c - first < count {
            Some((syms_of_len(lens, len, lens.len() as int)[c - first], pos + 1))
        } else {
            decode_walk(lens, data, pos + 1, len + 1, c * 2, (first + count) * 2)
        }
    }
}

/// The symbol coded at bit position `pos` by the code with lengths `lens`, and
/// the position after it; `None` when no code of length 1..15 matches.
pub open spec fn decode_spec(lens: Seq<u8>, data: Seq<u8>, pos: int) -> Option<(u16, int)> {
    decode_walk(lens, data, pos, 1, 0, 0)
}

// ---------------------------------------------------------------- blocks

/// A stored block starting at `pos`: align to a byte, read LEN (and NLEN,
/// unchecked), then copy LEN bytes.
pub open spec fn stored_spec(data: Seq<u8>, pos: int, out: Seq<u8>) -> Option<(int, Seq<u8>)> {
    let b = ceil8(pos) / 8;
    if b + 4 > data.len() {
        None
    } else {
        let len = data[b] + 256 * data[b + 1];
        if b + 4 + len > data.len() {
            None
        } else {
            Some(((b + 4 + len) * 8, out + data.subrange(b + 4, b + 4 + len)))
        }
    }
}

/// Base lengths of length codes 257..285.
pub open spec fn len_base() -> Seq<u16> {
    seq![
        3u16, 4, 5, 6, 7, 8, 9, 10, 11, 13, 15, 17, 19, 23, 27, 31, 35, 43, 51, 59, 67, 83, 99, 115,
        131, 163, 195, 227, 258,
    ]
}

/// Extra bits of length codes 257..285.
pub open spec fn len_extra() -> Seq<u32> {
    seq![
        0u32, 0, 0, 0, 0, 0, 0, 0, 1, 1, 1, 1, 2, 2, 2, 2, 3, 3, 3, 3, 4, 4, 4, 4, 5, 5, 5, 5, 0,
    ]
}

/// Base distances of distance codes 0..29.
pub open spec fn dist_base() -> Seq<u16> {
    seq![
        1u16, 2, 3, 4, 5, 7, 9, 13, 17, 25, 33, 49, 65, 97, 129, 193, 257, 385, 513, 769, 1025,
        1537, 2049, 3073, 4097, 6145, 8193, 12289, 16385, 24577,
    ]
}

/// Extra bits of distance codes 0..29.
pub open spec fn dist_extra() -> Seq<u32> {
    seq![
        0u32, 0, 0, 0, 1, 1, 2, 2, 3, 3, 4, 4, 5, 5, 6, 6, 7, 7, 8, 8, 9, 9, 10, 10, 11, 11, 12, 12,
        13, 13,
    ]
}

/// The match length of length symbol `sym` (257..285) with its extra bits.
pub open spec fn read_length_spec(data: Seq<u8>, pos: int, sym: int) -> Option<(int, int)> {
    let i = sym - 257;
    if i < 0 || i >= 29 {
        None
    } else {
        match take_bits_spec(data, pos, len_extra()[i] as nat) {
            None => None,
            Some((v, p)) => Some((len_base()[i] + v, p)),
        }
    }
}

/// The distance of distance symbol `sym` (0..29) with its extra bits.
pub open spec fn read_distance_spec(data: Seq<u8>, pos: int, sym: int) -> Option<(int, int)> {
    if sym < 0 || sym >= 30 {
        None
    } else {
        match take_bits_spec(data, pos, dist_extra()[sym] as nat) {
            None => None,
            Some((v, p)) => Some((dist_base()[sym] + v, p)),
        }
    }
}

/// `out` extended by `len` bytes copied from `dist` back, one at a time (so a
/// copy may overlap the bytes it produces).
pub open spec fn copy_spec(out: Seq<u8>, len: nat, dist: int) -> Seq<u8>
    decreases len,
{
    if len == 0 {
        out
    } else {
        copy_spec(out.push(out[out.len() - dist]), (len - 1) as nat, dist)
    }
}

/// A length/distance match for length symbol `sym` at `pos`: the length
/// (with its extra bits), the distance symbol and distance, then the copy.
pub open spec fn emit_match_spec(dist: Seq<u8>, data: Seq<u8>, pos: int, sym: int, out: Seq<u8>) -> Option<(int, Seq<u8>)> {
    match read_length_spec(data, pos, sym) {
        None => None,
        Some((len, p2)) => match decode_spec(dist, data, p2) {
            None => None,
            Some((dsym, p3)) => match read_distance_spec(data, p3, dsym as int) {
                None => None,
                Some((d, p4)) => if d == 0 || d > out.len() {
                    None
                } else {
                    Some((p4, copy_spec(out, len as nat, d)))
                },
            },
        },
    }
}

/// A Huffman-coded block: literals, length/distance matches, ended by symbol 256.
pub open spec fn huff_block_spec(lit: Seq<u8>, dist: Seq<u8>, data: Seq<u8>, pos: int, out: Seq<u8>) -> Option<(int, Seq<u8>)>
    decreases 8 * data.len() - pos,
{
    match decode_spec(lit, data, pos) {
        None => None,
        Some((sym, p1)) => if p1 <= pos || p1 > 8 * data.len() {
            None
        } else if sym == 256 {
            Some((p1, out))
        } else if sym < 256 {
            huff_block_spec(lit, dist, data, p1, out.push(sym as u8))
        } else {
            match emit_match_spec(dist, data, p1, sym as int, out) {
                None => None,
                Some((p4, o)) => if p4 <= pos || p4 > 8 * data.len() {
                    None
                } else {
                    huff_block_spec(lit, dist, data, p4, o)
                },
            }
        },
    }
}

/// The fixed literal/length code length of symbol `i` (RFC 1951 §3.2.6).
pub open spec fn fixed_lit_len_spec(i: int) -> u8 {
    if i <= 143 {
        8
    } else if i <= 255 {
        9
    } else if i <= 279 {
        7
    } else {
        8
    }
}

/// The fixed literal/length code lengths.
pub open spec fn fixed_lit_lengths() -> Seq<u8> {
    Seq::new(288, |i: int| fixed_lit_len_spec(i))
}

/// The fixed distance code lengths.
pub open spec fn fixed_dist_lengths() -> Seq<u8> {
    Seq::new(30, |i: int| 5u8)
}

/// The order in which code-length code lengths are stored.
pub open spec fn clen_order() -> Seq<usize> {
    seq![16usize, 17, 18, 0, 8, 7, 9, 6, 10, 5, 11, 4, 12, 3, 13, 2, 14, 1, 15]
}

/// The code-length code lengths after the first `i` 3-bit fields at `pos`.
pub open spec fn clen_upto(data: Seq<u8>, pos: int, i: nat) -> Seq<u8>
    decreases i,
{
    if i == 0 {
        Seq::new(19, |k: int| 0u8)
    } else {
        clen_upto(data, pos, (i - 1) as nat).update(
            clen_order()[i - 1] as int,
            lsb_bits(data, pos + 3 * (i - 1), 3) as u8,
        )
    }
}

/// `v` repeated `n` times.
pub open spec fn repeat_byte(v: u8, n: nat) -> Seq<u8> {
    Seq::new(n, |k: int| v)
}

/// One code-length symbol applied: a literal length 0..15, 16 (repeat the
/// previous length 3–6 times), 17 (3–10 zeros) or 18 (11–138 zeros).
pub open spec fn apply_length_spec(data: Seq<u8>, pos: int, sym: int, acc: Seq<u8>) -> Option<(int, Seq<u8>)> {
    if 0 <= sym < 16 {
        Some((pos, acc.push(sym as u8)))
    } else if sym == 16 {
        if acc.len() == 0 {
            None
        } else {
            match take_bits_spec(data, pos, 2) {
                None => None,
                Some((v, p)) => Some((p, acc + repeat_byte(acc.last(), (3 + v) as nat))),
            }
        }
    } else if sym == 17 {
        match take_bits_spec(data, pos, 3) {
            None => None,
            Some((v, p)) => Some((p, acc + repeat_byte(0, (3 + v) as nat))),
        }
    } else if sym == 18 {
        match take_bits_spec(data, pos, 7) {
            None => None,
            Some((v, p)) => Some((p, acc + repeat_byte(0, (11 + v) as nat))),
        }
    } else {
        None
    }
}

/// Decoding code lengths with the code-length code until `total` are known.
pub open spec fn code_lengths_spec(clen: Seq<u8>, data: Seq<u8>, pos: int, total: int, acc: Seq<u8>) -> Option<(Seq<u8>, int)>
    decreases 8 * data.len() - pos,
{
    if acc.len() >= total {
        Some((acc, pos))
    } else {
        match decode_spec(clen, data, pos) {
            None => None,
            Some((sym, p1)) => match apply_length_spec(data, p1, sym as int, acc) {
                None => None,
                Some((p2, acc2)) => if p2 <= pos || p2 > 8 * data.len() {
                    None
                } else {
                    code_lengths_spec(clen, data, p2, total, acc2)
                },
            },
        }
    }
}

/// The literal/length and distance code lengths of a dynamic block header at
/// `pos`, and the position after it.
pub open spec fn dynamic_spec(data: Seq<u8>, pos: int) -> Option<(Seq<u8>, Seq<u8>, int)> {
    if pos + 14 > 8 * data.len() {
        None
    } else {
        let hlit = lsb_bits(data, pos, 5) + 257;
        let hdist = lsb_bits(data, pos + 5, 5) + 1;
        let hclen = lsb_bits(data, pos + 10, 4) + 4;
        let p = pos + 14;
        if p + 3 * hclen > 8 * data.len() {
            None
        } else {
            let clen = clen_upto(data, p, hclen as nat);
            match code_lengths_spec(clen, data, p + 3 * hclen, hlit + hdist, seq![]) {
                None => None,
                Some((all, p2)) => Some((all.subrange(0, hlit), all.subrange(hlit, all.len() as int), p2)),
            }
        }
    }
}

/// One block at `pos`: whether it is final, the position after it and the output.
pub open spec fn block_spec(data: Seq<u8>, pos: int, out: Seq<u8>) -> Option<(bool, int, Seq<u8>)> {
    if pos < 0 || pos + 3 > 8 * data.len() {
        None
    } else {
        let last = lsb_bit(data, pos) == 1;
        let btype = lsb_bits(data, pos + 1, 2);
        let body = if btype == 0 {
            stored_spec(data, pos + 3, out)
        } else if btype == 1 {
            huff_block_spec(fixed_lit_lengths(), fixed_dist_lengths(), data, pos + 3, out)
        } else if btype == 2 {
            match dynamic_spec(data, pos + 3) {
                None => None,
                Some((lit, dist, p)) => huff_block_spec(lit, dist, data, p, out),
            }
        } else {
            None
        };
        match body {
            None => None,
            Some((p, o)) => Some((last, p, o)),
        }
    }
}

/// The output of the blocks from `pos` on, up to and including a final block.
pub open spec fn inflate_from(data: Seq<u8>, pos: int, out: Seq<u8>) -> Option<Seq<u8>>
    decreases 8 * data.len() - pos,
{
    match block_spec(data, pos, out) {
        None => None,
        Some((last, p, o)) => if last {
            Some(o)
        } else if p <= pos || p > 8 * data.len() {
            None
        } else {
            inflate_from(data, p, o)
        },
    }
}

/// The decompressed bytes of a raw DEFLATE stream, or `None` when corrupt.
pub open spec fn inflate_spec(data: Seq<u8>) -> Option<Seq<u8>> {
    inflate_from(data, 0, seq![])
}

/// A valid zlib header: method 8 in the low nibble of CMF and
/// `(CMF*256 + FLG) % 31 == 0`.
pub open spec fn zlib_header_spec(cmf: u8, flg: u8) -> bool {
    cmf % 16 == 8 && (cmf * 256 + flg) % 31 == 0
}

/// The data with a leading zlib header removed, when it has one.
pub open spec fn strip_zlib_spec(data: Seq<u8>) -> Seq<u8> {
    if data.len() >= 2 && zlib_header_spec(data[0], data[1]) {
        data.subrange(2, data.len() as int)
    } else {
        data
    }
}

// ---------------------------------------------------------------- stored round trip

/// A run of stored blocks anywhere in a stream decodes to exactly the bytes
/// they hold.
#[verifier::rlimit(60)]
#[verifier::spinoff_prover]
proof fn lemma_stored_blocks_decode(pre: Seq<u8>, x: Seq<u8>, post: Seq<u8>, out: Seq<u8>)
    ensures
        inflate_from(pre + stored_blocks(x) + post, 8 * pre.len() as int, out) == Some(out + x),
    decreases x.len(),
{
    let d = pre + stored_blocks(x) + post;
    let last = x.len() <= 65535;
    let len: int = if last { x.len() as int } else { 65535 };
    let chunk = x.subrange(0, len);
    let rest = x.subrange(len, x.len() as int);
    let hdr = stored_header(last, len);
    let b0 = pre.len() as int;
    if last {
        assert(stored_blocks(x) == hdr + x);
        assert(chunk =~= x);
    } else {
        assert(stored_blocks(x) == hdr + chunk + stored_blocks(rest));
    }
    assert(d[b0] == hdr[0]);
    assert(d[b0 + 1] == hdr[1]);
    assert(d[b0 + 2] == hdr[2]);
    let h0 = hdr[0];
    assert(h0 <= 1);
    let pos = 8 * b0;
    assert(pos / 8 == b0 && pos % 8 == 0);
    assert((pos + 1) / 8 == b0 && (pos + 1) % 8 == 1);
    assert((pos + 2) / 8 == b0 && (pos + 2) % 8 == 2);
    assert(((h0 >> 0u8) & 1u8) as int == if last { 1int } else { 0int }) by (bit_vector)
        requires
            h0 == if last { 1u8 } else { 0u8 },
    ;
    assert(((h0 >> 1u8) & 1u8) == 0 && ((h0 >> 2u8) & 1u8) == 0) by (bit_vector)
        requires
            h0 <= 1,
    ;
    assert(lsb_bit(d, pos) == if last { 1int } else { 0int });
    assert(lsb_bits(d, pos + 1, 2) == 0) by {
        assert(lsb_bit(d, pos + 1) == 0);
        assert(lsb_bit(d, pos + 2) == 0);
        reveal_with_fuel(lsb_bits, 3);
        reveal_with_fuel(pow2n, 2);
    }
    assert(ceil8(pos + 3) == 8 * (b0 + 1));
    let b = b0 + 1;
    assert(d[b] + 256 * d[b + 1] == len) by {
        assert(d[b] == hdr[1] && d[b + 1] == hdr[2]);
    }
    assert(d.subrange(b + 4, b + 4 + len) =~= chunk);
    let next = pre + hdr + chunk;
    assert(8 * next.len() == (b + 4 + len) * 8);
    if last {
        assert(out + chunk =~= out + x);
    } else {
        assert(d =~= next + stored_blocks(rest) + post);
        lemma_stored_blocks_decode(next, rest, post, out + chunk);
        assert(out + chunk + rest =~= out + x);
    }
}

/// A raw DEFLATE stream of stored blocks (what `deflate_stored` writes)
/// inflates back to the bytes it was made from.
pub proof fn lemma_deflate_stored_round_trip(x: Seq<u8>)
    ensures
        inflate_spec(stored_blocks(x)) == Some(x),
{
    lemma_stored_blocks_decode(seq![], x, seq![], seq![]);
    assert(Seq::<u8>::empty() + stored_blocks(x) + Seq::<u8>::empty() =~= stored_blocks(x));
    assert(Seq::<u8>::empty() + x =~= x);
}

/// A zlib stream of stored blocks (as the PNG encoder writes) inflates back to
/// the bytes it was made from.
pub proof fn lemma_zlib_stored_round_trip(x: Seq<u8>)
    ensures
        inflate_spec(strip_zlib_spec(zlib_stored_spec(x))) == Some(x),
{
    let z = zlib_stored_spec(x);
    assert(z[0] == 0x78u8 && z[1] == 0x01u8);
    assert(zlib_header_spec(0x78u8, 0x01u8));
    let body = z.subrange(2, z.len() as int);
    let tail = crate::encode::be32(crate::encode::adler32_spec(x));
    assert(body =~= seq![] + stored_blocks(x) + tail);
    lemma_stored_blocks_decode(seq![], x, tail, seq![]);
    assert(Seq::<u8>::empty() + x =~= x);
}

/// The IDAT stream of an encoded PNG inflates back to the filtered scanlines:
/// each row of samples behind a filter byte 0.
pub proof fn lemma_png_idat_round_trip(samples: Seq<u8>, rows: nat, rb: nat)
    ensures
        inflate_spec(strip_zlib_spec(zlib_stored_spec(crate::encode::filtered_rows_spec(samples, rows, rb))))
            == Some(crate::encode::filtered_rows_spec(samples, rows, rb)),
{
    lemma_zlib_stored_round_trip(crate::encode::filtered_rows_spec(samples, rows, rb));
}

// ---------------------------------------------------------------- bit reader

fn bad() -> (e: TurboParsePdfError)
    ensures
        e.code == ErrorCode::BadStream,
{
    TurboParsePdfError::new(ErrorCode::BadStream, "corrupt DEFLATE data")
}

/// LSB-first bit reader over the compressed bytes.
pub struct BitReader<'a> {
    data: &'a [u8],
    pos: usize,
    bitbuf: u32,
    bitcnt: u32,
}

impl<'a> BitReader<'a> {
    /// The bytes read from.
    pub closed spec fn bytes(&self) -> Seq<u8> {
        self.data@
    }

    /// The position of the next unread bit.
    pub closed spec fn bitpos(&self) -> int {
        8 * self.pos - self.bitcnt
    }

    /// The buffered bits are the unread high bits of the last byte fetched.
    pub closed spec fn wf(&self) -> bool {
        &&& self.pos <= self.data@.len()
        &&& self.bitcnt < 8
        &&& self.bitcnt > 0 ==> self.pos >= 1 && self.bitbuf == (self.data@[self.pos - 1] as u32) >> ((8
            - self.bitcnt) as u32)
    }

    /// A reader positioned at the first bit of `data`.
    pub fn new(data: &'a [u8]) -> (r: BitReader<'a>)
        ensures
            r.wf(),
            r.bytes() == data@,
            r.bitpos() == 0,
    {
        BitReader { data, pos: 0, bitbuf: 0, bitcnt: 0 }
    }

    /// Read a single bit (refilling a byte when the buffer is empty).
    fn take_bit(&mut self) -> (r: Result<u32, TurboParsePdfError>)
        requires
            old(self).wf(),
        ensures
            final(self).wf(),
            final(self).bytes() == old(self).bytes(),
            old(self).bitpos() < 8 * old(self).bytes().len() ==> (r matches Ok(b) && b <= 1 && b as int
                == lsb_bit(old(self).bytes(), old(self).bitpos()) && final(self).bitpos() == old(
                self,
            ).bitpos() + 1),
            old(self).bitpos() >= 8 * old(self).bytes().len() ==> (r matches Err(e) && e.code
                == ErrorCode::BadStream),
    {
        if self.bitcnt == 0 {
            if self.pos >= self.data.len() {
                return Err(bad());
            }
            let byte = self.data[self.pos];
            self.bitbuf = byte as u32;
            self.pos += 1;
            self.bitcnt = 8;
            assert((byte as u32) >> 0u32 == byte as u32) by (bit_vector);
        }
        let ghost k = 8 * self.pos - self.bitcnt;
        let ghost byte = self.data@[self.pos - 1];
        let ghost cnt = self.bitcnt;
        assert(k / 8 == self.pos - 1 && k % 8 == 8 - cnt);
        let buf = self.bitbuf;
        let bit = buf & 1;
        assert(buf & 1u32 <= 1u32) by (bit_vector);
        proof {
            let sh = (8 - cnt) as u32;
            assert(buf == (byte as u32) >> sh);
            assert(((byte as u32) >> sh) & 1u32 == ((byte >> (sh as u8)) & 1u8) as u32) by (bit_vector)
                requires
                    sh < 8,
            ;
            assert(((byte as u32) >> sh) >> 1u32 == (byte as u32) >> ((sh + 1) as u32)) by (bit_vector)
                requires
                    sh < 8,
            ;
        }
        self.bitbuf = self.bitbuf >> 1;
        self.bitcnt = self.bitcnt - 1;
        Ok(bit)
    }

    /// Read `n` bits, LSB first.
    fn take_bits(&mut self, n: u32) -> (r: Result<u32, TurboParsePdfError>)
        requires
            old(self).wf(),
            n <= 16,
        ensures
            final(self).wf(),
            final(self).bytes() == old(self).bytes(),
            r matches Ok(x) ==> x < 65536,
            match take_bits_spec(old(self).bytes(), old(self).bitpos(), n as nat) {
                Some((v, p)) => r matches Ok(x) && x == v && final(self).bitpos() == p,
                None => r matches Err(e) && e.code == ErrorCode::BadStream,
            },
    {
        let ghost start = self.bitpos();
        let mut value: u32 = 0;
        let mut weight: u32 = 1;
        let mut i: u32 = 0;
        while i < n
            invariant
                self.wf(),
                self.bytes() == old(self).bytes(),
                n <= 16,
                i <= n,
                start == old(self).bitpos(),
                self.bitpos() == start + i,
                weight == pow2n(i as nat),
                weight <= 65536,
                value == lsb_bits(self.bytes(), start, i as nat),
                value < weight,
            decreases n - i,
        {
            let bit = self.take_bit()?;
            assert(pow2n((i + 1) as nat) == 2 * pow2n(i as nat));
            assert(weight <= 32768) by {
                lemma_pow2n_le(i as nat, 15);
                reveal_with_fuel(pow2n, 16);
            }
            assert(bit <= 1);
            assert(bit as int == lsb_bit(self.bytes(), start + i));
            assert(lsb_bits(self.bytes(), start, (i + 1) as nat) == lsb_bits(self.bytes(), start, i as nat)
                + pow2n(i as nat) * lsb_bit(self.bytes(), start + i));
            assert(bit * weight == weight * bit) by (nonlinear_arith);
            assert(bit * weight <= weight) by (nonlinear_arith)
                requires
                    bit <= 1,
            ;
            value = value + bit * weight;
            weight = weight * 2;
            i += 1;
        }
        Ok(value)
    }

    /// Discard the rest of the current byte (for a stored block).
    fn align(&mut self)
        requires
            old(self).wf(),
        ensures
            final(self).wf(),
            final(self).bytes() == old(self).bytes(),
            final(self).bitcnt == 0,
            final(self).bitpos() == ceil8(old(self).bitpos()),
    {
        self.bitcnt = 0;
        self.bitbuf = 0;
    }

    /// Read one whole byte (only right after `align`).
    fn take_byte(&mut self) -> (r: Result<u8, TurboParsePdfError>)
        requires
            old(self).wf(),
            old(self).bitcnt == 0,
        ensures
            final(self).wf(),
            final(self).bytes() == old(self).bytes(),
            final(self).bitcnt == 0,
            old(self).pos < old(self).bytes().len() ==> (r matches Ok(b) && b == old(self).bytes()[old(
                self,
            ).pos as int] && final(self).pos == old(self).pos + 1),
            old(self).pos >= old(self).bytes().len() ==> (r matches Err(e) && e.code
                == ErrorCode::BadStream),
    {
        if self.pos >= self.data.len() {
            return Err(bad());
        }
        let byte = self.data[self.pos];
        self.pos += 1;
        Ok(byte)
    }

    /// Read a little-endian `u16` (after `align`).
    fn take_u16(&mut self) -> (r: Result<usize, TurboParsePdfError>)
        requires
            old(self).wf(),
            old(self).bitcnt == 0,
        ensures
            final(self).wf(),
            final(self).bytes() == old(self).bytes(),
            final(self).bitcnt == 0,
            old(self).pos + 2 <= old(self).bytes().len() ==> (r matches Ok(v) && v == old(
                self,
            ).bytes()[old(self).pos as int] + 256 * old(self).bytes()[old(self).pos + 1]
                && final(self).pos == old(self).pos + 2),
            old(self).pos + 2 > old(self).bytes().len() ==> (r matches Err(e) && e.code
                == ErrorCode::BadStream),
    {
        let lo = self.take_byte()? as usize;
        let hi = self.take_byte()? as usize;
        assert(lo | (hi << 8usize) == lo + 256 * hi) by (bit_vector)
            requires
                lo < 256,
                hi < 256,
        ;
        Ok(lo | (hi << 8))
    }
}

proof fn lemma_pow2n_le(a: nat, b: nat)
    requires
        a <= b,
    ensures
        pow2n(a) <= pow2n(b),
    decreases b,
{
    if a < b {
        lemma_pow2n_le(a, (b - 1) as nat);
    }
}

// ---------------------------------------------------------------- Huffman tables

/// The number of codes with a length below `m` among the first `k` symbols.
pub open spec fn tot(lens: Seq<u8>, k: int, m: int) -> int
    decreases m,
{
    if m <= 0 {
        0
    } else {
        tot(lens, k, m - 1) + syms_of_len(lens, m - 1, k).len()
    }
}

proof fn lemma_tot_step(lens: Seq<u8>, k: int, m: int)
    requires
        0 <= k < lens.len(),
    ensures
        tot(lens, k + 1, m) == tot(lens, k, m) + if 0 <= lens[k] < m { 1int } else { 0int },
    decreases m,
{
    if m > 0 {
        lemma_tot_step(lens, k, m - 1);
    }
}

proof fn lemma_tot_all(lens: Seq<u8>, k: int)
    requires
        0 <= k <= lens.len(),
        forall|i: int| 0 <= i < lens.len() ==> lens[i] < 16,
    ensures
        tot(lens, k, 16) == k,
    decreases k,
{
    if k > 0 {
        lemma_tot_all(lens, k - 1);
        lemma_tot_step(lens, k - 1, 16);
    } else {
        lemma_tot_zero(lens, 16);
    }
}

proof fn lemma_tot_zero(lens: Seq<u8>, m: int)
    ensures
        tot(lens, 0, m) == 0,
    decreases m,
{
    if m > 0 {
        lemma_tot_zero(lens, m - 1);
    }
}

proof fn lemma_start_tot(lens: Seq<u8>, len: int)
    requires
        1 <= len,
    ensures
        start_of(lens, len) == tot(lens, lens.len() as int, len) - count_len(lens, 0),
    decreases len,
{
    reveal_with_fuel(tot, 2);
    if len > 1 {
        lemma_start_tot(lens, len - 1);
    }
}

proof fn lemma_start_mono(lens: Seq<u8>, a: int, b: int)
    requires
        1 <= a <= b,
    ensures
        start_of(lens, a) + (if a < b { count_len(lens, a) } else { 0 }) <= start_of(lens, b),
    decreases b,
{
    if a < b {
        lemma_start_mono(lens, a, b - 1);
    }
}

proof fn lemma_syms_mono(lens: Seq<u8>, len: int, a: int, b: int)
    requires
        0 <= a <= b,
    ensures
        syms_of_len(lens, len, a).len() <= syms_of_len(lens, len, b).len(),
        syms_of_len(lens, len, b).len() <= b,
        forall|j: int| 0 <= j < syms_of_len(lens, len, a).len() ==> #[trigger] syms_of_len(lens, len, b)[j] == syms_of_len(lens, len, a)[j],
    decreases b,
{
    if b > 0 {
        if a < b {
            lemma_syms_mono(lens, len, a, b - 1);
        } else {
            lemma_syms_mono(lens, len, b - 1, b - 1);
        }
    }
}

/// A canonical Huffman table: `counts[len]` codes of each length and the
/// symbols sorted by (length, symbol), the decode shape of puff.
pub struct Huff {
    counts: Vec<u16>,
    symbols: Vec<u16>,
    lens: Ghost<Seq<u8>>,
}

impl Huff {
    /// The code lengths the table was built from.
    pub closed spec fn lengths(&self) -> Seq<u8> {
        self.lens@
    }

    /// The counts and sorted symbols agree with the code lengths.
    pub closed spec fn wf(&self) -> bool {
        let lens = self.lens@;
        &&& self.counts@.len() == 16
        &&& lens.len() <= 1000
        &&& self.symbols@.len() == lens.len()
        &&& start_of(lens, 16) <= lens.len()
        &&& forall|len: int| 1 <= len < 16 ==> #[trigger] self.counts@[len] == count_len(lens, len)
        &&& forall|len: int, j: int|
            1 <= len < 16 && 0 <= j < count_len(lens, len) ==> #[trigger] self.symbols@[start_of(lens, len) + j]
                == #[trigger] syms_of_len(lens, len, lens.len() as int)[j]
    }

    /// Build a table from per-symbol code lengths (0 = unused).
    pub fn build(lengths: &[u8]) -> (h: Huff)
        requires
            lengths@.len() <= 1000,
            forall|i: int| 0 <= i < lengths@.len() ==> lengths@[i] < 16,
        ensures
            h.wf(),
            h.lengths() == lengths@,
    {
        let ghost lens = lengths@;
        let n = lengths.len();
        let mut counts: Vec<u16> = Vec::new();
        let mut i: usize = 0;
        while i < 16
            invariant
                i <= 16,
                counts@.len() == i,
                forall|l: int| 0 <= l < i ==> counts@[l] == 0,
            decreases 16 - i,
        {
            counts.push(0);
            i += 1;
        }
        let mut k: usize = 0;
        while k < n
            invariant
                n == lens.len(),
                n <= 1000,
                k <= n,
                lens == lengths@,
                forall|i: int| 0 <= i < lens.len() ==> lens[i] < 16,
                counts@.len() == 16,
                forall|l: int| 0 <= l < 16 ==> #[trigger] counts@[l] == syms_of_len(lens, l, k as int).len(),
            decreases n - k,
        {
            let l = lengths[k] as usize;
            proof {
                lemma_syms_mono(lens, l as int, k as int, k as int);
            }
            counts.set(l, counts[l] + 1);
            k += 1;
        }
        counts.set(0, 0);
        proof {
            lemma_tot_all(lens, n as int);
            lemma_start_tot(lens, 16);
        }
        let mut offsets: Vec<usize> = Vec::new();
        offsets.push(0);
        let mut len: usize = 1;
        while len < 16
            invariant
                1 <= len <= 16,
                n == lens.len(),
                counts@.len() == 16,
                counts@[0] == 0,
                forall|l: int| 1 <= l < 16 ==> #[trigger] counts@[l] == count_len(lens, l),
                start_of(lens, 16) <= n,
                offsets@.len() == len,
                forall|l: int| 1 <= l < len ==> #[trigger] offsets@[l] == start_of(lens, l),
                offsets@[0] == 0,
            decreases 16 - len,
        {
            proof {
                lemma_start_mono(lens, len as int, 16);
            }
            let prev = if len == 1 { 0 } else { offsets[len - 1] + counts[len - 1] as usize };
            offsets.push(prev);
            len += 1;
        }
        let mut symbols: Vec<u16> = Vec::new();
        let mut z: usize = 0;
        while z < n
            invariant
                z <= n,
                symbols@.len() == z,
            decreases n - z,
        {
            symbols.push(0);
            z += 1;
        }
        let mut sym: usize = 0;
        while sym < n
            invariant
                n == lens.len(),
                n <= 1000,
                sym <= n,
                lens == lengths@,
                forall|i: int| 0 <= i < lens.len() ==> lens[i] < 16,
                start_of(lens, 16) <= n,
                symbols@.len() == n,
                offsets@.len() == 16,
                forall|l: int| 1 <= l < 16 ==> #[trigger] offsets@[l] == start_of(lens, l)
                    + syms_of_len(lens, l, sym as int).len(),
                forall|l: int, j: int|
                    1 <= l < 16 && 0 <= j < syms_of_len(lens, l, sym as int).len() ==> #[trigger] symbols@[start_of(lens, l) + j]
                        == #[trigger] syms_of_len(lens, l, sym as int)[j],
            decreases n - sym,
        {
            let l = lengths[sym];
            let ghost before = symbols@;
            let ghost off_before = offsets@;
            let ghost s = sym as int;
            proof {
                if l != 0 {
                    lemma_syms_mono(lens, l as int, s + 1, n as int);
                    lemma_start_mono(lens, l as int, l as int + 1);
                    lemma_start_mono(lens, l as int + 1, 16);
                }
            }
            place_symbol(&mut symbols, &mut offsets, sym, l);
            proof {
                assert forall|l2: int| 1 <= l2 < 16 implies #[trigger] offsets@[l2] == start_of(lens, l2)
                    + syms_of_len(lens, l2, s + 1).len() by {}
                assert forall|l2: int, j: int|
                    1 <= l2 < 16 && 0 <= j < syms_of_len(lens, l2, s + 1).len() implies #[trigger] symbols@[start_of(lens, l2) + j]
                        == syms_of_len(lens, l2, s + 1)[j] by {
                    lemma_syms_mono(lens, l2, s, n as int);
                    lemma_syms_mono(lens, l2, s + 1, n as int);
                    lemma_start_mono(lens, l2, l2 + 1);
                    lemma_start_mono(lens, l2 + 1, 16);
                    if l as int == l2 && j == syms_of_len(lens, l2, s).len() {
                    } else {
                        assert(syms_of_len(lens, l2, s + 1)[j] == syms_of_len(lens, l2, s)[j]);
                        assert(before[start_of(lens, l2) + j] == syms_of_len(lens, l2, s)[j]);
                        if l != 0 && l2 != l as int {
                            if l2 < l as int {
                                lemma_start_mono(lens, l2 + 1, l as int);
                            } else {
                                lemma_start_mono(lens, l as int + 1, l2);
                            }
                        }
                        if l != 0 {
                            assert(off_before[l as int] == start_of(lens, l as int) + syms_of_len(lens, l as int, s).len());
                            assert(start_of(lens, l2) + j != off_before[l as int]);
                            assert(symbols@ == before.update(off_before[l as int] as int, sym as u16));
                        } else {
                            assert(symbols@ == before);
                        }
                        lemma_start_mono(lens, 1, l2);
                        assert(symbols@[start_of(lens, l2) + j] == before[start_of(lens, l2) + j]);
                    }
                }
            }
            sym += 1;
        }
        proof {
            assert forall|l: int| 1 <= l < 16 implies #[trigger] counts@[l] == count_len(lens, l) by {}
        }
        Huff { counts, symbols, lens: Ghost(lens) }
    }

    /// Decode one symbol by the canonical count/offset method.
    pub fn decode(&self, r: &mut BitReader) -> (res: Result<u16, TurboParsePdfError>)
        requires
            self.wf(),
            old(r).wf(),
        ensures
            final(r).wf(),
            final(r).bytes() == old(r).bytes(),
            match decode_spec(self.lengths(), old(r).bytes(), old(r).bitpos()) {
                Some((s, p)) => res matches Ok(v) && v == s && final(r).bitpos() == p,
                None => res matches Err(e) && e.code == ErrorCode::BadStream,
            },
    {
        let ghost lens = self.lens@;
        let ghost start = r.bitpos();
        let mut code: usize = 0;
        let mut first: usize = 0;
        let mut index: usize = 0;
        let mut len: usize = 1;
        proof {
            lemma_start_mono(lens, 1, 16);
            reveal_with_fuel(pow2n, 2);
        }
        while len < 16
            invariant
                self.wf(),
                lens == self.lens@,
                r.wf(),
                r.bytes() == old(r).bytes(),
                start == old(r).bitpos(),
                1 <= len <= 16,
                r.bitpos() == start + len - 1,
                index == start_of(lens, len as int),
                index <= lens.len(),
                first <= code,
                code + 1 < pow2n(len as nat),
                decode_spec(lens, r.bytes(), start) == decode_walk(lens, r.bytes(), r.bitpos(), len as int, code as int, first as int),
            decreases 16 - len,
        {
            proof {
                lemma_pow2n_le(len as nat, 15);
                reveal_with_fuel(pow2n, 16);
            }
            let bit = r.take_bit()?;
            code = code + bit as usize;
            let count = self.counts[len] as usize;
            proof {
                lemma_start_mono(lens, len as int, len as int + 1);
                lemma_start_mono(lens, len as int + 1, 16);
            }
            if code - first < count {
                proof {
                    let j = (code - first) as int;
                    assert(self.symbols@[start_of(lens, len as int) + j] == syms_of_len(lens, len as int, lens.len() as int)[j]);
                }
                return Ok(self.symbols[index + code - first]);
            }
            index += count;
            first = (first + count) * 2;
            code = code * 2;
            len += 1;
        }
        Err(bad())
    }
}

/// Place one non-zero-length symbol into its canonical slot.
fn place_symbol(symbols: &mut Vec<u16>, offsets: &mut Vec<usize>, sym: usize, len: u8)
    requires
        old(offsets)@.len() == 16,
        old(symbols)@.len() <= 1000,
        len < 16,
        sym < 65536,
        len != 0 ==> old(offsets)@[len as int] < old(symbols)@.len(),
    ensures
        final(symbols)@.len() == old(symbols)@.len(),
        final(offsets)@.len() == 16,
        len == 0 ==> final(symbols)@ == old(symbols)@ && final(offsets)@ == old(offsets)@,
        len != 0 ==> final(symbols)@ == old(symbols)@.update(old(offsets)@[len as int] as int, sym as u16)
            && final(offsets)@ == old(offsets)@.update(len as int, (old(offsets)@[len as int] + 1) as usize),
{
    if len != 0 {
        let slot = offsets[len as usize];
        symbols.set(slot, sym as u16);
        offsets.set(len as usize, slot + 1);
    }
}

// ---------------------------------------------------------------- positions only move forward

proof fn lemma_decode_walk_range(lens: Seq<u8>, data: Seq<u8>, pos: int, len: int, code: int, first: int)
    ensures
        decode_walk(lens, data, pos, len, code, first) matches Some((s, p)) ==> pos < p <= 8 * data.len(),
    decreases 16 - len,
{
    if 1 <= len < 16 && 0 <= pos < 8 * data.len() {
        let c = code + lsb_bit(data, pos);
        let count = count_len(lens, len);
        lemma_decode_walk_range(lens, data, pos + 1, len + 1, c * 2, (first + count) * 2);
    }
}

proof fn lemma_decode_range(lens: Seq<u8>, data: Seq<u8>, pos: int)
    ensures
        decode_spec(lens, data, pos) matches Some((s, p)) ==> pos < p <= 8 * data.len(),
{
    lemma_decode_walk_range(lens, data, pos, 1, 0, 0);
}

proof fn lemma_emit_range(dist: Seq<u8>, data: Seq<u8>, pos: int, sym: int, out: Seq<u8>)
    ensures
        emit_match_spec(dist, data, pos, sym, out) matches Some((p, o)) ==> pos < p <= 8 * data.len(),
{
    if let Some((len, p2)) = read_length_spec(data, pos, sym) {
        lemma_decode_range(dist, data, p2);
    }
}

proof fn lemma_huff_block_range(lit: Seq<u8>, dist: Seq<u8>, data: Seq<u8>, pos: int, out: Seq<u8>)
    ensures
        huff_block_spec(lit, dist, data, pos, out) matches Some((p, o)) ==> pos < p <= 8 * data.len(),
    decreases 8 * data.len() - pos,
{
    if let Some((sym, p1)) = decode_spec(lit, data, pos) {
        if !(p1 <= pos || p1 > 8 * data.len()) {
            if sym == 256 {
            } else if sym < 256 {
                lemma_huff_block_range(lit, dist, data, p1, out.push(sym as u8));
            } else if let Some((p4, o)) = emit_match_spec(dist, data, p1, sym as int, out) {
                if !(p4 <= pos || p4 > 8 * data.len()) {
                    lemma_huff_block_range(lit, dist, data, p4, o);
                }
            }
        }
    }
}

proof fn lemma_code_lengths_range(clen: Seq<u8>, data: Seq<u8>, pos: int, total: int, acc: Seq<u8>)
    requires
        0 <= pos <= 8 * data.len(),
    ensures
        code_lengths_spec(clen, data, pos, total, acc) matches Some((a, p)) ==> pos <= p <= 8 * data.len(),
    decreases 8 * data.len() - pos,
{
    if acc.len() < total {
        if let Some((sym, p1)) = decode_spec(clen, data, pos) {
            if let Some((p2, acc2)) = apply_length_spec(data, p1, sym as int, acc) {
                if !(p2 <= pos || p2 > 8 * data.len()) {
                    lemma_code_lengths_range(clen, data, p2, total, acc2);
                }
            }
        }
    }
}

proof fn lemma_block_range(data: Seq<u8>, pos: int, out: Seq<u8>)
    requires
        0 <= pos,
    ensures
        block_spec(data, pos, out) matches Some((l, p, o)) ==> pos < p <= 8 * data.len(),
{
    if pos + 3 <= 8 * data.len() {
        lemma_huff_block_range(fixed_lit_lengths(), fixed_dist_lengths(), data, pos + 3, out);
        if let Some((lit, dist, p)) = dynamic_spec(data, pos + 3) {
            let hclen = lsb_bits(data, pos + 3 + 10, 4) + 4;
            assert(hclen >= 0) by {
                lemma_lsb_bits_nonneg(data, pos + 13, 4);
            }
            lemma_code_lengths_range(
                clen_upto(data, pos + 17, hclen as nat),
                data,
                pos + 17 + 3 * hclen,
                lsb_bits(data, pos + 3, 5) + 257 + lsb_bits(data, pos + 8, 5) + 1,
                seq![],
            );
            lemma_huff_block_range(lit, dist, data, p, out);
        }
    }
}

proof fn lemma_lsb_bits_nonneg(data: Seq<u8>, pos: int, n: nat)
    ensures
        0 <= lsb_bits(data, pos, n) < pow2n(n),
    decreases n,
{
    if n > 0 {
        lemma_lsb_bits_nonneg(data, pos, (n - 1) as nat);
        let b = data[(pos + n - 1) / 8];
        let sh = ((pos + n - 1) % 8) as u8;
        assert((b >> sh) & 1u8 <= 1u8) by (bit_vector);
        let bit = lsb_bit(data, pos + n - 1);
        let w = pow2n((n - 1) as nat);
        assert(w * bit <= w) by (nonlinear_arith)
            requires
                0 <= bit <= 1,
                w >= 0,
        ;
        assert(w * bit >= 0) by (nonlinear_arith)
            requires
                0 <= bit <= 1,
                w >= 0,
        ;
    }
}

// ---------------------------------------------------------------- block decoding

const LEN_BASE: [u16; 29] = [
    3, 4, 5, 6, 7, 8, 9, 10, 11, 13, 15, 17, 19, 23, 27, 31, 35, 43, 51, 59, 67, 83, 99, 115, 131,
    163, 195, 227, 258,
];

const LEN_EXTRA: [u32; 29] = [
    0, 0, 0, 0, 0, 0, 0, 0, 1, 1, 1, 1, 2, 2, 2, 2, 3, 3, 3, 3, 4, 4, 4, 4, 5, 5, 5, 5, 0,
];

const DIST_BASE: [u16; 30] = [
    1, 2, 3, 4, 5, 7, 9, 13, 17, 25, 33, 49, 65, 97, 129, 193, 257, 385, 513, 769, 1025, 1537,
    2049, 3073, 4097, 6145, 8193, 12289, 16385, 24577,
];

const DIST_EXTRA: [u32; 30] = [
    0, 0, 0, 0, 1, 1, 2, 2, 3, 3, 4, 4, 5, 5, 6, 6, 7, 7, 8, 8, 9, 9, 10, 10, 11, 11, 12, 12, 13,
    13,
];

/// Resolve a length code (257..285) to a length, reading its extra bits.
pub fn read_length(r: &mut BitReader, sym: u16) -> (res: Result<usize, TurboParsePdfError>)
    requires
        old(r).wf(),
    ensures
        final(r).wf(),
        final(r).bytes() == old(r).bytes(),
        match read_length_spec(old(r).bytes(), old(r).bitpos(), sym as int) {
            Some((v, p)) => res matches Ok(x) && x == v && final(r).bitpos() == p,
            None => res matches Err(e) && e.code == ErrorCode::BadStream,
        },
{
    if sym < 257 || sym - 257 >= 29 {
        return Err(bad());
    }
    let i = (sym - 257) as usize;
    let base = LEN_BASE;
    let extra = LEN_EXTRA;
    assert(base@ =~= len_base());
    assert(extra@ =~= len_extra());
    assert(extra@[i as int] <= 5);
    let v = r.take_bits(extra[i])?;
    Ok(base[i] as usize + v as usize)
}

/// Resolve a distance code (0..29) to a distance, reading its extra bits.
pub fn read_distance(r: &mut BitReader, sym: u16) -> (res: Result<usize, TurboParsePdfError>)
    requires
        old(r).wf(),
    ensures
        final(r).wf(),
        final(r).bytes() == old(r).bytes(),
        match read_distance_spec(old(r).bytes(), old(r).bitpos(), sym as int) {
            Some((v, p)) => res matches Ok(x) && x == v && final(r).bitpos() == p,
            None => res matches Err(e) && e.code == ErrorCode::BadStream,
        },
{
    let i = sym as usize;
    if i >= 30 {
        return Err(bad());
    }
    let base = DIST_BASE;
    let extra = DIST_EXTRA;
    assert(base@ =~= dist_base());
    assert(extra@ =~= dist_extra());
    assert(extra@[i as int] <= 13);
    let v = r.take_bits(extra[i])?;
    Ok(base[i] as usize + v as usize)
}

/// Copy `len` bytes from `dist` back in the output (LZ77, may self-overlap).
pub fn copy_back(out: &mut Vec<u8>, len: usize, dist: usize) -> (res: Result<(), TurboParsePdfError>)
    ensures
        dist == 0 || dist > old(out)@.len() ==> (res matches Err(e) && e.code == ErrorCode::BadStream
            && final(out)@ == old(out)@),
        !(dist == 0 || dist > old(out)@.len()) ==> (res is Ok && final(out)@ == copy_spec(old(out)@, len as nat, dist as int)),
{
    if dist == 0 || dist > out.len() {
        return Err(bad());
    }
    let mut i: usize = 0;
    while i < len
        invariant
            i <= len,
            0 < dist <= out@.len(),
            copy_spec(old(out)@, len as nat, dist as int) == copy_spec(out@, (len - i) as nat, dist as int),
        decreases len - i,
    {
        let byte = out[out.len() - dist];
        out.push(byte);
        i += 1;
    }
    Ok(())
}

/// Copy a stored (uncompressed) block.
fn stored_block(r: &mut BitReader, out: &mut Vec<u8>) -> (res: Result<(), TurboParsePdfError>)
    requires
        old(r).wf(),
    ensures
        final(r).wf(),
        final(r).bytes() == old(r).bytes(),
        match stored_spec(old(r).bytes(), old(r).bitpos(), old(out)@) {
            Some((p, o)) => res is Ok && final(r).bitpos() == p && final(out)@ == o,
            None => res matches Err(e) && e.code == ErrorCode::BadStream,
        },
{
    let ghost data = r.bytes();
    let ghost out0 = out@;
    r.align();
    let ghost b = r.pos as int;
    assert(b == ceil8(old(r).bitpos()) / 8);
    let len = r.take_u16()?;
    let _nlen = r.take_u16()?;
    let mut i: usize = 0;
    while i < len
        invariant
            r.wf(),
            r.bytes() == data,
            data == old(r).bytes(),
            out0 == old(out)@,
            b == ceil8(old(r).bitpos()) / 8,
            r.bitcnt == 0,
            i <= len,
            0 <= b,
            b + 4 <= data.len(),
            len == data[b] + 256 * data[b + 1],
            r.pos == b + 4 + i,
            out@ == out0 + data.subrange(b + 4, b + 4 + i),
        decreases len - i,
    {
        let byte = r.take_byte()?;
        out.push(byte);
        assert(data.subrange(b + 4, b + 4 + i + 1) =~= data.subrange(b + 4, b + 4 + i).push(byte));
        i += 1;
    }
    Ok(())
}

/// The fixed literal/length code length for symbol `i` (RFC 1951 §3.2.6).
fn fixed_lit_len(i: usize) -> (l: u8)
    ensures
        l == fixed_lit_len_spec(i as int),
{
    if i <= 143 {
        8
    } else if i <= 255 {
        9
    } else if i <= 279 {
        7
    } else {
        8
    }
}

/// The fixed (predefined) literal/length + distance tables.
fn fixed_huffs() -> (r: (Huff, Huff))
    ensures
        r.0.wf(),
        r.1.wf(),
        r.0.lengths() == fixed_lit_lengths(),
        r.1.lengths() == fixed_dist_lengths(),
{
    let mut lit: Vec<u8> = Vec::new();
    let mut i: usize = 0;
    while i < 288
        invariant
            i <= 288,
            lit@ =~= fixed_lit_lengths().subrange(0, i as int),
        decreases 288 - i,
    {
        lit.push(fixed_lit_len(i));
        i += 1;
    }
    let mut dist: Vec<u8> = Vec::new();
    let mut j: usize = 0;
    while j < 30
        invariant
            j <= 30,
            dist@ =~= fixed_dist_lengths().subrange(0, j as int),
        decreases 30 - j,
    {
        dist.push(5);
        j += 1;
    }
    assert(lit@ =~= fixed_lit_lengths());
    assert(dist@ =~= fixed_dist_lengths());
    (Huff::build(lit.as_slice()), Huff::build(dist.as_slice()))
}

/// Emit a length/distance match: copy `len` bytes from `dist` back in `out`.
fn emit_match(r: &mut BitReader, out: &mut Vec<u8>, sym: u16, dist: &Huff) -> (res: Result<(), TurboParsePdfError>)
    requires
        old(r).wf(),
        dist.wf(),
    ensures
        final(r).wf(),
        final(r).bytes() == old(r).bytes(),
        match emit_match_spec(dist.lengths(), old(r).bytes(), old(r).bitpos(), sym as int, old(out)@) {
            Some((p, o)) => res is Ok && final(r).bitpos() == p && final(out)@ == o,
            None => res matches Err(e) && e.code == ErrorCode::BadStream,
        },
{
    let len = read_length(r, sym)?;
    let dsym = dist.decode(r)?;
    let distance = read_distance(r, dsym)?;
    copy_back(out, len, distance)
}

/// Decode a Huffman-coded block (literals + length/distance back-references).
fn huffman_block(r: &mut BitReader, out: &mut Vec<u8>, lit: &Huff, dist: &Huff) -> (res: Result<(), TurboParsePdfError>)
    requires
        old(r).wf(),
        lit.wf(),
        dist.wf(),
    ensures
        final(r).wf(),
        final(r).bytes() == old(r).bytes(),
        match huff_block_spec(lit.lengths(), dist.lengths(), old(r).bytes(), old(r).bitpos(), old(out)@) {
            Some((p, o)) => res is Ok && final(r).bitpos() == p && final(out)@ == o,
            None => res matches Err(e) && e.code == ErrorCode::BadStream,
        },
{
    let ghost data = r.bytes();
    let ghost target = huff_block_spec(lit.lengths(), dist.lengths(), data, r.bitpos(), out@);
    loop
        invariant
            r.wf(),
            r.bytes() == data,
            lit.wf(),
            dist.wf(),
            target == huff_block_spec(lit.lengths(), dist.lengths(), old(r).bytes(), old(r).bitpos(), old(out)@),
            target == huff_block_spec(lit.lengths(), dist.lengths(), data, r.bitpos(), out@),
            data == old(r).bytes(),
            0 <= r.bitpos() <= 8 * data.len(),
        decreases 8 * data.len() - r.bitpos(),
    {
        let ghost pos = r.bitpos();
        proof {
            lemma_decode_range(lit.lengths(), data, pos);
        }
        let sym = lit.decode(r)?;
        if sym == 256 {
            return Ok(());
        } else if sym < 256 {
            out.push(sym as u8);
        } else {
            proof {
                lemma_emit_range(dist.lengths(), data, r.bitpos(), sym as int, out@);
            }
            emit_match(r, out, sym, dist)?;
        }
    }
}

// ---------------------------------------------------------------- dynamic tables

const ORDER: [usize; 19] = [16, 17, 18, 0, 8, 7, 9, 6, 10, 5, 11, 4, 12, 3, 13, 2, 14, 1, 15];

/// Read the `hclen` code-length code lengths, in their permuted order.
fn read_clen_lengths(r: &mut BitReader, hclen: usize) -> (res: Result<Vec<u8>, TurboParsePdfError>)
    requires
        old(r).wf(),
        hclen <= 19,
    ensures
        final(r).wf(),
        final(r).bytes() == old(r).bytes(),
        res matches Ok(v) ==> v@.len() == 19,
        old(r).bitpos() + 3 * hclen <= 8 * old(r).bytes().len() ==> (res matches Ok(v) && v@ == clen_upto(
            old(r).bytes(),
            old(r).bitpos(),
            hclen as nat,
        ) && final(r).bitpos() == old(r).bitpos() + 3 * hclen),
        old(r).bitpos() + 3 * hclen > 8 * old(r).bytes().len() ==> (res matches Err(e) && e.code
            == ErrorCode::BadStream),
{
    let order = ORDER;
    assert(order@ =~= clen_order());
    let mut lengths: Vec<u8> = Vec::new();
    let mut z: usize = 0;
    while z < 19
        invariant
            z <= 19,
            lengths@ =~= Seq::new(z as nat, |k: int| 0u8),
        decreases 19 - z,
    {
        lengths.push(0);
        z += 1;
    }
    let ghost data = r.bytes();
    let ghost start = r.bitpos();
    let mut i: usize = 0;
    while i < hclen
        invariant
            r.wf(),
            r.bytes() == data,
            data == old(r).bytes(),
            start == old(r).bitpos(),
            i <= hclen <= 19,
            order@ == clen_order(),
            r.bitpos() == start + 3 * i,
            lengths@ == clen_upto(data, start, i as nat),
            lengths@.len() == 19,
        decreases hclen - i,
    {
        let v = r.take_bits(3)?;
        proof {
            lemma_lsb_bits_nonneg(data, start + 3 * i, 3);
            reveal_with_fuel(pow2n, 4);
        }
        lengths.set(order[i], v as u8);
        i += 1;
    }
    Ok(lengths)
}

/// Read the header counts + the code-length-code Huffman table.
fn read_clen_huff(r: &mut BitReader) -> (res: Result<(Huff, usize, usize), TurboParsePdfError>)
    requires
        old(r).wf(),
    ensures
        final(r).wf(),
        final(r).bytes() == old(r).bytes(),
        ({
            let data = old(r).bytes();
            let pos = old(r).bitpos();
            let hclen = lsb_bits(data, pos + 10, 4) + 4;
            if pos + 14 > 8 * data.len() || pos + 14 + 3 * hclen > 8 * data.len() {
                res matches Err(e) && e.code == ErrorCode::BadStream
            } else {
                res matches Ok((h, hlit, hdist)) && h.wf() && h.lengths() == clen_upto(data, pos + 14, hclen as nat)
                    && hlit == lsb_bits(data, pos, 5) + 257 && hdist == lsb_bits(data, pos + 5, 5) + 1
                    && final(r).bitpos() == pos + 14 + 3 * hclen
            }
        }),
{
    let ghost data = r.bytes();
    let ghost pos = r.bitpos();
    proof {
        lemma_lsb_bits_nonneg(data, pos + 10, 4);
        reveal_with_fuel(pow2n, 5);
    }
    let hlit = r.take_bits(5)? as usize + 257;
    let hdist = r.take_bits(5)? as usize + 1;
    let hclen = r.take_bits(4)? as usize + 4;
    let lengths = read_clen_lengths(r, hclen)?;
    proof {
        assert forall|k: int| 0 <= k < lengths@.len() implies lengths@[k] < 16 by {
            lemma_clen_small(data, pos + 14, hclen as nat, k);
        }
    }
    Ok((Huff::build(lengths.as_slice()), hlit, hdist))
}

proof fn lemma_clen_small(data: Seq<u8>, pos: int, i: nat, k: int)
    requires
        i <= 19,
        0 <= k < 19,
    ensures
        clen_upto(data, pos, i).len() == 19,
        clen_upto(data, pos, i)[k] < 8,
    decreases i,
{
    if i > 0 {
        lemma_clen_small(data, pos, (i - 1) as nat, k);
        lemma_lsb_bits_nonneg(data, pos + 3 * (i - 1), 3);
        reveal_with_fuel(pow2n, 4);
        assert(clen_order()[i - 1] < 19);
    }
}

/// Code 16: repeat the previous code length 3–6 times.
fn repeat_prev(r: &mut BitReader, out: &mut Vec<u8>) -> (res: Result<(), TurboParsePdfError>)
    requires
        old(r).wf(),
    ensures
        final(r).wf(),
        final(r).bytes() == old(r).bytes(),
        match apply_length_spec(old(r).bytes(), old(r).bitpos(), 16, old(out)@) {
            Some((p, o)) => res is Ok && final(r).bitpos() == p && final(out)@ == o,
            None => res matches Err(e) && e.code == ErrorCode::BadStream,
        },
{
    let n = out.len();
    if n == 0 {
        return Err(bad());
    }
    let prev = out[n - 1];
    let count = 3 + r.take_bits(2)? as usize;
    let ghost out0 = out@;
    let mut i: usize = 0;
    while i < count
        invariant
            i <= count,
            out@ == out0 + repeat_byte(prev, i as nat),
        decreases count - i,
    {
        out.push(prev);
        assert(out0 + repeat_byte(prev, (i + 1) as nat) =~= (out0 + repeat_byte(prev, i as nat)).push(prev));
        i += 1;
    }
    Ok(())
}

/// Codes 17/18: repeat a zero code length `base + extra-bits` times.
fn repeat_zero(r: &mut BitReader, out: &mut Vec<u8>, base: usize, extra: u32) -> (res: Result<(), TurboParsePdfError>)
    requires
        old(r).wf(),
        base <= 11,
        extra <= 7,
    ensures
        final(r).wf(),
        final(r).bytes() == old(r).bytes(),
        match take_bits_spec(old(r).bytes(), old(r).bitpos(), extra as nat) {
            Some((v, p)) => res is Ok && final(r).bitpos() == p && final(out)@ == old(out)@ + repeat_byte(0, (base + v) as nat),
            None => res matches Err(e) && e.code == ErrorCode::BadStream,
        },
{
    let count = base + r.take_bits(extra)? as usize;
    let ghost out0 = out@;
    let mut i: usize = 0;
    while i < count
        invariant
            i <= count,
            out@ == out0 + repeat_byte(0, i as nat),
        decreases count - i,
    {
        out.push(0);
        assert(out0 + repeat_byte(0, (i + 1) as nat) =~= (out0 + repeat_byte(0, i as nat)).push(0));
        i += 1;
    }
    Ok(())
}

/// Apply one code-length symbol: a literal length, or a repeat (16/17/18).
fn apply_code_length(r: &mut BitReader, out: &mut Vec<u8>, sym: u16) -> (res: Result<(), TurboParsePdfError>)
    requires
        old(r).wf(),
        forall|k: int| 0 <= k < old(out)@.len() ==> old(out)@[k] < 16,
    ensures
        final(r).wf(),
        final(r).bytes() == old(r).bytes(),
        res is Ok ==> forall|k: int| 0 <= k < final(out)@.len() ==> final(out)@[k] < 16,
        res is Ok ==> final(out)@.len() <= old(out)@.len() + 138,
        match apply_length_spec(old(r).bytes(), old(r).bitpos(), sym as int, old(out)@) {
            Some((p, o)) => res is Ok && final(r).bitpos() == p && final(out)@ == o,
            None => res matches Err(e) && e.code == ErrorCode::BadStream,
        },
{
    let ghost data = r.bytes();
    let ghost pos = r.bitpos();
    if sym <= 15 {
        out.push(sym as u8);
    } else if sym == 16 {
        repeat_prev(r, out)?;
        proof {
            lemma_lsb_bits_nonneg(data, pos, 2);
            reveal_with_fuel(pow2n, 3);
        }
    } else if sym == 17 {
        repeat_zero(r, out, 3, 3)?;
        proof {
            lemma_lsb_bits_nonneg(data, pos, 3);
            reveal_with_fuel(pow2n, 4);
        }
    } else if sym == 18 {
        repeat_zero(r, out, 11, 7)?;
        proof {
            lemma_lsb_bits_nonneg(data, pos, 7);
            reveal_with_fuel(pow2n, 8);
        }
    } else {
        return Err(bad());
    }
    Ok(())
}

/// Decode `total` literal/length + distance code lengths (incl. repeat codes).
fn read_code_lengths(r: &mut BitReader, h: &Huff, total: usize) -> (res: Result<Vec<u8>, TurboParsePdfError>)
    requires
        old(r).wf(),
        h.wf(),
        total <= 320,
    ensures
        final(r).wf(),
        final(r).bytes() == old(r).bytes(),
        res matches Ok(v) ==> (forall|k: int| 0 <= k < v@.len() ==> v@[k] < 16) && total <= v@.len() <= total + 138,
        match code_lengths_spec(h.lengths(), old(r).bytes(), old(r).bitpos(), total as int, seq![]) {
            Some((all, p)) => res matches Ok(v) && v@ == all && final(r).bitpos() == p,
            None => res matches Err(e) && e.code == ErrorCode::BadStream,
        },
{
    let ghost data = r.bytes();
    let ghost target = code_lengths_spec(h.lengths(), data, r.bitpos(), total as int, seq![]);
    let mut out: Vec<u8> = Vec::new();
    while out.len() < total
        invariant
            r.wf(),
            r.bytes() == data,
            data == old(r).bytes(),
            h.wf(),
            total <= 320,
            target == code_lengths_spec(h.lengths(), old(r).bytes(), old(r).bitpos(), total as int, seq![]),
            target == code_lengths_spec(h.lengths(), data, r.bitpos(), total as int, out@),
            forall|k: int| 0 <= k < out@.len() ==> out@[k] < 16,
            out@.len() <= total + 138,
            0 <= r.bitpos() <= 8 * data.len(),
        decreases 8 * data.len() - r.bitpos(),
    {
        let ghost pos = r.bitpos();
        proof {
            lemma_decode_range(h.lengths(), data, pos);
        }
        let sym = h.decode(r)?;
        apply_code_length(r, &mut out, sym)?;
    }
    Ok(out)
}

/// Read the dynamic literal/length + distance tables for a block.
fn read_dynamic_huffs(r: &mut BitReader) -> (res: Result<(Huff, Huff), TurboParsePdfError>)
    requires
        old(r).wf(),
    ensures
        final(r).wf(),
        final(r).bytes() == old(r).bytes(),
        match dynamic_spec(old(r).bytes(), old(r).bitpos()) {
            Some((lit, dist, p)) => res matches Ok((a, b)) && a.wf() && b.wf() && a.lengths() == lit
                && b.lengths() == dist && final(r).bitpos() == p,
            None => res matches Err(e) && e.code == ErrorCode::BadStream,
        },
{
    let (clen_huff, hlit, hdist) = read_clen_huff(r)?;
    proof {
        lemma_lsb_bits_nonneg(old(r).bytes(), old(r).bitpos(), 5);
        lemma_lsb_bits_nonneg(old(r).bytes(), old(r).bitpos() + 5, 5);
        reveal_with_fuel(pow2n, 6);
    }
    let all = read_code_lengths(r, &clen_huff, hlit + hdist)?;
    let lit = Huff::build(&all.as_slice()[0..hlit]);
    let n = all.len();
    let dist = Huff::build(&all.as_slice()[hlit..n]);
    Ok((lit, dist))
}

// ---------------------------------------------------------------- streams

/// Decode a block of the given BTYPE.
fn inflate_typed_block(r: &mut BitReader, out: &mut Vec<u8>, btype: u32) -> (res: Result<(), TurboParsePdfError>)
    requires
        old(r).wf(),
    ensures
        final(r).wf(),
        final(r).bytes() == old(r).bytes(),
        match (if btype == 0 {
            stored_spec(old(r).bytes(), old(r).bitpos(), old(out)@)
        } else if btype == 1 {
            huff_block_spec(fixed_lit_lengths(), fixed_dist_lengths(), old(r).bytes(), old(r).bitpos(), old(out)@)
        } else if btype == 2 {
            match dynamic_spec(old(r).bytes(), old(r).bitpos()) {
                None => None,
                Some((lit, dist, p)) => huff_block_spec(lit, dist, old(r).bytes(), p, old(out)@),
            }
        } else {
            None
        }) {
            Some((p, o)) => res is Ok && final(r).bitpos() == p && final(out)@ == o,
            None => res matches Err(e) && e.code == ErrorCode::BadStream,
        },
{
    if btype == 0 {
        stored_block(r, out)
    } else if btype == 1 {
        let (lit, dist) = fixed_huffs();
        huffman_block(r, out, &lit, &dist)
    } else if btype == 2 {
        let (lit, dist) = read_dynamic_huffs(r)?;
        huffman_block(r, out, &lit, &dist)
    } else {
        Err(bad())
    }
}

/// Decode one block; returns whether it was the final block.
fn inflate_one_block(r: &mut BitReader, out: &mut Vec<u8>) -> (res: Result<bool, TurboParsePdfError>)
    requires
        old(r).wf(),
    ensures
        final(r).wf(),
        final(r).bytes() == old(r).bytes(),
        match block_spec(old(r).bytes(), old(r).bitpos(), old(out)@) {
            Some((last, p, o)) => res matches Ok(l) && l == last && final(r).bitpos() == p && final(out)@ == o,
            None => res matches Err(e) && e.code == ErrorCode::BadStream,
        },
{
    let ghost data = r.bytes();
    let ghost pos = r.bitpos();
    let bfinal = r.take_bit()? == 1;
    let btype = r.take_bits(2)?;
    proof {
        reveal_with_fuel(lsb_bits, 3);
        reveal_with_fuel(pow2n, 3);
    }
    inflate_typed_block(r, out, btype)?;
    Ok(bfinal)
}

/// Decompress a complete raw DEFLATE stream.
pub fn inflate(data: &[u8]) -> (res: Result<Vec<u8>, TurboParsePdfError>)
    ensures
        match inflate_spec(data@) {
            Some(o) => res matches Ok(v) && v@ == o,
            None => res matches Err(e) && e.code == ErrorCode::BadStream,
        },
{
    let mut r = BitReader::new(data);
    let mut out: Vec<u8> = Vec::new();
    loop
        invariant
            r.wf(),
            r.bytes() == data@,
            inflate_spec(data@) == inflate_from(data@, r.bitpos(), out@),
            0 <= r.bitpos() <= 8 * data@.len(),
        decreases 8 * data@.len() - r.bitpos(),
    {
        proof {
            lemma_block_range(data@, r.bitpos(), out@);
        }
        let last = inflate_one_block(&mut r, &mut out)?;
        if last {
            return Ok(out);
        }
    }
}

/// True for a valid 2-byte zlib (RFC 1950) header: compression method 8
/// (deflate) in the low nibble of CMF and `(CMF*256 + FLG) % 31 == 0`.
pub fn is_zlib_header(cmf: u8, flg: u8) -> (r: bool)
    ensures
        r == zlib_header_spec(cmf, flg),
{
    assert((cmf & 0x0fu8) == cmf % 16) by (bit_vector);
    assert(((cmf as u16) << 8u16) | (flg as u16) == (cmf as u16) * 256 + (flg as u16)) by (bit_vector);
    (cmf & 0x0f) == 8 && (((cmf as u16) << 8) | (flg as u16)) % 31 == 0
}

/// Skip a leading zlib header when there is one.
pub fn strip_zlib_header(data: &[u8]) -> (r: &[u8])
    ensures
        r@ == strip_zlib_spec(data@),
{
    let n = data.len();
    if n >= 2 && is_zlib_header(data[0], data[1]) {
        &data[2..n]
    } else {
        data
    }
}

/// Decode a PDF `FlateDecode` stream: strip the optional zlib header, inflate.
pub fn flate_decode(data: &[u8]) -> (res: Result<Vec<u8>, TurboParsePdfError>)
    ensures
        match inflate_spec(strip_zlib_spec(data@)) {
            Some(o) => res matches Ok(v) && v@ == o,
            None => res matches Err(e) && e.code == ErrorCode::BadStream,
        },
{
    inflate(strip_zlib_header(data))
}

} // verus!
