//! CRC-32 of the Ogg page checksum field.
//!
//! Polynomial `0x04C1_1DB7`, most significant bit first, initial value 0, no
//! final exclusive-or. A page's checksum covers the whole page with the
//! checksum field itself (bytes 22..26) read as zero.
use crate::bytes;
use crate::bytes::read_u32_le;
use crate::crc_tables;
use crate::crc_tables::{T0, T1, T2, T3};
use vstd::prelude::*;

verus! {

/// Byte offset of the checksum field within a page header.
pub const CRC_FIELD_OFFSET: usize = 22;

/// Byte length of the checksum field.
pub const CRC_FIELD_LEN: usize = 4;

/// The register after `bytes` have been fed to it, starting from `state`: each
/// byte is folded into the top of the register and shifted out.
pub open spec fn crc_from(state: u32, bytes: Seq<u8>) -> u32
    decreases bytes.len(),
{
    if bytes.len() == 0 {
        state
    } else {
        crc_tables::shift_byte(crc_from(state, bytes.drop_last()) ^ ((bytes.last() as u32) << 24))
    }
}

/// `page` with the bytes of its checksum field set to zero.
pub open spec fn with_zero_crc_field(page: Seq<u8>) -> Seq<u8> {
    page.take(22) + seq![0u8, 0, 0, 0] + page.skip(26)
}

/// The checksum that a page of these bytes must carry.
pub open spec fn page_crc(page: Seq<u8>) -> u32 {
    crc_from(0, with_zero_crc_field(page))
}

/// The checksum that the page carries in its checksum field.
pub open spec fn stored_crc(page: Seq<u8>) -> u32 {
    bytes::le_u32(page.subrange(22, 26))
}

/// Feeding the input in two pieces gives what feeding it whole gives.
pub proof fn law_crc_concat(state: u32, a: Seq<u8>, b: Seq<u8>)
    ensures
        crc_from(state, a + b) == crc_from(crc_from(state, a), b),
    decreases b.len(),
{
    if b.len() == 0 {
        assert(a + b =~= a);
    } else {
        law_crc_concat(state, a, b.drop_last());
        assert((a + b).drop_last() =~= a + b.drop_last());
    }
}

/// What a page carries in its checksum field has no part in its checksum.
pub proof fn law_page_crc_ignores_field(page: Seq<u8>, field: Seq<u8>)
    requires
        page.len() >= 26,
        field.len() == 4,
    ensures
        page_crc(page.take(22) + field + page.skip(26)) == page_crc(page),
{
    let other = page.take(22) + field + page.skip(26);
    assert(with_zero_crc_field(other) =~= with_zero_crc_field(page));
}

proof fn lemma_shift_byte_linear(a: u32, b: u32)
    ensures
        crc_tables::shift_byte(a ^ b) == crc_tables::shift_byte(a) ^ crc_tables::shift_byte(b),
{
    reveal(crc_tables::shift_byte);
    assert(forall|x: u32, y: u32| #[trigger]
        crc_tables::shift_bit(x ^ y) == crc_tables::shift_bit(x) ^ crc_tables::shift_bit(y)) by (bit_vector);
}

/// Shifting a byte out is a shift and one table lookup.
proof fn lemma_table_step(v: u32)
    ensures
        v >> 24 < 256,
        crc_tables::shift_byte(v) == (v << 8) ^ T0@[(v >> 24) as int],
{
    let top = (v >> 24) << 24;
    let low = v & 0x00FF_FFFF;
    assert(v >> 24 < 256) by (bit_vector);
    assert(((v >> 24) << 24) ^ (v & 0x00FF_FFFF) == v) by (bit_vector);
    assert(crc_tables::shift_byte(v & 0x00FF_FFFF) == v << 8) by (bit_vector);
    lemma_shift_byte_linear(top, low);
    crc_tables::lemma_t0((v >> 24) as int);
    let a = crc_tables::shift_byte(top);
    let b = v << 8;
    assert(a ^ b == b ^ a) by (bit_vector);
}

/// One byte fed to the register, through the table.
fn feed_byte(crc: u32, b: u8) -> (r: u32)
    ensures
        r == crc_tables::shift_byte(crc ^ ((b as u32) << 24)),
{
    let ghost v = crc ^ ((b as u32) << 24);
    proof {
        let w = b as u32;
        assert((crc ^ (w << 24)) << 8 == crc << 8) by (bit_vector);
        assert(w < 256 ==> (crc ^ (w << 24)) >> 24 == (crc >> 24) ^ w) by (bit_vector);
        lemma_table_step(v);
    }
    (crc << 8) ^ T0[((crc >> 24) ^ b as u32) as usize]
}

/// Four bytes fed to the register shift out as one word, byte by byte through
/// the four tables.
proof fn lemma_four_bytes(crc: u32, b0: u8, b1: u8, b2: u8, b3: u8, w: u32)
    requires
        w == crc ^ ((b0 as u32) << 24) ^ ((b1 as u32) << 16) ^ ((b2 as u32) << 8) ^ (b3 as u32),
    ensures
        (w >> 24) & 0xFF < 256,
        (w >> 16) & 0xFF < 256,
        (w >> 8) & 0xFF < 256,
        w & 0xFF < 256,
        crc_from(crc, seq![b0, b1, b2, b3]) == T3@[((w >> 24) & 0xFF) as int]
            ^ T2@[((w >> 16) & 0xFF) as int] ^ T1@[((w >> 8) & 0xFF) as int]
            ^ T0@[(w & 0xFF) as int],
{
    let (x0, x1, x2, x3) = (b0 as u32, b1 as u32, b2 as u32, b3 as u32);
    // The later bytes can be folded in early: shifting them up costs no feedback.
    assert(forall|b: u32| b < 256 ==> #[trigger] crc_tables::shift_byte(b) == b << 8) by (bit_vector);
    assert(forall|b: u32| b < 256 ==> crc_tables::shift_byte(#[trigger] (b << 8)) == b << 16) by (bit_vector);
    assert(forall|b: u32| b < 256 ==> crc_tables::shift_byte(#[trigger] (b << 16)) == b << 24) by (bit_vector);
    let r1 = crc_tables::shift_byte(crc ^ (x0 << 24));
    let r2 = crc_tables::shift_byte(r1 ^ (x1 << 24));
    let r3 = crc_tables::shift_byte(r2 ^ (x2 << 24));
    let r4 = crc_tables::shift_byte(r3 ^ (x3 << 24));
    let w0 = crc ^ (x0 << 24);
    let w1 = w0 ^ (x1 << 16);
    let w2 = w1 ^ (x2 << 8);
    lemma_shift_byte_linear(w0, x1 << 16);
    assert(r1 ^ (x1 << 24) == crc_tables::shift_byte(w1));
    lemma_shift_byte_linear(w1, x2 << 8);
    lemma_shift_byte_linear(crc_tables::shift_byte(w1), x2 << 16);
    assert(r2 ^ (x2 << 24) == crc_tables::shift_byte(crc_tables::shift_byte(w2)));
    lemma_shift_byte_linear(w2, x3);
    lemma_shift_byte_linear(crc_tables::shift_byte(w2), x3 << 8);
    lemma_shift_byte_linear(crc_tables::shift_byte(crc_tables::shift_byte(w2)), x3 << 16);
    assert(r3 ^ (x3 << 24) == crc_tables::shift_byte(crc_tables::shift_byte(crc_tables::shift_byte(w))));
    assert(r4 == crc_tables::shift_byte(crc_tables::shift_byte(crc_tables::shift_byte(crc_tables::shift_byte(w)))));
    let bytes = seq![b0, b1, b2, b3];
    assert(crc_from(crc, bytes) == r4) by {
        let p3 = bytes.drop_last();
        let p2 = p3.drop_last();
        let p1 = p2.drop_last();
        let p0 = p1.drop_last();
        assert(p0.len() == 0);
        assert(crc_from(crc, p0) == crc);
        assert(crc_from(crc, p1) == r1);
        assert(crc_from(crc, p2) == r2);
        assert(crc_from(crc, p3) == r3);
    }
    // Each byte of the word passes through as many tables as it has bytes behind it.
    let a0 = (w >> 24) & 0xFF;
    let a1 = (w >> 16) & 0xFF;
    let a2 = (w >> 8) & 0xFF;
    let a3 = w & 0xFF;
    assert((w >> 24) & 0xFF < 256 && (w >> 16) & 0xFF < 256 && (w >> 8) & 0xFF < 256 && w & 0xFF
        < 256) by (bit_vector);
    assert(((w >> 24) & 0xFF) << 24 ^ ((w >> 16) & 0xFF) << 16 ^ ((w >> 8) & 0xFF) << 8 ^ (w & 0xFF)
        == w) by (bit_vector);
    let (h0, h1, h2) = (a0 << 24, a1 << 16, a2 << 8);
    lemma_shift_byte_linear(h0 ^ h1 ^ h2, a3);
    lemma_shift_byte_linear(h0 ^ h1, h2);
    lemma_shift_byte_linear(h0, h1);
    let (s0, s1, s2, s3) = (crc_tables::shift_byte(h0), a1 << 24, a2 << 16, a3 << 8);
    lemma_shift_byte_linear(s0 ^ s1 ^ s2, s3);
    lemma_shift_byte_linear(s0 ^ s1, s2);
    lemma_shift_byte_linear(s0, s1);
    let (t0, t1, t2, t3) = (crc_tables::shift_byte(s0), crc_tables::shift_byte(s1), a2 << 24, a3 << 16);
    lemma_shift_byte_linear(t0 ^ t1 ^ t2, t3);
    lemma_shift_byte_linear(t0 ^ t1, t2);
    lemma_shift_byte_linear(t0, t1);
    let (u0, u1, u2, u3) = (crc_tables::shift_byte(t0), crc_tables::shift_byte(t1), crc_tables::shift_byte(t2), a3 << 24);
    lemma_shift_byte_linear(u0 ^ u1 ^ u2, u3);
    lemma_shift_byte_linear(u0 ^ u1, u2);
    lemma_shift_byte_linear(u0, u1);
    crc_tables::lemma_t0(a0 as int);
    crc_tables::lemma_t1(a0 as int);
    crc_tables::lemma_t2(a0 as int);
    crc_tables::lemma_t3(a0 as int);
    crc_tables::lemma_t0(a1 as int);
    crc_tables::lemma_t1(a1 as int);
    crc_tables::lemma_t2(a1 as int);
    crc_tables::lemma_t0(a2 as int);
    crc_tables::lemma_t1(a2 as int);
    crc_tables::lemma_t0(a3 as int);
}

/// Computes the CRC-32 over `bytes`, starting from an empty register.
pub fn checksum(bytes: &[u8]) -> (crc: u32)
    ensures
        crc == crc_from(0, bytes@),
{
    continue_checksum(0, bytes)
}

/// Continues a CRC computation from a known `state` over `bytes`, so that an
/// input can be fed in pieces. Four bytes are fed per step while four are left.
pub fn continue_checksum(state: u32, bytes: &[u8]) -> (crc: u32)
    ensures
        crc == crc_from(state, bytes@),
{
    let n: usize = bytes.len();
    let mut crc: u32 = state;
    let mut i: usize = 0;
    assert(bytes@.take(0).len() == 0);
    while n - i >= 4
        invariant
            n == bytes@.len(),
            i <= n,
            crc == crc_from(state, bytes@.take(i as int)),
        decreases n - i,
    {
        let w: u32 = crc ^ ((bytes[i] as u32) << 24) ^ ((bytes[i + 1] as u32) << 16) ^ ((bytes[i
            + 2] as u32) << 8) ^ (bytes[i + 3] as u32);
        proof {
            let four = seq![
                bytes@[i as int],
                bytes@[i + 1],
                bytes@[i + 2],
                bytes@[i + 3],
            ];
            lemma_four_bytes(crc, four[0], four[1], four[2], four[3], w);
            law_crc_concat(state, bytes@.take(i as int), four);
            assert(bytes@.take(i as int) + four =~= bytes@.take(i + 4));
        }
        crc = T3[((w >> 24) & 0xFF) as usize] ^ T2[((w >> 16) & 0xFF) as usize] ^ T1[((w >> 8)
            & 0xFF) as usize] ^ T0[(w & 0xFF) as usize];
        i += 4;
    }
    while i < n
        invariant
            n == bytes@.len(),
            i <= n,
            crc == crc_from(state, bytes@.take(i as int)),
        decreases n - i,
    {
        assert(bytes@.take(i + 1).drop_last() =~= bytes@.take(i as int));
        crc = feed_byte(crc, bytes[i]);
        i += 1;
    }
    assert(bytes@.take(n as int) =~= bytes@);
    crc
}

/// Advances a register by four zero bytes.
pub fn advance_four_zero_bytes(state: u32) -> (crc: u32)
    ensures
        crc == crc_from(state, seq![0u8, 0, 0, 0]),
{
    proof {
        let zeros = seq![0u8, 0, 0, 0];
        let p3 = zeros.drop_last();
        let p2 = p3.drop_last();
        let p1 = p2.drop_last();
        let p0 = p1.drop_last();
        assert(p0.len() == 0);
        assert(crc_from(state, p0) == state);
        assert(crc_from(state, p1) == crc_tables::shift_byte(state ^ ((0u8 as u32) << 24)));
        assert(crc_from(state, p2) == crc_tables::shift_byte(crc_from(state, p1) ^ ((0u8 as u32) << 24)));
        assert(crc_from(state, p3) == crc_tables::shift_byte(crc_from(state, p2) ^ ((0u8 as u32) << 24)));
    }
    let mut crc: u32 = state;
    crc = feed_byte(crc, 0);
    crc = feed_byte(crc, 0);
    crc = feed_byte(crc, 0);
    crc = feed_byte(crc, 0);
    crc
}

/// Computes the checksum of one complete page, its checksum field read as
/// zero. `None` when the slice ends before the checksum field does.
pub fn compute_page_checksum(page_bytes: &[u8]) -> (crc: Option<u32>)
    ensures
        page_bytes@.len() < 26 ==> crc is None,
        page_bytes@.len() >= 26 ==> crc == Some(page_crc(page_bytes@)),
{
    let n: usize = page_bytes.len();
    if n < CRC_FIELD_OFFSET + CRC_FIELD_LEN {
        return None;
    }
    let prefix: u32 = continue_checksum(0, vstd::slice::slice_subrange(page_bytes, 0, CRC_FIELD_OFFSET));
    let after_field: u32 = advance_four_zero_bytes(prefix);
    proof {
        let page = page_bytes@;
        assert(page.subrange(0, 22) =~= page.take(22));
        assert(page.subrange(26, n as int) =~= page.skip(26));
        law_crc_concat(0, page.take(22), seq![0u8, 0, 0, 0]);
        law_crc_concat(0, page.take(22) + seq![0u8, 0, 0, 0], page.skip(26));
    }
    Some(
        continue_checksum(
            after_field,
            vstd::slice::slice_subrange(page_bytes, CRC_FIELD_OFFSET + CRC_FIELD_LEN, n),
        ),
    )
}

/// Reads the checksum field of a page. `None` when the slice ends before the
/// field does.
pub fn read_page_checksum(page_bytes: &[u8]) -> (crc: Option<u32>)
    ensures
        page_bytes@.len() < 26 ==> crc is None,
        page_bytes@.len() >= 26 ==> crc == Some(stored_crc(page_bytes@)),
{
    if page_bytes.len() < CRC_FIELD_OFFSET + CRC_FIELD_LEN {
        return None;
    }
    Some(read_u32_le(page_bytes, CRC_FIELD_OFFSET))
}

/// Whether the checksum that a page carries is the checksum of its bytes.
/// `None` when the slice ends before the checksum field does.
pub fn validate_page_crc(page_bytes: &[u8]) -> (valid: Option<bool>)
    ensures
        page_bytes@.len() < 26 ==> valid is None,
        page_bytes@.len() >= 26 ==> valid == Some(
            stored_crc(page_bytes@) == page_crc(page_bytes@),
        ),
{
    match (read_page_checksum(page_bytes), compute_page_checksum(page_bytes)) {
        (Some(stored), Some(computed)) => Some(stored == computed),
        _ => None,
    }
}

} // verus!
