//! Fixed-width integers as byte sequences, in both byte orders.
use vstd::prelude::*;

verus! {

/// Value of the first two bytes of `s`, least significant byte first.
#[verifier::opaque]
pub open spec fn le_u16(s: Seq<u8>) -> u16 {
    (s[0] + 0x100 * s[1]) as u16
}

/// Value of the first four bytes of `s`, least significant byte first.
#[verifier::opaque]
pub open spec fn le_u32(s: Seq<u8>) -> u32 {
    (s[0] + 0x100 * s[1] + 0x1_0000 * s[2] + 0x100_0000 * s[3]) as u32
}

/// Value of the first eight bytes of `s`, least significant byte first.
#[verifier::opaque]
pub open spec fn le_u64(s: Seq<u8>) -> u64 {
    (le_u32(s) + 0x1_0000_0000 * le_u32(s.skip(4))) as u64
}

/// The two's-complement reading of a 64-bit pattern.
pub open spec fn signed64(v: u64) -> i64 {
    if v <= i64::MAX {
        v as i64
    } else {
        (v - 0x1_0000_0000_0000_0000) as i64
    }
}

/// The 64-bit two's-complement pattern of an integer.
pub open spec fn unsigned64(v: i64) -> u64 {
    if v >= 0 {
        v as u64
    } else {
        (v + 0x1_0000_0000_0000_0000) as u64
    }
}

/// The two's-complement reading of a 32-bit pattern.
pub open spec fn signed32(v: u32) -> i32 {
    if v <= i32::MAX {
        v as i32
    } else {
        (v - 0x1_0000_0000) as i32
    }
}

/// Value of the first eight bytes of `s` as a signed integer, least
/// significant byte first.
pub open spec fn le_i64(s: Seq<u8>) -> i64 {
    signed64(le_u64(s))
}

/// The two bytes of `v`, least significant byte first.
pub open spec fn u16_le(v: u16) -> Seq<u8> {
    seq![(v % 0x100) as u8, (v / 0x100) as u8]
}

/// The four bytes of `v`, least significant byte first.
pub open spec fn u32_le(v: u32) -> Seq<u8> {
    seq![
        (v % 0x100) as u8,
        (v / 0x100 % 0x100) as u8,
        (v / 0x1_0000 % 0x100) as u8,
        (v / 0x100_0000) as u8,
    ]
}

/// The eight bytes of `v`, least significant byte first.
pub open spec fn u64_le(v: u64) -> Seq<u8> {
    u32_le((v % 0x1_0000_0000) as u32) + u32_le((v / 0x1_0000_0000) as u32)
}

/// The eight bytes of a signed integer, least significant byte first.
pub open spec fn i64_le(v: i64) -> Seq<u8> {
    u64_le(unsigned64(v))
}

/// Value of the first two bytes of `s`, most significant byte first.
#[verifier::opaque]
pub open spec fn be_u16(s: Seq<u8>) -> u16 {
    (0x100 * s[0] + s[1]) as u16
}

/// Value of the first three bytes of `s`, most significant byte first.
#[verifier::opaque]
pub open spec fn be_u24(s: Seq<u8>) -> u32 {
    (0x1_0000 * s[0] + 0x100 * s[1] + s[2]) as u32
}

/// Value of the first four bytes of `s`, most significant byte first.
#[verifier::opaque]
pub open spec fn be_u32(s: Seq<u8>) -> u32 {
    (0x100_0000 * s[0] + 0x1_0000 * s[1] + 0x100 * s[2] + s[3]) as u32
}

/// The two bytes of `v`, most significant byte first.
pub open spec fn u16_be(v: u16) -> Seq<u8> {
    seq![(v / 0x100) as u8, (v % 0x100) as u8]
}

/// The low three bytes of `v`, most significant byte first.
pub open spec fn u24_be(v: u32) -> Seq<u8> {
    seq![(v / 0x1_0000 % 0x100) as u8, (v / 0x100 % 0x100) as u8, (v % 0x100) as u8]
}

/// The four bytes of `v`, most significant byte first.
pub open spec fn u32_be(v: u32) -> Seq<u8> {
    seq![
        (v / 0x100_0000) as u8,
        (v / 0x1_0000 % 0x100) as u8,
        (v / 0x100 % 0x100) as u8,
        (v % 0x100) as u8,
    ]
}

/// Encoding then decoding a 32-bit integer gives the integer back.
pub broadcast proof fn law_u32_le_round_trip(v: u32, tail: Seq<u8>)
    ensures
        #[trigger] le_u32(u32_le(v) + tail) == v,
{
    reveal(le_u32);
}

/// Encoding then decoding a 16-bit integer gives the integer back.
pub proof fn law_u16_le_round_trip(v: u16, tail: Seq<u8>)
    ensures
        le_u16(u16_le(v) + tail) == v,
{
    reveal(le_u16);
}

/// Decoding then encoding two bytes gives the bytes back.
pub proof fn law_le_u16_round_trip(s: Seq<u8>)
    requires
        s.len() == 2,
    ensures
        u16_le(le_u16(s)) == s,
{
    reveal(le_u16);
    assert(u16_le(le_u16(s)) =~= s);
}

/// Only the bytes that an integer takes matter to its value.
pub proof fn lemma_le_prefix(s: Seq<u8>, t: Seq<u8>)
    ensures
        s.len() >= 2 && t.len() >= 2 && s.take(2) == t.take(2) ==> le_u16(s) == le_u16(t),
        s.len() >= 4 && t.len() >= 4 && s.take(4) == t.take(4) ==> le_u32(s) == le_u32(t),
        s.len() >= 8 && t.len() >= 8 && s.take(8) == t.take(8) ==> le_u64(s) == le_u64(t),
{
    reveal(le_u16);
    reveal(le_u32);
    reveal(le_u64);
    assert forall|n: int, i: int|
        0 <= i < n && s.len() >= n && t.len() >= n && #[trigger] s.take(n) == t.take(
            n,
        ) implies #[trigger] s[i] == t[i] by {
        assert(s.take(n)[i] == t.take(n)[i]);
    }
    if s.len() >= 8 && t.len() >= 8 && s.take(8) == t.take(8) {
        assert(forall|i: int| 0 <= i < 8 ==> s[i] == t[i]);
    }
}

/// Decoding then encoding four bytes gives the bytes back.
pub proof fn law_le_u32_round_trip(s: Seq<u8>)
    requires
        s.len() == 4,
    ensures
        u32_le(le_u32(s)) == s,
{
    reveal(le_u32);
    let v = le_u32(s);
    assert(v / 0x100 == s[1] + 0x100 * s[2] + 0x1_0000 * s[3]);
    assert(v / 0x1_0000 == s[2] + 0x100 * s[3]);
    assert(u32_le(v) =~= s);
}

/// Encoding then decoding a 16-bit integer, most significant byte first, gives
/// the integer back.
pub proof fn law_u16_be_round_trip(v: u16, tail: Seq<u8>)
    ensures
        be_u16(u16_be(v) + tail) == v,
{
    reveal(be_u16);
}

/// Encoding then decoding a 24-bit integer, most significant byte first, gives
/// the integer back.
pub proof fn law_u24_be_round_trip(v: u32, tail: Seq<u8>)
    requires
        v < 0x100_0000,
    ensures
        be_u24(u24_be(v) + tail) == v,
{
    reveal(be_u24);
}

/// Encoding then decoding a 32-bit integer, most significant byte first, gives
/// the integer back.
pub proof fn law_u32_be_round_trip(v: u32, tail: Seq<u8>)
    ensures
        be_u32(u32_be(v) + tail) == v,
{
    reveal(be_u32);
}

/// Encoding then decoding a 64-bit integer gives the integer back.
pub broadcast proof fn law_u64_le_round_trip(v: u64, tail: Seq<u8>)
    ensures
        #[trigger] le_u64(u64_le(v) + tail) == v,
{
    reveal(le_u64);
    let lo = (v % 0x1_0000_0000) as u32;
    let hi = (v / 0x1_0000_0000) as u32;
    assert(u64_le(v) + tail =~= u32_le(lo) + (u32_le(hi) + tail));
    law_u32_le_round_trip(lo, u32_le(hi) + tail);
    assert((u64_le(v) + tail).skip(4) =~= u32_le(hi) + tail);
    law_u32_le_round_trip(hi, tail);
}

/// Decoding then encoding eight bytes gives the bytes back.
pub proof fn law_le_u64_round_trip(s: Seq<u8>)
    requires
        s.len() == 8,
    ensures
        u64_le(le_u64(s)) == s,
{
    reveal(le_u64);
    law_le_u32_round_trip(s.take(4));
    law_le_u32_round_trip(s.skip(4));
    assert(le_u32(s.take(4)) == le_u32(s)) by {
        reveal(le_u32);
    }
    assert(le_u64(s) % 0x1_0000_0000 == le_u32(s));
    assert(le_u64(s) / 0x1_0000_0000 == le_u32(s.skip(4)));
    assert(u64_le(le_u64(s)) =~= s);
}

/// Encoding then decoding a signed 64-bit integer gives the integer back.
pub broadcast proof fn law_i64_le_round_trip(v: i64, tail: Seq<u8>)
    ensures
        #[trigger] le_i64(i64_le(v) + tail) == v,
{
    law_u64_le_round_trip(unsigned64(v), tail);
}

/// Decoding then encoding eight bytes as a signed integer gives the bytes back.
pub proof fn law_le_i64_round_trip(s: Seq<u8>)
    requires
        s.len() == 8,
    ensures
        i64_le(le_i64(s)) == s,
{
    law_le_u64_round_trip(s);
}

/// The 16-bit value starting at `at`, least significant byte first.
pub fn read_u16_le(data: &[u8], at: usize) -> (v: u16)
    requires
        at + 2 <= data@.len(),
    ensures
        v == le_u16(data@.skip(at as int)),
        v == le_u16(data@.subrange(at as int, at + 2)),
{
    reveal(le_u16);
    assert(data.len() == data@.len());
    data[at] as u16 + 0x100 * data[at + 1] as u16
}

/// The 32-bit value starting at `at`, least significant byte first.
pub fn read_u32_le(data: &[u8], at: usize) -> (v: u32)
    requires
        at + 4 <= data@.len(),
    ensures
        v == le_u32(data@.skip(at as int)),
        v == le_u32(data@.subrange(at as int, at + 4)),
{
    reveal(le_u32);
    data[at] as u32 + 0x100 * data[at + 1] as u32 + 0x1_0000 * data[at + 2] as u32
        + 0x100_0000 * data[at + 3] as u32
}

/// The 64-bit value starting at `at`, least significant byte first.
pub fn read_u64_le(data: &[u8], at: usize) -> (v: u64)
    requires
        at + 8 <= data@.len(),
    ensures
        v == le_u64(data@.skip(at as int)),
        v == le_u64(data@.subrange(at as int, at + 8)),
{
    assert(data.len() == data@.len());
    let lo: u32 = read_u32_le(data, at);
    let hi: u32 = read_u32_le(data, at + 4);
    proof {
        reveal(le_u32);
        reveal(le_u64);
        let whole = data@.subrange(at as int, at + 8);
        assert(data@.skip(at as int).skip(4) =~= data@.skip(at + 4));
        assert(le_u32(whole) == le_u32(data@.skip(at as int)));
        assert(le_u32(whole.skip(4)) == le_u32(data@.skip(at + 4)));
    }
    lo as u64 + 0x1_0000_0000 * hi as u64
}

/// The signed 64-bit value starting at `at`, least significant byte first.
pub fn read_i64_le(data: &[u8], at: usize) -> (v: i64)
    requires
        at + 8 <= data@.len(),
    ensures
        v == le_i64(data@.skip(at as int)),
        v == le_i64(data@.subrange(at as int, at + 8)),
{
    let v: u64 = read_u64_le(data, at);
    to_signed64(v)
}

/// The 16-bit value starting at `at`, most significant byte first.
pub fn read_u16_be(data: &[u8], at: usize) -> (v: u16)
    requires
        at + 2 <= data@.len(),
    ensures
        v == be_u16(data@.skip(at as int)),
{
    reveal(be_u16);
    assert(data.len() == data@.len());
    0x100 * data[at] as u16 + data[at + 1] as u16
}

/// The 24-bit value starting at `at`, most significant byte first.
pub fn read_u24_be(data: &[u8], at: usize) -> (v: u32)
    requires
        at + 3 <= data@.len(),
    ensures
        v == be_u24(data@.skip(at as int)),
{
    reveal(be_u24);
    assert(data.len() == data@.len());
    0x1_0000 * data[at] as u32 + 0x100 * data[at + 1] as u32 + data[at + 2] as u32
}

/// The 32-bit value starting at `at`, most significant byte first.
pub fn read_u32_be(data: &[u8], at: usize) -> (v: u32)
    requires
        at + 4 <= data@.len(),
    ensures
        v == be_u32(data@.skip(at as int)),
{
    reveal(be_u32);
    assert(data.len() == data@.len());
    0x100_0000 * data[at] as u32 + 0x1_0000 * data[at + 1] as u32 + 0x100 * data[at + 2] as u32
        + data[at + 3] as u32
}

/// The two's-complement reading of a 64-bit pattern.
pub fn to_signed64(v: u64) -> (r: i64)
    ensures
        r == signed64(v),
{
    if v <= i64::MAX as u64 {
        v as i64
    } else {
        -((u64::MAX - v) as i64) - 1
    }
}

/// The 64-bit two's-complement pattern of an integer.
pub fn to_unsigned64(v: i64) -> (r: u64)
    ensures
        r == unsigned64(v),
{
    if v >= 0 {
        v as u64
    } else {
        u64::MAX - (-(v + 1)) as u64
    }
}

/// Appends the two bytes of `v`, least significant byte first.
pub fn push_u16_le(out: &mut Vec<u8>, v: u16)
    ensures
        final(out)@ == old(out)@ + u16_le(v),
{
    out.push((v % 0x100) as u8);
    out.push((v / 0x100) as u8);
    assert(out@ =~= old(out)@ + u16_le(v));
}

/// Appends the four bytes of `v`, least significant byte first.
pub fn push_u32_le(out: &mut Vec<u8>, v: u32)
    ensures
        final(out)@ == old(out)@ + u32_le(v),
{
    out.push((v % 0x100) as u8);
    out.push((v / 0x100 % 0x100) as u8);
    out.push((v / 0x1_0000 % 0x100) as u8);
    out.push((v / 0x100_0000) as u8);
    assert(out@ =~= old(out)@ + u32_le(v));
}

/// Appends the eight bytes of `v`, least significant byte first.
pub fn push_u64_le(out: &mut Vec<u8>, v: u64)
    ensures
        final(out)@ == old(out)@ + u64_le(v),
{
    push_u32_le(out, (v % 0x1_0000_0000) as u32);
    push_u32_le(out, (v / 0x1_0000_0000) as u32);
    assert(out@ =~= old(out)@ + u64_le(v));
}

/// Appends the eight bytes of a signed integer, least significant byte first.
pub fn push_i64_le(out: &mut Vec<u8>, v: i64)
    ensures
        final(out)@ == old(out)@ + i64_le(v),
{
    push_u64_le(out, to_unsigned64(v));
}

/// Appends the two bytes of `v`, most significant byte first.
pub fn push_u16_be(out: &mut Vec<u8>, v: u16)
    ensures
        final(out)@ == old(out)@ + u16_be(v),
{
    out.push((v / 0x100) as u8);
    out.push((v % 0x100) as u8);
    assert(out@ =~= old(out)@ + u16_be(v));
}

/// Appends the low three bytes of `v`, most significant byte first.
pub fn push_u24_be(out: &mut Vec<u8>, v: u32)
    ensures
        final(out)@ == old(out)@ + u24_be(v),
{
    out.push((v / 0x1_0000 % 0x100) as u8);
    out.push((v / 0x100 % 0x100) as u8);
    out.push((v % 0x100) as u8);
    assert(out@ =~= old(out)@ + u24_be(v));
}

/// Appends the four bytes of `v`, most significant byte first.
pub fn push_u32_be(out: &mut Vec<u8>, v: u32)
    ensures
        final(out)@ == old(out)@ + u32_be(v),
{
    out.push((v / 0x100_0000) as u8);
    out.push((v / 0x1_0000 % 0x100) as u8);
    out.push((v / 0x100 % 0x100) as u8);
    out.push((v % 0x100) as u8);
    assert(out@ =~= old(out)@ + u32_be(v));
}

/// Appends every byte of `tail`.
pub fn push_all(out: &mut Vec<u8>, tail: &[u8])
    ensures
        final(out)@ == old(out)@ + tail@,
{
    out.extend_from_slice(tail);
    assert(out@ =~= old(out)@ + tail@);
}

/// Whether `data` holds the bytes of `pattern` from index `at` on.
pub open spec fn holds_at(data: Seq<u8>, at: int, pattern: Seq<u8>) -> bool {
    0 <= at && at + pattern.len() <= data.len() && data.subrange(at, at + pattern.len()) == pattern
}

/// Whether `data` holds the bytes of `pattern` from index `at` on.
pub fn matches_at(data: &[u8], at: usize, pattern: &[u8]) -> (r: bool)
    ensures
        r == holds_at(data@, at as int, pattern@),
{
    if at > data.len() || data.len() - at < pattern.len() {
        return false;
    }
    let mut i: usize = 0;
    while i < pattern.len()
        invariant
            at + pattern@.len() <= data@.len(),
            i <= pattern@.len(),
            forall|k: int| 0 <= k < i ==> data@[at + k] == pattern@[k],
        decreases pattern@.len() - i,
    {
        assert(data.len() == data@.len());
        if data[at + i] != pattern[i] {
            assert(data@.subrange(at as int, at + pattern@.len())[i as int] != pattern@[i as int]);
            return false;
        }
        i += 1;
    }
    assert(data@.subrange(at as int, at + pattern@.len()) =~= pattern@);
    true
}

/// The first index at or behind `from` where `b` stands.
pub open spec fn find_byte_from(s: Seq<u8>, b: u8, from: int) -> Option<int>
    decreases s.len() - from,
{
    if from >= s.len() {
        None
    } else if s[from] == b {
        Some(from)
    } else {
        find_byte_from(s, b, from + 1)
    }
}

/// The first index where `b` stands.
pub open spec fn find_byte(s: Seq<u8>, b: u8) -> Option<int> {
    find_byte_from(s, b, 0)
}

/// The pieces of `s` between separators: one more than there are separators.
pub open spec fn split_at_byte(s: Seq<u8>, sep: u8) -> Seq<Seq<u8>>
    decreases s.len(),
{
    match find_byte(s, sep) {
        Some(i) => if 0 <= i < s.len() {
            seq![s.take(i)] + split_at_byte(s.skip(i + 1), sep)
        } else {
            seq![s]
        },
        None => seq![s],
    }
}

/// The first `b` stands at `i` where it stands there and not before.
pub proof fn lemma_find_byte(s: Seq<u8>, b: u8, from: int, i: int)
    requires
        0 <= from <= i < s.len(),
        s[i] == b,
        forall|k: int| from <= k < i ==> s[k] != b,
    ensures
        find_byte_from(s, b, from) == Some(i),
    decreases i - from,
{
    if from < i {
        lemma_find_byte(s, b, from + 1, i);
    }
}

/// No `b` is found where none stands.
pub proof fn lemma_find_no_byte(s: Seq<u8>, b: u8, from: int)
    requires
        0 <= from <= s.len(),
        forall|k: int| from <= k < s.len() ==> s[k] != b,
    ensures
        find_byte_from(s, b, from) is None,
    decreases s.len() - from,
{
    if from < s.len() {
        lemma_find_no_byte(s, b, from + 1);
    }
}

/// No `b` stands before the first one that is found.
pub proof fn lemma_found_byte(s: Seq<u8>, b: u8, from: int)
    requires
        0 <= from <= s.len(),
    ensures
        match find_byte_from(s, b, from) {
            Some(i) => from <= i < s.len() && s[i] == b && forall|k: int|
                from <= k < i ==> s[k] != b,
            None => forall|k: int| from <= k < s.len() ==> s[k] != b,
        },
    decreases s.len() - from,
{
    if from < s.len() && s[from] != b {
        lemma_found_byte(s, b, from + 1);
    }
}

/// The first index where `b` stands.
pub fn position_byte(data: &[u8], b: u8) -> (r: Option<usize>)
    ensures
        match r {
            Some(i) => find_byte(data@, b) == Some(i as int) && i < data@.len(),
            None => find_byte(data@, b) is None,
        },
{
    let mut i: usize = 0;
    while i < data.len()
        invariant
            i <= data@.len(),
            find_byte(data@, b) == find_byte_from(data@, b, i as int),
        decreases data@.len() - i,
    {
        if data[i] == b {
            return Some(i);
        }
        i += 1;
    }
    None
}

} // verus!
