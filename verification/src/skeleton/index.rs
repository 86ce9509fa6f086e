//! The 4.0 `index` packet: keyframe positions of one content stream.
use crate::bytes;
use crate::bytes::{
    matches_at, push_all, push_i64_le, push_u32_le, push_u64_le, read_i64_le, read_u32_le,
    read_u64_le, to_signed64, to_unsigned64,
};
use crate::error::{Error, Fault};
use vstd::prelude::*;

verus! {

/// `index` and a zero byte.
pub const INDEX_MAGIC: [u8; 6] = [0x69, 0x6E, 0x64, 0x65, 0x78, 0x00];

/// Length of the packet's fixed part.
pub const INDEX_FIXED_LEN: usize = 42;

// ---------------------------------------------------------------------------
// Variable-byte integers
// ---------------------------------------------------------------------------
/// `n` in groups of seven bits, least significant first; the last byte has its
/// high bit set.
pub open spec fn vbi(n: nat) -> Seq<u8>
    decreases n,
{
    if n < 128 {
        seq![(n + 128) as u8]
    } else {
        seq![(n % 128) as u8] + vbi(n / 128)
    }
}

/// Number of bytes up to and with the first one that has its high bit set, 0
/// where none has.
pub open spec fn vbi_len(buf: Seq<u8>) -> nat
    decreases buf.len(),
{
    if buf.len() == 0 {
        0
    } else if buf[0] >= 128 {
        1
    } else {
        let rest = vbi_len(buf.skip(1));
        if rest == 0 {
            0
        } else {
            rest + 1
        }
    }
}

/// The number that groups of seven bits stand for.
pub open spec fn vbi_value(buf: Seq<u8>) -> nat
    decreases buf.len(),
{
    if buf.len() == 0 {
        0
    } else {
        buf[0] as nat % 128 + 128 * vbi_value(buf.skip(1))
    }
}

/// What reading a variable-byte integer from the start of `buf` gives: its
/// value, of which 64 bits are kept, and its length, at most ten bytes.
pub open spec fn vbi_read(buf: Seq<u8>) -> Option<(u64, nat)> {
    let n = vbi_len(buf);
    if n == 0 || n > 10 {
        None
    } else {
        Some(((vbi_value(buf.take(n as int)) % 0x1_0000_0000_0000_0000) as u64, n))
    }
}

/// Appends `n` as a variable-byte integer.
pub fn write_vbi_u64(out: &mut Vec<u8>, n: u64)
    ensures
        final(out)@ == old(out)@ + vbi(n as nat),
{
    let ghost before = out@;
    let mut left: u64 = n;
    while left >= 128
        invariant
            before + vbi(n as nat) == out@ + vbi(left as nat),
        decreases left,
    {
        let ghost here = out@;
        out.push((left % 128) as u8);
        assert(out@ + vbi((left / 128) as nat) =~= here + (seq![(left % 128) as u8] + vbi(
            (left / 128) as nat,
        )));
        left = left / 128;
    }
    out.push((left + 128) as u8);
    assert(out@ =~= before + vbi(n as nat));
}

/// 128 to the power of `k`.
pub open spec fn pow128(k: nat) -> nat
    decreases k,
{
    if k == 0 {
        1
    } else {
        128 * pow128((k - 1) as nat)
    }
}

proof fn lemma_pow128()
    ensures
        pow128(0) == 1,
        forall|k: nat| k < 9 ==> #[trigger] pow128(k + 1) == 128 * pow128(k),
        pow128(9) == 0x8000_0000_0000_0000,
        forall|k: nat| k <= 9 ==> 1 <= #[trigger] pow128(k) <= 0x8000_0000_0000_0000,
{
    reveal_with_fuel(pow128, 11);
    assert forall|k: nat| k <= 9 implies 1 <= #[trigger] pow128(k) <= 0x8000_0000_0000_0000 by {
        if k == 0 || k == 1 || k == 2 || k == 3 || k == 4 || k == 5 || k == 6 || k == 7 || k == 8
            || k == 9 {
        }
    }
}

/// One more group adds its bits above those before it.
proof fn lemma_vbi_value_push(s: Seq<u8>, b: u8)
    ensures
        vbi_value(s.push(b)) == vbi_value(s) + (b as nat % 128) * pow128(s.len()),
        vbi_value(s) < pow128(s.len()),
    decreases s.len(),
{
    if s.len() == 0 {
        assert(s.push(b).skip(1) =~= Seq::<u8>::empty());
        assert(vbi_value(s.push(b).skip(1)) == 0);
        let c = b as nat % 128;
        let one = pow128(0);
        assert(c * one == c) by (nonlinear_arith)
            requires
                one == 1,
        ;
    } else {
        lemma_vbi_value_push(s.skip(1), b);
        assert(s.push(b).skip(1) =~= s.skip(1).push(b));
        let inner = vbi_value(s.skip(1));
        let c = b as int % 128;
        let p = pow128((s.len() - 1) as nat) as int;
        assert(128 * (inner + c * p) == 128 * inner + c * (128 * p)) by (nonlinear_arith);
        assert(pow128(s.len()) == 128 * p);
        assert((b as nat % 128) * pow128(s.len()) == c * (128 * p));
        assert((b as nat % 128) * pow128((s.len() - 1) as nat) == c * p);
    }
}

/// A run of bytes without a high bit before `buf` only shifts its length.
proof fn lemma_vbi_len_skip(buf: Seq<u8>, i: int)
    requires
        0 <= i <= buf.len(),
        forall|k: int| 0 <= k < i ==> buf[k] < 128,
    ensures
        vbi_len(buf) == (if vbi_len(buf.skip(i)) == 0 {
            0
        } else {
            vbi_len(buf.skip(i)) + i as nat
        }),
    decreases i,
{
    if i == 0 {
        assert(buf.skip(0) =~= buf);
    } else {
        lemma_vbi_len_skip(buf.skip(1), i - 1);
        assert(buf.skip(1).skip(i - 1) =~= buf.skip(i));
    }
}

/// Reads a variable-byte integer from the start of `buf`: its value and the
/// number of bytes it takes. `None` where it does not end within ten bytes.
pub fn read_vbi_u64(buf: &[u8]) -> (r: Option<(u64, usize)>)
    ensures
        match r {
            Some((v, n)) => vbi_read(buf@) == Some((v, n as nat)) && 0 < n <= buf@.len(),
            None => vbi_read(buf@) is None,
        },
{
    let mut value: u64 = 0;
    let mut weight: u64 = 1;
    let mut i: usize = 0;
    proof {
        lemma_pow128();
        assert(vbi_value(buf@.take(0)) == 0);
    }
    while i < buf.len() && i < 10
        invariant
            i <= buf@.len(),
            i <= 10,
            forall|k: int| 0 <= k < i ==> buf@[k] < 128,
            i <= 9 ==> weight == pow128(i as nat),
            i <= 9 ==> value == vbi_value(buf@.take(i as int)),
            i <= 9 ==> value < weight,
        decreases 10 - i,
    {
        let b: u8 = buf[i];
        let chunk: u64 = (b % 128) as u64;
        let ghost prefix = buf@.take(i as int);
        proof {
            lemma_pow128();
            lemma_vbi_value_push(prefix, b);
            lemma_vbi_value_push(prefix.push(b), 0);
            assert(prefix.push(b) =~= buf@.take(i + 1));
            assert(chunk * weight <= 127 * weight) by (nonlinear_arith)
                requires
                    chunk <= 127,
                    0 <= weight,
            ;
        }
        if b >= 128 {
            proof {
                lemma_vbi_len_skip(buf@, i as int);
                assert(buf@.skip(i as int)[0] >= 128);
                assert(vbi_len(buf@) == i + 1);
            }
            if i == 9 {
                // Only the lowest bit of the tenth group lies within 64 bits.
                let top: u64 = (chunk % 2) * 0x8000_0000_0000_0000;
                proof {
                    let whole = vbi_value(buf@.take(i + 1));
                    assert(whole == value + chunk * 0x8000_0000_0000_0000);
                    assert((value + chunk * 0x8000_0000_0000_0000) % 0x1_0000_0000_0000_0000
                        == value + (chunk % 2) * 0x8000_0000_0000_0000);
                }
                return Some((value + top, 10));
            }
            proof {
                lemma_small_weight(i as nat);
            }
            return Some((value + chunk * weight, i + 1));
        }
        if i < 9 {
            proof {
                lemma_small_weight(i as nat);
            }
            value = value + chunk * weight;
            weight = weight * 128;
        }
        i += 1;
    }
    proof {
        if i == 10 {
            lemma_vbi_len_skip(buf@, 10);
            if vbi_len(buf@.skip(10)) > 0 {
                assert(vbi_len(buf@) > 10);
            }
        } else {
            lemma_vbi_len_skip(buf@, i as int);
            assert(buf@.skip(i as int).len() == 0);
        }
    }
    None
}

proof fn lemma_small_weight(i: nat)
    requires
        i < 9,
    ensures
        128 * pow128(i) <= 0x8000_0000_0000_0000,
{
    lemma_pow128();
    assert(pow128(i + 1) == 128 * pow128(i));
}

/// Reading a written integer, whatever follows it, gives it back and takes
/// exactly its bytes.
pub proof fn law_vbi_round_trip(n: u64, tail: Seq<u8>)
    ensures
        vbi_read(vbi(n as nat) + tail) == Some((n, vbi(n as nat).len())),
        1 <= vbi(n as nat).len() <= 10,
{
    lemma_vbi(n as nat, tail);
    lemma_pow128();
    let e = vbi(n as nat);
    assert((e + tail).take(e.len() as int) =~= e);
    if e.len() > 10 {
        lemma_vbi_long(n as nat, 10);
        reveal_with_fuel(pow128, 11);
    }
}

proof fn lemma_vbi(n: nat, tail: Seq<u8>)
    ensures
        vbi_len(vbi(n) + tail) == vbi(n).len(),
        vbi_value(vbi(n)) == n,
        vbi(n).len() >= 1,
    decreases n,
{
    let e = vbi(n);
    if n < 128 {
        assert(e.skip(1) =~= Seq::<u8>::empty());
        assert(vbi_value(e.skip(1)) == 0);
    } else {
        lemma_vbi(n / 128, tail);
        assert(e.skip(1) =~= vbi(n / 128));
        assert((e + tail).skip(1) =~= vbi(n / 128) + tail);
    }
}

/// A number with more than `k` groups is at least 128 to the power of `k`.
proof fn lemma_vbi_long(n: nat, k: nat)
    requires
        k >= 1,
        vbi(n).len() > k,
    ensures
        n >= pow128(k),
    decreases k,
{
    assert(vbi(n).skip(1) =~= vbi(n / 128));
    if k > 1 {
        lemma_vbi_long(n / 128, (k - 1) as nat);
    } else {
        assert(pow128(0) == 1);
    }
}

// ---------------------------------------------------------------------------
// The packet
// ---------------------------------------------------------------------------
/// One entry of a keyframe index.
#[derive(Clone, Copy, Debug, PartialEq, Eq, Structural)]
pub struct KeyPoint {
    /// Byte offset of the page from the start of the segment.
    pub offset: u64,
    /// Numerator of the presentation time.
    pub timestamp: i64,
}

/// The `index` packet.
#[derive(Clone, Debug, PartialEq, Eq)]
pub struct SkelIndex {
    /// Serial of the indexed content stream.
    pub serial: u32,
    /// Denominator of every time in the packet; zero marks unknown times.
    pub timestamp_denominator: i64,
    /// Numerator of the first sample's time.
    pub first_sample_time: i64,
    /// Numerator of the last sample's end time.
    pub last_sample_time: i64,
    /// The keypoints.
    pub keypoints: Vec<KeyPoint>,
}

/// What a [`SkelIndex`] stands for.
#[verifier::ext_equal]
pub struct SkelIndexView {
    pub serial: u32,
    pub timestamp_denominator: i64,
    pub first_sample_time: i64,
    pub last_sample_time: i64,
    pub keypoints: Seq<KeyPoint>,
}

impl View for SkelIndex {
    type V = SkelIndexView;

    open spec fn view(&self) -> SkelIndexView {
        SkelIndexView {
            serial: self.serial,
            timestamp_denominator: self.timestamp_denominator,
            first_sample_time: self.first_sample_time,
            last_sample_time: self.last_sample_time,
            keypoints: self.keypoints@,
        }
    }
}

/// The keypoint before all others.
pub open spec fn origin() -> KeyPoint {
    KeyPoint { offset: 0, timestamp: 0 }
}

/// The last keypoint, the origin where there is none.
pub open spec fn last_keypoint(points: Seq<KeyPoint>) -> KeyPoint {
    if points.len() == 0 {
        origin()
    } else {
        points.last()
    }
}

/// How far a keypoint lies behind another: its offset, none where it lies
/// before it, and its timestamp around the 64-bit circle.
pub open spec fn keypoint_delta(prev: KeyPoint, kp: KeyPoint) -> (u64, u64) {
    (
        if kp.offset >= prev.offset {
            (kp.offset - prev.offset) as u64
        } else {
            0
        },
        ((kp.timestamp - prev.timestamp) % 0x1_0000_0000_0000_0000) as u64,
    )
}

/// The keypoints as differences, each a pair of variable-byte integers.
pub open spec fn keypoints_encoded(points: Seq<KeyPoint>) -> Seq<u8>
    decreases points.len(),
{
    if points.len() == 0 {
        Seq::empty()
    } else {
        let before = points.drop_last();
        let (offset, timestamp) = keypoint_delta(last_keypoint(before), points.last());
        keypoints_encoded(before) + vbi(offset as nat) + vbi(timestamp as nat)
    }
}

/// The keypoint that a pair of differences leads to, where its offset fits 64
/// bits.
pub open spec fn advanced(prev: KeyPoint, offset: u64, timestamp: u64) -> Option<KeyPoint> {
    if prev.offset + offset > u64::MAX {
        None
    } else {
        Some(
            KeyPoint {
                offset: (prev.offset + offset) as u64,
                timestamp: bytes::signed64(
                    ((bytes::unsigned64(prev.timestamp) + timestamp)
                        % 0x1_0000_0000_0000_0000) as u64,
                ),
            },
        )
    }
}

/// The `count` keypoints at the start of `buf`, behind the keypoint `prev`, or
/// what is wrong with the first bad one.
pub open spec fn keypoints_in(buf: Seq<u8>, count: nat, prev: KeyPoint) -> Result<
    Seq<KeyPoint>,
    Fault,
>
    decreases count,
{
    if count == 0 {
        Ok(Seq::empty())
    } else {
        match vbi_read(buf) {
            None => Err(Fault::IndexOffset),
            Some((offset, n1)) => {
                let rest = buf.skip(n1 as int);
                match vbi_read(rest) {
                    None => Err(Fault::IndexTimestamp),
                    Some((timestamp, n2)) => match advanced(prev, offset, timestamp) {
                        None => Err(Fault::IndexOffsetRange),
                        Some(kp) => match keypoints_in(
                            rest.skip(n2 as int),
                            (count - 1) as nat,
                            kp,
                        ) {
                            Err(fault) => Err(fault),
                            Ok(more) => Ok(seq![kp] + more),
                        },
                    },
                }
            },
        }
    }
}

impl SkelIndexView {
    /// The packet's fixed part, declaring `count` keypoints.
    pub open spec fn fixed_part(self, count: u64) -> Seq<u8> {
        INDEX_MAGIC@ + bytes::u32_le(self.serial) + bytes::u64_le(count) + bytes::i64_le(
            self.timestamp_denominator,
        ) + bytes::i64_le(self.first_sample_time) + bytes::i64_le(self.last_sample_time)
    }

    /// The packet.
    pub open spec fn encoded(self) -> Seq<u8> {
        self.fixed_part(self.keypoints.len() as u64) + keypoints_encoded(self.keypoints)
    }
}

/// What reading the packet `p` gives.
pub open spec fn parsed_index(p: Seq<u8>) -> Result<SkelIndexView, Error> {
    if p.len() < 42 {
        Err(Error::InvalidData(Fault::IndexLength { len: p.len() as usize }))
    } else if p.take(6) != INDEX_MAGIC@ {
        Err(Error::InvalidData(Fault::IndexMagic))
    } else {
        match keypoints_in(p.skip(42), bytes::le_u64(p.skip(10)) as nat, origin()) {
            Err(fault) => Err(Error::InvalidData(fault)),
            Ok(keypoints) => Ok(
                SkelIndexView {
                    serial: bytes::le_u32(p.skip(6)),
                    timestamp_denominator: bytes::le_i64(p.skip(18)),
                    first_sample_time: bytes::le_i64(p.skip(26)),
                    last_sample_time: bytes::le_i64(p.skip(34)),
                    keypoints,
                },
            ),
        }
    }
}

/// Offsets and timestamps do not decrease.
pub open spec fn ordered(points: Seq<KeyPoint>) -> bool {
    forall|i: int, j: int|
        0 <= i <= j < points.len() ==> points[i].offset <= points[j].offset && points[i].timestamp
            <= points[j].timestamp
}

impl SkelIndex {
    /// An empty index.
    pub fn new(serial: u32, timestamp_denominator: i64) -> (r: Self)
        ensures
            r@ == (SkelIndexView {
                serial,
                timestamp_denominator,
                first_sample_time: 0,
                last_sample_time: 0,
                keypoints: Seq::empty(),
            }),
    {
        SkelIndex {
            serial,
            timestamp_denominator,
            first_sample_time: 0,
            last_sample_time: 0,
            keypoints: Vec::new(),
        }
    }

    /// Reads an `index` packet.
    pub fn parse(packet: &[u8]) -> (r: Result<Self, Error>)
        ensures
            match r {
                Ok(i) => parsed_index(packet@) == Ok::<SkelIndexView, Error>(i@),
                Err(e) => parsed_index(packet@) == Err::<SkelIndexView, Error>(e),
            },
    {
        let n: usize = packet.len();
        if n < INDEX_FIXED_LEN {
            return Err(Error::InvalidData(Fault::IndexLength { len: n }));
        }
        assert(packet@.subrange(0, 6) =~= packet@.take(6));
        if !matches_at(packet, 0, &INDEX_MAGIC) {
            return Err(Error::InvalidData(Fault::IndexMagic));
        }
        let serial: u32 = read_u32_le(packet, 6);
        let count: u64 = read_u64_le(packet, 10);
        let timestamp_denominator: i64 = read_i64_le(packet, 18);
        let first_sample_time: i64 = read_i64_le(packet, 26);
        let last_sample_time: i64 = read_i64_le(packet, 34);
        let mut keypoints: Vec<KeyPoint> = Vec::new();
        let mut cursor: usize = INDEX_FIXED_LEN;
        let mut last = KeyPoint { offset: 0, timestamp: 0 };
        let mut left: u64 = count;
        let ghost all = keypoints_in(packet@.skip(42), count as nat, origin());
        proof {
            if all is Ok {
                assert(keypoints@ + all->Ok_0 =~= all->Ok_0);
            }
        }
        while left > 0
            invariant
                n == packet@.len(),
                42 <= cursor <= n,
                match keypoints_in(packet@.skip(cursor as int), left as nat, last) {
                    Ok(more) => all == Ok::<Seq<KeyPoint>, Fault>(keypoints@ + more),
                    Err(fault) => all == Err::<Seq<KeyPoint>, Fault>(fault),
                },
                packet@.len() >= 42,
                packet@.take(6) == INDEX_MAGIC@,
                all == keypoints_in(
                    packet@.skip(42),
                    bytes::le_u64(packet@.skip(10)) as nat,
                    origin(),
                ),
            decreases left,
        {
            let ghost here = packet@.skip(cursor as int);
            let ghost before = keypoints@;
            let tail = vstd::slice::slice_subrange(packet, cursor, n);
            assert(tail@ =~= here);
            let (offset, n1) = match read_vbi_u64(tail) {
                Some(v) => v,
                None => return Err(Error::InvalidData(Fault::IndexOffset)),
            };
            cursor += n1;
            let tail2 = vstd::slice::slice_subrange(packet, cursor, n);
            assert(tail2@ =~= here.skip(n1 as int));
            let (timestamp, n2) = match read_vbi_u64(tail2) {
                Some(v) => v,
                None => return Err(Error::InvalidData(Fault::IndexTimestamp)),
            };
            cursor += n2;
            let next_offset: u64 = match last.offset.checked_add(offset) {
                Some(v) => v,
                None => return Err(Error::InvalidData(Fault::IndexOffsetRange)),
            };
            let pattern: u64 = to_unsigned64(last.timestamp).wrapping_add(timestamp);
            let kp = KeyPoint { offset: next_offset, timestamp: to_signed64(pattern) };
            proof {
                assert(pattern == (bytes::unsigned64(last.timestamp) + timestamp)
                    % 0x1_0000_0000_0000_0000);
                assert(advanced(last, offset, timestamp) == Some(kp));
                assert(here.skip(n1 as int).skip(n2 as int) =~= packet@.skip(cursor as int));
                let rest = keypoints_in(packet@.skip(cursor as int), (left - 1) as nat, kp);
                if rest is Ok {
                    assert(before + (seq![kp] + rest->Ok_0) =~= before.push(kp) + rest->Ok_0);
                }
            }
            keypoints.push(kp);
            last = kp;
            left -= 1;
        }
        proof {
            assert(keypoints@ + Seq::<KeyPoint>::empty() =~= keypoints@);
        }
        Ok(
            SkelIndex {
                serial,
                timestamp_denominator,
                first_sample_time,
                last_sample_time,
                keypoints,
            },
        )
    }

    /// The packet.
    pub fn to_bytes(&self) -> (out: Vec<u8>)
        ensures
            out@ == self@.encoded(),
    {
        let mut out: Vec<u8> = Vec::new();
        push_all(&mut out, &INDEX_MAGIC);
        push_u32_le(&mut out, self.serial);
        push_u64_le(&mut out, self.keypoints.len() as u64);
        push_i64_le(&mut out, self.timestamp_denominator);
        push_i64_le(&mut out, self.first_sample_time);
        push_i64_le(&mut out, self.last_sample_time);
        let ghost fixed = self@.fixed_part(self@.keypoints.len() as u64);
        assert(out@ =~= fixed);
        let mut last = KeyPoint { offset: 0, timestamp: 0 };
        let mut i: usize = 0;
        assert(fixed + keypoints_encoded(self.keypoints@.take(0)) =~= fixed);
        while i < self.keypoints.len()
            invariant
                i <= self.keypoints@.len(),
                last == last_keypoint(self.keypoints@.take(i as int)),
                out@ == fixed + keypoints_encoded(self.keypoints@.take(i as int)),
            decreases self.keypoints@.len() - i,
        {
            let ghost here = out@;
            let kp = self.keypoints[i];
            let offset: u64 = kp.offset.saturating_sub(last.offset);
            let timestamp: u64 = to_unsigned64(kp.timestamp).wrapping_sub(
                to_unsigned64(last.timestamp),
            );
            proof {
                let points = self.keypoints@.take(i + 1);
                assert(points.drop_last() =~= self.keypoints@.take(i as int));
                lemma_timestamp_delta(last.timestamp, kp.timestamp, timestamp);
                assert(keypoint_delta(last, kp) == (offset, timestamp));
            }
            write_vbi_u64(&mut out, offset);
            write_vbi_u64(&mut out, timestamp);
            assert(out@ =~= fixed + keypoints_encoded(self.keypoints@.take(i + 1)));
            last = kp;
            i += 1;
        }
        assert(self.keypoints@.take(i as int) =~= self.keypoints@);
        out
    }

    /// Appends a keypoint.
    pub fn push(&mut self, offset: u64, timestamp: i64)
        ensures
            final(self)@ == (SkelIndexView {
                keypoints: old(self)@.keypoints.push(KeyPoint { offset, timestamp }),
                ..old(self)@
            }),
    {
        self.keypoints.push(KeyPoint { offset, timestamp });
    }

    /// Whether offsets and timestamps never decrease.
    pub fn is_sorted_by_offset(&self) -> (r: bool)
        ensures
            r == ordered(self@.keypoints),
    {
        let n: usize = self.keypoints.len();
        let mut i: usize = 1;
        while i < n
            invariant
                n == self.keypoints@.len(),
                1 <= i,
                i <= n || n == 0,
                n > 0 ==> ordered(self.keypoints@.take(i as int)),
            decreases n - i,
        {
            let a = self.keypoints[i - 1];
            let b = self.keypoints[i];
            if a.offset > b.offset || a.timestamp > b.timestamp {
                assert(self@.keypoints[i - 1] == a && self@.keypoints[i as int] == b);
                return false;
            }
            proof {
                let (s, t) = (self.keypoints@.take(i as int), self.keypoints@.take(i + 1));
                assert forall|x: int, y: int| 0 <= x <= y < t.len() implies t[x].offset
                    <= t[y].offset && t[x].timestamp <= t[y].timestamp by {
                    if y < i {
                        assert(t[x] == s[x] && t[y] == s[y]);
                    } else if x < i {
                        assert(t[x] == s[x] && s[i - 1] == a);
                    }
                }
            }
            i += 1;
        }
        proof {
            if n > 0 {
                assert(self.keypoints@.take(i as int) =~= self.keypoints@);
            }
        }
        true
    }

    /// The last keypoint at or before the time with numerator `target`.
    ///
    /// The search halves the table, so it relies on timestamps that never
    /// decrease; in any table the keypoint returned is at or before `target`
    /// and the one behind it is not.
    pub fn keypoint_at_or_before(&self, target: i64) -> (r: Option<usize>)
        ensures
            match r {
                Some(i) => {
                    &&& i < self@.keypoints.len()
                    &&& self@.keypoints[i as int].timestamp <= target
                    &&& i + 1 < self@.keypoints.len() ==> self@.keypoints[i + 1].timestamp > target
                },
                None => self@.keypoints.len() > 0 ==> self@.keypoints[0].timestamp > target,
            },
            ordered(self@.keypoints) ==> forall|k: int|
                0 <= k < self@.keypoints.len() ==> ((#[trigger] self@.keypoints[k]).timestamp
                    <= target <==> r is Some && k <= r->Some_0),
    {
        let mut lo: usize = 0;
        let mut hi: usize = self.keypoints.len();
        while lo < hi
            invariant
                lo <= hi <= self.keypoints@.len(),
                lo > 0 ==> self.keypoints@[lo - 1].timestamp <= target,
                hi < self.keypoints@.len() ==> self.keypoints@[hi as int].timestamp > target,
            decreases hi - lo,
        {
            let mid: usize = lo + (hi - lo) / 2;
            if self.keypoints[mid].timestamp <= target {
                lo = mid + 1;
            } else {
                hi = mid;
            }
        }
        if lo == 0 {
            None
        } else {
            Some(lo - 1)
        }
    }
}

proof fn lemma_timestamp_delta(from: i64, to: i64, delta: u64)
    requires
        delta == (if bytes::unsigned64(to) >= bytes::unsigned64(from) {
            bytes::unsigned64(to) - bytes::unsigned64(from)
        } else {
            bytes::unsigned64(to) - bytes::unsigned64(from) + 0x1_0000_0000_0000_0000
        }),
    ensures
        delta == (to - from) % 0x1_0000_0000_0000_0000,
{
}

/// Offsets never decrease, from `prev` on.
spec fn rising(points: Seq<KeyPoint>, prev: KeyPoint) -> bool
    decreases points.len(),
{
    points.len() > 0 ==> prev.offset <= points[0].offset && rising(points.skip(1), points[0])
}

/// The keypoints as differences, the first from `prev`.
spec fn encoded_from(points: Seq<KeyPoint>, prev: KeyPoint) -> Seq<u8>
    decreases points.len(),
{
    if points.len() == 0 {
        Seq::empty()
    } else {
        let (offset, timestamp) = keypoint_delta(prev, points[0]);
        vbi(offset as nat) + vbi(timestamp as nat) + encoded_from(points.skip(1), points[0])
    }
}

proof fn lemma_encoded_push(points: Seq<KeyPoint>, prev: KeyPoint, kp: KeyPoint)
    ensures
        ({
            let last = if points.len() == 0 {
                prev
            } else {
                points.last()
            };
            let (offset, timestamp) = keypoint_delta(last, kp);
            encoded_from(points.push(kp), prev) == encoded_from(points, prev) + vbi(
                offset as nat,
            ) + vbi(timestamp as nat)
        }),
    decreases points.len(),
{
    let all = points.push(kp);
    if points.len() == 0 {
        let none = all.skip(1);
        assert(none.len() == 0);
        assert(encoded_from(none, kp) =~= Seq::<u8>::empty());
        let (offset, timestamp) = keypoint_delta(prev, kp);
        assert(encoded_from(all, prev) =~= vbi(offset as nat) + vbi(timestamp as nat));
        assert(encoded_from(points, prev) + vbi(offset as nat) =~= vbi(offset as nat));
    } else {
        lemma_encoded_push(points.skip(1), points[0], kp);
        assert(all.skip(1) =~= points.skip(1).push(kp));
        let last = points.last();
        let (o, t) = keypoint_delta(last, kp);
        let (o0, t0) = keypoint_delta(prev, points[0]);
        assert(encoded_from(all, prev) =~= vbi(o0 as nat) + vbi(t0 as nat) + (encoded_from(
            points.skip(1),
            points[0],
        ) + vbi(o as nat) + vbi(t as nat)));
        assert(encoded_from(points, prev) + vbi(o as nat) + vbi(t as nat) =~= vbi(o0 as nat) + vbi(
            t0 as nat,
        ) + (encoded_from(points.skip(1), points[0]) + vbi(o as nat) + vbi(t as nat)));
    }
}

proof fn lemma_encoded_from(points: Seq<KeyPoint>)
    ensures
        keypoints_encoded(points) == encoded_from(points, origin()),
    decreases points.len(),
{
    if points.len() > 0 {
        lemma_encoded_from(points.drop_last());
        lemma_encoded_push(points.drop_last(), origin(), points.last());
        assert(points.drop_last().push(points.last()) =~= points);
    }
}

proof fn lemma_advanced(prev: KeyPoint, kp: KeyPoint)
    requires
        prev.offset <= kp.offset,
    ensures
        advanced(prev, keypoint_delta(prev, kp).0, keypoint_delta(prev, kp).1) == Some(kp),
{
    let d = (kp.timestamp - prev.timestamp) % 0x1_0000_0000_0000_0000;
    assert(d == (if kp.timestamp >= prev.timestamp {
        kp.timestamp - prev.timestamp
    } else {
        kp.timestamp - prev.timestamp + 0x1_0000_0000_0000_0000
    }));
    assert((bytes::unsigned64(prev.timestamp) + d) % 0x1_0000_0000_0000_0000 == bytes::unsigned64(
        kp.timestamp,
    ));
}

proof fn lemma_keypoints_read(points: Seq<KeyPoint>, prev: KeyPoint, tail: Seq<u8>)
    requires
        rising(points, prev),
    ensures
        keypoints_in(encoded_from(points, prev) + tail, points.len(), prev) == Ok::<
            Seq<KeyPoint>,
            Fault,
        >(points),
    decreases points.len(),
{
    if points.len() == 0 {
        assert(points =~= Seq::<KeyPoint>::empty());
    } else {
        let kp = points[0];
        let (o, t) = keypoint_delta(prev, kp);
        let more = encoded_from(points.skip(1), kp) + tail;
        let buf = encoded_from(points, prev) + tail;
        assert(buf =~= vbi(o as nat) + (vbi(t as nat) + more));
        law_vbi_round_trip(o, vbi(t as nat) + more);
        law_vbi_round_trip(t, more);
        let rest = buf.skip(vbi(o as nat).len() as int);
        assert(rest =~= vbi(t as nat) + more);
        assert(rest.skip(vbi(t as nat).len() as int) =~= more);
        lemma_advanced(prev, kp);
        lemma_keypoints_read(points.skip(1), kp, tail);
        assert(seq![kp] + points.skip(1) =~= points);
    }
}

proof fn lemma_rising(points: Seq<KeyPoint>, prev: KeyPoint)
    requires
        forall|i: int, j: int|
            0 <= i <= j < points.len() ==> points[i].offset <= points[j].offset,
        points.len() > 0 ==> prev.offset <= points[0].offset,
    ensures
        rising(points, prev),
    decreases points.len(),
{
    if points.len() > 0 {
        lemma_rising(points.skip(1), points[0]);
    }
}

/// Reading a written index, whatever follows it, gives it back, where its
/// offsets never decrease.
pub proof fn law_index_round_trip(x: SkelIndexView, tail: Seq<u8>)
    requires
        x.keypoints.len() <= u64::MAX,
        forall|i: int, j: int|
            0 <= i <= j < x.keypoints.len() ==> x.keypoints[i].offset <= x.keypoints[j].offset,
    ensures
        parsed_index(x.encoded() + tail) == Ok::<SkelIndexView, Error>(x),
{
    let p = x.encoded() + tail;
    let count = x.keypoints.len() as u64;
    assert(p.take(6) =~= INDEX_MAGIC@);
    assert(bytes::le_u32(p.skip(6)) == x.serial) by {
        assert(p.skip(6) =~= bytes::u32_le(x.serial) + p.skip(10));
        bytes::law_u32_le_round_trip(x.serial, p.skip(10));
    }
    assert(bytes::le_u64(p.skip(10)) == count) by {
        assert(p.skip(10) =~= bytes::u64_le(count) + p.skip(18));
        bytes::law_u64_le_round_trip(count, p.skip(18));
    }
    assert(bytes::le_i64(p.skip(18)) == x.timestamp_denominator) by {
        assert(p.skip(18) =~= bytes::i64_le(x.timestamp_denominator) + p.skip(26));
        bytes::law_i64_le_round_trip(x.timestamp_denominator, p.skip(26));
    }
    assert(bytes::le_i64(p.skip(26)) == x.first_sample_time) by {
        assert(p.skip(26) =~= bytes::i64_le(x.first_sample_time) + p.skip(34));
        bytes::law_i64_le_round_trip(x.first_sample_time, p.skip(34));
    }
    assert(bytes::le_i64(p.skip(34)) == x.last_sample_time) by {
        assert(p.skip(34) =~= bytes::i64_le(x.last_sample_time) + p.skip(42));
        bytes::law_i64_le_round_trip(x.last_sample_time, p.skip(42));
    }
    assert(p.skip(42) =~= keypoints_encoded(x.keypoints) + tail);
    lemma_encoded_from(x.keypoints);
    lemma_rising(x.keypoints, origin());
    lemma_keypoints_read(x.keypoints, origin(), tail);
}

/// An integer that is cut short is not read.
proof fn lemma_vbi_cut(n: nat, k: int)
    requires
        0 <= k < vbi(n).len(),
    ensures
        vbi_len(vbi(n).take(k)) == 0,
    decreases n,
{
    let e = vbi(n);
    if n >= 128 && k > 0 {
        lemma_vbi_cut(n / 128, k - 1);
        assert(e.take(k).skip(1) =~= vbi(n / 128).take(k - 1));
    }
}

/// Keypoints that are cut short are refused, wherever they are counted from.
proof fn lemma_keypoints_cut(points: Seq<KeyPoint>, prev: KeyPoint, k: int, from: KeyPoint)
    requires
        0 <= k < encoded_from(points, prev).len(),
    ensures
        keypoints_in(encoded_from(points, prev).take(k), points.len(), from) is Err,
    decreases points.len(),
{
    let all = encoded_from(points, prev);
    let (o, t) = keypoint_delta(prev, points[0]);
    let (a, b) = (vbi(o as nat), vbi(t as nat));
    let more = encoded_from(points.skip(1), points[0]);
    let buf = all.take(k);
    if k < a.len() {
        lemma_vbi_cut(o as nat, k);
        assert(buf =~= a.take(k));
    } else if k < a.len() + b.len() {
        let cut = b.take(k - a.len());
        assert(buf =~= a + cut);
        law_vbi_round_trip(o, cut);
        lemma_vbi_cut(t as nat, k - a.len());
        assert(buf.skip(a.len() as int) =~= cut);
    } else {
        let cut = more.take(k - a.len() - b.len());
        assert(buf =~= a + (b + cut));
        law_vbi_round_trip(o, b + cut);
        law_vbi_round_trip(t, cut);
        let rest = buf.skip(a.len() as int);
        assert(rest =~= b + cut);
        assert(rest.skip(b.len() as int) =~= cut);
        if let Some(kp) = advanced(from, o, t) {
            lemma_keypoints_cut(points.skip(1), points[0], k - a.len() - b.len(), kp);
        }
    }
}

/// A written index that is cut short, wherever it is cut, is refused.
pub proof fn law_index_cut(x: SkelIndexView, k: int)
    requires
        x.keypoints.len() <= u64::MAX,
        0 <= k < x.encoded().len(),
    ensures
        parsed_index(x.encoded().take(k)) is Err,
{
    let p = x.encoded().take(k);
    let count = x.keypoints.len() as u64;
    if k >= 42 {
        assert(p.take(6) =~= INDEX_MAGIC@);
        assert(bytes::le_u64(p.skip(10)) == count) by {
            assert(p.skip(10) =~= bytes::u64_le(count) + p.skip(18));
            bytes::law_u64_le_round_trip(count, p.skip(18));
        }
        lemma_encoded_from(x.keypoints);
        assert(p.skip(42) =~= encoded_from(x.keypoints, origin()).take(k - 42));
        lemma_keypoints_cut(x.keypoints, origin(), k - 42, origin());
    }
}

/// Keypoints that were read are as many as were asked for, and their offsets
/// never decrease from `prev` on.
proof fn lemma_keypoints_rise(buf: Seq<u8>, count: nat, prev: KeyPoint)
    requires
        keypoints_in(buf, count, prev) is Ok,
    ensures
        ({
            let points = keypoints_in(buf, count, prev)->Ok_0;
            &&& points.len() == count
            &&& forall|i: int| 0 <= i < points.len() ==> prev.offset <= points[i].offset
            &&& forall|i: int, j: int|
                0 <= i <= j < points.len() ==> points[i].offset <= points[j].offset
        }),
    decreases count,
{
    if count > 0 {
        let (offset, n1) = vbi_read(buf)->Some_0;
        let rest = buf.skip(n1 as int);
        let (timestamp, n2) = vbi_read(rest)->Some_0;
        let kp = advanced(prev, offset, timestamp)->Some_0;
        lemma_keypoints_rise(rest.skip(n2 as int), (count - 1) as nat, kp);
        let more = keypoints_in(rest.skip(n2 as int), (count - 1) as nat, kp)->Ok_0;
        let points = seq![kp] + more;
        assert(keypoints_in(buf, count, prev)->Ok_0 == points);
        assert forall|i: int, j: int| 0 <= i <= j < points.len() implies points[i].offset
            <= points[j].offset by {
            if i > 0 {
                assert(points[i] == more[i - 1] && points[j] == more[j - 1]);
            } else if j > 0 {
                assert(points[j] == more[j - 1]);
            }
        }
        assert forall|i: int| 0 <= i < points.len() implies prev.offset <= points[i].offset by {
            if i > 0 {
                assert(points[i] == more[i - 1]);
            }
        }
    }
}

/// Reading what was written of an index that was read gives the same index.
pub proof fn law_index_rewritten(p: Seq<u8>)
    requires
        parsed_index(p) is Ok,
    ensures
        parsed_index(parsed_index(p)->Ok_0.encoded()) == parsed_index(p),
{
    let x = parsed_index(p)->Ok_0;
    let count = bytes::le_u64(p.skip(10)) as nat;
    lemma_keypoints_rise(p.skip(42), count, origin());
    law_index_round_trip(x, Seq::empty());
    assert(x.encoded() + Seq::<u8>::empty() =~= x.encoded());
}

} // verus!
