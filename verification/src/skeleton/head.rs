//! The `fishead` identification packet.
use crate::bytes;
use crate::bytes::{
    matches_at, push_all, push_i64_le, push_u16_le, push_u64_le, read_i64_le, read_u16_le,
    read_u64_le,
};
use crate::error::{Error, Fault};
use vstd::prelude::*;

verus! {

/// `fishead` and a zero byte.
pub const FISHEAD_MAGIC: [u8; 8] = [0x66, 0x69, 0x73, 0x68, 0x65, 0x61, 0x64, 0x00];

/// Length of the 3.0 packet.
pub const FISHEAD_LEN_3_0: usize = 64;

/// Length of the 4.0 packet, which adds the segment length and the content
/// byte offset.
pub const FISHEAD_LEN_4_0: usize = 80;

/// A Skeleton version.
#[derive(Clone, Copy, Debug, PartialEq, Eq, Structural)]
pub struct Version {
    pub major: u16,
    pub minor: u16,
}

impl Version {
    /// Version 3.0.
    #[verifier::allow_in_spec]
    pub fn v3_0() -> Version
        returns
            (Version { major: 3, minor: 0 }),
    {
        Version { major: 3, minor: 0 }
    }

    /// Version 4.0.
    #[verifier::allow_in_spec]
    pub fn v4_0() -> Version
        returns
            (Version { major: 4, minor: 0 }),
    {
        Version { major: 4, minor: 0 }
    }

    /// Whether this version is `other` or later.
    pub open spec fn reaches(self, other: Version) -> bool {
        self.major > other.major || (self.major == other.major && self.minor >= other.minor)
    }

    /// Whether this version is `other` or later.
    pub fn at_least(self, other: Version) -> (r: bool)
        ensures
            r == self.reaches(other),
    {
        self.major > other.major || (self.major == other.major && self.minor >= other.minor)
    }
}

/// A rational number.
#[derive(Clone, Copy, Debug, PartialEq, Eq, Structural)]
pub struct Rational {
    pub numerator: i64,
    pub denominator: i64,
}

impl Rational {
    /// The number `numerator / denominator`.
    pub fn new(numerator: i64, denominator: i64) -> (r: Self)
        ensures
            r == (Rational { numerator, denominator }),
    {
        Rational { numerator, denominator }
    }

    /// Whether the number is known: a denominator of zero marks an unknown one.
    pub fn is_known(self) -> (r: bool)
        ensures
            r == (self.denominator != 0),
    {
        self.denominator != 0
    }
}

impl Default for Rational {
    fn default() -> (r: Self)
        ensures
            r == (Rational { numerator: 0, denominator: 0 }),
    {
        Rational { numerator: 0, denominator: 0 }
    }
}

/// The `fishead` packet.
#[derive(Clone, Debug, PartialEq, Eq)]
pub struct FisHead {
    /// Skeleton version.
    pub version: Version,
    /// The time from which all logical bitstreams are presented.
    pub presentation_time: Rational,
    /// The playback time of granule position 0.
    pub basetime: Rational,
    /// The wall-clock time of granule position 0, as 20 bytes of text.
    pub utc: [u8; 20],
    /// Length of the segment in bytes, from 4.0 on.
    pub segment_length: Option<u64>,
    /// Offset of the first non-header page, from 4.0 on.
    pub content_byte_offset: Option<u64>,
}

/// What a [`FisHead`] stands for.
#[verifier::ext_equal]
pub struct FisHeadView {
    pub version: Version,
    pub presentation_time: Rational,
    pub basetime: Rational,
    pub utc: Seq<u8>,
    pub segment_length: Option<u64>,
    pub content_byte_offset: Option<u64>,
}

impl View for FisHead {
    type V = FisHeadView;

    open spec fn view(&self) -> FisHeadView {
        FisHeadView {
            version: self.version,
            presentation_time: self.presentation_time,
            basetime: self.basetime,
            utc: self.utc@,
            segment_length: self.segment_length,
            content_byte_offset: self.content_byte_offset,
        }
    }
}

/// The two 64-bit integers at `at` as a rational number.
pub open spec fn rational_at(p: Seq<u8>, at: int) -> Rational {
    Rational { numerator: bytes::le_i64(p.skip(at)), denominator: bytes::le_i64(p.skip(at + 8)) }
}

/// The sixteen bytes of a rational number.
pub open spec fn rational_bytes(r: Rational) -> Seq<u8> {
    bytes::i64_le(r.numerator) + bytes::i64_le(r.denominator)
}

/// The value of an optional field on the wire, where absent is zero.
pub open spec fn or_zero(v: Option<u64>) -> u64 {
    match v {
        Some(n) => n,
        None => 0,
    }
}

impl FisHeadView {
    /// The packet has the 4.0 layout.
    pub open spec fn extended(self) -> bool {
        self.version.reaches(Version::v4_0())
    }

    /// The fields that 4.0 adds are there exactly from 4.0 on.
    pub open spec fn wf(self) -> bool {
        &&& self.utc.len() == 20
        &&& self.extended() == (self.segment_length is Some)
        &&& self.extended() == (self.content_byte_offset is Some)
    }

    /// The packet.
    pub open spec fn encoded(self) -> Seq<u8> {
        FISHEAD_MAGIC@ + bytes::u16_le(self.version.major) + bytes::u16_le(self.version.minor)
            + rational_bytes(self.presentation_time) + rational_bytes(self.basetime) + self.utc
            + if self.extended() {
            bytes::u64_le(or_zero(self.segment_length)) + bytes::u64_le(
                or_zero(self.content_byte_offset),
            )
        } else {
            Seq::empty()
        }
    }
}

/// What stands in the packet `p`.
pub open spec fn head_in(p: Seq<u8>) -> FisHeadView {
    let version = Version { major: bytes::le_u16(p.skip(8)), minor: bytes::le_u16(p.skip(10)) };
    let extended = version.reaches(Version::v4_0());
    FisHeadView {
        version,
        presentation_time: rational_at(p, 12),
        basetime: rational_at(p, 28),
        utc: p.subrange(44, 64),
        segment_length: if extended {
            Some(bytes::le_u64(p.skip(64)))
        } else {
            None
        },
        content_byte_offset: if extended {
            Some(bytes::le_u64(p.skip(72)))
        } else {
            None
        },
    }
}

/// What reading the packet `p` gives.
pub open spec fn parsed_head(p: Seq<u8>) -> Result<FisHeadView, Error> {
    if p.len() < 64 {
        Err(Error::InvalidData(Fault::FisheadLength { len: p.len() as usize }))
    } else if p.take(8) != FISHEAD_MAGIC@ {
        Err(Error::InvalidData(Fault::FisheadMagic))
    } else if head_in(p).extended() && p.len() < 80 {
        Err(Error::InvalidData(Fault::FisheadLength4 { len: p.len() as usize }))
    } else {
        Ok(head_in(p))
    }
}

fn read_rational(p: &[u8], at: usize) -> (r: Rational)
    requires
        at + 16 <= p@.len(),
    ensures
        r == rational_at(p@, at as int),
{
    assert(p.len() == p@.len());
    let numerator: i64 = read_i64_le(p, at);
    let denominator: i64 = read_i64_le(p, at + 8);
    Rational { numerator, denominator }
}

fn push_rational(out: &mut Vec<u8>, r: Rational)
    ensures
        final(out)@ == old(out)@ + rational_bytes(r),
{
    push_i64_le(out, r.numerator);
    push_i64_le(out, r.denominator);
    assert(out@ =~= old(out)@ + rational_bytes(r));
}

impl FisHead {
    /// A packet of the given version with every other field zero.
    pub fn new(version: Version) -> (h: Self)
        ensures
            h@ == (FisHeadView {
                version,
                presentation_time: Rational { numerator: 0, denominator: 0 },
                basetime: Rational { numerator: 0, denominator: 0 },
                utc: Seq::new(20, |i: int| 0u8),
                segment_length: if version.reaches(Version::v4_0()) {
                    Some(0)
                } else {
                    None
                },
                content_byte_offset: if version.reaches(Version::v4_0()) {
                    Some(0)
                } else {
                    None
                },
            }),
            h@.wf(),
    {
        let extra: Option<u64> = if version.at_least(Version::v4_0()) {
            Some(0)
        } else {
            None
        };
        let h = FisHead {
            version,
            presentation_time: Rational::default(),
            basetime: Rational::default(),
            utc: [0u8; 20],
            segment_length: extra,
            content_byte_offset: extra,
        };
        assert(h@.utc =~= Seq::new(20, |i: int| 0u8));
        h
    }

    /// The same packet once more.
    pub fn copied(&self) -> (h: Self)
        ensures
            h@ == self@,
    {
        FisHead {
            version: self.version,
            presentation_time: self.presentation_time,
            basetime: self.basetime,
            utc: self.utc,
            segment_length: self.segment_length,
            content_byte_offset: self.content_byte_offset,
        }
    }

    /// Reads a `fishead` packet, in the 3.0 or the 4.0 layout.
    pub fn parse(packet: &[u8]) -> (r: Result<Self, Error>)
        ensures
            match r {
                Ok(h) => parsed_head(packet@) == Ok::<FisHeadView, Error>(h@) && h@.wf(),
                Err(e) => parsed_head(packet@) == Err::<FisHeadView, Error>(e),
            },
    {
        let n: usize = packet.len();
        if n < FISHEAD_LEN_3_0 {
            return Err(Error::InvalidData(Fault::FisheadLength { len: n }));
        }
        assert(packet@.subrange(0, 8) =~= packet@.take(8));
        if !matches_at(packet, 0, &FISHEAD_MAGIC) {
            return Err(Error::InvalidData(Fault::FisheadMagic));
        }
        let version = Version {
            major: read_u16_le(packet, 8),
            minor: read_u16_le(packet, 10),
        };
        let extended: bool = version.at_least(Version::v4_0());
        if extended && n < FISHEAD_LEN_4_0 {
            return Err(Error::InvalidData(Fault::FisheadLength4 { len: n }));
        }
        let utc: [u8; 20] = [
            packet[44],
            packet[45],
            packet[46],
            packet[47],
            packet[48],
            packet[49],
            packet[50],
            packet[51],
            packet[52],
            packet[53],
            packet[54],
            packet[55],
            packet[56],
            packet[57],
            packet[58],
            packet[59],
            packet[60],
            packet[61],
            packet[62],
            packet[63],
        ];
        assert(utc@ =~= packet@.subrange(44, 64));
        let segment_length: Option<u64> = if extended {
            Some(read_u64_le(packet, 64))
        } else {
            None
        };
        let content_byte_offset: Option<u64> = if extended {
            Some(read_u64_le(packet, 72))
        } else {
            None
        };
        Ok(
            FisHead {
                version,
                presentation_time: read_rational(packet, 12),
                basetime: read_rational(packet, 28),
                utc,
                segment_length,
                content_byte_offset,
            },
        )
    }

    /// The packet, in the layout of its version.
    pub fn to_bytes(&self) -> (out: Vec<u8>)
        ensures
            out@ == self@.encoded(),
            out@.len() == (if self@.extended() {
                80int
            } else {
                64
            }),
    {
        let mut out: Vec<u8> = Vec::new();
        push_all(&mut out, &FISHEAD_MAGIC);
        push_u16_le(&mut out, self.version.major);
        push_u16_le(&mut out, self.version.minor);
        push_rational(&mut out, self.presentation_time);
        push_rational(&mut out, self.basetime);
        push_all(&mut out, &self.utc);
        if self.version.at_least(Version::v4_0()) {
            push_u64_le(
                &mut out,
                match self.segment_length {
                    Some(v) => v,
                    None => 0,
                },
            );
            push_u64_le(
                &mut out,
                match self.content_byte_offset {
                    Some(v) => v,
                    None => 0,
                },
            );
        }
        assert(out@ =~= self@.encoded());
        out
    }
}

/// Reading a written packet, whatever follows it, gives back what was written.
pub proof fn law_head_round_trip(h: FisHeadView, tail: Seq<u8>)
    requires
        h.wf(),
    ensures
        parsed_head(h.encoded() + tail) == Ok::<FisHeadView, Error>(h),
{
    let p = h.encoded() + tail;
    assert(p.take(8) =~= FISHEAD_MAGIC@);
    assert(bytes::le_u16(p.skip(8)) == h.version.major) by {
        assert(p.skip(8) =~= bytes::u16_le(h.version.major) + p.skip(10));
        bytes::law_u16_le_round_trip(h.version.major, p.skip(10));
    }
    assert(bytes::le_u16(p.skip(10)) == h.version.minor) by {
        assert(p.skip(10) =~= bytes::u16_le(h.version.minor) + p.skip(12));
        bytes::law_u16_le_round_trip(h.version.minor, p.skip(12));
    }
    assert(rational_at(p, 12) == h.presentation_time) by {
        assert(p.skip(12) =~= bytes::i64_le(h.presentation_time.numerator) + p.skip(20));
        assert(p.skip(20) =~= bytes::i64_le(h.presentation_time.denominator) + p.skip(28));
        bytes::law_i64_le_round_trip(h.presentation_time.numerator, p.skip(20));
        bytes::law_i64_le_round_trip(h.presentation_time.denominator, p.skip(28));
    }
    assert(rational_at(p, 28) == h.basetime) by {
        assert(p.skip(28) =~= bytes::i64_le(h.basetime.numerator) + p.skip(36));
        assert(p.skip(36) =~= bytes::i64_le(h.basetime.denominator) + p.skip(44));
        bytes::law_i64_le_round_trip(h.basetime.numerator, p.skip(36));
        bytes::law_i64_le_round_trip(h.basetime.denominator, p.skip(44));
    }
    assert(p.subrange(44, 64) =~= h.utc);
    if h.extended() {
        assert(bytes::le_u64(p.skip(64)) == or_zero(h.segment_length)) by {
            assert(p.skip(64) =~= bytes::u64_le(or_zero(h.segment_length)) + p.skip(72));
            bytes::law_u64_le_round_trip(or_zero(h.segment_length), p.skip(72));
        }
        assert(bytes::le_u64(p.skip(72)) == or_zero(h.content_byte_offset)) by {
            assert(p.skip(72) =~= bytes::u64_le(or_zero(h.content_byte_offset)) + p.skip(80));
            bytes::law_u64_le_round_trip(or_zero(h.content_byte_offset), p.skip(80));
        }
    }
    assert(head_in(p) =~= h);
}

/// Writing what was read gives back the bytes of the packet's layout.
pub proof fn law_head_rewritten(p: Seq<u8>)
    requires
        parsed_head(p) is Ok,
    ensures
        parsed_head(p)->Ok_0.wf(),
        parsed_head(p)->Ok_0.encoded() == p.take(
            if parsed_head(p)->Ok_0.extended() {
                80
            } else {
                64
            },
        ),
{
    let h = parsed_head(p)->Ok_0;
    let n: int = if h.extended() {
        80
    } else {
        64
    };
    let q = p.take(n);
    let e = h.encoded();
    assert(q.take(8) =~= e.take(8)) by {
        assert(p.take(8) =~= FISHEAD_MAGIC@);
    }
    assert(bytes::u16_le(h.version.major) == q.subrange(8, 10)) by {
        lemma_le16_at(p, 8);
        assert(p.subrange(8, 10) =~= q.subrange(8, 10));
    }
    assert(bytes::u16_le(h.version.minor) == q.subrange(10, 12)) by {
        lemma_le16_at(p, 10);
        assert(p.subrange(10, 12) =~= q.subrange(10, 12));
    }
    assert(rational_bytes(h.presentation_time) == q.subrange(12, 28)) by {
        lemma_rational_at(p, 12);
        assert(p.subrange(12, 28) =~= q.subrange(12, 28));
    }
    assert(rational_bytes(h.basetime) == q.subrange(28, 44)) by {
        lemma_rational_at(p, 28);
        assert(p.subrange(28, 44) =~= q.subrange(28, 44));
    }
    assert(h.utc == q.subrange(44, 64)) by {
        assert(p.subrange(44, 64) =~= q.subrange(44, 64));
    }
    if h.extended() {
        assert(bytes::u64_le(or_zero(h.segment_length)) == q.subrange(64, 72)) by {
            lemma_le64_at(p, 64);
            assert(p.subrange(64, 72) =~= q.subrange(64, 72));
        }
        assert(bytes::u64_le(or_zero(h.content_byte_offset)) == q.subrange(72, 80)) by {
            lemma_le64_at(p, 72);
            assert(p.subrange(72, 80) =~= q.subrange(72, 80));
        }
        assert(e =~= q.take(8) + q.subrange(8, 10) + q.subrange(10, 12) + q.subrange(12, 28)
            + q.subrange(28, 44) + q.subrange(44, 64) + (q.subrange(64, 72) + q.subrange(72, 80)));
    } else {
        assert(e =~= q.take(8) + q.subrange(8, 10) + q.subrange(10, 12) + q.subrange(12, 28)
            + q.subrange(28, 44) + q.subrange(44, 64));
    }
    assert(e =~= q);
}

proof fn lemma_le16_at(p: Seq<u8>, at: int)
    requires
        0 <= at,
        at + 2 <= p.len(),
    ensures
        bytes::u16_le(bytes::le_u16(p.skip(at))) == p.subrange(at, at + 2),
{
    assert(p.skip(at).take(2) =~= p.subrange(at, at + 2).take(2));
    bytes::lemma_le_prefix(p.skip(at), p.subrange(at, at + 2));
    bytes::law_le_u16_round_trip(p.subrange(at, at + 2));
}

proof fn lemma_le64_at(p: Seq<u8>, at: int)
    requires
        0 <= at,
        at + 8 <= p.len(),
    ensures
        bytes::u64_le(bytes::le_u64(p.skip(at))) == p.subrange(at, at + 8),
        bytes::i64_le(bytes::le_i64(p.skip(at))) == p.subrange(at, at + 8),
{
    assert(p.skip(at).take(8) =~= p.subrange(at, at + 8).take(8));
    bytes::lemma_le_prefix(p.skip(at), p.subrange(at, at + 8));
    bytes::law_le_u64_round_trip(p.subrange(at, at + 8));
    bytes::law_le_i64_round_trip(p.subrange(at, at + 8));
}

proof fn lemma_rational_at(p: Seq<u8>, at: int)
    requires
        0 <= at,
        at + 16 <= p.len(),
    ensures
        rational_bytes(rational_at(p, at)) == p.subrange(at, at + 16),
{
    lemma_le64_at(p, at);
    lemma_le64_at(p, at + 8);
    assert(p.subrange(at, at + 8) + p.subrange(at + 8, at + 16) =~= p.subrange(at, at + 16));
}

} // verus!
