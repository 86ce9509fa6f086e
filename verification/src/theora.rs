//! Theora-in-Ogg container mapping: the identification header and the
//! arithmetic of granule positions.
//!
//! A granule position splits at bit `KFGSHIFT` into the frame count (or, in
//! older streams, the frame index) at the last keyframe and the number of
//! frames since that keyframe.
use crate::bytes;
use crate::bytes::{
    matches_at, push_all, push_u16_be, push_u24_be, push_u32_be, read_u16_be, read_u24_be,
    read_u32_be,
};
use crate::error::{Error, Fault};
use vstd::arithmetic::power2;
use vstd::bits;
use vstd::prelude::*;

verus! {

/// Byte length of the identification header.
pub const ID_HEADER_LEN: usize = 42;

/// `0x80` and `theora`.
pub const ID_MAGIC: [u8; 7] = [0x80, 0x74, 0x68, 0x65, 0x6F, 0x72, 0x61];

/// The identification header: the fields that the container mapping and the
/// description of the stream need.
#[derive(Clone, Copy, Debug, PartialEq, Eq, Structural)]
pub struct TheoraIdHeader {
    /// Major version number, 3.
    pub vmaj: u8,
    /// Minor version number, 2.
    pub vmin: u8,
    /// Version revision; from 1 on, granule positions count frames from one.
    pub vrev: u8,
    /// Frame width in macro blocks, positive.
    pub fmbw: u16,
    /// Frame height in macro blocks, positive.
    pub fmbh: u16,
    /// Picture-region width in pixels, 24 bits.
    pub picw: u32,
    /// Picture-region height in pixels, 24 bits.
    pub pich: u32,
    /// X offset of the picture region.
    pub picx: u8,
    /// Y offset of the picture region.
    pub picy: u8,
    /// Frame-rate numerator, positive.
    pub frn: u32,
    /// Frame-rate denominator, positive.
    pub frd: u32,
    /// Pixel aspect-ratio numerator, 24 bits; 0 is unspecified.
    pub parn: u32,
    /// Pixel aspect-ratio denominator, 24 bits; 0 is unspecified.
    pub pard: u32,
    /// Color space.
    pub cs: u8,
    /// Nominal bitrate in bits per second, 24 bits; 0 is unspecified.
    pub nombr: u32,
    /// Quality hint, 6 bits.
    pub qual: u8,
    /// Granule shift, 5 bits.
    pub kfgshift: u8,
    /// Pixel format, 2 bits.
    pub pf: u8,
}

/// The last 16 bits of the header: 6 bits of quality, 5 of granule shift, 2 of
/// pixel format and 3 reserved ones.
pub open spec fn tail_bits(qual: u8, kfgshift: u8, pf: u8) -> int {
    (qual % 64) * 1024 + (kfgshift % 32) * 32 + (pf % 4) * 8
}

impl TheoraIdHeader {
    /// What stands in the first 42 bytes of `p`.
    pub open spec fn decoded(p: Seq<u8>) -> TheoraIdHeader {
        let tail = bytes::be_u16(p.skip(40));
        TheoraIdHeader {
            vmaj: p[7],
            vmin: p[8],
            vrev: p[9],
            fmbw: bytes::be_u16(p.skip(10)),
            fmbh: bytes::be_u16(p.skip(12)),
            picw: bytes::be_u24(p.skip(14)),
            pich: bytes::be_u24(p.skip(17)),
            picx: p[20],
            picy: p[21],
            frn: bytes::be_u32(p.skip(22)),
            frd: bytes::be_u32(p.skip(26)),
            parn: bytes::be_u24(p.skip(30)),
            pard: bytes::be_u24(p.skip(33)),
            cs: p[36],
            nombr: bytes::be_u24(p.skip(37)),
            qual: (tail / 1024) as u8,
            kfgshift: (tail / 32 % 32) as u8,
            pf: (tail / 8 % 4) as u8,
        }
    }

    /// What reading `p` gives.
    pub open spec fn parsed(p: Seq<u8>) -> Result<TheoraIdHeader, Error> {
        let h = TheoraIdHeader::decoded(p);
        if p.len() < 42 {
            Err(Error::InvalidData(Fault::TheoraLength))
        } else if p.take(7) != ID_MAGIC@ {
            Err(Error::InvalidData(Fault::TheoraMagic))
        } else if h.vmaj != 3 || h.vmin != 2 {
            Err(
                Error::Unsupported(
                    Fault::TheoraVersion { vmaj: h.vmaj, vmin: h.vmin, vrev: h.vrev },
                ),
            )
        } else if h.fmbw == 0 || h.fmbh == 0 {
            Err(Error::InvalidData(Fault::TheoraFrameSize))
        } else if h.frn == 0 || h.frd == 0 {
            Err(Error::InvalidData(Fault::TheoraFrameRate))
        } else {
            Ok(h)
        }
    }

    /// The header's byte form; values wider than their field lose their upper
    /// bits, and the reserved bits are zero.
    pub open spec fn encoded(self) -> Seq<u8> {
        ID_MAGIC@ + seq![self.vmaj, self.vmin, self.vrev] + bytes::u16_be(self.fmbw)
            + bytes::u16_be(self.fmbh) + bytes::u24_be(self.picw) + bytes::u24_be(self.pich)
            + seq![self.picx, self.picy] + bytes::u32_be(self.frn) + bytes::u32_be(self.frd)
            + bytes::u24_be(self.parn) + bytes::u24_be(self.pard) + seq![self.cs]
            + bytes::u24_be(self.nombr) + bytes::u16_be(
            tail_bits(self.qual, self.kfgshift, self.pf) as u16,
        )
    }

    /// Every field fits its width on the wire, and the header describes a
    /// stream whose mapping is defined.
    pub open spec fn fits(self) -> bool {
        &&& self.vmaj == 3 && self.vmin == 2
        &&& self.fmbw > 0 && self.fmbh > 0 && self.frn > 0 && self.frd > 0
        &&& self.picw < 0x100_0000 && self.pich < 0x100_0000
        &&& self.parn < 0x100_0000 && self.pard < 0x100_0000
        &&& self.nombr < 0x100_0000
        &&& self.qual < 64 && self.kfgshift < 32 && self.pf < 4
    }

    /// Reads an identification header, the first packet of a Theora stream.
    pub fn parse(packet: &[u8]) -> (r: Result<Self, Error>)
        ensures
            r == TheoraIdHeader::parsed(packet@),
    {
        if packet.len() < ID_HEADER_LEN {
            return Err(Error::InvalidData(Fault::TheoraLength));
        }
        assert(packet@.subrange(0, 7) =~= packet@.take(7));
        if !matches_at(packet, 0, &ID_MAGIC) {
            return Err(Error::InvalidData(Fault::TheoraMagic));
        }
        let vmaj: u8 = packet[7];
        let vmin: u8 = packet[8];
        let vrev: u8 = packet[9];
        if vmaj != 3 || vmin != 2 {
            return Err(Error::Unsupported(Fault::TheoraVersion { vmaj, vmin, vrev }));
        }
        let fmbw: u16 = read_u16_be(packet, 10);
        let fmbh: u16 = read_u16_be(packet, 12);
        let frn: u32 = read_u32_be(packet, 22);
        let frd: u32 = read_u32_be(packet, 26);
        if fmbw == 0 || fmbh == 0 {
            return Err(Error::InvalidData(Fault::TheoraFrameSize));
        }
        if frn == 0 || frd == 0 {
            return Err(Error::InvalidData(Fault::TheoraFrameRate));
        }
        let tail: u16 = read_u16_be(packet, 40);
        Ok(
            TheoraIdHeader {
                vmaj,
                vmin,
                vrev,
                fmbw,
                fmbh,
                picw: read_u24_be(packet, 14),
                pich: read_u24_be(packet, 17),
                picx: packet[20],
                picy: packet[21],
                frn,
                frd,
                parn: read_u24_be(packet, 30),
                pard: read_u24_be(packet, 33),
                cs: packet[36],
                nombr: read_u24_be(packet, 37),
                qual: (tail / 1024) as u8,
                kfgshift: (tail / 32 % 32) as u8,
                pf: (tail / 8 % 4) as u8,
            },
        )
    }

    /// The header's byte form. Values wider than their field on the wire lose
    /// their upper bits.
    pub fn to_bytes(&self) -> (out: Vec<u8>)
        ensures
            out@ == self.encoded(),
            out@.len() == ID_HEADER_LEN,
    {
        let mut out: Vec<u8> = Vec::new();
        push_all(&mut out, &ID_MAGIC);
        out.push(self.vmaj);
        out.push(self.vmin);
        out.push(self.vrev);
        push_u16_be(&mut out, self.fmbw);
        push_u16_be(&mut out, self.fmbh);
        push_u24_be(&mut out, self.picw);
        push_u24_be(&mut out, self.pich);
        out.push(self.picx);
        out.push(self.picy);
        push_u32_be(&mut out, self.frn);
        push_u32_be(&mut out, self.frd);
        push_u24_be(&mut out, self.parn);
        push_u24_be(&mut out, self.pard);
        out.push(self.cs);
        push_u24_be(&mut out, self.nombr);
        let tail: u16 = (self.qual % 64) as u16 * 1024 + (self.kfgshift % 32) as u16 * 32 + (self.pf
            % 4) as u16 * 8;
        push_u16_be(&mut out, tail);
        assert(out@ =~= self.encoded());
        out
    }

    /// The granule positions of this stream.
    pub open spec fn granule_of(self) -> TheoraGranule {
        TheoraGranule { shift: self.kfgshift as u32, count_from_one: self.vrev >= 1 }
    }

    /// The granule positions of this stream.
    pub fn granule(&self) -> (r: TheoraGranule)
        ensures
            r == self.granule_of(),
    {
        TheoraGranule { shift: self.kfgshift as u32, count_from_one: self.vrev >= 1 }
    }
}

proof fn lemma_tail_bits(qual: u8, kfgshift: u8, pf: u8)
    requires
        qual < 64,
        kfgshift < 32,
        pf < 4,
    ensures
        0 <= tail_bits(qual, kfgshift, pf) <= u16::MAX,
        tail_bits(qual, kfgshift, pf) / 1024 == qual,
        tail_bits(qual, kfgshift, pf) / 32 % 32 == kfgshift,
        tail_bits(qual, kfgshift, pf) / 8 % 4 == pf,
{
}

/// Reading a written header gives the header back, where its fields fit.
pub proof fn law_header_round_trip(h: TheoraIdHeader)
    requires
        h.fits(),
    ensures
        TheoraIdHeader::parsed(h.encoded()) == Ok::<TheoraIdHeader, Error>(h),
{
    let p = h.encoded();
    let tail = tail_bits(h.qual, h.kfgshift, h.pf) as u16;
    assert(p.take(7) =~= ID_MAGIC@);
    assert(bytes::be_u16(p.skip(10)) == h.fmbw) by {
        assert(p.skip(10) =~= bytes::u16_be(h.fmbw) + p.skip(12));
        bytes::law_u16_be_round_trip(h.fmbw, p.skip(12));
    }
    assert(bytes::be_u16(p.skip(12)) == h.fmbh) by {
        assert(p.skip(12) =~= bytes::u16_be(h.fmbh) + p.skip(14));
        bytes::law_u16_be_round_trip(h.fmbh, p.skip(14));
    }
    assert(bytes::be_u24(p.skip(14)) == h.picw) by {
        assert(p.skip(14) =~= bytes::u24_be(h.picw) + p.skip(17));
        bytes::law_u24_be_round_trip(h.picw, p.skip(17));
    }
    assert(bytes::be_u24(p.skip(17)) == h.pich) by {
        assert(p.skip(17) =~= bytes::u24_be(h.pich) + p.skip(20));
        bytes::law_u24_be_round_trip(h.pich, p.skip(20));
    }
    assert(bytes::be_u32(p.skip(22)) == h.frn) by {
        assert(p.skip(22) =~= bytes::u32_be(h.frn) + p.skip(26));
        bytes::law_u32_be_round_trip(h.frn, p.skip(26));
    }
    assert(bytes::be_u32(p.skip(26)) == h.frd) by {
        assert(p.skip(26) =~= bytes::u32_be(h.frd) + p.skip(30));
        bytes::law_u32_be_round_trip(h.frd, p.skip(30));
    }
    assert(bytes::be_u24(p.skip(30)) == h.parn) by {
        assert(p.skip(30) =~= bytes::u24_be(h.parn) + p.skip(33));
        bytes::law_u24_be_round_trip(h.parn, p.skip(33));
    }
    assert(bytes::be_u24(p.skip(33)) == h.pard) by {
        assert(p.skip(33) =~= bytes::u24_be(h.pard) + p.skip(36));
        bytes::law_u24_be_round_trip(h.pard, p.skip(36));
    }
    assert(bytes::be_u24(p.skip(37)) == h.nombr) by {
        assert(p.skip(37) =~= bytes::u24_be(h.nombr) + p.skip(40));
        bytes::law_u24_be_round_trip(h.nombr, p.skip(40));
    }
    assert(bytes::be_u16(p.skip(40)) == tail) by {
        assert(p.skip(40) =~= bytes::u16_be(tail) + Seq::<u8>::empty());
        bytes::law_u16_be_round_trip(tail, Seq::empty());
    }
    assert(tail / 1024 == h.qual && tail / 32 % 32 == h.kfgshift && tail / 8 % 4 == h.pf) by {
        lemma_tail_bits(h.qual, h.kfgshift, h.pf);
    }
    assert(TheoraIdHeader::decoded(p) == h);
}

/// A header that was read has fields that fit, so writing and reading it again
/// changes nothing.
pub proof fn law_parsed_fits(p: Seq<u8>)
    requires
        TheoraIdHeader::parsed(p) is Ok,
    ensures
        TheoraIdHeader::parsed(p)->Ok_0.fits(),
        TheoraIdHeader::parsed(TheoraIdHeader::parsed(p)->Ok_0.encoded()) == TheoraIdHeader::parsed(
            p,
        ),
{
    let h = TheoraIdHeader::parsed(p)->Ok_0;
    assert(h.fits()) by {
        reveal(bytes::be_u24);
    }
    law_header_round_trip(h);
}

/// Granule positions of one Theora stream. All methods speak of frame indices
/// from zero on, whatever the stream counts from.
#[derive(Clone, Copy, Debug, PartialEq, Eq, Structural)]
pub struct TheoraGranule {
    /// Bit width of the offset half.
    pub shift: u32,
    /// Whether the keyframe half counts frames from one.
    pub count_from_one: bool,
}

impl TheoraGranule {
    /// What the keyframe half adds to a frame index.
    pub open spec fn bias(self) -> int {
        if self.count_from_one {
            1
        } else {
            0
        }
    }

    /// Largest number of frames since the keyframe.
    pub open spec fn max_offset_of(self) -> int {
        if self.shift >= 63 {
            i64::MAX as int
        } else {
            power2::pow2(self.shift as nat) - 1
        }
    }

    /// The keyframe half of a granule position.
    pub open spec fn upper(self, granule: i64) -> int {
        granule as int / power2::pow2(self.shift as nat) as int
    }

    /// The offset half of a granule position.
    pub open spec fn offset(self, granule: i64) -> int {
        granule as int % power2::pow2(self.shift as nat) as int
    }

    /// All bits of the offset half are set.
    pub open spec fn is_full(self, granule: i64) -> bool {
        (granule + 1) % power2::pow2(self.shift as nat) as int == 0
    }

    /// Whether a granule position marks anything: it is not negative, and the
    /// halves have room.
    pub open spec fn marks(self, granule: i64) -> bool {
        granule >= 0 && self.shift < 63
    }

    /// The index of the frame that a granule position marks.
    pub open spec fn frame_of(self, granule: i64) -> Option<i64> {
        let index = self.upper(granule) + self.offset(granule) - self.bias();
        if self.marks(granule) && index >= 0 {
            Some(index as i64)
        } else {
            None
        }
    }

    /// The index of the keyframe that a granule position counts from.
    pub open spec fn keyframe_of(self, granule: i64) -> Option<i64> {
        let index = self.upper(granule) - self.bias();
        if self.marks(granule) && index >= 0 {
            Some(index as i64)
        } else {
            None
        }
    }

    /// What packing a frame and its keyframe gives.
    pub open spec fn packed(self, frame_index: i64, keyframe_index: i64) -> Result<i64, Error> {
        let offset = frame_index - keyframe_index;
        let upper = keyframe_index + self.bias();
        let granule = upper * power2::pow2(self.shift as nat) + offset;
        if keyframe_index < 0 || keyframe_index > frame_index {
            Err(Error::InvalidData(Fault::GranulePair { frame_index, keyframe_index }))
        } else if offset > self.max_offset_of() {
            Err(
                Error::InvalidData(
                    Fault::GranuleOffset {
                        offset: offset as i64,
                        max_offset: self.max_offset_of() as i64,
                    },
                ),
            )
        } else if self.shift >= 63 {
            Err(Error::InvalidData(Fault::GranuleShift))
        } else if upper * power2::pow2(self.shift as nat) > i64::MAX {
            Err(Error::InvalidData(Fault::GranuleKeyframe))
        } else {
            Ok(granule as i64)
        }
    }

    /// Largest number of frames since the keyframe.
    pub fn max_offset(&self) -> (r: i64)
        ensures
            r == self.max_offset_of(),
    {
        if self.shift >= 63 {
            i64::MAX
        } else {
            proof {
                lemma_small_shift(self.shift as nat);
                bits::lemma_u64_shl_is_mul(1, self.shift as u64);
            }
            ((1u64 << self.shift as u64) - 1) as i64
        }
    }

    /// The two halves of a granule position.
    fn split(&self, granule: i64) -> (r: Option<(i64, i64)>)
        ensures
            match r {
                Some((upper, offset)) => self.marks(granule) && upper == self.upper(granule)
                    && offset == self.offset(granule) && 0 <= upper && 0 <= offset && upper
                    + offset <= granule,
                None => !self.marks(granule),
            },
    {
        if granule < 0 || self.shift >= 63 {
            return None;
        }
        let g: u64 = granule as u64;
        proof {
            power2::lemma2_to64_rest();
            lemma_small_shift(self.shift as nat);
            bits::lemma_u64_shr_is_div(g, self.shift as u64);
            lemma_halves(g as int, power2::pow2(self.shift as nat) as int);
        }
        let upper: u64 = g >> self.shift as u64;
        let unit: u64 = 1u64 << self.shift as u64;
        proof {
            bits::lemma_u64_shl_is_mul(1, self.shift as u64);
        }
        let offset: u64 = g % unit;
        Some((upper as i64, offset as i64))
    }

    /// The index of the last frame that finishes on a page with this granule
    /// position.
    pub fn frame_index(&self, granule: i64) -> (r: Option<i64>)
        ensures
            r == self.frame_of(granule),
    {
        match self.split(granule) {
            None => None,
            Some((upper, offset)) => {
                let bias: i64 = if self.count_from_one {
                    1
                } else {
                    0
                };
                let index: i64 = upper + offset - bias;
                if index >= 0 {
                    Some(index)
                } else {
                    None
                }
            },
        }
    }

    /// The number of frames complete once the marked frame has been presented.
    pub fn frame_count(&self, granule: i64) -> (r: Option<i64>)
        ensures
            r == (match self.frame_of(granule) {
                Some(index) => if index < i64::MAX {
                    Some((index + 1) as i64)
                } else {
                    None
                },
                None => None,
            }),
    {
        match self.frame_index(granule) {
            None => None,
            Some(index) => index.checked_add(1),
        }
    }

    /// The index of the keyframe that the granule position counts from.
    pub fn keyframe_index(&self, granule: i64) -> (r: Option<i64>)
        ensures
            r == self.keyframe_of(granule),
    {
        match self.split(granule) {
            None => None,
            Some((upper, _)) => {
                let bias: i64 = if self.count_from_one {
                    1
                } else {
                    0
                };
                let index: i64 = upper - bias;
                if index >= 0 {
                    Some(index)
                } else {
                    None
                }
            },
        }
    }

    /// Whether the marked frame is itself a keyframe.
    pub fn is_keyframe(&self, granule: i64) -> (r: bool)
        ensures
            r == (self.marks(granule) && self.offset(granule) == 0),
    {
        match self.split(granule) {
            Some((_, offset)) => offset == 0,
            None => false,
        }
    }

    /// Packs a frame index and the index of its keyframe.
    ///
    /// The last index of all has no successor to count to.
    pub fn pack(&self, frame_index: i64, keyframe_index: i64) -> (r: Result<i64, Error>)
        requires
            !(self.count_from_one && frame_index == i64::MAX && keyframe_index == i64::MAX),
        ensures
            r == self.packed(frame_index, keyframe_index),
    {
        if frame_index < 0 || keyframe_index < 0 || keyframe_index > frame_index {
            return Err(Error::InvalidData(Fault::GranulePair { frame_index, keyframe_index }));
        }
        let offset: i64 = frame_index - keyframe_index;
        let max_offset: i64 = self.max_offset();
        if offset > max_offset {
            return Err(Error::InvalidData(Fault::GranuleOffset { offset, max_offset }));
        }
        if self.shift >= 63 {
            return Err(Error::InvalidData(Fault::GranuleShift));
        }
        let bias: i64 = if self.count_from_one {
            1
        } else {
            0
        };
        let upper: i64 = keyframe_index + bias;
        proof {
            power2::lemma2_to64_rest();
            lemma_small_shift(self.shift as nat);
            bits::lemma_u64_shl_is_mul(1, self.shift as u64);
        }
        let unit: i64 = (1u64 << self.shift as u64) as i64;
        assert(unit == power2::pow2(self.shift as nat));
        match upper.checked_mul(unit) {
            None => Err(Error::InvalidData(Fault::GranuleKeyframe)),
            Some(v) => {
                proof {
                    lemma_room(upper as int, self.shift as nat);
                }
                Ok(v + offset)
            },
        }
    }
}

/// Powers of two that fit the granule field.
pub proof fn lemma_small_shift(shift: nat)
    requires
        shift < 63,
    ensures
        1 <= power2::pow2(shift) <= 0x4000_0000_0000_0000,
{
    power2::lemma2_to64_rest();
    power2::lemma_pow2_pos(shift);
    if shift < 62 {
        power2::lemma_pow2_strictly_increases(shift, 62);
    }
}

/// The halves of a number do not add up to more than the number.
pub proof fn lemma_halves(g: int, unit: int)
    requires
        g >= 0,
        unit >= 1,
    ensures
        0 <= g / unit,
        0 <= g % unit < unit,
        g / unit + g % unit <= g,
        g == (g / unit) * unit + g % unit,
{
    assert(g == (g / unit) * unit + g % unit && 0 <= g % unit < unit && 0 <= g / unit)
        by (nonlinear_arith)
        requires
            g >= 0,
            unit >= 1,
    ;
    let q = g / unit;
    assert(q * unit >= q) by (nonlinear_arith)
        requires
            q >= 0,
            unit >= 1,
    ;
}

/// A multiple of a power of two below the end of the field leaves room for
/// every offset.
proof fn lemma_room(upper: int, shift: nat)
    requires
        shift < 63,
        0 <= upper,
        upper * power2::pow2(shift) <= i64::MAX,
    ensures
        upper * power2::pow2(shift) + power2::pow2(shift) - 1 <= i64::MAX,
{
    power2::lemma2_to64_rest();
    lemma_small_shift(shift);
    let unit = power2::pow2(shift) as int;
    let whole = power2::pow2((63 - shift) as nat) as int;
    power2::lemma_pow2_adds(shift, (63 - shift) as nat);
    assert(unit * whole == 0x8000_0000_0000_0000);
    assert(upper < whole) by (nonlinear_arith)
        requires
            upper * unit < unit * whole,
            unit >= 1,
    ;
    assert(upper * unit + unit <= unit * whole) by (nonlinear_arith)
        requires
            upper + 1 <= whole,
            unit >= 1,
    ;
}

/// Unpacking a packed granule position gives back the frame and its keyframe,
/// and it marks a keyframe exactly when the frame is its own keyframe.
pub proof fn law_pack_unpack(g: TheoraGranule, frame_index: i64, keyframe_index: i64)
    requires
        g.packed(frame_index, keyframe_index) is Ok,
    ensures
        ({
            let granule = g.packed(frame_index, keyframe_index)->Ok_0;
            &&& g.frame_of(granule) == Some(frame_index)
            &&& g.keyframe_of(granule) == Some(keyframe_index)
            &&& (g.marks(granule) && g.offset(granule) == 0) == (frame_index == keyframe_index)
        }),
{
    let granule = g.packed(frame_index, keyframe_index)->Ok_0;
    let unit = power2::pow2(g.shift as nat) as int;
    let upper = keyframe_index + g.bias();
    let offset = frame_index - keyframe_index;
    lemma_small_shift(g.shift as nat);
    assert(upper * unit >= 0) by (nonlinear_arith)
        requires
            upper >= 0,
            unit >= 1,
    ;
    lemma_room(upper, g.shift as nat);
    assert(granule == upper * unit + offset);
    assert((upper * unit + offset) / unit == upper && (upper * unit + offset) % unit == offset)
        by (nonlinear_arith)
        requires
            0 <= offset < unit,
            upper >= 0,
    ;
}

/// Granule positions increase with the frames they mark, wherever the
/// keyframes fall.
pub proof fn law_pack_monotonic(g: TheoraGranule, n1: i64, k1: i64, n2: i64, k2: i64)
    requires
        g.packed(n1, k1) is Ok,
        g.packed(n2, k2) is Ok,
        n1 < n2,
        k1 <= k2,
    ensures
        g.packed(n1, k1)->Ok_0 < g.packed(n2, k2)->Ok_0,
{
    let unit = power2::pow2(g.shift as nat) as int;
    lemma_small_shift(g.shift as nat);
    let (u1, u2) = (k1 + g.bias(), k2 + g.bias());
    lemma_room(u1, g.shift as nat);
    lemma_room(u2, g.shift as nat);
    assert(u1 * unit >= 0 && u2 * unit >= 0) by (nonlinear_arith)
        requires
            u1 >= 0,
            u2 >= 0,
            unit >= 1,
    ;
    if k1 < k2 {
        assert(u1 * unit + unit <= u2 * unit) by (nonlinear_arith)
            requires
                u1 + 1 <= u2,
                unit >= 1,
        ;
    }
}

/// Packing the frame and the keyframe that a granule position marks gives it back.
pub proof fn law_unpack_pack(g: TheoraGranule, granule: i64, frame_index: i64, keyframe_index: i64)
    requires
        g.frame_of(granule) == Some(frame_index),
        g.keyframe_of(granule) == Some(keyframe_index),
    ensures
        g.packed(frame_index, keyframe_index) == Ok::<i64, Error>(granule),
{
    let unit = power2::pow2(g.shift as nat) as int;
    lemma_small_shift(g.shift as nat);
    lemma_halves(granule as int, unit);
    let (upper, offset) = (g.upper(granule), g.offset(granule));
    vstd::arithmetic::div_mod::lemma_fundamental_div_mod(granule as int, unit);
    vstd::arithmetic::mul::lemma_mul_is_commutative(unit, upper);
    assert(granule == upper * unit + offset);
}

/// The granule position behind another marks the next frame, counted from the same
/// keyframe, as long as the offset half has room; else it marks the next keyframe.
pub proof fn law_next_granule(g: TheoraGranule, granule: i64, frame_index: i64)
    requires
        g.shift < 63,
        0 <= granule < i64::MAX,
        g.frame_of(granule) == Some(frame_index),
    ensures
        ({
            let next = (granule + 1) as i64;
            if g.is_full(granule) {
                g.frame_of(next) == g.keyframe_of(next)
            } else {
                &&& g.frame_of(next) == Some((frame_index + 1) as i64)
                &&& g.keyframe_of(next) == g.keyframe_of(granule)
            }
        }),
{
    let unit = power2::pow2(g.shift as nat) as int;
    lemma_small_shift(g.shift as nat);
    lemma_halves(granule as int, unit);
    let (upper, offset) = (g.upper(granule), g.offset(granule));
    vstd::arithmetic::div_mod::lemma_fundamental_div_mod(granule as int, unit);
    vstd::arithmetic::mul::lemma_mul_is_commutative(unit, upper);
    let next = granule + 1;
    if offset + 1 == unit {
        assert(next / unit == upper + 1 && next % unit == 0) by (nonlinear_arith)
            requires
                next == upper * unit + unit,
                unit >= 1,
        ;
    } else {
        assert(next / unit == upper && next % unit == offset + 1) by (nonlinear_arith)
            requires
                next == upper * unit + (offset + 1),
                0 <= offset + 1 < unit,
        ;
        lemma_halves(next, unit);
    }
}

} // verus!
