//! Minimal header packets of the codecs that Ogg carries, for building streams
//! by hand.
use crate::bytes;
use crate::bytes::{push_all, push_u16_le, push_u32_le};
use crate::codec_id::{OPUS_HEAD, THEORA, VORBIS};
use vstd::prelude::*;

verus! {

/// `OpusTags`
pub const OPUS_TAGS: [u8; 8] = [0x4F, 0x70, 0x75, 0x73, 0x54, 0x61, 0x67, 0x73];

/// `n` zero bytes.
pub open spec fn zeros(n: nat) -> Seq<u8> {
    Seq::new(n, |i: int| 0u8)
}

/// Appends `n` zero bytes.
pub fn push_zeros(out: &mut Vec<u8>, n: usize)
    ensures
        final(out)@ == old(out)@ + zeros(n as nat),
{
    let ghost before = out@;
    let mut i: usize = 0;
    assert(before + zeros(0) =~= before);
    while i < n
        invariant
            i <= n,
            out@ == before + zeros(i as nat),
        decreases n - i,
    {
        out.push(0);
        i += 1;
        assert(out@ =~= before + zeros(i as nat));
    }
}

/// A Vorbis identification packet: version 0, two channels, 48 kHz, a nominal
/// bitrate of 128000.
pub fn vorbis_id_packet() -> (p: Vec<u8>)
    ensures
        p@ == seq![0x01u8] + VORBIS@ + bytes::u32_le(0) + seq![2u8] + bytes::u32_le(48_000)
            + bytes::u32_le(0) + bytes::u32_le(128_000) + bytes::u32_le(0) + seq![0xB8u8, 0x01u8],
        p@.len() == 30,
{
    let mut p: Vec<u8> = Vec::new();
    p.push(0x01);
    push_all(&mut p, &VORBIS);
    push_u32_le(&mut p, 0);
    p.push(2);
    push_u32_le(&mut p, 48_000);
    push_u32_le(&mut p, 0);
    push_u32_le(&mut p, 128_000);
    push_u32_le(&mut p, 0);
    p.push(0xB8);
    p.push(0x01);
    assert(p@ =~= seq![0x01u8] + VORBIS@ + bytes::u32_le(0) + seq![2u8] + bytes::u32_le(48_000)
        + bytes::u32_le(0) + bytes::u32_le(128_000) + bytes::u32_le(0) + seq![0xB8u8, 0x01u8]);
    p
}

/// A Vorbis comment packet with an empty vendor and no comments.
pub fn vorbis_comment_packet() -> (p: Vec<u8>)
    ensures
        p@ == seq![0x03u8] + VORBIS@ + bytes::u32_le(0) + bytes::u32_le(0) + seq![0x01u8],
{
    let mut p: Vec<u8> = Vec::new();
    p.push(0x03);
    push_all(&mut p, &VORBIS);
    push_u32_le(&mut p, 0);
    push_u32_le(&mut p, 0);
    p.push(0x01);
    assert(p@ =~= seq![0x03u8] + VORBIS@ + bytes::u32_le(0) + bytes::u32_le(0) + seq![0x01u8]);
    p
}

/// A placeholder of a Vorbis setup packet: the signature and 16 zero bytes.
pub fn vorbis_setup_packet() -> (p: Vec<u8>)
    ensures
        p@ == seq![0x05u8] + VORBIS@ + zeros(16),
{
    let mut p: Vec<u8> = Vec::new();
    p.push(0x05);
    push_all(&mut p, &VORBIS);
    push_zeros(&mut p, 16);
    assert(p@ =~= seq![0x05u8] + VORBIS@ + zeros(16));
    p
}

/// An Opus identification packet: version 1, two channels, the given pre-skip,
/// 48 kHz, no gain, mapping family 0.
pub fn opus_head_packet(pre_skip: u16) -> (p: Vec<u8>)
    ensures
        p@ == OPUS_HEAD@ + seq![1u8, 2u8] + bytes::u16_le(pre_skip) + bytes::u32_le(48_000)
            + bytes::u16_le(0) + seq![0u8],
        p@.len() == 19,
{
    let mut p: Vec<u8> = Vec::new();
    push_all(&mut p, &OPUS_HEAD);
    p.push(1);
    p.push(2);
    push_u16_le(&mut p, pre_skip);
    push_u32_le(&mut p, 48_000);
    push_u16_le(&mut p, 0);
    p.push(0);
    assert(p@ =~= OPUS_HEAD@ + seq![1u8, 2u8] + bytes::u16_le(pre_skip) + bytes::u32_le(48_000)
        + bytes::u16_le(0) + seq![0u8]);
    p
}

/// An Opus tags packet with an empty vendor and no comments.
pub fn opus_tags_packet() -> (p: Vec<u8>)
    ensures
        p@ == OPUS_TAGS@ + bytes::u32_le(0) + bytes::u32_le(0),
{
    let mut p: Vec<u8> = Vec::new();
    push_all(&mut p, &OPUS_TAGS);
    push_u32_le(&mut p, 0);
    push_u32_le(&mut p, 0);
    assert(p@ =~= OPUS_TAGS@ + bytes::u32_le(0) + bytes::u32_le(0));
    p
}

/// A packet with the signature of a Theora identification packet and its
/// length, all fields zero.
pub fn theora_id_packet() -> (p: Vec<u8>)
    ensures
        p@ == seq![0x80u8] + THEORA@ + zeros(35),
{
    let mut p: Vec<u8> = Vec::new();
    p.push(0x80);
    push_all(&mut p, &THEORA);
    push_zeros(&mut p, 35);
    assert(p@ =~= seq![0x80u8] + THEORA@ + zeros(35));
    p
}

/// A Theora comment packet with an empty vendor and no comments.
pub fn theora_comment_packet() -> (p: Vec<u8>)
    ensures
        p@ == seq![0x81u8] + THEORA@ + bytes::u32_le(0) + bytes::u32_le(0),
{
    let mut p: Vec<u8> = Vec::new();
    p.push(0x81);
    push_all(&mut p, &THEORA);
    push_u32_le(&mut p, 0);
    push_u32_le(&mut p, 0);
    assert(p@ =~= seq![0x81u8] + THEORA@ + bytes::u32_le(0) + bytes::u32_le(0));
    p
}

/// A placeholder of a Theora setup packet: the signature and 8 zero bytes.
pub fn theora_setup_packet() -> (p: Vec<u8>)
    ensures
        p@ == seq![0x82u8] + THEORA@ + zeros(8),
{
    let mut p: Vec<u8> = Vec::new();
    p.push(0x82);
    push_all(&mut p, &THEORA);
    push_zeros(&mut p, 8);
    assert(p@ =~= seq![0x82u8] + THEORA@ + zeros(8));
    p
}

} // verus!
