//! What identification packets say is what was written into them.
use crate::bytes;
use crate::codec_id;
use crate::demux::codec_params;
use crate::stream::{MediaType, ParametersView, TimeBase};
use crate::error::Error;
use vstd::prelude::*;

verus! {

/// The Vorbis identification packet with these fields: version 0, channels, rate,
/// the three bit rates, and what stands behind them.
pub open spec fn vorbis_id(
    channels: u8,
    rate: u32,
    maximum: u32,
    nominal: u32,
    minimum: u32,
    tail: Seq<u8>,
) -> Seq<u8> {
    seq![0x01u8, 0x76, 0x6F, 0x72, 0x62, 0x69, 0x73] + bytes::u32_le(0) + seq![channels]
        + bytes::u32_le(rate) + bytes::u32_le(maximum) + bytes::u32_le(nominal) + bytes::u32_le(
        minimum,
    ) + tail
}

/// A Vorbis identification packet is recognised, and the fields that were written
/// into it are read back: the channels, the rate, which is the unit of time too,
/// and the nominal bit rate where it is positive.
pub proof fn law_vorbis_id(
    channels: u8,
    rate: u32,
    maximum: u32,
    nominal: u32,
    minimum: u32,
    tail: Seq<u8>,
)
    requires
        channels > 0,
        rate > 0,
        tail.len() >= 2,
    ensures
        ({
            let p = vorbis_id(channels, rate, maximum, nominal, minimum, tail);
            let codec = codec_id::codec_of(p);
            &&& codec == "vorbis"@
            &&& codec_params::params_of(codec, p) matches Ok(q) && {
                &&& q.codec == "vorbis"@
                &&& q.media_type == MediaType::Audio
                &&& q.channels == Some(channels as u16)
                &&& q.sample_rate == Some(rate)
                &&& q.bit_rate == (if 0 < nominal < 0x8000_0000 {
                    Some(nominal as u64)
                } else {
                    None
                })
                &&& q.extradata == p
                &&& codec_params::time_base_of(codec, q.sample_rate) == (TimeBase {
                    num: 1,
                    den: rate as i64,
                })
            }
        }),
{
    let p = vorbis_id(channels, rate, maximum, nominal, minimum, tail);
    assert(p.len() == 28 + tail.len());
    assert(p.subrange(1, 7) =~= codec_id::VORBIS@);
    lemma_names();
    assert(p.skip(7) =~= bytes::u32_le(0) + p.skip(11));
    bytes::law_u32_le_round_trip(0, p.skip(11));
    assert(p.skip(12) =~= bytes::u32_le(rate) + p.skip(16));
    bytes::law_u32_le_round_trip(rate, p.skip(16));
    assert(p.skip(20) =~= bytes::u32_le(nominal) + p.skip(24));
    bytes::law_u32_le_round_trip(nominal, p.skip(24));
    assert(p[11] == channels);
}

/// The names of the codecs differ.
pub proof fn lemma_names()
    ensures
        "vorbis"@ != "opus"@,
        "vorbis"@ != "flac"@,
        "vorbis"@ != "theora"@,
        "vorbis"@ != "speex"@,
        "vorbis"@ != "unknown"@,
        "opus"@ != "flac"@,
        "opus"@ != "theora"@,
        "opus"@ != "speex"@,
        "opus"@ != "unknown"@,
        "flac"@ != "theora"@,
        "flac"@ != "speex"@,
        "flac"@ != "unknown"@,
        "theora"@ != "speex"@,
        "theora"@ != "unknown"@,
        "speex"@ != "unknown"@,
{
    reveal_strlit("vorbis");
    reveal_strlit("opus");
    reveal_strlit("flac");
    reveal_strlit("theora");
    reveal_strlit("speex");
    reveal_strlit("unknown");
    assert("vorbis"@[0] == 'v' && "opus"@[0] == 'o' && "flac"@[0] == 'f' && "theora"@[0] == 't'
        && "speex"@[0] == 's' && "unknown"@[0] == 'u');
}

/// A Vorbis identification packet that is too short, of another version, without
/// channels or without a rate is refused.
pub proof fn law_vorbis_id_refused(p: Seq<u8>)
    ensures
        p.len() < 30 ==> codec_params::params_of("vorbis"@, p) is Err,
        p.len() >= 30 && (p[7] != 0 || p[8] != 0 || p[9] != 0 || p[10] != 0)
            ==> codec_params::params_of("vorbis"@, p) is Err,
        p.len() >= 30 && p[11] == 0 ==> codec_params::params_of("vorbis"@, p) is Err,
        p.len() >= 30 && p[12] == 0 && p[13] == 0 && p[14] == 0 && p[15] == 0
            ==> codec_params::params_of("vorbis"@, p) is Err,
{
    reveal(bytes::le_u32);
}

/// The Opus identification packet with these fields: version, channels, pre-skip,
/// input rate, output gain and channel mapping, and what stands behind them.
pub open spec fn opus_id(
    version: u8,
    channels: u8,
    pre_skip: u16,
    rate: u32,
    gain: u16,
    mapping: u8,
    tail: Seq<u8>,
) -> Seq<u8> {
    seq![0x4Fu8, 0x70, 0x75, 0x73, 0x48, 0x65, 0x61, 0x64] + seq![version, channels]
        + bytes::u16_le(pre_skip) + bytes::u32_le(rate) + bytes::u16_le(gain) + seq![mapping]
        + tail
}

/// An Opus identification packet is recognised, and its channels and input rate
/// are read back, 48000 where no rate was written. Its time is counted in 48000
/// units per second, whatever the rate.
pub proof fn law_opus_id(
    version: u8,
    channels: u8,
    pre_skip: u16,
    rate: u32,
    gain: u16,
    mapping: u8,
    tail: Seq<u8>,
)
    ensures
        ({
            let p = opus_id(version, channels, pre_skip, rate, gain, mapping, tail);
            let codec = codec_id::codec_of(p);
            &&& codec == "opus"@
            &&& codec_params::params_of(codec, p) matches Ok(q) && {
                &&& q.codec == "opus"@
                &&& q.media_type == MediaType::Audio
                &&& q.channels == Some(channels as u16)
                &&& rate > 0 ==> q.sample_rate == Some(rate)
                &&& rate == 0 ==> q.sample_rate == Some(48000u32)
                &&& q.bit_rate is None
                &&& q.extradata == p
                &&& codec_params::time_base_of(codec, q.sample_rate) == (TimeBase {
                    num: 1,
                    den: 48000,
                })
            }
        }),
{
    let p = opus_id(version, channels, pre_skip, rate, gain, mapping, tail);
    assert(p.len() == 19 + tail.len());
    assert(p[0] == 0x4F);
    assert(p.subrange(0, 8) =~= codec_id::OPUS_HEAD@);
    lemma_names();
    assert(p.skip(12) =~= bytes::u32_le(rate) + p.skip(16));
    bytes::law_u32_le_round_trip(rate, p.skip(16));
    assert(p[9] == channels);
}

/// What is known of a stream of another codec is its codec, what it carries and
/// its first packet; its time is counted in microseconds.
pub proof fn law_other_id(tail: Seq<u8>)
    ensures
        ({
            let flac = seq![0x7Fu8, 0x46, 0x4C, 0x41, 0x43] + tail;
            let theora = seq![0x80u8, 0x74, 0x68, 0x65, 0x6F, 0x72, 0x61] + tail;
            let speex = seq![0x53u8, 0x70, 0x65, 0x65, 0x78, 0x20, 0x20, 0x20] + tail;
            &&& described(flac, "flac"@, MediaType::Audio)
            &&& described(theora, "theora"@, MediaType::Video)
            &&& described(speex, "speex"@, MediaType::Audio)
        }),
{
    lemma_names();
    let flac = seq![0x7Fu8, 0x46, 0x4C, 0x41, 0x43] + tail;
    assert(flac[0] == 0x7F);
    assert(flac.subrange(1, 5) =~= codec_id::FLAC@);
    assert(!bytes::holds_at(flac, 0, codec_id::OPUS_HEAD@)) by {
        assert(codec_id::OPUS_HEAD@[0] == 0x4F);
        if bytes::holds_at(flac, 0, codec_id::OPUS_HEAD@) {
            assert(flac.subrange(0, 8)[0] == flac[0]);
        }
    }
    let theora = seq![0x80u8, 0x74, 0x68, 0x65, 0x6F, 0x72, 0x61] + tail;
    assert(theora[0] == 0x80);
    assert(theora.subrange(1, 7) =~= codec_id::THEORA@);
    assert(!bytes::holds_at(theora, 0, codec_id::OPUS_HEAD@)) by {
        assert(codec_id::OPUS_HEAD@[0] == 0x4F);
        if bytes::holds_at(theora, 0, codec_id::OPUS_HEAD@) {
            assert(theora.subrange(0, 8)[0] == theora[0]);
        }
    }
    let speex = seq![0x53u8, 0x70, 0x65, 0x65, 0x78, 0x20, 0x20, 0x20] + tail;
    assert(speex[0] == 0x53);
    assert(speex.subrange(0, 8) =~= codec_id::SPEEX@);
    assert(!bytes::holds_at(speex, 0, codec_id::OPUS_HEAD@)) by {
        assert(codec_id::OPUS_HEAD@[0] == 0x4F);
        if bytes::holds_at(speex, 0, codec_id::OPUS_HEAD@) {
            assert(speex.subrange(0, 8)[0] == speex[0]);
        }
    }
}

/// A first packet says that its stream is of `codec` and carries `media`.
pub open spec fn described(p: Seq<u8>, codec: Seq<char>, media: MediaType) -> bool {
    &&& codec_id::codec_of(p) == codec
    &&& codec_params::params_of(codec, p) == Ok::<ParametersView, Error>(
        ParametersView {
            codec,
            media_type: media,
            channels: None,
            sample_rate: None,
            bit_rate: None,
            extradata: p,
        },
    )
    &&& codec_params::time_base_of(codec, None) == (TimeBase { num: 1, den: 1000000 })
}

/// A packet that begins with none of the known magics is of an unknown codec.
pub proof fn law_unknown_id(p: Seq<u8>)
    requires
        p.len() == 0 || (p[0] != 0x01 && p[0] != 0x4F && p[0] != 0x7F && p[0] != 0x80 && p[0]
            != 0x53),
    ensures
        described(p, "unknown"@, MediaType::Unknown),
{
    lemma_names();
    assert(codec_id::OPUS_HEAD@[0] == 0x4F);
    assert(codec_id::SPEEX@[0] == 0x53);
    if bytes::holds_at(p, 0, codec_id::OPUS_HEAD@) {
        assert(p.subrange(0, 8)[0] == p[0]);
    }
    if bytes::holds_at(p, 0, codec_id::SPEEX@) {
        assert(p.subrange(0, 8)[0] == p[0]);
    }
}

/// A second is as many units of Vorbis or FLAC as they have samples, where their
/// rate is known. It is 48000 units of Opus, whatever its rate, and a million units
/// of all else.
pub proof fn law_units(codec: Seq<char>, rate: Option<u32>)
    ensures
        ({
            let base = codec_params::time_base_of(codec, rate);
            let known = codec == "vorbis"@ || codec == "flac"@;
            &&& base.num == 1
            &&& codec == "opus"@ ==> base.den == 48000
            &&& known ==> (rate matches Some(r) ==> base.den == r)
            &&& known && rate is None ==> base.den == 1000000
            &&& !known && codec != "opus"@ ==> base.den == 1000000
        }),
{
    lemma_names();
}

} // verus!
