//! What the first packet of a stream says of its codec.
use crate::bytes;
use crate::bytes::{push_all, read_u32_le};
use crate::codec_id::CodecId;
use crate::error::{Error, Fault};
use crate::stream::{CodecParameters, MediaType, ParametersView, TimeBase};
use vstd::prelude::*;

verus! {

/// What a codec's streams carry.
pub open spec fn media_of(codec: Seq<char>) -> MediaType {
    if codec == "vorbis"@ || codec == "opus"@ || codec == "flac"@ || codec == "speex"@ {
        MediaType::Audio
    } else if codec == "theora"@ {
        MediaType::Video
    } else {
        MediaType::Unknown
    }
}

/// Parameters of which only the codec is known.
pub open spec fn bare_params(codec: Seq<char>) -> ParametersView {
    ParametersView {
        codec,
        media_type: media_of(codec),
        channels: None,
        sample_rate: None,
        bit_rate: None,
        extradata: Seq::empty(),
    }
}

/// What a Vorbis identification packet says.
pub open spec fn vorbis_params(packet: Seq<u8>) -> Result<ParametersView, Error> {
    let version = bytes::le_u32(packet.skip(7));
    let rate = bytes::le_u32(packet.skip(12));
    let nominal = bytes::signed32(bytes::le_u32(packet.skip(20)));
    if packet.len() < 30 {
        Err(Error::InvalidData(Fault::VorbisIdLength))
    } else if version != 0 {
        Err(Error::Unsupported(Fault::VorbisVersion { version }))
    } else if packet[11] == 0 || rate == 0 {
        Err(Error::InvalidData(Fault::VorbisIdZero))
    } else {
        Ok(
            ParametersView {
                channels: Some(packet[11] as u16),
                sample_rate: Some(rate),
                bit_rate: if nominal > 0 {
                    Some(nominal as u64)
                } else {
                    None
                },
                ..bare_params("vorbis"@)
            },
        )
    }
}

/// What an Opus identification packet says.
pub open spec fn opus_params(packet: Seq<u8>) -> Result<ParametersView, Error> {
    let rate = bytes::le_u32(packet.skip(12));
    if packet.len() < 19 {
        Err(Error::InvalidData(Fault::OpusIdLength))
    } else {
        Ok(
            ParametersView {
                channels: Some(packet[9] as u16),
                sample_rate: Some(
                    if rate > 0 {
                        rate
                    } else {
                        48000
                    },
                ),
                ..bare_params("opus"@)
            },
        )
    }
}

/// What the first packet of a stream says.
pub open spec fn params_of(codec: Seq<char>, first: Seq<u8>) -> Result<ParametersView, Error> {
    let found = if codec == "vorbis"@ {
        vorbis_params(first)
    } else if codec == "opus"@ {
        opus_params(first)
    } else {
        Ok(bare_params(codec))
    };
    match found {
        Ok(p) => Ok(ParametersView { extradata: first, ..p }),
        Err(e) => Err(e),
    }
}

/// The unit of a stream's timestamps: a sample of Vorbis and FLAC where their
/// rate is known, 1/48000 s for Opus, and a microsecond for all else.
pub open spec fn time_base_of(codec: Seq<char>, rate: Option<u32>) -> TimeBase {
    if codec == "opus"@ {
        TimeBase { num: 1, den: 48000 }
    } else if (codec == "vorbis"@ || codec == "flac"@) && rate is Some {
        TimeBase { num: 1, den: rate->Some_0 as i64 }
    } else {
        TimeBase { num: 1, den: 1000000 }
    }
}

fn bare(codec_id: &CodecId) -> (p: CodecParameters)
    ensures
        p@ == bare_params(codec_id@),
{
    let media_type = if codec_id.is("vorbis") || codec_id.is("opus") || codec_id.is("flac")
        || codec_id.is("speex") {
        MediaType::Audio
    } else if codec_id.is("theora") {
        MediaType::Video
    } else {
        MediaType::Unknown
    };
    CodecParameters {
        codec_id: codec_id.copied(),
        media_type,
        channels: None,
        sample_rate: None,
        bit_rate: None,
        extradata: Vec::new(),
    }
}

/// Reads a Vorbis identification packet into parameters of which only the codec
/// is known.
fn parse_vorbis_id(p: CodecParameters, packet: &[u8]) -> (r: Result<CodecParameters, Error>)
    requires
        p@ == bare_params("vorbis"@),
    ensures
        match r {
            Ok(q) => vorbis_params(packet@) == Ok::<ParametersView, Error>(q@),
            Err(e) => vorbis_params(packet@) == Err::<ParametersView, Error>(e),
        },
{
    if packet.len() < 30 {
        return Err(Error::InvalidData(Fault::VorbisIdLength));
    }
    let version: u32 = read_u32_le(packet, 7);
    if version != 0 {
        return Err(Error::Unsupported(Fault::VorbisVersion { version }));
    }
    let channels: u8 = packet[11];
    let rate: u32 = read_u32_le(packet, 12);
    let nominal: u32 = read_u32_le(packet, 20);
    if channels == 0 || rate == 0 {
        return Err(Error::InvalidData(Fault::VorbisIdZero));
    }
    let mut q = p;
    q.channels = Some(channels as u16);
    q.sample_rate = Some(rate);
    if 0 < nominal && nominal < 0x8000_0000 {
        q.bit_rate = Some(nominal as u64);
    }
    Ok(q)
}

/// Reads an Opus identification packet into parameters of which only the codec
/// is known.
fn parse_opus_id(p: CodecParameters, packet: &[u8]) -> (r: Result<CodecParameters, Error>)
    requires
        p@ == bare_params("opus"@),
    ensures
        match r {
            Ok(q) => opus_params(packet@) == Ok::<ParametersView, Error>(q@),
            Err(e) => opus_params(packet@) == Err::<ParametersView, Error>(e),
        },
{
    if packet.len() < 19 {
        return Err(Error::InvalidData(Fault::OpusIdLength));
    }
    let rate: u32 = read_u32_le(packet, 12);
    let mut q = p;
    q.channels = Some(packet[9] as u16);
    q.sample_rate = Some(
        if rate > 0 {
            rate
        } else {
            48000
        },
    );
    Ok(q)
}

/// Reads what the first packet of a stream says of its codec.
pub fn guess_params(codec_id: &CodecId, first: &[u8]) -> (r: Result<CodecParameters, Error>)
    ensures
        match r {
            Ok(p) => params_of(codec_id@, first@) == Ok::<ParametersView, Error>(p@),
            Err(e) => params_of(codec_id@, first@) == Err::<ParametersView, Error>(e),
        },
{
    proof {
        reveal_strlit("vorbis");
        reveal_strlit("opus");
    }
    let p = bare(codec_id);
    let mut q = if codec_id.is("vorbis") {
        match parse_vorbis_id(p, first) {
            Ok(q) => q,
            Err(e) => return Err(e),
        }
    } else if codec_id.is("opus") {
        match parse_opus_id(p, first) {
            Ok(q) => q,
            Err(e) => return Err(e),
        }
    } else {
        p
    };
    let ghost found = q@;
    let mut extradata: Vec<u8> = Vec::new();
    push_all(&mut extradata, first);
    q.extradata = extradata;
    assert(q@ =~= (ParametersView { extradata: first@, ..found }));
    Ok(q)
}

/// The unit of a stream's timestamps.
pub fn stream_time_base(codec_id: &CodecId, sample_rate: Option<u32>) -> (t: TimeBase)
    ensures
        t == time_base_of(codec_id@, sample_rate),
{
    proof {
        reveal_strlit("vorbis");
        reveal_strlit("opus");
        reveal_strlit("flac");
    }
    if codec_id.is("opus") {
        return TimeBase::new(1, 48000);
    }
    if codec_id.is("vorbis") || codec_id.is("flac") {
        if let Some(rate) = sample_rate {
            return TimeBase::new(1, rate as i64);
        }
    }
    TimeBase::new(1, 1000000)
}

} // verus!
