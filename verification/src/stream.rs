//! What is known of a logical bitstream, and the packets that it carries.
use crate::bytes::push_all;
use crate::codec_id::CodecId;
use vstd::prelude::*;

verus! {

/// The unit of a stream's timestamps, as a fraction of a second.
#[derive(Clone, Copy, Debug, PartialEq, Eq, Structural)]
pub struct TimeBase {
    /// Numerator.
    pub num: i64,
    /// Denominator.
    pub den: i64,
}

impl TimeBase {
    /// The unit `num / den` seconds.
    pub fn new(num: i64, den: i64) -> (t: Self)
        ensures
            t == (TimeBase { num, den }),
    {
        TimeBase { num, den }
    }
}

/// What a stream carries.
#[derive(Clone, Copy, Debug, PartialEq, Eq, Structural)]
pub enum MediaType {
    Audio,
    Video,
    Unknown,
}

/// What is known of a stream's codec.
#[derive(Clone, Debug, PartialEq, Eq)]
pub struct CodecParameters {
    /// The codec.
    pub codec_id: CodecId,
    /// What the stream carries.
    pub media_type: MediaType,
    /// Number of channels.
    pub channels: Option<u16>,
    /// Samples per second.
    pub sample_rate: Option<u32>,
    /// Bits per second.
    pub bit_rate: Option<u64>,
    /// The codec's setup data.
    pub extradata: Vec<u8>,
}

/// What [`CodecParameters`] stand for.
#[verifier::ext_equal]
pub struct ParametersView {
    pub codec: Seq<char>,
    pub media_type: MediaType,
    pub channels: Option<u16>,
    pub sample_rate: Option<u32>,
    pub bit_rate: Option<u64>,
    pub extradata: Seq<u8>,
}

impl View for CodecParameters {
    type V = ParametersView;

    open spec fn view(&self) -> ParametersView {
        ParametersView {
            codec: self.codec_id@,
            media_type: self.media_type,
            channels: self.channels,
            sample_rate: self.sample_rate,
            bit_rate: self.bit_rate,
            extradata: self.extradata@,
        }
    }
}

/// A logical bitstream.
#[derive(Clone, Debug, PartialEq, Eq)]
pub struct StreamInfo {
    /// Number of the stream.
    pub index: u32,
    /// Unit of its timestamps.
    pub time_base: TimeBase,
    /// Its codec.
    pub params: CodecParameters,
}

/// What a [`StreamInfo`] stands for.
#[verifier::ext_equal]
pub struct StreamInfoView {
    pub index: u32,
    pub time_base: TimeBase,
    pub params: ParametersView,
}

impl View for StreamInfo {
    type V = StreamInfoView;

    open spec fn view(&self) -> StreamInfoView {
        StreamInfoView { index: self.index, time_base: self.time_base, params: self.params@ }
    }
}

impl StreamInfo {
    /// The same stream once more.
    pub fn copied(&self) -> (s: Self)
        ensures
            s@ == self@,
    {
        let mut extradata: Vec<u8> = Vec::new();
        push_all(&mut extradata, self.params.extradata.as_slice());
        let s = StreamInfo {
            index: self.index,
            time_base: self.time_base,
            params: CodecParameters {
                codec_id: self.params.codec_id.copied(),
                media_type: self.params.media_type,
                channels: self.params.channels,
                sample_rate: self.params.sample_rate,
                bit_rate: self.params.bit_rate,
                extradata,
            },
        };
        assert(s@ =~= self@);
        s
    }
}

/// What a list of streams stands for.
pub open spec fn streams_view(streams: Seq<StreamInfo>) -> Seq<StreamInfoView> {
    streams.map_values(|s: StreamInfo| s@)
}

/// Copies a list of streams.
pub fn copied_streams(streams: &[StreamInfo]) -> (out: Vec<StreamInfo>)
    ensures
        streams_view(out@) == streams_view(streams@),
{
    let mut out: Vec<StreamInfo> = Vec::new();
    let mut i: usize = 0;
    while i < streams.len()
        invariant
            i <= streams@.len(),
            streams_view(out@) == streams_view(streams@).take(i as int),
        decreases streams@.len() - i,
    {
        let ghost before = streams_view(out@);
        let s = streams[i].copied();
        out.push(s);
        assert(streams_view(out@) =~= before.push(s@));
        assert(streams_view(out@) =~= streams_view(streams@).take(i + 1));
        i += 1;
    }
    assert(streams_view(streams@).take(i as int) =~= streams_view(streams@));
    out
}

/// A packet of one stream.
#[derive(Clone, Debug, PartialEq, Eq)]
pub struct Packet {
    /// Number of the stream.
    pub stream_index: u32,
    /// Timestamp in the stream's unit.
    pub pts: Option<i64>,
    /// The packet can be decoded without those before it.
    pub keyframe: bool,
    /// The packet is the last to end on its page.
    pub unit_boundary: bool,
    /// The packet's bytes.
    pub data: Vec<u8>,
}

/// What a [`Packet`] stands for.
#[verifier::ext_equal]
pub struct PacketView {
    pub stream_index: u32,
    pub pts: Option<i64>,
    pub keyframe: bool,
    pub unit_boundary: bool,
    pub data: Seq<u8>,
}

impl View for Packet {
    type V = PacketView;

    open spec fn view(&self) -> PacketView {
        PacketView {
            stream_index: self.stream_index,
            pts: self.pts,
            keyframe: self.keyframe,
            unit_boundary: self.unit_boundary,
            data: self.data@,
        }
    }
}

/// A packet of which only the bytes are known.
pub open spec fn bare_packet(stream_index: u32, data: Seq<u8>) -> PacketView {
    PacketView { stream_index, pts: None, keyframe: false, unit_boundary: false, data }
}

impl Packet {
    /// A packet of which only the bytes are known.
    pub fn new(stream_index: u32, data: Vec<u8>) -> (p: Self)
        ensures
            p@ == bare_packet(stream_index, data@),
    {
        Packet { stream_index, pts: None, keyframe: false, unit_boundary: false, data }
    }
}

} // verus!
