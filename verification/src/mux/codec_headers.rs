//! The header packets of a stream, taken out of its setup data.
use crate::bytes;
use crate::codec_id::CodecId;
use crate::framing;
use crate::header_packets::{opus_tags_packet, OPUS_TAGS};
use crate::mux::xiph;
use crate::mux::xiph::xiph_unlace;
use vstd::prelude::*;

verus! {

/// The header packets that a codec's setup data stands for.
pub open spec fn headers_of(codec: Seq<char>, extradata: Seq<u8>) -> Seq<Seq<u8>> {
    if extradata.len() == 0 {
        Seq::empty()
    } else if codec == "vorbis"@ || codec == "theora"@ {
        match xiph::packets_in(extradata) {
            Some(packets) => packets,
            None => Seq::empty(),
        }
    } else if codec == "opus"@ {
        seq![extradata, OPUS_TAGS@ + bytes::u32_le(0) + bytes::u32_le(0)]
    } else {
        seq![extradata]
    }
}

/// Takes the header packets out of a codec's setup data: Vorbis and Theora lace
/// them into one blob, Opus keeps its first and gets an empty second, and any
/// other codec has one.
pub fn extract_codec_headers(codec_id: &CodecId, extradata: &[u8]) -> (packets: Vec<Vec<u8>>)
    ensures
        framing::packets_view(packets@) == headers_of(codec_id@, extradata@),
{
    let mut packets: Vec<Vec<u8>> = Vec::new();
    if extradata.len() == 0 {
        assert(framing::packets_view(packets@) =~= Seq::<Seq<u8>>::empty());
        return packets;
    }
    if codec_id.is("vorbis") || codec_id.is("theora") {
        return match xiph_unlace(extradata) {
            Some(found) => found,
            None => {
                assert(framing::packets_view(packets@) =~= Seq::<Seq<u8>>::empty());
                packets
            },
        };
    }
    packets.push(vstd::slice::slice_to_vec(extradata));
    if codec_id.is("opus") {
        packets.push(opus_tags_packet());
    }
    assert(framing::packets_view(packets@) =~= headers_of(codec_id@, extradata@));
    packets
}

/// Laced header packets are taken out as they were laced in.
pub proof fn law_laced_headers(codec: Seq<char>, packets: Seq<Seq<u8>>)
    requires
        codec == "vorbis"@ || codec == "theora"@,
        1 <= packets.len() <= 256,
    ensures
        headers_of(codec, xiph::blob_of(packets)) == packets,
{
    xiph::law_lace_round_trip(packets);
}

} // verus!
