//! Which logical bitstream a seek looks in.
use crate::demux::demuxer;
use crate::demux::demuxer::DemuxView;
use crate::demux::whole_laws;
use crate::serial_map;
use vstd::prelude::*;

verus! {

/// The bitstream that is found among keys is of the stream that was asked for, and
/// none is found only where there is none.
proof fn lemma_among(d: DemuxView, keys: Seq<u32>, index: u32)
    requires
        whole_laws::numbered(d),
        forall|i: int| 0 <= i < keys.len() ==> d.states.contains_key(#[trigger] keys[i]),
    ensures
        match demuxer::serial_among(d, keys, index) {
            Some(k) => keys.contains(k) && d.states[k].public_index == index,
            None => forall|i: int|
                0 <= i < keys.len() ==> d.states[#[trigger] keys[i]].public_index != index,
        },
    decreases keys.len(),
{
    if keys.len() > 0 {
        let rest = keys.skip(1);
        assert forall|i: int| 0 <= i < rest.len() implies d.states.contains_key(
            #[trigger] rest[i],
        ) by {
            assert(keys[i + 1] == rest[i]);
        }
        lemma_among(d, rest, index);
        assert(d.states.contains_key(keys[0]));
        let place = d.states[keys[0]].public_index as int;
        assert(d.streams[place].index == place);
        match demuxer::serial_among(d, keys, index) {
            Some(k) => {
                if place != index {
                    let j = choose|j: int| 0 <= j < rest.len() && rest[j] == k;
                    assert(keys[j + 1] == k);
                } else {
                    assert(keys[0] == k);
                }
            },
            None => {
                assert forall|i: int| 0 <= i < keys.len() implies d.states[
                    #[trigger] keys[i]
                ].public_index != index by {
                    if i > 0 {
                        assert(rest[i - 1] == keys[i]);
                    }
                }
            },
        }
    }
}

/// A seek in a stream of Vorbis, Opus, FLAC or Speex looks in the logical bitstream
/// that belongs to the stream. It is refused for a stream that is not there, that
/// has no bitstream, or whose granule positions are no timestamps.
pub proof fn law_seek_target(d: DemuxView, keys: Seq<u32>, index: u32, k: u32)
    requires
        whole_laws::numbered(d),
        serial_map::keys_ascend(keys),
        forall|j: u32| #[trigger] keys.contains(j) == d.states.contains_key(j),
    ensures
        ({
            let codec = d.streams[index as int].params.codec;
            demuxer::seek_serial(d, index) matches Ok(found) && found == k <==> {
                &&& index < d.streams.len()
                &&& d.states.contains_key(k)
                &&& d.states[k].public_index == index
                &&& codec == "vorbis"@ || codec == "opus"@ || codec == "flac"@ || codec
                    == "speex"@
            }
        }),
{
    serial_map::lemma_ordered_keys(d.states, keys);
    assert forall|i: int| 0 <= i < keys.len() implies d.states.contains_key(
        #[trigger] keys[i],
    ) by {
        assert(keys.contains(keys[i]));
    }
    lemma_among(d, keys, index);
    if d.states.contains_key(k) {
        assert(keys.contains(k));
        let j = choose|j: int| 0 <= j < keys.len() && keys[j] == k;
        assert(keys[j] == k);
    }
    if let Some(s) = demuxer::serial_among(d, keys, index) {
        assert(d.states.contains_key(s));
    }
}

} // verus!
