//! What a demuxer learns of a stream from its header packets.
use crate::codec_id;
use crate::demux::codec_params;
use crate::demux::codec_private;
use crate::demux::comment_laws;
use crate::demux::comment_laws::Written;
use crate::demux::comments::CommentView;
use crate::demux::demuxer;
use crate::demux::demuxer::DemuxView;
use crate::demux::logical;
use crate::demux::param_laws;
use crate::demux::round_trip;
use crate::demux::whole_laws;
use crate::header_packets;
use crate::mux::xiph;
use crate::page;
use crate::page::flags;
use crate::page::PageView;
use crate::serial_map;
use crate::stream::{MediaType, TimeBase};
use vstd::prelude::*;

verus! {

/// The page opens a logical bitstream and holds its first packet, whole and alone.
pub open spec fn opening(p: PageView, first: Seq<u8>) -> bool {
    &&& page::flag_set(p.flags, flags::FIRST_PAGE)
    &&& !page::flag_set(p.flags, flags::CONTINUED)
    &&& p.lacing == page::laced(first.len())
    &&& p.data == first
}

/// What a demuxer that knew `d.streams.len()` streams has learned from a page that
/// opens one more: nothing of the others has changed.
pub open spec fn one_more(d: DemuxView, e: DemuxView, serial: u32) -> bool {
    let n = d.streams.len() as int;
    &&& e.streams.len() == n + 1
    &&& e.streams[n].index == n
    &&& e.states.contains_key(serial)
    &&& e.states[serial].public_index == n
    &&& forall|i: int| 0 <= i < n ==> #[trigger] e.streams[i] == d.streams[i]
    &&& forall|k: u32|
        k != serial ==> (#[trigger] e.states.contains_key(k) <==> d.states.contains_key(k))
            && e.states[k] == d.states[k]
}

/// A page that opens a logical bitstream adds one stream, described by the first
/// packet. That packet is kept as the first header packet, or delivered where the
/// codec has none.
proof fn lemma_described(d: DemuxView, p: PageView, first: Seq<u8>)
    requires
        d.opens(p),
        opening(p, first),
        codec_params::params_of(codec_id::codec_of(first), first) is Ok,
        d.streams.len() < u32::MAX,
    ensures
        ({
            let (e, r) = d.processed(p);
            let codec = codec_id::codec_of(first);
            let params = codec_params::params_of(codec, first)->Ok_0;
            let info = e.streams[d.streams.len() as int];
            let s = e.states[p.serial];
            let headers = codec_id::header_count(codec);
            &&& r is Ok
            &&& one_more(d, e, p.serial)
            &&& info.time_base == codec_params::time_base_of(codec, params.sample_rate)
            &&& info.params.codec == params.codec
            &&& info.params.media_type == params.media_type
            &&& info.params.channels == params.channels
            &&& info.params.sample_rate == params.sample_rate
            &&& info.params.bit_rate == params.bit_rate
            &&& if headers > 0 {
                &&& s.headers == headers - 1
                &&& s.header_packets == seq![first]
                &&& e.packets == d.packets
            } else {
                &&& s.headers == 0
                &&& s.header_packets.len() == 0
                &&& e.packets.len() == d.packets.len() + 1
                &&& e.packets.drop_last() == d.packets
                &&& e.packets.last().data == first
                &&& e.packets.last().stream_index == d.streams.len()
            }
        }),
{
    page::law_laced(first.len());
    round_trip::lemma_run_of_segments(p.lacing);
    let pieces = page::segments(p.lacing);
    assert(first.subrange(0, first.len() as int) =~= first);
    let m = d.linked(p);
    let r = m.registered(p)->Ok_0;
    let s = r.states[p.serial];
    assert(!s.misses(p));
    assert(pieces.drop_last() =~= Seq::empty());
    let none = logical::gathered(pieces.drop_last(), p.data, false, s.pending, s.pending_valid);
    assert(none.done.len() == 0);
    let g = s.gather(p);
    assert(g.done =~= seq![first]);
    let t = s.after(p);
    let e = d.processed(p).0;
    if codec_id::header_count(codec_id::codec_of(first)) > 0 {
        assert(t.header_packets =~= seq![first]);
        assert(e.packets =~= d.packets);
    } else {
        assert(t.header_packets =~= Seq::empty());
        let now = s.delivered(p, d.streams.len() as u32);
        assert(now.len() == 1);
        assert(e.packets == d.packets + now);
        assert(e.packets.drop_last() =~= d.packets);
    }
}

/// A stream that opens with a Vorbis identification packet is described by the
/// fields of that packet: its time is counted in samples. Two more header packets
/// are awaited.
pub proof fn law_vorbis_described(
    d: DemuxView,
    p: PageView,
    channels: u8,
    rate: u32,
    maximum: u32,
    nominal: u32,
    minimum: u32,
    tail: Seq<u8>,
)
    requires
        d.opens(p),
        channels > 0,
        rate > 0,
        tail.len() >= 2,
        opening(p, param_laws::vorbis_id(channels, rate, maximum, nominal, minimum, tail)),
        d.streams.len() < u32::MAX,
    ensures
        ({
            let (e, r) = d.processed(p);
            let info = e.streams[d.streams.len() as int];
            &&& r is Ok
            &&& one_more(d, e, p.serial)
            &&& info.params.codec == "vorbis"@
            &&& info.params.media_type == MediaType::Audio
            &&& info.params.channels == Some(channels as u16)
            &&& info.params.sample_rate == Some(rate)
            &&& info.time_base == (TimeBase { num: 1, den: rate as i64 })
            &&& e.states[p.serial].headers == 2
            &&& e.states[p.serial].header_packets == seq![p.data]
            &&& e.packets == d.packets
        }),
{
    param_laws::law_vorbis_id(channels, rate, maximum, nominal, minimum, tail);
    param_laws::lemma_names();
    lemma_described(
        d,
        p,
        param_laws::vorbis_id(channels, rate, maximum, nominal, minimum, tail),
    );
}

/// A stream that opens with an Opus identification packet is described by the
/// fields of that packet: its time is counted in 48000 units per second, whatever
/// its rate. One more header packet is awaited.
pub proof fn law_opus_described(
    d: DemuxView,
    p: PageView,
    version: u8,
    channels: u8,
    pre_skip: u16,
    rate: u32,
    gain: u16,
    mapping: u8,
    tail: Seq<u8>,
)
    requires
        d.opens(p),
        opening(p, param_laws::opus_id(version, channels, pre_skip, rate, gain, mapping, tail)),
        d.streams.len() < u32::MAX,
    ensures
        ({
            let (e, r) = d.processed(p);
            let info = e.streams[d.streams.len() as int];
            &&& r is Ok
            &&& one_more(d, e, p.serial)
            &&& info.params.codec == "opus"@
            &&& info.params.media_type == MediaType::Audio
            &&& info.params.channels == Some(channels as u16)
            &&& rate > 0 ==> info.params.sample_rate == Some(rate)
            &&& info.time_base == (TimeBase { num: 1, den: 48000 })
            &&& e.states[p.serial].headers == 1
            &&& e.states[p.serial].header_packets == seq![p.data]
            &&& e.packets == d.packets
        }),
{
    param_laws::law_opus_id(version, channels, pre_skip, rate, gain, mapping, tail);
    param_laws::lemma_names();
    lemma_described(
        d,
        p,
        param_laws::opus_id(version, channels, pre_skip, rate, gain, mapping, tail),
    );
}

/// A stream that opens with the identification packet of another codec is known
/// by that codec, and its time is counted in microseconds. Theora has two more
/// header packets, Speex one more, and FLAC none that is awaited; the first packet
/// of a stream of an unknown codec is delivered.
pub proof fn law_others_described(d: DemuxView, p: PageView, tail: Seq<u8>)
    requires
        d.opens(p),
        d.streams.len() < u32::MAX,
    ensures
        ({
            let (e, r) = d.processed(p);
            let info = e.streams[d.streams.len() as int];
            let s = e.states[p.serial];
            let told = r is Ok && one_more(d, e, p.serial) && info.time_base == (TimeBase {
                num: 1,
                den: 1000000,
            });
            &&& opening(p, seq![0x80u8, 0x74, 0x68, 0x65, 0x6F, 0x72, 0x61] + tail) ==> told
                && info.params.codec == "theora"@ && info.params.media_type == MediaType::Video
                && s.headers == 2 && e.packets == d.packets
            &&& opening(p, seq![0x53u8, 0x70, 0x65, 0x65, 0x78, 0x20, 0x20, 0x20] + tail) ==> told
                && info.params.codec == "speex"@ && info.params.media_type == MediaType::Audio
                && s.headers == 1 && e.packets == d.packets
            &&& opening(p, seq![0x7Fu8, 0x46, 0x4C, 0x41, 0x43] + tail) ==> told
                && info.params.codec == "flac"@ && info.params.media_type == MediaType::Audio
                && s.headers == 0 && e.packets == d.packets
            &&& opening(p, p.data) && (p.data.len() == 0 || (p.data[0] != 0x01 && p.data[0] != 0x4F
                && p.data[0] != 0x7F && p.data[0] != 0x80 && p.data[0] != 0x53)) ==> told
                && info.params.codec == "unknown"@ && e.packets.len() == d.packets.len() + 1
                && e.packets.last().data == p.data
        }),
{
    param_laws::law_other_id(tail);
    param_laws::lemma_names();
    let flac = seq![0x7Fu8, 0x46, 0x4C, 0x41, 0x43] + tail;
    let theora = seq![0x80u8, 0x74, 0x68, 0x65, 0x6F, 0x72, 0x61] + tail;
    let speex = seq![0x53u8, 0x70, 0x65, 0x65, 0x78, 0x20, 0x20, 0x20] + tail;
    if opening(p, flac) {
        lemma_described(d, p, flac);
    }
    if opening(p, theora) {
        lemma_described(d, p, theora);
    }
    if opening(p, speex) {
        lemma_described(d, p, speex);
    }
    if opening(p, p.data) && (p.data.len() == 0 || (p.data[0] != 0x01 && p.data[0] != 0x4F
        && p.data[0] != 0x7F && p.data[0] != 0x80 && p.data[0] != 0x53)) {
        param_laws::law_unknown_id(p.data);
        lemma_described(d, p, p.data);
    }
}

/// Streams that open one behind the other are of one link. One that opens behind
/// content is of the next link, and the earlier ones stay where they are.
pub proof fn law_links_numbered(
    d: DemuxView,
    a: PageView,
    c: PageView,
    b: PageView,
    one: Seq<u8>,
    two: Seq<u8>,
)
    requires
        d.opens(a),
        opening(a, one),
        codec_params::params_of(codec_id::codec_of(one), one) is Ok,
        c.serial == a.serial,
        !page::flag_set(c.flags, flags::FIRST_PAGE),
        b.serial != a.serial,
        !d.states.contains_key(b.serial),
        opening(b, two),
        codec_params::params_of(codec_id::codec_of(two), two) is Ok,
        d.streams.len() + 1 < u32::MAX,
        d.next_link < u32::MAX - 1,
    ensures
        ({
            let m = d.processed(a).0;
            let link = m.states[a.serial].link_index;
            let e = m.processed(b).0;
            let n = m.processed(c).0;
            let f = n.processed(b).0;
            &&& e.states[a.serial].link_index == link
            &&& e.states[b.serial].link_index == link
            &&& n.states[a.serial].link_index == link
            &&& f.states[a.serial].link_index == link
            &&& f.states[b.serial].link_index == link + 1
        }),
{
    lemma_described(d, a, one);
    let m = d.processed(a).0;
    assert(m.opens(b));
    lemma_described(m, b, two);
    let n = m.processed(c).0;
    assert(n.streams.len() == m.streams.len());
    assert(n.opens(b));
    lemma_described(n, b, two);
}

/// The comments that the second header packet of a stream bears become known when
/// its last header packet is there, behind those of other streams, and none is
/// left out.
pub proof fn law_comments_known(
    d: DemuxView,
    p: PageView,
    vendor: Seq<char>,
    list: Seq<Written>,
    want: Seq<CommentView>,
    tail: Seq<u8>,
)
    requires
        d.states.contains_key(p.serial),
        d.states[p.serial].public_index < d.streams.len(),
        d.states[p.serial].completes_headers(p),
        d.states[p.serial].after(p).header_packets.len() >= 2,
        comment_laws::lengths_fit(vendor, list),
        list.len() == want.len(),
        forall|i: int|
            0 <= i < list.len() ==> comment_laws::writes(#[trigger] list[i], want[i]),
        ({
            let codec = d.streams[d.states[p.serial].public_index as int].params.codec;
            let second = d.states[p.serial].after(p).header_packets[1];
            let block = comment_laws::block_bytes(vendor, list) + tail;
            ||| codec == "vorbis"@ && second == seq![0x03u8, 0x76, 0x6F, 0x72, 0x62, 0x69, 0x73]
                + block
            ||| codec == "theora"@ && second == seq![0x81u8, 0x74, 0x68, 0x65, 0x6F, 0x72, 0x61]
                + block
            ||| codec == "opus"@ && second == seq![0x4Fu8, 0x70, 0x75, 0x73, 0x54, 0x61, 0x67, 0x73]
                + block
        }),
    ensures
        d.consumed(p).metadata == d.metadata + ((if vendor.len() > 0 {
            seq![("vendor"@, vendor)]
        } else {
            Seq::<CommentView>::empty()
        }) + want),
{
    comment_laws::law_comments_read_back(vendor, list, want, tail);
    param_laws::lemma_names();
    let codec = d.streams[d.states[p.serial].public_index as int].params.codec;
    let second = d.states[p.serial].after(p).header_packets[1];
    let block = comment_laws::block_bytes(vendor, list) + tail;
    if codec == "opus"@ {
        assert(second.skip(8) =~= block);
        assert(second.subrange(0, 8) =~= header_packets::OPUS_TAGS@);
    } else if codec == "vorbis"@ {
        assert(second.skip(7) =~= block);
        assert(second.subrange(1, 7) =~= codec_id::VORBIS@);
    } else {
        assert(second.skip(7) =~= block);
        assert(second.subrange(1, 7) =~= codec_id::THEORA@);
    }
}

/// Once the last header packet of a stream is there, its setup data holds what a
/// muxer needs: the three packets of Vorbis and Theora, laced, or the first of
/// Opus.
pub proof fn law_setup_known(d: DemuxView, p: PageView)
    requires
        d.states.contains_key(p.serial),
        d.states[p.serial].public_index < d.streams.len(),
        d.states[p.serial].completes_headers(p),
    ensures
        ({
            let i = d.states[p.serial].public_index as int;
            let packets = d.states[p.serial].after(p).header_packets;
            let codec = d.streams[i].params.codec;
            let setup = d.consumed(p).streams[i].params.extradata;
            &&& (codec == "vorbis"@ || codec == "theora"@) && packets.len() == 3
                ==> xiph::packets_in(setup) == Some(packets)
            &&& codec == "opus"@ && packets.len() > 0 && packets[0].len() > 0 ==> setup
                == packets[0]
        }),
{
    let i = d.states[p.serial].public_index as int;
    let packets = d.states[p.serial].after(p).header_packets;
    param_laws::lemma_names();
    if packets.len() == 3 {
        xiph::law_lace_round_trip(packets);
    }
}

/// The comments that the header packets of the logical bitstream `k` bear.
pub open spec fn comments_of(d: DemuxView, k: u32) -> Seq<CommentView> {
    demuxer::second_comments(
        d.streams[d.states[k].public_index as int].params.codec,
        d.states[k].header_packets,
    )
}

/// The setup data that the header packets of the logical bitstream `k` make, where
/// they make any.
pub open spec fn setup_of(d: DemuxView, k: u32) -> Seq<u8> {
    let info = d.streams[d.states[k].public_index as int];
    let made = codec_private::private_of(info.params.codec, d.states[k].header_packets);
    if made.len() > 0 {
        made
    } else {
        info.params.extradata
    }
}

proof fn lemma_setups(d: DemuxView, keys: Seq<u32>, n: int)
    requires
        whole_laws::numbered(d),
        serial_map::keys_ascend(keys),
        forall|k: u32| #[trigger] keys.contains(k) == d.states.contains_key(k),
        0 <= n <= keys.len(),
    ensures
        ({
            let e = d.with_setups(n);
            &&& e.states == d.states
            &&& e.metadata == d.metadata
            &&& e.streams.len() == d.streams.len()
            &&& forall|i: int|
                0 <= i < e.streams.len() ==> (#[trigger] e.streams[i]).params.codec
                    == d.streams[i].params.codec
            &&& forall|j: int|
                0 <= j < keys.len() ==> e.streams[d.states[#[trigger] keys[j]].public_index as int]
                    .params.extradata == (if j < n {
                    setup_of(d, keys[j])
                } else {
                    d.streams[d.states[keys[j]].public_index as int].params.extradata
                })
        }),
    decreases n,
{
    serial_map::lemma_ordered_keys(d.states, keys);
    if n > 0 {
        lemma_setups(d, keys, n - 1);
        let m = d.with_setups(n - 1);
        let e = d.with_setups(n);
        let k = keys[n - 1];
        assert(keys.contains(k));
        let s = d.states[k];
        assert(e == m.with_setup(s));
        assert forall|j: int| 0 <= j < keys.len() implies e.streams[d.states[
            #[trigger] keys[j]
        ].public_index as int].params.extradata == (if j < n {
            setup_of(d, keys[j])
        } else {
            d.streams[d.states[keys[j]].public_index as int].params.extradata
        }) by {
            assert(keys.contains(keys[j]));
            if j != n - 1 {
                assert(keys[j] != k);
                assert(d.states[keys[j]].public_index != s.public_index);
            }
        }
    }
}

proof fn lemma_all_comments(d: DemuxView, keys: Seq<u32>, n: int)
    requires
        serial_map::keys_ascend(keys),
        forall|k: u32| #[trigger] keys.contains(k) == d.states.contains_key(k),
        0 <= n <= keys.len(),
    ensures
        ({
            let e = d.with_all_comments(n);
            &&& e.streams == d.streams
            &&& e.states == d.states
            &&& e.metadata == d.metadata + keys.take(n).map_values(
                |k: u32| comments_of(d, k),
            ).flatten_alt()
        }),
    decreases n,
{
    serial_map::lemma_ordered_keys(d.states, keys);
    let each = |k: u32| comments_of(d, k);
    let lists = keys.take(n).map_values(each);
    if n > 0 {
        lemma_all_comments(d, keys, n - 1);
        let before = keys.take(n - 1).map_values(each);
        assert(lists.drop_last() =~= before);
        assert(lists.last() == comments_of(d, keys[n - 1]));
        let e = d.with_all_comments(n);
        assert(e.metadata =~= d.metadata + lists.flatten_alt());
    } else {
        assert(lists.flatten_alt() =~= Seq::<CommentView>::empty());
        assert(d.metadata + lists.flatten_alt() =~= d.metadata);
    }
}

/// When the opening of a file has been read, each stream has the setup data that
/// its header packets make, and the comments of all streams are known, in the order
/// of their serials.
pub proof fn law_opening_finished(d: DemuxView, keys: Seq<u32>, k: u32)
    requires
        whole_laws::numbered(d),
        serial_map::keys_ascend(keys),
        forall|j: u32| #[trigger] keys.contains(j) == d.states.contains_key(j),
        d.states.contains_key(k),
    ensures
        ({
            let n = keys.len() as int;
            let e = d.with_setups(n).with_all_comments(n);
            &&& e.streams[d.states[k].public_index as int].params.extradata == setup_of(d, k)
            &&& e.metadata == d.metadata + keys.map_values(
                |j: u32| comments_of(d, j),
            ).flatten_alt()
        }),
{
    let n = keys.len() as int;
    lemma_setups(d, keys, n);
    let m = d.with_setups(n);
    lemma_all_comments(m, keys, n);
    assert(keys.contains(k));
    let j = choose|j: int| 0 <= j < keys.len() && keys[j] == k;
    assert(keys[j] == k);
    assert(keys.take(n) =~= keys);
    let (one, two) = (
        keys.map_values(|j: u32| comments_of(m, j)),
        keys.map_values(|j: u32| comments_of(d, j)),
    );
    assert(one =~= two) by {
        assert forall|i: int| 0 <= i < one.len() implies one[i] == two[i] by {
            assert(keys.contains(keys[i]));
            let p = d.states[keys[i]].public_index as int;
            assert(m.streams[p].params.codec == d.streams[p].params.codec);
        }
    }
}

/// The setup data of a codec other than Vorbis, Theora and Opus is its header
/// packets, one behind the other.
pub proof fn law_setup_joined(
    codec: Seq<char>,
    packets: Seq<Seq<u8>>,
    more: Seq<Seq<u8>>,
    one: Seq<u8>,
)
    requires
        codec != "vorbis"@ && codec != "theora"@ && codec != "opus"@,
    ensures
        codec_private::private_of(codec, packets + more) == codec_private::private_of(
            codec,
            packets,
        ) + codec_private::private_of(codec, more),
        codec_private::private_of(codec, seq![one]) == one,
    decreases packets.len(),
{
    assert(seq![one].skip(1) =~= Seq::<Seq<u8>>::empty());
    assert(xiph::joined(seq![one].skip(1)) =~= Seq::<u8>::empty());
    assert(xiph::joined(seq![one]) =~= one);
    if packets.len() == 0 {
        assert(packets + more =~= more);
        assert(xiph::joined(packets) + xiph::joined(more) =~= xiph::joined(more));
    } else {
        law_setup_joined(codec, packets.skip(1), more, one);
        assert((packets + more).skip(1) =~= packets.skip(1) + more);
        assert(xiph::joined(packets + more) =~= xiph::joined(packets) + xiph::joined(more));
    }
}

} // verus!
