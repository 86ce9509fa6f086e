//! Packets come back with their times.
use crate::demux::demux_laws;
use crate::demux::demuxer::DemuxView;
use crate::demux::logical::LogicalView;
use crate::demux::whole_laws;
use crate::framing;
use crate::mux::auto_index::AutoIndexConfig;
use crate::mux::chain_laws::Link;
use crate::mux::link_laws;
use crate::mux::mux_laws;
use crate::mux::muxer;
use crate::mux::muxer::MuxView;
use crate::mux::serials;
use crate::mux::stamp_laws;
use crate::mux::stamp_laws::Stamp;
use crate::mux::stream_laws;
use crate::mux::stream_writer;
use crate::page;
use crate::page::PageView;
use crate::skeleton::state::SkeletonView;
use crate::stream::{PacketView, StreamInfoView};
use vstd::prelude::*;

verus! {

/// The stamps of packets.
pub open spec fn stamps_read(packets: Seq<PacketView>) -> Seq<Stamp> {
    packets.map_values(|p: PacketView| Stamp { pts: p.pts, last: p.unit_boundary })
}

/// Assembly ends as many packets as the segment table.
proof fn lemma_done(lacing: Seq<u8>, data: Seq<u8>, pending: Seq<u8>, open: bool)
    ensures
        framing::assembled(lacing, data, pending, open).done.len() == page::packets_ended(lacing),
    decreases lacing.len(),
{
    if lacing.len() > 0 {
        lemma_done(lacing.drop_last(), data, pending, open);
    }
}

/// Every packet that is delivered bears the number of its stream and is told to
/// be a keyframe.
proof fn lemma_plain(s: LogicalView, pages: Seq<PageView>, index: u32)
    ensures
        forall|i: int|
            0 <= i < demux_laws::delivered_by(s, pages, index).len() ==> {
                let p = #[trigger] demux_laws::delivered_by(s, pages, index)[i];
                p.stream_index == index && p.keyframe
            },
    decreases pages.len(),
{
    if pages.len() > 0 {
        lemma_plain(s, pages.drop_last(), index);
        let before = demux_laws::delivered_by(s, pages.drop_last(), index);
        let all = demux_laws::delivered_by(s, pages, index);
        assert forall|i: int| 0 <= i < all.len() implies (#[trigger] all[i]).stream_index == index
            && all[i].keyframe by {
            if i < before.len() {
                assert(all[i] == before[i]);
            }
        }
    }
}

/// Pages of one logical bitstream that follow each other deliver their packets
/// with the stamps of the pages: the last packet on a page with the granule
/// position of the page, and every other without a time.
pub proof fn law_stamps_delivered(pages: Seq<PageView>, fresh: LogicalView, index: u32)
    requires
        framing::stream_packets(pages) is Ok,
        stream_laws::unbroken(pages),
        forall|i: int| 0 <= i < pages.len() ==> (#[trigger] pages[i]).wf(),
        fresh == LogicalView::fresh(fresh.public_index, fresh.headers, fresh.link_index),
    ensures
        ({
            let packets = framing::stream_packets(pages)->Ok_0.0;
            let h = demux_laws::cut_at(packets, fresh.headers);
            &&& stamp_laws::stamps(pages).len() == packets.len()
            &&& stamps_read(demux_laws::delivered_by(fresh, pages, index))
                == stamp_laws::stamps(pages).skip(h)
        }),
    decreases pages.len(),
{
    let packets = framing::stream_packets(pages)->Ok_0.0;
    if pages.len() == 0 {
        assert(stamps_read(demux_laws::delivered_by(fresh, pages, index)) =~= stamp_laws::stamps(
            pages,
        ).skip(0));
    } else {
        let front = pages.drop_last();
        let p = pages.last();
        assert forall|i: int| 0 < i < front.len() implies (#[trigger] front[i]).seq_no
            == stream_writer::successor(front[i - 1].seq_no) by {
            assert(pages[i].seq_no == stream_writer::successor(pages[i - 1].seq_no));
        }
        assert forall|i: int| 0 <= i < front.len() implies (#[trigger] front[i]).wf() by {
            assert(pages[i].wf());
        }
        law_stamps_delivered(front, fresh, index);
        demux_laws::lemma_demux(front, fresh, index);
        let (before, st) = framing::stream_packets(front)->Ok_0;
        let s = demux_laws::behind(fresh, front);
        assert(pages[pages.len() - 1].wf());
        if front.len() > 0 {
            assert(pages[pages.len() - 1].seq_no == stream_writer::successor(
                pages[pages.len() - 2].seq_no,
            ));
        }
        demux_laws::lemma_page_taken(s, p, st);
        demux_laws::lemma_delivered(s, p, index);
        let done = s.gather(p).done;
        assert(done.len() == page::packets_ended(p.lacing)) by {
            lemma_done(p.lacing, p.data, st.pending, st.mid_packet);
        }
        let share = s.header_share(p) as int;
        let now = s.delivered(p, index);
        let sent = demux_laws::delivered_by(fresh, front, index);
        assert(stamps_read(now) =~= stamp_laws::page_stamps(p).skip(share));
        assert(stamps_read(sent + now) =~= stamps_read(sent) + stamps_read(now));
        let h = demux_laws::cut_at(packets, fresh.headers);
        let cut = demux_laws::cut_at(before, fresh.headers);
        assert(packets == before + done);
        assert(h == cut + share);
        assert(stamp_laws::stamps(front).skip(cut) + stamp_laws::page_stamps(p).skip(share)
            =~= stamp_laws::stamps(pages).skip(h));
    }
}

/// A packet that ends its page, as it is read of the stream number `number`.
pub open spec fn as_read(p: PacketView, number: u32) -> PacketView {
    PacketView {
        stream_index: number,
        pts: stamp_laws::stamp_of(p).pts,
        keyframe: true,
        unit_boundary: true,
        data: p.data,
    }
}

/// The packets of the stream `index`, as they are read of the stream number
/// `number`.
pub open spec fn all_as_read(packets: Seq<PacketView>, index: u32, number: u32) -> Seq<PacketView> {
    whole_laws::of_stream(packets, index).map_values(|p: PacketView| as_read(p, number))
}

proof fn lemma_sent(packets: Seq<PacketView>, index: u32)
    ensures
        ({
            let own = whole_laws::of_stream(packets, index);
            &&& mux_laws::sent_to(packets, index).len() == own.len()
            &&& stamp_laws::stamps_sent(packets, index).len() == own.len()
            &&& forall|i: int|
                0 <= i < own.len() ==> mux_laws::sent_to(packets, index)[i] == (
                #[trigger] own[i]).data && stamp_laws::stamps_sent(packets, index)[i]
                    == stamp_laws::stamp_of(own[i])
        }),
    decreases packets.len(),
{
    if packets.len() > 0 {
        let front = packets.drop_last();
        lemma_sent(front, index);
        let own = whole_laws::of_stream(packets, index);
        let before = whole_laws::of_stream(front, index);
        assert forall|i: int| 0 <= i < own.len() implies mux_laws::sent_to(packets, index)[i] == (
        #[trigger] own[i]).data && stamp_laws::stamps_sent(packets, index)[i]
            == stamp_laws::stamp_of(own[i]) by {
            if i < before.len() {
                assert(own[i] == before[i]);
            }
        }
    }
}

/// What a muxer writes of a stream all of whose packets end their pages, a
/// demuxer reads back: the packets in their order, each with its bytes and with
/// its time unless that is negative.
pub proof fn law_times_read_back(
    position: u64,
    streams: Seq<StreamInfoView>,
    skeleton: Option<SkeletonView>,
    config: Option<AutoIndexConfig>,
    packets: Seq<PacketView>,
    i: int,
    fresh: LogicalView,
    number: u32,
)
    requires
        mux_laws::sound_setup(streams, skeleton, config),
        muxer::initial(position, streams, skeleton, config).headers_fit(),
        forall|k: int|
            0 <= k < packets.len() ==> exists|j: int|
                0 <= j < streams.len() && (#[trigger] streams[j]).index == (
                #[trigger] packets[k]).stream_index,
        0 <= i < streams.len(),
        stamp_laws::headers_counted(streams[i]),
        stamp_laws::ending_pages(packets, streams[i].index),
        fresh == LogicalView::fresh(
            fresh.public_index,
            mux_laws::sent_headers(
                muxer::initial(position, streams, skeleton, config),
                i,
            ).len(),
            fresh.link_index,
        ),
    ensures
        ({
            let m = muxer::initial(position, streams, skeleton, config);
            let pages = mux_laws::run(m.with_headers(), packets).ended().wire.pages;
            let own = mux_laws::of_serial(pages, serials::assigned(Set::empty(), streams)[i]);
            demux_laws::delivered_by(fresh, own, number) == all_as_read(
                packets,
                streams[i].index,
                number,
            )
        }),
{
    let m = muxer::initial(position, streams, skeleton, config);
    let serial = serials::assigned(Set::empty(), streams)[i];
    let pages = mux_laws::run(m.with_headers(), packets).ended().wire.pages;
    mux_laws::law_mux_round_trip(position, streams, skeleton, config, packets);
    mux_laws::lemma_of_serial_wf(pages, serial);
    let before = lemma_stamps_written(position, streams, skeleton, config, packets, i);
    assert(streams[i].index == streams[i].index);
    lemma_as_read(
        mux_laws::of_serial(pages, serial),
        mux_laws::sent_headers(m, i),
        packets,
        streams[i].index,
        before,
        fresh,
        number,
    );
}

/// Pages that carry header packets and then the packets of a stream, and bear
/// their stamps, deliver these packets.
proof fn lemma_as_read(
    own: Seq<PageView>,
    headers: Seq<Seq<u8>>,
    packets: Seq<PacketView>,
    index: u32,
    before: Seq<Stamp>,
    fresh: LogicalView,
    number: u32,
)
    requires
        stream_laws::unbroken(own),
        forall|i: int| 0 <= i < own.len() ==> (#[trigger] own[i]).wf(),
        framing::stream_packets(own) matches Ok((found, state)) && found == headers
            + mux_laws::sent_to(packets, index),
        stamp_laws::stamps(own) == before + stamp_laws::stamps_sent(packets, index),
        fresh == LogicalView::fresh(fresh.public_index, headers.len(), fresh.link_index),
    ensures
        demux_laws::delivered_by(fresh, own, number) == all_as_read(packets, index, number),
{
    let sent = mux_laws::sent_to(packets, index);
    let all = framing::stream_packets(own)->Ok_0.0;
    let h = headers.len() as int;
    demux_laws::law_demux(own, fresh, number);
    law_stamps_delivered(own, fresh, number);
    lemma_sent(packets, index);
    lemma_plain(fresh, own, number);
    assert(demux_laws::cut_at(all, fresh.headers) == h);
    assert(all.skip(h) =~= sent);
    assert(before.len() == h);
    assert(stamp_laws::stamps(own).skip(h) =~= stamp_laws::stamps_sent(packets, index));
    let delivered = demux_laws::delivered_by(fresh, own, number);
    let told = all_as_read(packets, index, number);
    let theirs = whole_laws::of_stream(packets, index);
    assert(demux_laws::data_of(delivered).len() == delivered.len());
    assert forall|j: int| 0 <= j < delivered.len() implies #[trigger] delivered[j] == told[j] by {
        assert(demux_laws::data_of(delivered)[j] == delivered[j].data);
        assert(stamps_read(delivered)[j] == stamp_laws::stamp_of(theirs[j]));
        assert(sent[j] == theirs[j].data);
    }
    assert(delivered =~= told);
}

/// What was found under the number `number` of the stream at place `i` of a
/// link is what was sent to it: the packets, whole and in their order. Where all
/// of them end their pages, each has its time unless that is negative.
pub open spec fn gives_back(found: Seq<PacketView>, link: Link, i: int, number: u32) -> bool {
    let index = link.streams[i].index;
    &&& demux_laws::data_of(found) == mux_laws::sent_to(link.packets, index)
    &&& stamp_laws::headers_counted(link.streams[i]) && stamp_laws::ending_pages(
        link.packets,
        index,
    ) ==> found == all_as_read(link.packets, index, number)
}

/// What a bitstream that was written delivers is what was sent to it.
pub proof fn lemma_delivered(
    start: MuxView,
    serials: Seq<u32>,
    packets: Seq<PacketView>,
    i: int,
    s: LogicalView,
    number: u32,
)
    requires
        link_laws::unwritten(start, serials),
        link_laws::addressed(start.streams, packets),
        0 <= i < start.streams.len(),
        s == LogicalView::fresh(
            s.public_index,
            link_laws::headers_sent(start.streams[i]).len(),
            s.link_index,
        ),
    ensures
        ({
            let pages = mux_laws::run(start.headed(), packets).ended().wire.pages;
            gives_back(
                demux_laws::delivered_by(s, mux_laws::of_serial(pages, serials[i]), number),
                Link { streams: start.streams, packets },
                i,
                number,
            )
        }),
{
    let streams = start.streams;
    let index = streams[i].index;
    let pages = mux_laws::run(start.headed(), packets).ended().wire.pages;
    link_laws::lemma_link(start, serials, packets);
    let own = mux_laws::of_serial(pages, serials[i]);
    let headers = link_laws::headers_sent(streams[i]);
    let sent = mux_laws::sent_to(packets, index);
    assert(streams[i].index == index);
    mux_laws::lemma_of_serial_among(pages, serials[i]);
    demux_laws::law_demux(own, s, number);
    let all = framing::stream_packets(own)->Ok_0.0;
    assert(all == headers + sent);
    assert(all.skip(headers.len() as int) =~= sent);
    if stamp_laws::headers_counted(streams[i]) && stamp_laws::ending_pages(packets, index) {
        let none = link_laws::lemma_unwritten(start, serials);
        stamp_laws::lemma_headed_start(start, i);
        let content = link_laws::lemma_link_headed(start, serials);
        let headed = start.headed();
        assert forall|l: int| 0 <= l < packets.len() implies headed.writers.contains_key(
            (#[trigger] packets[l]).stream_index,
        ) by {
            let j = choose|j: int|
                0 <= j < streams.len() && (#[trigger] streams[j]).index == packets[l].stream_index;
            assert(headed.streams[j].index == packets[l].stream_index);
        }
        assert(headed.streams[i].index == index);
        let before = stamp_laws::lemma_ended_stamps(headed, content, packets, index);
        lemma_as_read(own, headers, packets, index, before, s, number);
    }
}

/// The stamps of the pages of a stream: those of its header packets, and then
/// those of its packets.
proof fn lemma_stamps_written(
    position: u64,
    streams: Seq<StreamInfoView>,
    skeleton: Option<SkeletonView>,
    config: Option<AutoIndexConfig>,
    packets: Seq<PacketView>,
    i: int,
) -> (before: Seq<Stamp>)
    requires
        mux_laws::sound_setup(streams, skeleton, config),
        muxer::initial(position, streams, skeleton, config).headers_fit(),
        forall|k: int|
            0 <= k < packets.len() ==> exists|j: int|
                0 <= j < streams.len() && (#[trigger] streams[j]).index == (
                #[trigger] packets[k]).stream_index,
        0 <= i < streams.len(),
        stamp_laws::headers_counted(streams[i]),
        stamp_laws::ending_pages(packets, streams[i].index),
    ensures
        ({
            let m = muxer::initial(position, streams, skeleton, config);
            let pages = mux_laws::run(m.with_headers(), packets).ended().wire.pages;
            let own = mux_laws::of_serial(pages, serials::assigned(Set::empty(), streams)[i]);
            stamp_laws::stamps(own) == before + stamp_laws::stamps_sent(packets, streams[i].index)
        }),
{
    let m = muxer::initial(position, streams, skeleton, config);
    let empty = mux_laws::lemma_begun(position, streams, skeleton, config);
    let start = mux_laws::begun(m);
    assert(start.streams[i] == streams[i]);
    assert(start.headers(i) == m.headers(i));
    stamp_laws::lemma_headed_start(start, i);
    let headed = m.with_headers();
    let k = streams[i].index;
    if skeleton is Some {
        stamp_laws::lemma_skeleton_start(start.headed(), k);
        assert(headed == start.headed().with_skeleton());
    } else {
        assert(headed == start.headed());
    }
    let content = mux_laws::law_headers(position, streams, skeleton, config);
    assert(mux_laws::all_there(headed)) by {
        assert forall|j: int| 0 <= j < headed.streams.len() implies headed.writers.contains_key(
            (#[trigger] headed.streams[j]).index,
        ) by {
            assert(headed.streams[j] == streams[j]);
        }
    }
    assert forall|l: int| 0 <= l < packets.len() implies headed.writers.contains_key(
        (#[trigger] packets[l]).stream_index,
    ) by {
        let j = choose|j: int|
            0 <= j < streams.len() && (#[trigger] streams[j]).index == packets[l].stream_index;
        assert(headed.writers.contains_key(streams[j].index));
    }
    assert(headed.streams[i].index == k);
    stamp_laws::lemma_ended_stamps(headed, content, packets, k)
}

/// A demuxer that knows the streams delivers of each whose packets end their
/// pages these packets, each with its bytes and with its time unless that is
/// negative.
pub proof fn law_demuxer_times(
    position: u64,
    streams: Seq<StreamInfoView>,
    skeleton: Option<SkeletonView>,
    config: Option<AutoIndexConfig>,
    packets: Seq<PacketView>,
    d: DemuxView,
    i: int,
)
    requires
        mux_laws::sound_setup(streams, skeleton, config),
        muxer::initial(position, streams, skeleton, config).headers_fit(),
        forall|k: int|
            0 <= k < packets.len() ==> exists|j: int|
                0 <= j < streams.len() && (#[trigger] streams[j]).index == (
                #[trigger] packets[k]).stream_index,
        whole_laws::awaits(
            d,
            streams,
            Seq::new(
                streams.len(),
                |j: int|
                    mux_laws::sent_headers(
                        muxer::initial(position, streams, skeleton, config),
                        j,
                    ).len(),
            ),
        ),
        whole_laws::all_known(
            d,
            mux_laws::run(
                muxer::initial(position, streams, skeleton, config).with_headers(),
                packets,
            ).ended().wire.pages,
        ),
        0 <= i < streams.len(),
        stamp_laws::headers_counted(streams[i]),
        stamp_laws::ending_pages(packets, streams[i].index),
    ensures
        ({
            let m = muxer::initial(position, streams, skeleton, config);
            let pages = mux_laws::run(m.with_headers(), packets).ended().wire.pages;
            let number = d.states[serials::assigned(Set::empty(), streams)[i]].public_index as u32;
            whole_laws::of_stream(whole_laws::taken(d, pages).packets, number) == all_as_read(
                packets,
                streams[i].index,
                number,
            )
        }),
{
    let m = muxer::initial(position, streams, skeleton, config);
    let pages = mux_laws::run(m.with_headers(), packets).ended().wire.pages;
    let k = serials::assigned(Set::empty(), streams)[i];
    let s = d.states[k];
    let number = s.public_index as u32;
    whole_laws::law_apart(d, pages, k);
    assert(d.streams[s.public_index as int].index == s.public_index);
    law_times_read_back(position, streams, skeleton, config, packets, i, s, number);
    let delivered = demux_laws::delivered_by(s, mux_laws::of_serial(pages, k), number);
    assert(whole_laws::of_stream(d.packets, number) + delivered =~= delivered);
}

} // verus!
