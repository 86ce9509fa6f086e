//! What holds of the packets that a demuxer puts together.
use crate::demux::demuxer::DemuxView;
use crate::demux::logical;
use crate::demux::logical::{Gathered, LogicalView};
use crate::framing;
use crate::framing::AssemblerView;
use crate::mux::auto_index::AutoIndexConfig;
use crate::mux::mux_laws;
use crate::mux::muxer;
use crate::mux::serials;
use crate::mux::stream_laws;
use crate::mux::stream_writer;
use crate::page;
use crate::page::{flags, PageView, SegmentView};
use crate::skeleton::state::SkeletonView;
use crate::stream::{PacketView, StreamInfoView};
use vstd::prelude::*;

verus! {

/// The last piece of a page says where the page's body ends and whether a
/// packet is open there.
proof fn lemma_last_piece(lacing: Seq<u8>)
    requires
        lacing.len() > 0,
    ensures
        page::segments(lacing).len() > 0,
        page::segments(lacing).last().end == page::body_len(lacing),
        page::segments(lacing).last().terminated == (lacing.last() < 255),
{
}

/// Where a page is marked continued exactly when the beginning of a packet is
/// there, taking its pieces is what assembly does.
pub proof fn lemma_gathered(lacing: Seq<u8>, data: Seq<u8>, pending: Seq<u8>, open: bool)
    requires
        data.len() >= page::body_len(lacing),
        !open ==> pending.len() == 0,
    ensures
        ({
            let a = framing::assembled(lacing, data, pending, open);
            logical::gathered(page::segments(lacing), data, open, pending, open) == (Gathered {
                pending: a.pending,
                valid: a.mid_packet,
                done: a.done,
            })
        }),
        lacing.len() > 0 && lacing.last() < 255 ==> framing::assembled(
            lacing,
            data,
            pending,
            open,
        ).pending.len() == 0,
    decreases lacing.len(),
{
    let pieces = page::segments(lacing);
    let a = framing::assembled(lacing, data, pending, open);
    let g = logical::gathered(pieces, data, open, pending, open);
    if lacing.len() == 0 {
        assert(g.done =~= a.done);
    } else {
        let front = lacing.drop_last();
        let before = page::segments(front);
        let b = framing::assembled(front, data, pending, open);
        let mid = page::body_len(front) as int;
        let end = page::body_len(lacing) as int;
        lemma_gathered(front, data, pending, open);
        let piece = data.subrange(mid, end);
        if front.len() == 0 {
            assert(before.len() == 0);
            assert(pieces.drop_last() =~= before);
            assert(pieces.last() == SegmentView {
                start: 0,
                end: end as nat,
                terminated: lacing.last() < 255,
            });
            if !open {
                assert(pending =~= Seq::<u8>::empty());
                assert(pending + piece =~= piece);
            }
        } else {
            lemma_last_piece(front);
            logical::lemma_segments_inside(front);
            if before.last().terminated {
                assert(pieces.drop_last() =~= before);
                assert(b.pending.len() == 0);
                assert(b.pending =~= Seq::<u8>::empty());
                assert(b.pending + piece =~= piece);
            } else {
                let shorter = before.drop_last();
                assert(pieces.drop_last() =~= shorter);
                let c = logical::gathered(shorter, data, open, pending, open);
                let start = before.last().start as int;
                assert(before[before.len() - 1].start <= before[before.len() - 1].end);
                assert(data.subrange(start, end) =~= data.subrange(start, mid) + piece);
                if before.len() == 1 && open {
                    assert(shorter.len() == 0);
                    assert(c.pending == pending);
                    assert(pending + (data.subrange(start, mid) + piece) =~= pending
                        + data.subrange(start, mid) + piece);
                }
            }
        }
    }
}

/// The logical bitstream behind pages.
pub open spec fn behind(s: LogicalView, pages: Seq<PageView>) -> LogicalView
    decreases pages.len(),
{
    if pages.len() == 0 {
        s
    } else {
        behind(s, pages.drop_last()).after(pages.last())
    }
}

/// Pages change nothing of which stream a bitstream is and of which link.
pub proof fn lemma_behind_kept(s: LogicalView, pages: Seq<PageView>)
    ensures
        behind(s, pages).public_index == s.public_index,
        behind(s, pages).link_index == s.link_index,
    decreases pages.len(),
{
    if pages.len() > 0 {
        lemma_behind_kept(s, pages.drop_last());
    }
}

/// The packets that pages deliver.
pub open spec fn delivered_by(s: LogicalView, pages: Seq<PageView>, index: u32) -> Seq<PacketView>
    decreases pages.len(),
{
    if pages.len() == 0 {
        Seq::empty()
    } else {
        delivered_by(s, pages.drop_last(), index) + behind(s, pages.drop_last()).delivered(
            pages.last(),
            index,
        )
    }
}

/// The bytes of packets.
pub open spec fn data_of(packets: Seq<PacketView>) -> Seq<Seq<u8>> {
    packets.map_values(|p: PacketView| p.data)
}

/// A prefix of `all` and the rest.
pub open spec fn cut_at(all: Seq<Seq<u8>>, n: nat) -> int {
    if n < all.len() {
        n as int
    } else {
        all.len() as int
    }
}

/// Pages of one logical bitstream that follow each other deliver exactly the
/// packets that they carry: the first of them are taken as header packets, and
/// the others are delivered in their order.
pub proof fn law_demux(pages: Seq<PageView>, fresh: LogicalView, index: u32)
    requires
        framing::stream_packets(pages) is Ok,
        stream_laws::unbroken(pages),
        forall|i: int| 0 <= i < pages.len() ==> (#[trigger] pages[i]).wf(),
        fresh == LogicalView::fresh(fresh.public_index, fresh.headers, fresh.link_index),
    ensures
        ({
            let packets = framing::stream_packets(pages)->Ok_0.0;
            let h = if fresh.headers < packets.len() {
                fresh.headers as int
            } else {
                packets.len() as int
            };
            &&& behind(fresh, pages).header_packets == packets.take(h)
            &&& data_of(delivered_by(fresh, pages, index)) == packets.skip(h)
        }),
{
    lemma_demux(pages, fresh, index);
}

pub proof fn lemma_demux(pages: Seq<PageView>, fresh: LogicalView, index: u32)
    requires
        framing::stream_packets(pages) is Ok,
        stream_laws::unbroken(pages),
        forall|i: int| 0 <= i < pages.len() ==> (#[trigger] pages[i]).wf(),
        fresh == LogicalView::fresh(fresh.public_index, fresh.headers, fresh.link_index),
    ensures
        ({
            let (packets, state) = framing::stream_packets(pages)->Ok_0;
            let h = cut_at(packets, fresh.headers);
            let s = behind(fresh, pages);
            &&& s.header_packets == packets.take(h)
            &&& s.headers == fresh.headers - h
            &&& s.pending == state.pending
            &&& s.pending_valid == state.mid_packet
            &&& !state.mid_packet ==> state.pending.len() == 0
            &&& s.last_seq == (if pages.len() > 0 {
                Some(pages.last().seq_no)
            } else {
                None
            })
            &&& data_of(delivered_by(fresh, pages, index)) == packets.skip(h)
        }),
    decreases pages.len(),
{
    let (packets, state) = framing::stream_packets(pages)->Ok_0;
    if pages.len() == 0 {
        assert(packets.take(0) =~= Seq::<Seq<u8>>::empty());
        assert(packets.skip(0) =~= Seq::<Seq<u8>>::empty());
        assert(data_of(delivered_by(fresh, pages, index)) =~= Seq::<Seq<u8>>::empty());
    } else {
        let front = pages.drop_last();
        let p = pages.last();
        assert forall|i: int| 0 < i < front.len() implies (#[trigger] front[i]).seq_no
            == stream_writer::successor(front[i - 1].seq_no) by {
            assert(pages[i].seq_no == stream_writer::successor(pages[i - 1].seq_no));
        }
        assert forall|i: int| 0 <= i < front.len() implies (#[trigger] front[i]).wf() by {
            assert(pages[i].wf());
        }
        lemma_demux(front, fresh, index);
        let (before, st) = framing::stream_packets(front)->Ok_0;
        let s = behind(fresh, front);
        assert(pages[pages.len() - 1].wf());
        if front.len() > 0 {
            assert(pages[pages.len() - 1].seq_no == stream_writer::successor(
                pages[pages.len() - 2].seq_no,
            ));
        }
        lemma_page_taken(s, p, st);
        lemma_joined(
            before,
            s.gather(p).done,
            fresh.headers,
            data_of(delivered_by(fresh, front, index)),
        );
        lemma_delivered(s, p, index);
        let sent = delivered_by(fresh, front, index);
        let now = s.delivered(p, index);
        assert(data_of(sent + now) =~= data_of(sent) + data_of(now));
    }
}

/// A page that assembly accepts is taken as assembly takes it.
pub proof fn lemma_page_taken(s: LogicalView, p: PageView, st: AssemblerView)
    requires
        p.wf(),
        st.accept(p).0 is Ok,
        s.pending == st.pending,
        s.pending_valid == st.mid_packet,
        !st.mid_packet ==> st.pending.len() == 0,
        s.last_seq matches Some(n) ==> p.seq_no == stream_writer::successor(n),
    ensures
        s.gather(p).done == st.accept(p).0->Ok_0,
        s.after(p).pending == st.accept(p).1.pending,
        s.after(p).pending_valid == st.accept(p).1.mid_packet,
        !st.accept(p).1.mid_packet ==> st.accept(p).1.pending.len() == 0,
        s.after(p).last_seq == Some(p.seq_no),
{
    assert(!s.misses(p));
    assert(page::flag_set(p.flags, flags::CONTINUED) == st.mid_packet);
    lemma_gathered(p.lacing, p.data, st.pending, st.mid_packet);
    lemma_open_has_bytes(p.lacing, p.data, st.pending, st.mid_packet);
}

proof fn lemma_joined(
    before: Seq<Seq<u8>>,
    done: Seq<Seq<u8>>,
    headers: nat,
    sent: Seq<Seq<u8>>,
)
    requires
        sent == before.skip(cut_at(before, headers)),
    ensures
        ({
            let left = headers - cut_at(before, headers);
            let share = cut_at(done, left as nat);
            let h = cut_at(before + done, headers);
            &&& h == cut_at(before, headers) + share
            &&& before.take(cut_at(before, headers)) + done.take(share) == (before + done).take(h)
            &&& sent + done.skip(share) == (before + done).skip(h)
        }),
{
    let left = headers - cut_at(before, headers);
    let share = cut_at(done, left as nat);
    let h = cut_at(before + done, headers);
    assert(before.take(cut_at(before, headers)) + done.take(share) =~= (before + done).take(h));
    assert(sent + done.skip(share) =~= (before + done).skip(h));
}

pub proof fn lemma_delivered(s: LogicalView, p: PageView, index: u32)
    ensures
        s.header_share(p) == cut_at(s.gather(p).done, s.headers),
        data_of(s.delivered(p, index)) == s.gather(p).done.skip(s.header_share(p) as int),
{
    let done = s.gather(p).done;
    assert(data_of(s.delivered(p, index)) =~= done.skip(s.header_share(p) as int));
}

/// Behind a page nothing is open unless bytes of a packet are.
pub proof fn lemma_open_has_bytes(lacing: Seq<u8>, data: Seq<u8>, pending: Seq<u8>, open: bool)
    requires
        !open ==> pending.len() == 0,
    ensures
        ({
            let a = framing::assembled(lacing, data, pending, open);
            !a.mid_packet ==> a.pending.len() == 0
        }),
{
}

/// No page is missing before any of the pages.
pub open spec fn seamless(s: LogicalView, pages: Seq<PageView>) -> bool {
    forall|i: int|
        0 <= i < pages.len() ==> !behind(s, #[trigger] pages.take(i)).misses(pages[i])
}

/// Pages that follow each other are read without a hole, from the first on or
/// behind a flush.
pub proof fn law_no_holes(pages: Seq<PageView>, fresh: LogicalView)
    requires
        stream_laws::unbroken(pages),
        fresh.last_seq is None,
    ensures
        seamless(fresh, pages),
{
    assert forall|i: int| 0 <= i < pages.len() implies !behind(
        fresh,
        #[trigger] pages.take(i),
    ).misses(pages[i]) by {
        let before = pages.take(i);
        if i > 0 {
            assert(before.last() == pages[i - 1]);
            assert(behind(fresh, before).last_seq == Some(pages[i - 1].seq_no));
        }
    }
}

/// Where pages are missing, what was open before them has no part in the
/// packets that follow.
pub proof fn law_hole_drops(s: LogicalView, p: PageView, pending: Seq<u8>, valid: bool)
    requires
        s.misses(p),
    ensures
        ({
            let t = LogicalView { pending, pending_valid: valid, ..s };
            &&& t.gather(p) == s.gather(p)
            &&& t.after(p) == s.after(p)
        }),
{
    let t = LogicalView { pending, pending_valid: valid, ..s };
    assert(t.after(p) =~= s.after(p));
}

/// What a muxer writes, a demuxer reads back: of each logical bitstream, the
/// header packets and then the packets, in their order and without a hole.
pub proof fn law_demux_of_mux(
    position: u64,
    streams: Seq<StreamInfoView>,
    skeleton: Option<SkeletonView>,
    config: Option<AutoIndexConfig>,
    packets: Seq<PacketView>,
    i: int,
    fresh: LogicalView,
    number: u32,
)
    requires
        mux_laws::sound_setup(streams, skeleton, config),
        muxer::initial(position, streams, skeleton, config).headers_fit(),
        forall|k: int|
            0 <= k < packets.len() ==> exists|j: int|
                0 <= j < streams.len() && (#[trigger] streams[j]).index == (
                #[trigger] packets[k]).stream_index,
        0 <= i < streams.len(),
        fresh == LogicalView::fresh(
            fresh.public_index,
            mux_laws::sent_headers(
                muxer::initial(position, streams, skeleton, config),
                i,
            ).len(),
            fresh.link_index,
        ),
    ensures
        ({
            let m = muxer::initial(position, streams, skeleton, config);
            let pages = mux_laws::run(m.with_headers(), packets).ended().wire.pages;
            let own = mux_laws::of_serial(
                pages,
                serials::assigned(Set::empty(), streams)[i],
            );
            &&& seamless(fresh, own)
            &&& behind(fresh, own).header_packets == mux_laws::sent_headers(m, i)
            &&& data_of(delivered_by(fresh, own, number)) == mux_laws::sent_to(
                packets,
                streams[i].index,
            )
        }),
{
    let m = muxer::initial(position, streams, skeleton, config);
    mux_laws::law_mux_round_trip(position, streams, skeleton, config, packets);
    let pages = mux_laws::run(m.with_headers(), packets).ended().wire.pages;
    let serial = serials::assigned(Set::empty(), streams)[i];
    let own = mux_laws::of_serial(pages, serial);
    let index = streams[i].index;
    mux_laws::lemma_of_serial_wf(pages, serial);
    law_demux(own, fresh, number);
    law_no_holes(own, fresh);
    let headers = mux_laws::sent_headers(m, i);
    let sent = mux_laws::sent_to(packets, index);
    let all = framing::stream_packets(own)->Ok_0.0;
    assert(all == headers + sent);
    assert(all.take(headers.len() as int) =~= headers);
    assert(all.skip(headers.len() as int) =~= sent);
}

// ---------------------------------------------------------------------------
// Stream numbers
// ---------------------------------------------------------------------------
/// Every stream number in the demuxer is that of a stream it has reported.
pub open spec fn in_range(d: DemuxView) -> bool {
    &&& forall|i: int| 0 <= i < d.streams.len() ==> (#[trigger] d.streams[i]).index <= i
    &&& forall|i: int|
        0 <= i < d.packets.len() ==> (#[trigger] d.packets[i]).stream_index < d.streams.len()
    &&& forall|k: u32| #[trigger]
        d.states.contains_key(k) ==> d.states[k].public_index < d.streams.len()
}

proof fn lemma_consumed_in_range(d: DemuxView, p: PageView)
    requires
        in_range(d),
    ensures
        in_range(d.consumed(p)),
{
    if d.states.contains_key(p.serial) {
        let s = d.states[p.serial];
        let index = d.streams[s.public_index as int].index;
        let m = d.consumed(p);
        assert(m.packets == d.packets + s.delivered(p, index));
        assert(m.streams.len() == d.streams.len());
        assert forall|i: int| 0 <= i < m.packets.len() implies (
        #[trigger] m.packets[i]).stream_index < m.streams.len() by {
            if i < d.packets.len() {
                assert(m.packets[i] == d.packets[i]);
            } else {
                assert(m.packets[i] == s.delivered(p, index)[i - d.packets.len()]);
            }
        }
        assert(s.after(p).public_index == s.public_index);
        assert forall|k: u32| #[trigger] m.states.contains_key(k) implies m.states[k].public_index
            < m.streams.len() by {
            assert(d.states.contains_key(k));
        }
    }
}

proof fn lemma_registered_in_range(d: DemuxView, p: PageView)
    requires
        in_range(d),
    ensures
        d.registered(p) is Ok ==> in_range(d.registered(p)->Ok_0),
{
    if d.registered(p) is Ok {
        let r = d.registered(p)->Ok_0;
        assert forall|k: u32| #[trigger] r.states.contains_key(k) implies r.states[k].public_index
            < r.streams.len() by {
            if k != p.serial {
                assert(d.states.contains_key(k));
            }
        }
    }
}

proof fn lemma_processed_in_range(d: DemuxView, p: PageView)
    requires
        in_range(d),
    ensures
        in_range(d.processed(p).0),
{
    let m = d.linked(p);
    assert(in_range(m));
    if d.opens(p) {
        lemma_registered_in_range(m, p);
        if m.registered(p) is Ok {
            let r = m.registered(p)->Ok_0;
            lemma_consumed_in_range(r, p);
        }
    } else {
        lemma_consumed_in_range(m, p);
    }
}

proof fn lemma_absorbed_in_range(d: DemuxView)
    requires
        in_range(d),
    ensures
        in_range(d.absorbed().0),
    decreases d.pages.len(),
{
    if d.awaits_headers() && d.pages.len() > 0 {
        assert(in_range(d.without_page()));
        lemma_processed_in_range(d.without_page(), d.pages[0]);
        let (m, r) = d.without_page().processed(d.pages[0]);
        if r is Ok && m.pages.len() < d.pages.len() {
            lemma_absorbed_in_range(m);
        }
    }
}

/// Whatever pages a demuxer is given, a packet that it delivers belongs to a
/// stream that it has reported.
pub proof fn law_delivered_in_range(d: DemuxView)
    requires
        in_range(d),
    ensures
        in_range(d.advanced().0),
        d.advanced().1 matches Ok(Some(p)) ==> p.stream_index < d.advanced().0.streams.len(),
    decreases d.pages.len(),
{
    if d.packets.len() > 0 {
        assert(d.packets[0].stream_index < d.streams.len());
    } else if d.pages.len() > 0 {
        assert(in_range(d.without_page()));
        lemma_processed_in_range(d.without_page(), d.pages[0]);
        let (m, r) = d.without_page().processed(d.pages[0]);
        if r is Ok && m.pages.len() < d.pages.len() {
            law_delivered_in_range(m);
        }
    }
}

/// A demuxer begins with every stream number in range, and taking pages in,
/// taking them apart, learning of a stream or of its setup data, and dropping
/// what waits keep them there.
pub proof fn law_in_range_kept(d: DemuxView, p: PageView)
    requires
        in_range(d),
    ensures
        in_range(DemuxView::fresh()),
        in_range(DemuxView { pages: d.pages.push(p), ..d }),
        in_range(d.processed(p).0),
        in_range(d.absorbed().0),
        in_range(d.flushed()),
        d.registered(p) is Ok ==> in_range(d.registered(p)->Ok_0),
        d.states.contains_key(p.serial) ==> in_range(
            d.with_setup(d.states[p.serial]).with_comments(d.states[p.serial]),
        ),
{
    lemma_registered_in_range(d, p);
    lemma_processed_in_range(d, p);
    lemma_absorbed_in_range(d);
    let f = d.flushed();
    assert forall|k: u32| #[trigger] f.states.contains_key(k) implies f.states[k].public_index
        < f.streams.len() by {
        assert(d.states.contains_key(k));
    }
}

} // verus!
