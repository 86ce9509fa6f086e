//! What holds of a demuxer that takes pages of several logical bitstreams.
use crate::demux::demux_laws;
use crate::demux::demuxer;
use crate::demux::demuxer::DemuxView;
use crate::demux::logical::LogicalView;
use crate::mux::auto_index::AutoIndexConfig;
use crate::mux::mux_laws;
use crate::mux::muxer;
use crate::mux::serials;
use crate::mux::stream_laws;
use crate::page::PageView;
use crate::skeleton::state::SkeletonView;
use crate::stream::{PacketView, StreamInfoView};
use vstd::prelude::*;

verus! {

/// The demuxer behind pages, each of which it could take apart.
pub open spec fn taken(d: DemuxView, pages: Seq<PageView>) -> DemuxView
    decreases pages.len(),
{
    if pages.len() == 0 {
        d
    } else {
        taken(d, pages.drop_last()).processed(pages.last()).0
    }
}

/// Every page belongs to a logical bitstream that is known.
pub open spec fn all_known(d: DemuxView, pages: Seq<PageView>) -> bool {
    forall|i: int| 0 <= i < pages.len() ==> d.states.contains_key((#[trigger] pages[i]).serial)
}

/// Streams are numbered in their order, and each belongs to one logical
/// bitstream.
pub open spec fn numbered(d: DemuxView) -> bool {
    &&& forall|i: int| 0 <= i < d.streams.len() ==> (#[trigger] d.streams[i]).index == i
    &&& forall|k: u32| #[trigger]
        d.states.contains_key(k) ==> d.states[k].public_index < d.streams.len()
    &&& forall|k: u32, l: u32|
        #[trigger] d.states.contains_key(k) && #[trigger] d.states.contains_key(l) && k != l
            ==> d.states[k].public_index != d.states[l].public_index
}

/// The packets of the stream number `index`.
pub open spec fn of_stream(packets: Seq<PacketView>, index: u32) -> Seq<PacketView>
    decreases packets.len(),
{
    if packets.len() == 0 {
        Seq::empty()
    } else {
        let front = of_stream(packets.drop_last(), index);
        if packets.last().stream_index == index {
            front.push(packets.last())
        } else {
            front
        }
    }
}

pub proof fn lemma_of_stream_concat(a: Seq<PacketView>, b: Seq<PacketView>, index: u32)
    ensures
        of_stream(a + b, index) == of_stream(a, index) + of_stream(b, index),
    decreases b.len(),
{
    if b.len() == 0 {
        assert(a + b =~= a);
        assert(of_stream(a, index) + of_stream(b, index) =~= of_stream(a, index));
    } else {
        assert((a + b).drop_last() =~= a + b.drop_last());
        lemma_of_stream_concat(a, b.drop_last(), index);
        assert(of_stream(a + b, index) =~= of_stream(a, index) + of_stream(b, index));
    }
}

pub proof fn lemma_of_stream_alike(b: Seq<PacketView>, of: u32, index: u32)
    requires
        forall|i: int| 0 <= i < b.len() ==> (#[trigger] b[i]).stream_index == of,
    ensures
        of_stream(b, index) == (if of == index {
            b
        } else {
            Seq::empty()
        }),
    decreases b.len(),
{
    if b.len() > 0 {
        let front = b.drop_last();
        assert forall|i: int| 0 <= i < front.len() implies (#[trigger] front[i]).stream_index
            == of by {
            assert(b[i].stream_index == of);
        }
        lemma_of_stream_alike(front, of, index);
        assert(b.last().stream_index == of);
        assert(front.push(b.last()) =~= b);
    } else {
        assert(b =~= Seq::<PacketView>::empty());
    }
}

/// One page of a known logical bitstream changes that one only, and delivers
/// packets of its stream only.
proof fn lemma_one_page(d: DemuxView, p: PageView, k: u32)
    requires
        numbered(d),
        d.states.contains_key(p.serial),
        d.states.contains_key(k),
    ensures
        ({
            let m = d.processed(p).0;
            let s = d.states[k];
            let index = d.streams[s.public_index as int].index;
            &&& numbered(m)
            &&& forall|l: u32| #[trigger]
                m.states.contains_key(l) == d.states.contains_key(l)
            &&& m.states[k].public_index == s.public_index
            &&& m.streams[s.public_index as int].index == index
            &&& m.states[k] == (if p.serial == k {
                s.after(p)
            } else {
                s
            })
            &&& of_stream(m.packets, index) == of_stream(d.packets, index) + (if p.serial == k {
                s.delivered(p, index)
            } else {
                Seq::empty()
            })
            &&& m.holes == (if d.states[p.serial].misses(p) {
                demuxer::one_more(d.holes)
            } else {
                d.holes
            })
        }),
{
    let l = d.linked(p);
    let m = d.processed(p).0;
    let s = d.states[k];
    let index = d.streams[s.public_index as int].index;
    let t = d.states[p.serial];
    let at = d.streams[t.public_index as int].index;
    assert(m == l.consumed(p));
    assert(l.states == d.states && l.streams == d.streams && l.packets == d.packets);
    let more = t.delivered(p, at);
    assert(m.packets == d.packets + more);
    lemma_of_stream_concat(d.packets, more, index);
    lemma_of_stream_alike(more, at, index);
    assert(t.after(p).public_index == t.public_index);
    assert(m.streams.len() == d.streams.len());
    assert forall|i: int| 0 <= i < m.streams.len() implies (#[trigger] m.streams[i]).index == i by {
        assert(d.streams[i].index == i);
    }
    assert(m.states == d.states.insert(p.serial, t.after(p)));
    if p.serial != k {
        assert(t.public_index != s.public_index);
        assert(at != index);
    }
    assert(of_stream(d.packets, index) + Seq::<PacketView>::empty() =~= of_stream(
        d.packets,
        index,
    ));
}

/// Taking pages of several logical bitstreams apart is taking those of each
/// apart: what is known of one and the packets that it delivers depend on its
/// own pages alone.
pub proof fn law_apart(d: DemuxView, pages: Seq<PageView>, k: u32)
    requires
        numbered(d),
        all_known(d, pages),
        d.states.contains_key(k),
    ensures
        ({
            let e = taken(d, pages);
            let s = d.states[k];
            let index = d.streams[s.public_index as int].index;
            let own = mux_laws::of_serial(pages, k);
            &&& numbered(e)
            &&& forall|l: u32| #[trigger]
                e.states.contains_key(l) == d.states.contains_key(l)
            &&& e.states[k] == demux_laws::behind(s, own)
            &&& e.states[k].public_index == s.public_index
            &&& e.streams[s.public_index as int].index == index
            &&& of_stream(e.packets, index) == of_stream(d.packets, index)
                + demux_laws::delivered_by(s, own, index)
        }),
    decreases pages.len(),
{
    let s = d.states[k];
    let index = d.streams[s.public_index as int].index;
    let own = mux_laws::of_serial(pages, k);
    if pages.len() == 0 {
        assert(of_stream(d.packets, index) + Seq::<PacketView>::empty() =~= of_stream(
            d.packets,
            index,
        ));
    } else {
        let front = pages.drop_last();
        let p = pages.last();
        assert(all_known(d, front)) by {
            assert forall|i: int| 0 <= i < front.len() implies d.states.contains_key(
                (#[trigger] front[i]).serial,
            ) by {
                assert(pages[i] == front[i]);
            }
        }
        assert(d.states.contains_key(pages[pages.len() - 1].serial));
        law_apart(d, front, k);
        let m = taken(d, front);
        lemma_one_page(m, p, k);
        let before = mux_laws::of_serial(front, k);
        if p.serial == k {
            assert(own.drop_last() =~= before);
            assert(own.last() == p);
            assert(of_stream(d.packets, index) + demux_laws::delivered_by(s, before, index)
                + m.states[k].delivered(p, index) =~= of_stream(d.packets, index) + (
            demux_laws::delivered_by(s, before, index) + m.states[k].delivered(p, index)));
        } else {
            assert(of_stream(m.packets, index) + Seq::<PacketView>::empty() =~= of_stream(
                m.packets,
                index,
            ));
        }
    }
}

/// No hole is counted where no page of any logical bitstream is missing.
pub proof fn law_no_holes_apart(d: DemuxView, pages: Seq<PageView>)
    requires
        numbered(d),
        all_known(d, pages),
        forall|k: u32| #[trigger]
            d.states.contains_key(k) ==> demux_laws::seamless(
                d.states[k],
                mux_laws::of_serial(pages, k),
            ),
    ensures
        taken(d, pages).holes == d.holes,
    decreases pages.len(),
{
    if pages.len() > 0 {
        let front = pages.drop_last();
        let p = pages.last();
        let k = p.serial;
        assert(all_known(d, front)) by {
            assert forall|i: int| 0 <= i < front.len() implies d.states.contains_key(
                (#[trigger] front[i]).serial,
            ) by {
                assert(pages[i] == front[i]);
            }
        }
        assert(d.states.contains_key(pages[pages.len() - 1].serial));
        assert forall|l: u32| #[trigger]
            d.states.contains_key(l) implies demux_laws::seamless(
            d.states[l],
            mux_laws::of_serial(front, l),
        ) by {
            let all = mux_laws::of_serial(pages, l);
            let some = mux_laws::of_serial(front, l);
            assert(demux_laws::seamless(d.states[l], all));
            assert forall|i: int| 0 <= i < some.len() implies !demux_laws::behind(
                d.states[l],
                #[trigger] some.take(i),
            ).misses(some[i]) by {
                assert(all.take(i) =~= some.take(i));
                assert(all[i] == some[i]);
            }
        }
        law_no_holes_apart(d, front);
        law_apart(d, front, k);
        let m = taken(d, front);
        lemma_one_page(m, p, k);
        let own = mux_laws::of_serial(pages, k);
        let before = mux_laws::of_serial(front, k);
        assert(own == before.push(p));
        assert(own.take(before.len() as int) =~= before);
        assert(demux_laws::seamless(d.states[k], own));
        assert(!demux_laws::behind(d.states[k], own.take(before.len() as int)).misses(
            own[before.len() as int],
        ));
    }
}

/// A demuxer knows the logical bitstreams of streams that were multiplexed, none
/// of whose pages it has taken, each with its number of header packets.
pub open spec fn awaits(d: DemuxView, streams: Seq<StreamInfoView>, headers: Seq<nat>) -> bool {
    &&& numbered(d)
    &&& d.packets.len() == 0
    &&& headers.len() == streams.len()
    &&& forall|i: int|
        0 <= i < streams.len() ==> {
            let k = #[trigger] serials::assigned(Set::empty(), streams)[i];
            &&& d.states.contains_key(k)
            &&& d.states[k] == LogicalView::fresh(
                d.states[k].public_index,
                headers[i],
                d.states[k].link_index,
            )
        }
}

/// A demuxer gives back what a muxer was given, with a Skeleton and without.
/// Where it knows the logical bitstreams of the pages, the packets that it
/// delivers of each stream are the packets that were written to it, whole and in
/// their order.
pub proof fn law_demuxer_of_muxer(
    position: u64,
    streams: Seq<StreamInfoView>,
    skeleton: Option<SkeletonView>,
    config: Option<AutoIndexConfig>,
    packets: Seq<PacketView>,
    d: DemuxView,
    i: int,
)
    requires
        mux_laws::sound_setup(streams, skeleton, config),
        muxer::initial(position, streams, skeleton, config).headers_fit(),
        forall|k: int|
            0 <= k < packets.len() ==> exists|j: int|
                0 <= j < streams.len() && (#[trigger] streams[j]).index == (
                #[trigger] packets[k]).stream_index,
        awaits(
            d,
            streams,
            Seq::new(
                streams.len(),
                |j: int|
                    mux_laws::sent_headers(
                        muxer::initial(position, streams, skeleton, config),
                        j,
                    ).len(),
            ),
        ),
        all_known(
            d,
            mux_laws::run(
                muxer::initial(position, streams, skeleton, config).with_headers(),
                packets,
            ).ended().wire.pages,
        ),
        0 <= i < streams.len(),
    ensures
        ({
            let m = muxer::initial(position, streams, skeleton, config);
            let pages = mux_laws::run(m.with_headers(), packets).ended().wire.pages;
            let number = d.states[serials::assigned(Set::empty(), streams)[i]].public_index as u32;
            demux_laws::data_of(of_stream(taken(d, pages).packets, number)) == mux_laws::sent_to(
                packets,
                streams[i].index,
            )
        }),
{
    let m = muxer::initial(position, streams, skeleton, config);
    let pages = mux_laws::run(m.with_headers(), packets).ended().wire.pages;
    let k = serials::assigned(Set::empty(), streams)[i];
    let s = d.states[k];
    let number = s.public_index as u32;
    law_apart(d, pages, k);
    assert(d.streams[s.public_index as int].index == s.public_index);
    demux_laws::law_demux_of_mux(position, streams, skeleton, config, packets, i, s, number);
    assert(of_stream(d.packets, number) + demux_laws::delivered_by(
        s,
        mux_laws::of_serial(pages, k),
        number,
    ) =~= demux_laws::delivered_by(s, mux_laws::of_serial(pages, k), number));
}

/// A demuxer counts no hole in what a muxer wrote.
pub proof fn law_muxer_without_holes(
    position: u64,
    streams: Seq<StreamInfoView>,
    packets: Seq<PacketView>,
    d: DemuxView,
)
    requires
        mux_laws::sound_setup(streams, None, None),
        muxer::initial(position, streams, None, None).headers_fit(),
        forall|k: int|
            0 <= k < packets.len() ==> exists|j: int|
                0 <= j < streams.len() && (#[trigger] streams[j]).index == (
                #[trigger] packets[k]).stream_index,
        numbered(d),
        forall|k: u32| #[trigger]
            d.states.contains_key(k) ==> exists|j: int|
                0 <= j < streams.len() && k == #[trigger] serials::assigned(
                    Set::empty(),
                    streams,
                )[j],
        forall|k: u32| #[trigger]
            d.states.contains_key(k) ==> d.states[k] == LogicalView::fresh(
                d.states[k].public_index,
                d.states[k].headers,
                d.states[k].link_index,
            ),
        all_known(
            d,
            mux_laws::run(
                muxer::initial(position, streams, None, None).with_headers(),
                packets,
            ).ended().wire.pages,
        ),
    ensures
        ({
            let m = muxer::initial(position, streams, None, None);
            let pages = mux_laws::run(m.with_headers(), packets).ended().wire.pages;
            taken(d, pages).holes == d.holes
        }),
{
    let m = muxer::initial(position, streams, None, None);
    let pages = mux_laws::run(m.with_headers(), packets).ended().wire.pages;
    mux_laws::law_mux_round_trip(position, streams, None, None, packets);
    assert forall|k: u32| #[trigger] d.states.contains_key(k) implies demux_laws::seamless(
        d.states[k],
        mux_laws::of_serial(pages, k),
    ) by {
        let j = choose|j: int|
            0 <= j < streams.len() && k == #[trigger] serials::assigned(Set::empty(), streams)[j];
        assert(stream_laws::unbroken(mux_laws::of_serial(pages, k))) by {
            let index = streams[j].index;
        }
        demux_laws::law_no_holes(mux_laws::of_serial(pages, k), d.states[k]);
    }
    law_no_holes_apart(d, pages);
}

} // verus!
