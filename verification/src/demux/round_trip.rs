//! A demuxer gives back what a muxer was given.
use crate::codec_id;
use crate::demux::codec_params;
use crate::demux::demux_laws;
use crate::demux::demuxer::DemuxView;
use crate::demux::reading_laws;
use crate::demux::stamp_laws;
use crate::demux::whole_laws;
use crate::framing;
use crate::mux::chain_laws;
use crate::mux::chain_laws::Link;
use crate::mux::codec_headers;
use crate::mux::link_laws;
use crate::mux::mux_laws;
use crate::mux::muxer::MuxView;
use crate::mux::stream_laws;
use crate::page;
use crate::page::{PageView, SegmentView};
use crate::stream::{PacketView, StreamInfoView};
use crate::validate_group;
use vstd::prelude::*;

verus! {

/// The first header packet of every stream tells a codec that has as many header
/// packets as the stream.
pub open spec fn recognised(streams: Seq<StreamInfoView>) -> bool {
    forall|i: int|
        0 <= i < streams.len() ==> {
            let s = #[trigger] streams[i];
            let headers = codec_headers::headers_of(s.params.codec, s.params.extradata);
            &&& headers.len() > 0
            &&& codec_id::header_count(s.params.codec) > 0
            &&& codec_id::header_count(codec_id::codec_of(headers[0])) == headers.len()
            &&& codec_params::params_of(codec_id::codec_of(headers[0]), headers[0]) is Ok
        }
}

pub proof fn lemma_run_of_segments(lacing: Seq<u8>)
    requires
        lacing.len() > 0,
        forall|i: int| 0 <= i < lacing.len() - 1 ==> lacing[i] == 255,
    ensures
        page::segments(lacing) == seq![
            SegmentView {
                start: 0,
                end: page::body_len(lacing),
                terminated: lacing.last() < 255,
            },
        ],
    decreases lacing.len(),
{
    let front = lacing.drop_last();
    if front.len() > 0 {
        lemma_run_of_segments(front);
        assert(front.last() == lacing[lacing.len() - 2]);
        let before = page::segments(front);
        assert(before.drop_last() =~= Seq::empty());
        assert(page::segments(lacing) =~= seq![
            SegmentView {
                start: 0,
                end: page::body_len(lacing),
                terminated: lacing.last() < 255,
            },
        ]);
    } else {
        assert(page::segments(front) =~= Seq::empty());
        assert(page::segments(lacing) =~= seq![
            SegmentView {
                start: 0,
                end: page::body_len(lacing),
                terminated: lacing.last() < 255,
            },
        ]);
    }
}

/// The page that opens a stream tells of it.
proof fn lemma_head_told(streams: Seq<StreamInfoView>, serials: Seq<u32>, i: int)
    requires
        recognised(streams),
        0 <= i < streams.len(),
    ensures
        ({
            let p = link_laws::head_page(streams, serials, i);
            &&& reading_laws::opens_well(p)
            &&& reading_laws::headers_told(p) == link_laws::headers_sent(streams[i]).len()
            &&& p.serial == serials[i]
        }),
{
    let s = streams[i];
    let first = codec_headers::headers_of(s.params.codec, s.params.extradata)[0];
    let p = link_laws::head_page(streams, serials, i);
    page::law_laced(first.len());
    lemma_run_of_segments(p.lacing);
    assert(reading_laws::first_packet(p) =~= first);
    framing::law_page_flags(false, true, false);
    assert(p.flags == framing::page_flags(false, true, false));
}

/// A demuxer that knows none of the serials has a link before it.
proof fn lemma_link_unread(
    d: DemuxView,
    start: MuxView,
    serials: Seq<u32>,
    packets: Seq<PacketView>,
)
    requires
        link_laws::unwritten(start, serials),
        link_laws::addressed(start.streams, packets),
        recognised(start.streams),
        whole_laws::numbered(d),
        reading_laws::in_streams(d),
        d.streams.len() + start.streams.len() <= u32::MAX,
        forall|i: int| 0 <= i < serials.len() ==> !d.states.contains_key(#[trigger] serials[i]),
    ensures
        ({
            let pages = mux_laws::run(start.headed(), packets).ended().wire.pages;
            let n = start.streams.len() as int;
            &&& reading_laws::unread(d, pages, n)
            &&& forall|j: int|
                0 <= j < n ==> #[trigger] pages[j] == link_laws::head_page(
                    start.streams,
                    serials,
                    j,
                )
        }),
{
    let streams = start.streams;
    let n = streams.len() as int;
    let pages = mux_laws::run(start.headed(), packets).ended().wire.pages;
    assert(link_laws::opens_all(streams));
    link_laws::lemma_heads(start, serials, packets);
    link_laws::lemma_link(start, serials, packets);
    let heads = link_laws::head_pages(streams, serials);
    assert forall|j: int| 0 <= j < n implies #[trigger] pages[j] == link_laws::head_page(
        streams,
        serials,
        j,
    ) by {
        assert(pages.take(n)[j] == heads[j]);
    }
    assert forall|j: int| 0 <= j < n implies reading_laws::opens_well(#[trigger] pages[j])
        && !d.states.contains_key(pages[j].serial) && stream_laws::unbroken(
        mux_laws::of_serial(pages, pages[j].serial),
    ) by {
        lemma_head_told(streams, serials, j);
        assert(!d.states.contains_key(serials[j]));
        assert(streams[j].index == streams[j].index);
    }
    assert forall|a: int, b: int| 0 <= a < b < n implies (#[trigger] pages[a]).serial != (
    #[trigger] pages[b]).serial by {
        lemma_head_told(streams, serials, a);
        lemma_head_told(streams, serials, b);
        assert(serials[a] != serials[b]);
    }
    assert forall|i: int| n <= i < pages.len() implies exists|j: int|
        0 <= j < n && (#[trigger] pages[j]).serial == (#[trigger] pages[i]).serial by {
        assert(serials.contains(pages[i].serial));
        let j = choose|j: int| 0 <= j < serials.len() && serials[j] == pages[i].serial;
        lemma_head_told(streams, serials, j);
        assert(pages[j].serial == pages[i].serial);
    }
}

/// Every page can be taken apart.
pub open spec fn all_fine(d: DemuxView, pages: Seq<PageView>) -> bool {
    forall|i: int|
        0 <= i < pages.len() ==> #[trigger] whole_laws::taken(d, pages.take(i)).processed(
            pages[i],
        ).1 is Ok
}

proof fn lemma_fine_concat(d: DemuxView, a: Seq<PageView>, b: Seq<PageView>)
    requires
        all_fine(d, a),
        all_fine(whole_laws::taken(d, a), b),
    ensures
        all_fine(d, a + b),
{
    let all = a + b;
    assert forall|i: int| 0 <= i < all.len() implies #[trigger] whole_laws::taken(
        d,
        all.take(i),
    ).processed(all[i]).1 is Ok by {
        if i < a.len() {
            assert(all.take(i) =~= a.take(i));
        } else {
            let j = i - a.len();
            assert(all.take(i) =~= a + b.take(j));
            lemma_taken_concat(d, a, b.take(j));
            assert(whole_laws::taken(whole_laws::taken(d, a), b.take(j)).processed(b[j]).1 is Ok);
        }
    }
}

/// Pages of known bitstreams can be taken apart.
proof fn lemma_known_fine(d: DemuxView, pages: Seq<PageView>)
    requires
        whole_laws::numbered(d),
        reading_laws::in_streams(d),
        whole_laws::all_known(d, pages),
    ensures
        all_fine(d, pages),
{
    assert forall|i: int| 0 <= i < pages.len() implies #[trigger] whole_laws::taken(
        d,
        pages.take(i),
    ).processed(pages[i]).1 is Ok by {
        let some = pages.take(i);
        assert(whole_laws::all_known(d, some)) by {
            assert forall|l: int| 0 <= l < some.len() implies d.states.contains_key(
                (#[trigger] some[l]).serial,
            ) by {
                assert(pages[l] == some[l]);
            }
        }
        lemma_taken_in_streams(d, some);
        assert(d.states.dom().contains(pages[i].serial));
    }
}

/// So can the pages of a link.
proof fn lemma_link_fine(d: DemuxView, pages: Seq<PageView>, n: int)
    requires
        reading_laws::unread(d, pages, n),
    ensures
        all_fine(d, pages),
{
    assert forall|i: int| 0 <= i < pages.len() implies #[trigger] whole_laws::taken(
        d,
        pages.take(i),
    ).processed(pages[i]).1 is Ok by {
        reading_laws::law_link_read(d, pages, n, i);
        let e = whole_laws::taken(d, pages.take(i));
        if i < n {
            assert(reading_laws::opens_well(pages[i]));
        } else {
            let j = choose|j: int| 0 <= j < n && (#[trigger] pages[j]).serial == pages[i].serial;
            assert(pages[j].serial == pages[i].serial);
            assert(e.states.contains_key(pages[i].serial));
        }
    }
}

/// The demuxer that has learned of the bitstreams that the pages open.
pub open spec fn opened_by(d: DemuxView, heads: Seq<PageView>) -> DemuxView
    decreases heads.len(),
{
    if heads.len() == 0 {
        d
    } else {
        opened_by(d, heads.drop_last()).registered(heads.last())->Ok_0
    }
}

/// What is known of the bitstreams that pages open before any of them is taken
/// apart.
proof fn lemma_opened_by(heads: Seq<PageView>)
    requires
        heads.len() <= u32::MAX,
        forall|j: int| 0 <= j < heads.len() ==> reading_laws::opens_well(#[trigger] heads[j]),
        forall|a: int, b: int|
            0 <= a < b < heads.len() ==> (#[trigger] heads[a]).serial != (
            #[trigger] heads[b]).serial,
    ensures
        ({
            let d = DemuxView::fresh();
            let e = opened_by(d, heads);
            &&& whole_laws::numbered(e)
            &&& e.streams.len() == heads.len()
            &&& e.packets.len() == 0
            &&& e.holes == 0
            &&& e.next_link == 0
            &&& !e.seen_content
            &&& forall|k: u32| #[trigger]
                e.states.contains_key(k) <==> exists|j: int|
                    0 <= j < heads.len() && (#[trigger] heads[j]).serial == k
            &&& forall|j: int|
                0 <= j < heads.len() ==> e.states[(#[trigger] heads[j]).serial]
                    == reading_laws::told(d, heads[j], j)
        }),
    decreases heads.len(),
{
    let d = DemuxView::fresh();
    if heads.len() > 0 {
        let front = heads.drop_last();
        let n = front.len() as int;
        let p = heads.last();
        assert forall|j: int| 0 <= j < front.len() implies reading_laws::opens_well(
            #[trigger] front[j],
        ) by {
            assert(heads[j] == front[j]);
        }
        assert forall|a: int, b: int| 0 <= a < b < front.len() implies (
        #[trigger] front[a]).serial != (#[trigger] front[b]).serial by {
            assert(heads[a].serial != heads[b].serial);
        }
        lemma_opened_by(front);
        let m = opened_by(d, front);
        let e = opened_by(d, heads);
        assert(reading_laws::opens_well(heads[n]));
        assert(m.registered(p) is Ok);
        let s = reading_laws::told(d, p, n);
        assert(e.states =~= m.states.insert(p.serial, s));
        assert forall|i: int| 0 <= i < e.streams.len() implies (
        #[trigger] e.streams[i]).index == i by {
            if i < m.streams.len() {
                assert(m.streams[i].index == i);
            }
        }
        assert(!m.states.contains_key(p.serial)) by {
            if m.states.contains_key(p.serial) {
                let j = choose|j: int| 0 <= j < front.len() && (#[trigger] front[j]).serial
                    == p.serial;
                assert(heads[j].serial != heads[n].serial);
            }
        }
        assert forall|k: u32| #[trigger]
            e.states.contains_key(k) <==> exists|j: int|
                0 <= j < heads.len() && (#[trigger] heads[j]).serial == k by {
            if k == p.serial {
                assert(heads[n].serial == k);
            }
            if m.states.contains_key(k) {
                let j = choose|j: int| 0 <= j < front.len() && (#[trigger] front[j]).serial == k;
                assert(heads[j].serial == k);
            }
            if exists|j: int| 0 <= j < heads.len() && (#[trigger] heads[j]).serial == k {
                let j = choose|j: int| 0 <= j < heads.len() && (#[trigger] heads[j]).serial == k;
                if j < n {
                    assert(front[j].serial == k);
                }
            }
        }
        assert forall|j: int| 0 <= j < heads.len() implies e.states[(
        #[trigger] heads[j]).serial] == reading_laws::told(d, heads[j], j) by {
            if j < n {
                assert(front[j] == heads[j]);
                assert(heads[j].serial != heads[n].serial);
            }
        }
        assert(whole_laws::numbered(e)) by {
            assert forall|k: u32| #[trigger] e.states.contains_key(k) implies e.states[
                k].public_index < e.streams.len() by {
                if k != p.serial {
                    assert(m.states.contains_key(k));
                }
            }
            assert forall|k: u32, j: u32|
                #[trigger] e.states.contains_key(k) && #[trigger] e.states.contains_key(j) && k
                    != j implies e.states[k].public_index != e.states[j].public_index by {
                if k != p.serial {
                    assert(m.states.contains_key(k));
                }
                if j != p.serial {
                    assert(m.states.contains_key(j));
                }
            }
        }
    }
}

/// Every packet that is delivered is of a stream.
proof fn lemma_taken_in_streams(d: DemuxView, pages: Seq<PageView>)
    requires
        whole_laws::numbered(d),
        reading_laws::in_streams(d),
        whole_laws::all_known(d, pages),
    ensures
        whole_laws::numbered(whole_laws::taken(d, pages)),
        reading_laws::in_streams(whole_laws::taken(d, pages)),
        whole_laws::taken(d, pages).streams.len() == d.streams.len(),
        whole_laws::taken(d, pages).states.dom() == d.states.dom(),
    decreases pages.len(),
{
    if pages.len() > 0 {
        let front = pages.drop_last();
        assert(whole_laws::all_known(d, front)) by {
            assert forall|i: int| 0 <= i < front.len() implies d.states.contains_key(
                (#[trigger] front[i]).serial,
            ) by {
                assert(pages[i] == front[i]);
            }
        }
        lemma_taken_in_streams(d, front);
        let m = whole_laws::taken(d, front);
        assert(d.states.contains_key(pages[pages.len() - 1].serial));
        assert(m.states.dom().contains(pages.last().serial));
        reading_laws::lemma_known_page(m, pages.last());
        assert(whole_laws::taken(d, pages).states.dom() =~= d.states.dom());
    }
}

/// What has been read of the streams of the first link.
spec fn all_read(e: DemuxView, link: Link) -> bool {
    &&& whole_laws::numbered(e)
    &&& reading_laws::in_streams(e)
    &&& e.streams.len() == link.streams.len()
    &&& e.holes == 0
    &&& forall|i: int|
        0 <= i < link.streams.len() ==> stamp_laws::gives_back(
            #[trigger] whole_laws::of_stream(e.packets, i as u32),
            link,
            i,
            i as u32,
        )
}

/// The first link is read once its bitstreams are known.
proof fn lemma_first_read(start: MuxView, serials: Seq<u32>, packets: Seq<PacketView>)
    requires
        link_laws::unwritten(start, serials),
        link_laws::addressed(start.streams, packets),
        recognised(start.streams),
        start.streams.len() <= u32::MAX,
    ensures
        ({
            let n = start.streams.len() as int;
            let pages = mux_laws::run(start.headed(), packets).ended().wire.pages;
            let d = opened_by(DemuxView::fresh(), pages.take(n));
            let e = whole_laws::taken(d, pages);
            &&& all_read(e, Link { streams: start.streams, packets })
            &&& all_fine(d, pages)
            &&& forall|k: u32| #[trigger]
                e.states.contains_key(k) ==> serials.contains(k)
        }),
{
    let streams = start.streams;
    let n = streams.len() as int;
    let pages = mux_laws::run(start.headed(), packets).ended().wire.pages;
    let heads = pages.take(n);
    let none = DemuxView::fresh();
    lemma_link_unread(none, start, serials, packets);
    link_laws::lemma_link(start, serials, packets);
    assert forall|j: int| 0 <= j < heads.len() implies reading_laws::opens_well(
        #[trigger] heads[j],
    ) by {
        assert(heads[j] == pages[j]);
    }
    assert forall|a: int, b: int| 0 <= a < b < heads.len() implies (#[trigger] heads[a]).serial
        != (#[trigger] heads[b]).serial by {
        assert(pages[a].serial != pages[b].serial);
    }
    lemma_opened_by(heads);
    let d = opened_by(none, heads);
    let e = whole_laws::taken(d, pages);
    assert(whole_laws::all_known(d, pages)) by {
        assert forall|i: int| 0 <= i < pages.len() implies d.states.contains_key(
            (#[trigger] pages[i]).serial,
        ) by {
            let j = if i < n {
                i
            } else {
                choose|j: int| 0 <= j < n && (#[trigger] pages[j]).serial == pages[i].serial
            };
            assert(heads[j].serial == pages[i].serial);
        }
    }
    lemma_taken_in_streams(d, pages);
    lemma_known_fine(d, pages);
    let link = Link { streams, packets };
    assert forall|i: int| 0 <= i < n implies stamp_laws::gives_back(
        #[trigger] whole_laws::of_stream(e.packets, i as u32),
        link,
        i,
        i as u32,
    ) by {
        lemma_head_told(streams, serials, i);
        let p = pages[i];
        assert(p == link_laws::head_page(streams, serials, i));
        assert(heads[i] == p);
        let k = serials[i];
        let s = reading_laws::told(none, p, i);
        assert(d.states[heads[i].serial] == s);
        assert(d.states.contains_key(k)) by {
            assert(heads[i].serial == k);
        }
        whole_laws::law_apart(d, pages, k);
        assert(d.streams[i].index == i);
        stamp_laws::lemma_delivered(start, serials, packets, i, s, i as u32);
        assert(whole_laws::of_stream(d.packets, i as u32) =~= Seq::<PacketView>::empty());
        assert(Seq::<PacketView>::empty() + demux_laws::delivered_by(
            s,
            mux_laws::of_serial(pages, k),
            i as u32,
        ) =~= demux_laws::delivered_by(s, mux_laws::of_serial(pages, k), i as u32));
    }
    assert forall|k: u32| #[trigger] d.states.contains_key(k) implies serials.contains(k)
        && demux_laws::seamless(d.states[k], mux_laws::of_serial(pages, k)) by {
        let j = choose|j: int| 0 <= j < heads.len() && (#[trigger] heads[j]).serial == k;
        lemma_head_told(streams, serials, j);
        assert(pages[j] == link_laws::head_page(streams, serials, j));
        assert(serials[j] == k);
        assert(d.states[heads[j].serial] == reading_laws::told(none, heads[j], j));
        demux_laws::law_no_holes(mux_laws::of_serial(pages, k), d.states[k]);
    }
    whole_laws::law_no_holes_apart(d, pages);
    assert forall|k: u32| #[trigger] e.states.contains_key(k) implies serials.contains(k) by {
        assert(d.states.contains_key(k));
    }
}

/// The number of streams of the first `n` links.
pub open spec fn streams_before(links: Seq<Link>, n: int) -> nat
    decreases n,
{
    if n <= 0 {
        0
    } else {
        streams_before(links, n - 1) + links[n - 1].streams.len()
    }
}

proof fn lemma_streams_grow(links: Seq<Link>, a: int, n: int)
    requires
        0 <= a <= n,
    ensures
        streams_before(links, a) <= streams_before(links, n),
        a < n ==> streams_before(links, a) + links[a].streams.len() <= streams_before(links, n),
    decreases n - a,
{
    if a < n - 1 {
        lemma_streams_grow(links, a, n - 1);
    }
}

/// Of the stream at place `i` of link `j`, what was sent to it is among the
/// packets, under its number in the order of links and streams.
pub open spec fn read_well(packets: Seq<PacketView>, links: Seq<Link>, j: int, i: int) -> bool {
    let number = (streams_before(links, j) + i) as u32;
    stamp_laws::gives_back(whole_laws::of_stream(packets, number), links[j], i, number)
}

/// The demuxer `e` has read the first `n` links: each stream of each link has a
/// number, in the order of links and streams, and its packets are what was sent
/// to it.
pub open spec fn links_read(e: DemuxView, links: Seq<Link>, n: int) -> bool {
    &&& e.streams.len() == streams_before(links, n)
    &&& e.holes == 0
    &&& forall|j: int, i: int|
        #![trigger links[j].streams[i]]
        0 <= j < n && 0 <= i < links[j].streams.len() ==> read_well(e.packets, links, j, i)
}

/// What the demuxer knows between two links.
spec fn between(e: DemuxView, links: Seq<Link>, n: int) -> bool {
    &&& links_read(e, links, n)
    &&& whole_laws::numbered(e)
    &&& reading_laws::in_streams(e)
    &&& forall|k: u32| #[trigger]
        e.states.contains_key(k) ==> chain_laws::serials_before(links, n).contains(k)
}

proof fn lemma_taken_concat(d: DemuxView, a: Seq<PageView>, b: Seq<PageView>)
    ensures
        whole_laws::taken(d, a + b) == whole_laws::taken(whole_laws::taken(d, a), b),
    decreases b.len(),
{
    if b.len() == 0 {
        assert(a + b =~= a);
    } else {
        assert((a + b).drop_last() =~= a + b.drop_last());
        lemma_taken_concat(d, a, b.drop_last());
    }
}

/// A link that was written is read.
proof fn lemma_link_read_on(
    d: DemuxView,
    start: MuxView,
    serials: Seq<u32>,
    packets: Seq<PacketView>,
)
    requires
        link_laws::unwritten(start, serials),
        link_laws::addressed(start.streams, packets),
        recognised(start.streams),
        whole_laws::numbered(d),
        reading_laws::in_streams(d),
        d.streams.len() + start.streams.len() <= u32::MAX,
        forall|i: int| 0 <= i < serials.len() ==> !d.states.contains_key(#[trigger] serials[i]),
    ensures
        ({
            let n = start.streams.len() as int;
            let pages = mux_laws::run(start.headed(), packets).ended().wire.pages;
            let e = whole_laws::taken(d, pages);
            &&& whole_laws::numbered(e)
            &&& reading_laws::in_streams(e)
            &&& e.streams.len() == d.streams.len() + n
            &&& e.holes == d.holes
            &&& all_fine(d, pages)
            &&& forall|x: u32|
                x < d.streams.len() ==> #[trigger] whole_laws::of_stream(e.packets, x)
                    == whole_laws::of_stream(d.packets, x)
            &&& forall|i: int|
                #![trigger start.streams[i]]
                0 <= i < n ==> stamp_laws::gives_back(
                    whole_laws::of_stream(e.packets, (d.streams.len() + i) as u32),
                    Link { streams: start.streams, packets },
                    i,
                    (d.streams.len() + i) as u32,
                )
            &&& forall|k: u32| #[trigger]
                e.states.contains_key(k) ==> d.states.contains_key(k) || serials.contains(k)
        }),
{
    let streams = start.streams;
    let n = streams.len() as int;
    let pages = mux_laws::run(start.headed(), packets).ended().wire.pages;
    lemma_link_unread(d, start, serials, packets);
    link_laws::lemma_link(start, serials, packets);
    reading_laws::law_link_read(d, pages, n, pages.len() as int);
    lemma_link_fine(d, pages, n);
    assert(pages.take(pages.len() as int) =~= pages);
    let e = whole_laws::taken(d, pages);
    assert forall|i: int|
        #![trigger streams[i]]
        0 <= i < n implies stamp_laws::gives_back(
        whole_laws::of_stream(e.packets, (d.streams.len() + i) as u32),
        Link { streams, packets },
        i,
        (d.streams.len() + i) as u32,
    ) by {
        lemma_head_told(streams, serials, i);
        let p = pages[i];
        assert(p == link_laws::head_page(streams, serials, i));
        stamp_laws::lemma_delivered(
            start,
            serials,
            packets,
            i,
            reading_laws::told(d, p, i),
            (d.streams.len() + i) as u32,
        );
    }
    assert forall|k: u32| #[trigger] e.states.contains_key(k) && !d.states.contains_key(
        k,
    ) implies serials.contains(k) by {
        let j = choose|j: int| 0 <= j < n && (#[trigger] pages[j]).serial == k;
        lemma_head_told(streams, serials, j);
        assert(pages[j] == link_laws::head_page(streams, serials, j));
        assert(serials.contains(serials[j]));
    }
}

/// One more link is read.
#[verifier::spinoff_prover]
#[verifier::rlimit(60)]
proof fn lemma_next_read(position: u64, links: Seq<Link>, n: int, d: DemuxView)
    requires
        chain_laws::sound_chain(links),
        0 < n < links.len(),
        recognised(links[n].streams),
        streams_before(links, n + 1) <= u32::MAX,
        between(d, links, n),
    ensures
        between(
            whole_laws::taken(d, chain_laws::part(position, links, n)),
            links,
            n + 1,
        ),
        all_fine(d, chain_laws::part(position, links, n)),
{
    let link = links[n];
    let serials = chain_laws::serials_of(links, n);
    let start = chain_laws::link_start(position, links, n);
    chain_laws::lemma_link_unwritten(position, links, n);
    assert forall|i: int| 0 <= i < serials.len() implies !d.states.contains_key(
        #[trigger] serials[i],
    ) by {}
    lemma_link_read_on(d, start, serials, link.packets);
    let e = whole_laws::taken(d, chain_laws::part(position, links, n));
    assert(link == Link { streams: start.streams, packets: link.packets });
    assert forall|j: int, i: int|
        #![trigger links[j].streams[i]]
        0 <= j < n + 1 && 0 <= i < links[j].streams.len() implies read_well(
        e.packets,
        links,
        j,
        i,
    ) by {
        let x = (streams_before(links, j) + i) as u32;
        if j < n {
            lemma_streams_grow(links, j, n);
            assert(x < d.streams.len());
            assert(whole_laws::of_stream(e.packets, x) == whole_laws::of_stream(d.packets, x));
            assert(links[j].streams[i].index == links[j].streams[i].index);
            assert(read_well(d.packets, links, j, i));
        } else {
            assert(start.streams[i] == links[j].streams[i]);
        }
    }
    assert forall|k: u32| #[trigger] e.states.contains_key(k) implies chain_laws::serials_before(
        links,
        n + 1,
    ).contains(k) by {}
}

proof fn lemma_chain_read(position: u64, links: Seq<Link>, n: int)
    requires
        chain_laws::sound_chain(links),
        forall|j: int| 0 <= j < links.len() ==> recognised((#[trigger] links[j]).streams),
        1 <= n <= links.len(),
        streams_before(links, links.len() as int) <= u32::MAX,
    ensures
        ({
            let first = chain_laws::part(position, links, 0);
            let d = opened_by(
                DemuxView::fresh(),
                first.take(links[0].streams.len() as int),
            );
            let pages = validate_group::linked(chain_laws::parts(position, links).take(n));
            &&& between(whole_laws::taken(d, pages), links, n)
            &&& all_fine(d, pages)
        }),
    decreases n,
{
    let all = chain_laws::parts(position, links);
    let first = chain_laws::part(position, links, 0);
    let d = opened_by(DemuxView::fresh(), first.take(links[0].streams.len() as int));
    assert(all.take(n).drop_last() =~= all.take(n - 1));
    assert(all.take(n).last() == chain_laws::part(position, links, n - 1));
    lemma_streams_grow(links, n, links.len() as int);
    if n == 1 {
        assert(all.take(0) =~= Seq::empty());
        assert(validate_group::linked(all.take(0)) =~= Seq::empty());
        assert(validate_group::linked(all.take(1)) =~= first);
        let serials = chain_laws::serials_of(links, 0);
        let start = chain_laws::link_start(position, links, 0);
        chain_laws::lemma_link_unwritten(position, links, 0);
        let link = links[0];
        assert(recognised(links[0].streams));
        reveal_with_fuel(streams_before, 2);
        reveal_with_fuel(chain_laws::serials_before, 2);
        lemma_first_read(start, serials, link.packets);
        let e = whole_laws::taken(d, first);
        assert(link == Link { streams: start.streams, packets: link.packets });
        assert forall|j: int, i: int|
            #![trigger links[j].streams[i]]
            0 <= j < 1 && 0 <= i < links[j].streams.len() implies read_well(
            e.packets,
            links,
            j,
            i,
        ) by {
            let found = whole_laws::of_stream(e.packets, i as u32);
            assert(stamp_laws::gives_back(found, link, i, i as u32));
        }
    } else {
        lemma_chain_read(position, links, n - 1);
        let before = validate_group::linked(all.take(n - 1));
        lemma_taken_concat(d, before, chain_laws::part(position, links, n - 1));
        assert(recognised(links[n - 1].streams));
        lemma_next_read(position, links, n - 1, whole_laws::taken(d, before));
        lemma_fine_concat(d, before, chain_laws::part(position, links, n - 1));
    }
}

/// The packets that a demuxer delivers until it needs more pages.
pub open spec fn drained(d: DemuxView) -> Seq<PacketView>
    decreases d.pages.len(), d.packets.len(),
{
    match d.advanced() {
        (m, Ok(Some(p))) => if m.pages.len() < d.pages.len() || (m.pages.len() == d.pages.len()
            && m.packets.len() < d.packets.len()) {
            seq![p] + drained(m)
        } else {
            seq![p]
        },
        _ => Seq::empty(),
    }
}

/// The demuxer with nothing waiting to be taken apart.
pub open spec fn without_pages(d: DemuxView) -> DemuxView {
    DemuxView { pages: Seq::empty(), ..d }
}

/// Taking a page apart has nothing to do with the pages that wait.
proof fn lemma_processed_apart(d: DemuxView, p: PageView)
    ensures
        without_pages(d.processed(p).0) == without_pages(d).processed(p).0,
        d.processed(p).1 == without_pages(d).processed(p).1,
        d.processed(p).0.pages == d.pages,
{
    let b = without_pages(d);
    assert(without_pages(d.linked(p)) =~= b.linked(p));
    assert(without_pages(d.processed(p).0) =~= b.processed(p).0);
}

/// The packets that wait stay where they are when pages are taken apart.
proof fn lemma_taken_popped(d: DemuxView, pages: Seq<PageView>)
    requires
        d.packets.len() > 0,
    ensures
        ({
            let rest = DemuxView { packets: d.packets.skip(1), ..d };
            let e = whole_laws::taken(d, pages);
            &&& e.packets.len() > 0
            &&& e.packets[0] == d.packets[0]
            &&& whole_laws::taken(rest, pages) == (DemuxView { packets: e.packets.skip(1), ..e })
        }),
    decreases pages.len(),
{
    if pages.len() > 0 {
        lemma_taken_popped(d, pages.drop_last());
        let m = whole_laws::taken(d, pages.drop_last());
        lemma_processed_popped(m, pages.last());
    }
}

proof fn lemma_processed_popped(d: DemuxView, p: PageView)
    requires
        d.packets.len() > 0,
    ensures
        ({
            let rest = DemuxView { packets: d.packets.skip(1), ..d };
            let e = d.processed(p).0;
            &&& e.packets.len() > 0
            &&& e.packets[0] == d.packets[0]
            &&& rest.processed(p).0 == (DemuxView { packets: e.packets.skip(1), ..e })
            &&& rest.processed(p).1 == d.processed(p).1
        }),
{
    let rest = DemuxView { packets: d.packets.skip(1), ..d };
    let l = d.linked(p);
    let m = rest.linked(p);
    assert(m =~= (DemuxView { packets: l.packets.skip(1), ..l }));
    let e = d.processed(p).0;
    assert(rest.processed(p).0 =~= (DemuxView { packets: e.packets.skip(1), ..e })) by {
        if l.states.contains_key(p.serial) || d.opens(p) {
            let r = if d.opens(p) {
                l.registered(p)->Ok_0
            } else {
                l
            };
            let s = r.states[p.serial];
            let more = s.delivered(p, r.streams[s.public_index as int].index);
            assert((d.packets + more).skip(1) =~= d.packets.skip(1) + more);
        }
    }
}

proof fn lemma_advanced_shrinks(d: DemuxView)
    ensures
        d.advanced() matches (m, Ok(Some(p))) ==> m.pages.len() < d.pages.len() || (m.pages.len()
            == d.pages.len() && m.packets.len() < d.packets.len()),
    decreases d.pages.len(),
{
    if d.packets.len() == 0 && d.pages.len() > 0 {
        let (m, r) = d.without_page().processed(d.pages[0]);
        if r is Ok && m.pages.len() < d.pages.len() {
            lemma_advanced_shrinks(m);
        }
    }
}

proof fn lemma_fine_popped(d: DemuxView, pages: Seq<PageView>)
    requires
        d.packets.len() > 0,
        all_fine(d, pages),
    ensures
        all_fine(DemuxView { packets: d.packets.skip(1), ..d }, pages),
{
    let rest = DemuxView { packets: d.packets.skip(1), ..d };
    assert forall|i: int| 0 <= i < pages.len() implies #[trigger] whole_laws::taken(
        rest,
        pages.take(i),
    ).processed(pages[i]).1 is Ok by {
        lemma_taken_popped(d, pages.take(i));
        let e = whole_laws::taken(d, pages.take(i));
        assert(e.processed(pages[i]).1 is Ok);
        lemma_processed_popped(e, pages[i]);
    }
}

/// Taking pages apart begins with the first of them.
proof fn lemma_first_taken(d: DemuxView, pages: Seq<PageView>)
    requires
        pages.len() > 0,
        all_fine(d, pages),
    ensures
        d.processed(pages[0]).1 is Ok,
        all_fine(d.processed(pages[0]).0, pages.skip(1)),
        whole_laws::taken(d, pages) == whole_laws::taken(
            d.processed(pages[0]).0,
            pages.skip(1),
        ),
{
    let p = pages[0];
    let rest = pages.skip(1);
    let next = d.processed(p).0;
    let one = seq![p];
    assert(pages.take(0) =~= Seq::empty());
    assert(whole_laws::taken(d, pages.take(0)).processed(pages[0]).1 is Ok);
    assert(one.drop_last() =~= Seq::empty());
    assert(whole_laws::taken(d, one.drop_last()) == d);
    assert(whole_laws::taken(d, one) == next);
    assert(one + rest =~= pages);
    lemma_taken_concat(d, one, rest);
    assert forall|i: int| 0 <= i < rest.len() implies #[trigger] whole_laws::taken(
        next,
        rest.take(i),
    ).processed(rest[i]).1 is Ok by {
        lemma_taken_concat(d, one, rest.take(i));
        assert(one + rest.take(i) =~= pages.take(i + 1));
        assert(whole_laws::taken(d, pages.take(i + 1)).processed(pages[i + 1]).1 is Ok);
    }
}

/// With no packet there, the first page comes next.
proof fn lemma_drained_next(d: DemuxView)
    requires
        d.packets.len() == 0,
        d.pages.len() > 0,
        d.without_page().processed(d.pages[0]).1 is Ok,
        d.without_page().processed(d.pages[0]).0.pages.len() < d.pages.len(),
    ensures
        drained(d) == drained(d.without_page().processed(d.pages[0]).0),
{
    let m = d.without_page().processed(d.pages[0]).0;
    assert(d.advanced() == m.advanced());
    lemma_advanced_shrinks(m);
}

/// A packet that waits comes first.
proof fn lemma_drained_first(d: DemuxView)
    requires
        d.packets.len() > 0,
    ensures
        drained(d) == seq![d.packets[0]] + drained(
            DemuxView { packets: d.packets.skip(1), ..d },
        ),
{
}

/// A demuxer delivers exactly the packets of the pages that it has been given,
/// in their order.
pub proof fn law_drained(d: DemuxView)
    requires
        all_fine(without_pages(d), d.pages),
    ensures
        drained(d) == whole_laws::taken(without_pages(d), d.pages).packets,
    decreases d.pages.len(), d.packets.len(),
{
    let b = without_pages(d);
    if d.packets.len() > 0 {
        let m = DemuxView { packets: d.packets.skip(1), ..d };
        lemma_taken_popped(b, d.pages);
        lemma_fine_popped(b, d.pages);
        assert(without_pages(m) == DemuxView { packets: b.packets.skip(1), ..b });
        law_drained(m);
        lemma_drained_first(d);
        let e = whole_laws::taken(b, d.pages);
        assert(seq![d.packets[0]] + e.packets.skip(1) =~= e.packets);
    } else if d.pages.len() == 0 {
        assert(drained(d) =~= Seq::<PacketView>::empty());
        assert(d.packets =~= Seq::<PacketView>::empty());
    } else {
        let w = d.without_page();
        let m = w.processed(d.pages[0]).0;
        lemma_processed_apart(w, d.pages[0]);
        assert(without_pages(w) == b);
        lemma_first_taken(b, d.pages);
        law_drained(m);
        lemma_drained_next(d);
    }
}

/// The two demuxers deliver the same: they know the same bitstreams, each as the
/// same stream, and differ at most in what they know of streams otherwise, in
/// metadata and in the index.
pub open spec fn similar(d: DemuxView, e: DemuxView) -> bool {
    &&& d.states == e.states
    &&& d.packets == e.packets
    &&& d.next_link == e.next_link
    &&& d.seen_content == e.seen_content
    &&& d.holes == e.holes
    &&& d.streams.len() == e.streams.len()
    &&& forall|i: int|
        0 <= i < d.streams.len() ==> (#[trigger] d.streams[i]).index == e.streams[i].index
    &&& forall|k: u32| #[trigger]
        d.states.contains_key(k) ==> d.states[k].public_index < d.streams.len()
}

proof fn lemma_similar_consumed(d: DemuxView, e: DemuxView, p: PageView)
    requires
        similar(d, e),
    ensures
        similar(d.consumed(p), e.consumed(p)),
{
    let x = d.consumed(p);
    let y = e.consumed(p);
    if d.states.contains_key(p.serial) {
        let s = d.states[p.serial];
        let i = s.public_index as int;
        assert(d.streams[i].index == e.streams[i].index);
        assert(x.streams.len() == d.streams.len());
        assert(y.streams.len() == e.streams.len());
        assert forall|j: int| 0 <= j < x.streams.len() implies (#[trigger] x.streams[j]).index
            == y.streams[j].index by {
            assert(d.streams[j].index == e.streams[j].index);
        }
        assert forall|k: u32| #[trigger] x.states.contains_key(k) implies x.states[k].public_index
            < x.streams.len() by {
            assert(d.states.contains_key(k));
        }
    }
}

proof fn lemma_similar_processed(d: DemuxView, e: DemuxView, p: PageView)
    requires
        similar(d, e),
    ensures
        similar(d.processed(p).0, e.processed(p).0),
        d.processed(p).1 == e.processed(p).1,
{
    let l = d.linked(p);
    let m = e.linked(p);
    assert(similar(l, m));
    if d.opens(p) {
        if l.registered(p) is Ok {
            let r = l.registered(p)->Ok_0;
            let q = m.registered(p)->Ok_0;
            assert(similar(r, q)) by {
                assert forall|i: int| 0 <= i < r.streams.len() implies (
                #[trigger] r.streams[i]).index == q.streams[i].index by {
                    if i < l.streams.len() {
                        assert(l.streams[i].index == m.streams[i].index);
                    }
                }
                assert forall|k: u32| #[trigger] r.states.contains_key(k) implies r.states[
                    k].public_index < r.streams.len() by {
                    if k != p.serial {
                        assert(l.states.contains_key(k));
                    }
                }
            }
            lemma_similar_consumed(r, q, p);
        }
    } else {
        lemma_similar_consumed(l, m, p);
    }
}

proof fn lemma_similar_taken(d: DemuxView, e: DemuxView, pages: Seq<PageView>)
    requires
        similar(d, e),
    ensures
        similar(whole_laws::taken(d, pages), whole_laws::taken(e, pages)),
    decreases pages.len(),
{
    if pages.len() > 0 {
        lemma_similar_taken(d, e, pages.drop_last());
        lemma_similar_processed(
            whole_laws::taken(d, pages.drop_last()),
            whole_laws::taken(e, pages.drop_last()),
            pages.last(),
        );
    }
}

proof fn lemma_similar_fine(d: DemuxView, e: DemuxView, pages: Seq<PageView>)
    requires
        similar(d, e),
        all_fine(d, pages),
    ensures
        all_fine(e, pages),
{
    assert forall|i: int| 0 <= i < pages.len() implies #[trigger] whole_laws::taken(
        e,
        pages.take(i),
    ).processed(pages[i]).1 is Ok by {
        lemma_similar_taken(d, e, pages.take(i));
        assert(whole_laws::taken(d, pages.take(i)).processed(pages[i]).1 is Ok);
        lemma_similar_processed(
            whole_laws::taken(d, pages.take(i)),
            whole_laws::taken(e, pages.take(i)),
            pages[i],
        );
    }
}

/// Demuxers that know the same and wait for the same deliver the same.
pub proof fn law_similar_drained(d: DemuxView, e: DemuxView)
    requires
        similar(d, e),
        d.pages == e.pages,
        all_fine(without_pages(d), d.pages),
    ensures
        drained(d) == drained(e),
{
    assert(similar(without_pages(d), without_pages(e))) by {
        assert forall|i: int| 0 <= i < d.streams.len() implies (#[trigger] without_pages(
            d,
        ).streams[i]).index == without_pages(e).streams[i].index by {
            assert(d.streams[i].index == e.streams[i].index);
        }
        assert forall|k: u32| #[trigger] without_pages(d).states.contains_key(k) implies (
        without_pages(d).states[k].public_index < without_pages(d).streams.len()) by {
            assert(d.states.contains_key(k));
        }
    }
    lemma_similar_fine(without_pages(d), without_pages(e), d.pages);
    lemma_similar_taken(without_pages(d), without_pages(e), d.pages);
    law_drained(d);
    law_drained(e);
}

/// Taking pages apart for the sake of the header packets takes nothing away from
/// what is delivered.
pub proof fn law_absorbed_drained(d: DemuxView)
    requires
        all_fine(without_pages(d), d.pages),
    ensures
        d.absorbed().1 is Ok,
        all_fine(without_pages(d.absorbed().0), d.absorbed().0.pages),
        drained(d.absorbed().0) == drained(d),
    decreases d.pages.len(),
{
    if d.awaits_headers() && d.pages.len() > 0 {
        let w = d.without_page();
        let m = w.processed(d.pages[0]).0;
        let b = without_pages(d);
        lemma_processed_apart(w, d.pages[0]);
        assert(without_pages(w) == b);
        lemma_first_taken(b, d.pages);
        law_absorbed_drained(m);
        law_drained(d);
        law_drained(m);
    }
}

/// What a demuxer has come to that was given all pages of links: it has learned
/// of the bitstreams that the first of them open.
pub open spec fn given(d: DemuxView, position: u64, links: Seq<Link>) -> bool {
    let first = chain_laws::part(position, links, 0);
    &&& d.pages == chain_laws::chain(position, links, links.len() as int).ended().wire.pages
    &&& similar(
        d,
        opened_by(DemuxView::fresh(), first.take(links[0].streams.len() as int)),
    )
}

/// A demuxer gives back what a muxer was given. Of every stream of every link it
/// delivers the packets that were written to it, whole and in their order, and
/// with their times where they end their pages, whichever packets were written
/// to which streams in which links. When all pages have been taken apart, it has
/// learned of every stream and has counted no hole.
pub proof fn law_read_back(position: u64, links: Seq<Link>, d: DemuxView)
    requires
        chain_laws::sound_chain(links),
        forall|j: int| 0 <= j < links.len() ==> recognised((#[trigger] links[j]).streams),
        streams_before(links, links.len() as int) <= u32::MAX,
        given(d, position, links),
    ensures
        links_read(
            whole_laws::taken(without_pages(d), d.pages),
            links,
            links.len() as int,
        ),
        forall|j: int, i: int|
            #![trigger links[j].streams[i]]
            0 <= j < links.len() && 0 <= i < links[j].streams.len() ==> read_well(
                drained(d),
                links,
                j,
                i,
            ),
{
    let n = links.len() as int;
    let first = chain_laws::part(position, links, 0);
    let c = opened_by(DemuxView::fresh(), first.take(links[0].streams.len() as int));
    let all = chain_laws::parts(position, links);
    lemma_chain_read(position, links, n);
    assert(all.take(n) =~= all);
    chain_laws::law_chain_round_trip(position, links);
    let b = without_pages(d);
    assert(similar(c, b)) by {
        assert forall|i: int| 0 <= i < c.streams.len() implies (#[trigger] c.streams[i]).index
            == b.streams[i].index by {
            assert(d.streams[i].index == c.streams[i].index);
        }
        assert forall|k: u32| #[trigger] c.states.contains_key(k) implies c.states[k].public_index
            < c.streams.len() by {
            assert(d.states.contains_key(k));
        }
    }
    lemma_similar_fine(c, b, d.pages);
    lemma_similar_taken(c, b, d.pages);
    law_drained(d);
    let e = whole_laws::taken(b, d.pages);
    let f = whole_laws::taken(c, d.pages);
    assert(e.packets == f.packets);
    assert forall|j: int, i: int|
        #![trigger links[j].streams[i]]
        0 <= j < links.len() && 0 <= i < links[j].streams.len() implies read_well(
        e.packets,
        links,
        j,
        i,
    ) by {
        assert(read_well(f.packets, links, j, i));
    }
}

} // verus!
