//! A muxer that begins a new link writes it as if nothing stood before it.
use crate::codec_id;
use crate::framing;
use crate::mux::codec_headers;
use crate::mux::mux_laws;
use crate::mux::muxer;
use crate::mux::muxer::MuxView;
use crate::mux::serials;
use crate::mux::stream_laws;
use crate::mux::stream_writer;
use crate::mux::stream_writer::{PendingView, StreamView};
use crate::mux::tidy;
use crate::mux::wire::WireView;
use crate::page::PageView;
use crate::stream;
use crate::stream::{PacketView, StreamInfoView};
use vstd::prelude::*;

verus! {

/// The muxer with the pages `front` before everything that it has written.
pub open spec fn behind(m: MuxView, front: Seq<PageView>) -> MuxView {
    MuxView { wire: WireView { pages: front + m.wire.pages, ..m.wire }, ..m }
}

pub proof fn lemma_behind_emitted(
    m: MuxView,
    front: Seq<PageView>,
    index: u32,
    list: Seq<PendingView>,
)
    ensures
        behind(m, front).emitted_all(index, list) == behind(m.emitted_all(index, list), front),
    decreases list.len(),
{
    if list.len() > 0 {
        lemma_behind_emitted(m, front, index, list.drop_last());
        let mid = m.emitted_all(index, list.drop_last());
        let p = list.last();
        assert(behind(mid, front).emitted(index, p) =~= behind(mid.emitted(index, p), front)) by {
            assert((front + mid.wire.pages).push(p.page) =~= front + mid.wire.pages.push(p.page));
        }
    }
}

pub proof fn lemma_behind_settled(m: MuxView, front: Seq<PageView>, index: u32, s: StreamView)
    ensures
        behind(m, front).settled(index, s) == behind(m.settled(index, s), front),
{
    lemma_behind_emitted(m, front, index, s.ready);
    assert(behind(m, front).settled(index, s) =~= behind(m.settled(index, s), front));
}

pub proof fn lemma_behind_packet(m: MuxView, front: Seq<PageView>, p: PacketView)
    ensures
        behind(m, front).packet(p) == behind(m.packet(p), front),
{
    let s = m.writers[p.stream_index].written(p);
    lemma_behind_settled(m, front, p.stream_index, s);
    assert(behind(m, front).packet(p) =~= behind(m.packet(p), front));
}

pub proof fn lemma_behind_opened(m: MuxView, front: Seq<PageView>, n: int)
    ensures
        behind(m, front).opened(n) == behind(m.opened(n), front),
    decreases n,
{
    if n > 0 {
        lemma_behind_opened(m, front, n - 1);
        let mid = m.opened(n - 1);
        let index = m.streams[n - 1].index;
        assert(behind(m, front).headers(n - 1) == m.headers(n - 1));
        lemma_behind_settled(
            mid,
            front,
            index,
            mid.writers[index].opened(m.headers(n - 1)[0]),
        );
    }
}

pub proof fn lemma_behind_more(
    m: MuxView,
    front: Seq<PageView>,
    index: u32,
    packets: Seq<Seq<u8>>,
)
    ensures
        behind(m, front).more_headers(index, packets) == behind(
            m.more_headers(index, packets),
            front,
        ),
    decreases packets.len(),
{
    if packets.len() > 0 {
        lemma_behind_more(m, front, index, packets.drop_last());
        lemma_behind_packet(
            m.more_headers(index, packets.drop_last()),
            front,
            stream::bare_packet(index, packets.last()),
        );
    }
}

pub proof fn lemma_behind_continued(m: MuxView, front: Seq<PageView>, n: int)
    ensures
        behind(m, front).continued(n) == behind(m.continued(n), front),
    decreases n,
{
    if n > 0 {
        lemma_behind_continued(m, front, n - 1);
        assert(behind(m, front).headers(n - 1) == m.headers(n - 1));
        lemma_behind_more(
            m.continued(n - 1),
            front,
            m.streams[n - 1].index,
            muxer::behind_first(m.headers(n - 1)),
        );
    }
}

pub proof fn lemma_behind_closed(m: MuxView, front: Seq<PageView>, n: int)
    ensures
        behind(m, front).closed_off(n) == behind(m.closed_off(n), front),
    decreases n,
{
    if n > 0 {
        lemma_behind_closed(m, front, n - 1);
        let mid = m.closed_off(n - 1);
        let index = m.streams[n - 1].index;
        lemma_behind_settled(mid, front, index, mid.writers[index].closed_off());
    }
}

pub proof fn lemma_behind_run(m: MuxView, front: Seq<PageView>, packets: Seq<PacketView>)
    ensures
        mux_laws::run(behind(m, front), packets) == behind(mux_laws::run(m, packets), front),
    decreases packets.len(),
{
    if packets.len() > 0 {
        lemma_behind_run(m, front, packets.drop_last());
        lemma_behind_packet(mux_laws::run(m, packets.drop_last()), front, packets.last());
    }
}

/// What a muxer writes does not depend on the pages that stand before.
pub proof fn law_behind(m: MuxView, front: Seq<PageView>, packets: Seq<PacketView>)
    ensures
        mux_laws::run(behind(m, front).headed(), packets).ended().wire.pages == front
            + mux_laws::run(m.headed(), packets).ended().wire.pages,
{
    let n = m.streams.len() as int;
    lemma_behind_opened(m, front, n);
    lemma_behind_continued(m.opened(n), front, n);
    lemma_opened_streams(m, n);
    lemma_behind_run(m.headed(), front, packets);
    let ran = mux_laws::run(m.headed(), packets);
    lemma_behind_closed(ran, front, ran.streams.len() as int);
}

pub proof fn lemma_opened_streams(m: MuxView, n: int)
    ensures
        m.opened(n).streams == m.streams,
    decreases n,
{
    if n > 0 {
        lemma_opened_streams(m, n - 1);
        let mid = m.opened(n - 1);
        let index = m.streams[n - 1].index;
        mux_laws::lemma_emitted_pages(
            mid,
            index,
            mid.writers[index].opened(m.headers(n - 1)[0]).ready,
        );
    }
}

/// A muxer that is about to write the headers of a new link, as if nothing
/// stood before it.
pub open spec fn link_begun(m: MuxView, streams: Seq<StreamInfoView>) -> MuxView {
    let c = m.closed_off(m.streams.len() as int);
    let serials = serials::assigned(m.used, streams);
    MuxView {
        streams,
        writers: muxer::fresh_writers(streams, serials),
        used: m.used + serials.to_set(),
        link_index: if m.link_index == u32::MAX {
            u32::MAX
        } else {
            (m.link_index + 1) as u32
        },
        content_started: false,
        wire: WireView { pages: Seq::empty(), ..c.wire },
        ..c
    }
}

/// The pages of a new link.
pub open spec fn link_pages(
    m: MuxView,
    streams: Seq<StreamInfoView>,
    packets: Seq<PacketView>,
) -> Seq<PageView> {
    mux_laws::run(link_begun(m, streams).headed(), packets).ended().wire.pages
}

pub proof fn lemma_closed_rest(m: MuxView, n: int)
    ensures
        ({
            let c = m.closed_off(n);
            &&& c.used == m.used
            &&& c.link_index == m.link_index
            &&& c.skeleton == m.skeleton
            &&& c.streams == m.streams
            &&& c.header_written == m.header_written
            &&& c.trailer_written == m.trailer_written
        }),
    decreases n,
{
    if n > 0 {
        lemma_closed_rest(m, n - 1);
        let mid = m.closed_off(n - 1);
        let k = m.streams[n - 1].index;
        lemma_emitted_rest(mid, k, mid.writers[k].closed_off().ready);
    }
}

proof fn lemma_emitted_rest(m: MuxView, index: u32, list: Seq<PendingView>)
    ensures
        ({
            let e = m.emitted_all(index, list);
            &&& e.used == m.used
            &&& e.link_index == m.link_index
            &&& e.skeleton == m.skeleton
            &&& e.streams == m.streams
            &&& e.header_written == m.header_written
            &&& e.trailer_written == m.trailer_written
        }),
    decreases list.len(),
{
    if list.len() > 0 {
        lemma_emitted_rest(m, index, list.drop_last());
    }
}

/// A new link stands behind everything that came before it, and that is what
/// would stand there had the stream been ended instead.
pub proof fn law_link_behind(
    m: MuxView,
    streams: Seq<StreamInfoView>,
    packets: Seq<PacketView>,
)
    ensures
        mux_laws::run(m.relinked(streams), packets).ended().wire.pages == m.ended().wire.pages
            + link_pages(m, streams, packets),
{
    let n = m.streams.len() as int;
    let c = m.closed_off(n);
    lemma_closed_rest(m, n);
    let start = link_begun(m, streams);
    law_behind(start, c.wire.pages, packets);
    assert(behind(start, c.wire.pages).wire.pages =~= c.wire.pages);
    assert(m.relinked(streams) == behind(start, c.wire.pages).headed());
}

/// Everything that has been or will be written has one of the serials.
pub open spec fn within(m: MuxView, serials: Seq<u32>) -> bool {
    &&& forall|i: int|
        0 <= i < m.wire.pages.len() ==> serials.contains((#[trigger] m.wire.pages[i]).serial)
    &&& forall|k: u32| #[trigger]
        m.writers.contains_key(k) ==> serials.contains(m.writers[k].serial)
}

pub proof fn lemma_within_settled(m: MuxView, serials: Seq<u32>, k: u32, s: StreamView)
    requires
        within(m, serials),
        serials.contains(s.serial),
        forall|i: int| 0 <= i < s.ready.len() ==> (#[trigger] s.ready[i]).page.serial == s.serial,
    ensures
        within(m.settled(k, s), serials),
{
    let after = m.settled(k, s);
    mux_laws::lemma_emitted_pages(m, k, s.ready);
    let more = stream_laws::pages_in(s.ready);
    assert forall|i: int| 0 <= i < after.wire.pages.len() implies serials.contains(
        (#[trigger] after.wire.pages[i]).serial,
    ) by {
        if i < m.wire.pages.len() {
            assert(serials.contains(m.wire.pages[i].serial));
        } else {
            assert(after.wire.pages[i] == more[i - m.wire.pages.len()]);
            assert(s.ready[i - m.wire.pages.len()].page.serial == s.serial);
        }
    }
    assert forall|j: u32| #[trigger] after.writers.contains_key(j) implies serials.contains(
        after.writers[j].serial,
    ) by {
        if j != k {
            assert(m.writers.contains_key(j));
        }
    }
}

pub proof fn lemma_within_packet(
    m: MuxView,
    content: Map<u32, Seq<Seq<u8>>>,
    serials: Seq<u32>,
    p: PacketView,
)
    requires
        within(m, serials),
        mux_laws::faithful(m, content),
        m.writers.contains_key(p.stream_index),
    ensures
        within(m.packet(p), serials),
{
    let k = p.stream_index;
    let s = m.writers[k];
    assert(mux_laws::lane_holds(m, content, k));
    stream_laws::lemma_written_consistent(s, p);
    tidy::lemma_written_serial(s, p);
    lemma_within_settled(m, serials, k, s.written(p));
    let settled = m.settled(k, s.written(p));
    let after = m.packet(p);
    assert(after.wire == settled.wire);
    assert(after.writers == settled.writers);
    assert forall|j: u32| #[trigger] after.writers.contains_key(j) implies serials.contains(
        after.writers[j].serial,
    ) by {
        assert(settled.writers.contains_key(j));
    }
}

pub proof fn lemma_within_opened(m: MuxView, serials: Seq<u32>, n: int)
    requires
        within(m, serials),
        mux_laws::all_there(m),
        0 <= n <= m.streams.len(),
        forall|k: u32| #[trigger] m.writers.contains_key(k) ==> m.writers[k].ready.len() == 0,
    ensures
        within(m.opened(n), serials),
        m.opened(n).writers.dom() == m.writers.dom(),
        forall|k: u32| #[trigger]
            m.opened(n).writers.contains_key(k) ==> m.opened(n).writers[k].ready.len() == 0,
    decreases n,
{
    if n > 0 {
        lemma_within_opened(m, serials, n - 1);
        let mid = m.opened(n - 1);
        let k = m.streams[n - 1].index;
        assert(m.writers.contains_key(k));
        assert(mid.writers.contains_key(k));
        let s = mid.writers[k];
        if m.headers(n - 1).len() > 0 && s.headers > 0 {
            let t = s.opened(m.headers(n - 1)[0]);
            assert forall|i: int| 0 <= i < t.ready.len() implies (
            #[trigger] t.ready[i]).page.serial == t.serial by {}
            lemma_within_settled(mid, serials, k, t);
            mux_laws::lemma_emitted_pages(mid, k, t.ready);
            assert(m.opened(n).writers.dom() =~= m.writers.dom());
        }
    }
}

pub proof fn lemma_within_more(
    m: MuxView,
    content: Map<u32, Seq<Seq<u8>>>,
    serials: Seq<u32>,
    k: u32,
    packets: Seq<Seq<u8>>,
)
    requires
        within(m, serials),
        mux_laws::faithful(m, content),
        m.writers.contains_key(k),
    ensures
        within(m.more_headers(k, packets), serials),
    decreases packets.len(),
{
    if packets.len() > 0 {
        let front = packets.drop_last();
        lemma_within_more(m, content, serials, k, front);
        mux_laws::lemma_more_headers(m, content, k, front);
        let mid = m.more_headers(k, front);
        assert(mid.writers.contains_key(k));
        lemma_within_packet(
            mid,
            content.insert(k, content[k] + front),
            serials,
            stream::bare_packet(k, packets.last()),
        );
    }
}

pub proof fn lemma_within_continued(
    m: MuxView,
    content: Map<u32, Seq<Seq<u8>>>,
    serials: Seq<u32>,
    n: int,
    what: spec_fn(int) -> Seq<Seq<u8>>,
)
    requires
        within(m, serials),
        mux_laws::faithful(m, content),
        mux_laws::all_there(m),
        mux_laws::distinct_streams(m.streams),
        0 <= n <= m.streams.len(),
        forall|i: int|
            0 <= i < m.streams.len() ==> content[(#[trigger] m.streams[i]).index] == what(i),
    ensures
        within(m.continued(n), serials),
    decreases n,
{
    if n > 0 {
        lemma_within_continued(m, content, serials, n - 1, what);
        let before = mux_laws::lemma_continued(m, content, n - 1, what);
        let mid = m.continued(n - 1);
        let k = m.streams[n - 1].index;
        assert(mid.streams[n - 1].index == k);
        assert(mid.writers.contains_key(k));
        lemma_within_more(mid, before, serials, k, muxer::behind_first(m.headers(n - 1)));
    }
}

pub proof fn lemma_within_run(
    m: MuxView,
    content: Map<u32, Seq<Seq<u8>>>,
    serials: Seq<u32>,
    packets: Seq<PacketView>,
)
    requires
        within(m, serials),
        mux_laws::faithful(m, content),
        forall|i: int|
            0 <= i < packets.len() ==> m.writers.contains_key(
                (#[trigger] packets[i]).stream_index,
            ),
    ensures
        within(mux_laws::run(m, packets), serials),
    decreases packets.len(),
{
    if packets.len() > 0 {
        let front = packets.drop_last();
        assert forall|i: int| 0 <= i < front.len() implies m.writers.contains_key(
            (#[trigger] front[i]).stream_index,
        ) by {
            assert(packets[i] == front[i]);
        }
        lemma_within_run(m, content, serials, front);
        let between = mux_laws::lemma_run(m, content, front);
        let mid = mux_laws::run(m, front);
        assert(m.writers.contains_key(packets[packets.len() - 1].stream_index));
        assert(mid.writers.contains_key(packets.last().stream_index));
        lemma_within_packet(mid, between, serials, packets.last());
    }
}

pub proof fn lemma_within_closed(
    m: MuxView,
    content: Map<u32, Seq<Seq<u8>>>,
    serials: Seq<u32>,
    n: int,
)
    requires
        within(m, serials),
        mux_laws::faithful(m, content),
        mux_laws::all_there(m),
        mux_laws::distinct_streams(m.streams),
        0 <= n <= m.streams.len(),
    ensures
        within(m.closed_off(n), serials),
    decreases n,
{
    if n > 0 {
        lemma_within_closed(m, content, serials, n - 1);
        mux_laws::lemma_closed_off(m, content, n - 1);
        let mid = m.closed_off(n - 1);
        let k = m.streams[n - 1].index;
        assert(mid.streams[n - 1].index == k);
        assert(mid.writers.contains_key(k));
        assert(mux_laws::lane_holds(mid, content, k));
        stream_laws::lemma_closed_consistent(mid.writers[k]);
        lemma_within_settled(mid, serials, k, mid.writers[k].closed_off());
    }
}

/// A muxer without a Skeleton that has written nothing, whose streams have the
/// given serials.
pub open spec fn unwritten(start: MuxView, serials: Seq<u32>) -> bool {
    &&& start.skeleton is None
    &&& start.wire.pages.len() == 0
    &&& start.writers == muxer::fresh_writers(start.streams, serials)
    &&& serials.len() == start.streams.len()
    &&& serials.no_duplicates()
    &&& mux_laws::distinct_streams(start.streams)
    &&& muxer::streams_fit_pages(start.streams)
}

/// Every packet is of one of the streams.
pub open spec fn addressed(streams: Seq<StreamInfoView>, packets: Seq<PacketView>) -> bool {
    forall|k: int|
        0 <= k < packets.len() ==> exists|j: int|
            0 <= j < streams.len() && (#[trigger] streams[j]).index == (
            #[trigger] packets[k]).stream_index
}

pub proof fn lemma_unwritten(start: MuxView, serials: Seq<u32>) -> (content: Map<
    u32,
    Seq<Seq<u8>>,
>)
    requires
        unwritten(start, serials),
    ensures
        mux_laws::faithful(start, content),
        mux_laws::all_there(start),
        mux_laws::untouched(start, 0),
        start.headers_fit(),
        mux_laws::content_is(start, content, 0, |i: int| Seq::empty()),
        forall|i: int|
            0 <= i < serials.len() ==> start.writers[(#[trigger] start.streams[i]).index].serial
                == serials[i],
{
    let m = start;
    let streams = m.streams;
    let content = Map::new(|k: u32| true, |k: u32| Seq::<Seq<u8>>::empty());
    mux_laws::lemma_fresh_lanes(streams, serials);
    let none = Seq::<PageView>::empty();
    assert forall|k: u32| #[trigger] m.writers.contains_key(k) implies mux_laws::lane_holds(
        m,
        content,
        k,
    ) by {
        let i = choose|i: int| 0 <= i < streams.len() && (#[trigger] streams[i]).index == k;
        stream_laws::law_fresh(serials[i], codec_id::header_count(streams[i].params.codec));
        stream_laws::law_begun_in_step(
            serials[i],
            codec_id::header_count(streams[i].params.codec),
            Seq::empty(),
        );
        assert(mux_laws::of_serial(m.wire.pages, m.writers[k].serial) =~= none);
    }
    assert forall|j: u32, k: u32|
        #![trigger m.writers.contains_key(j), m.writers.contains_key(k)]
        m.writers.contains_key(j) && m.writers.contains_key(k) && j
            != k implies m.writers[j].serial != m.writers[k].serial by {
        let a = choose|i: int| 0 <= i < streams.len() && (#[trigger] streams[i]).index == j;
        let b = choose|i: int| 0 <= i < streams.len() && (#[trigger] streams[i]).index == k;
        assert(serials[a] != serials[b]);
    }
    assert forall|i: int|
        0 <= i < m.streams.len() && (#[trigger] m.headers(i)).len() > 0
            && m.writers[m.streams[i].index].headers > 0 implies stream_writer::fits_page(
        m.headers(i)[0],
    ) by {
        assert(muxer::stream_fits_page(
            streams[i],
            muxer::awaited(streams, streams[i].index),
        ));
        muxer::lemma_awaited(streams, serials, streams[i].index);
    }
    content
}

/// What a link holds: nothing but its own bitstreams, whose pages follow each
/// other and carry exactly their header packets and then their packets.
pub open spec fn holds_link(
    pages: Seq<PageView>,
    streams: Seq<StreamInfoView>,
    serials: Seq<u32>,
    packets: Seq<PacketView>,
) -> bool {
    forall|i: int|
        0 <= i < streams.len() ==> {
            let s = #[trigger] streams[i];
            let own = mux_laws::of_serial(pages, serials[i]);
            &&& stream_laws::unbroken(own)
            &&& framing::stream_packets(own) matches Ok((found, state)) && found
                == headers_sent(s) + mux_laws::sent_to(packets, s.index)
        }
}

/// The header packets of a stream, where its codec has any.
pub open spec fn headers_sent(s: StreamInfoView) -> Seq<Seq<u8>> {
    let all = codec_headers::headers_of(s.params.codec, s.params.extradata);
    if codec_id::header_count(s.params.codec) > 0 {
        all
    } else {
        muxer::behind_first(all)
    }
}

/// The streams of a muxer that has written nothing, when their headers have been
/// written.
pub proof fn lemma_link_headed(start: MuxView, serials: Seq<u32>) -> (now: Map<u32, Seq<Seq<u8>>>)
    requires
        unwritten(start, serials),
    ensures
        ({
            let headed = start.headed();
            &&& within(headed, serials)
            &&& mux_laws::faithful(headed, now)
            &&& mux_laws::all_there(headed)
            &&& headed.streams == start.streams
            &&& forall|i: int|
                0 <= i < start.streams.len() ==> {
                    let s = #[trigger] start.streams[i];
                    &&& now[s.index] == headers_sent(s)
                    &&& headed.writers[s.index].serial == serials[i]
                }
        }),
{
    let streams = start.streams;
    let n = streams.len() as int;
    let content = lemma_unwritten(start, serials);
    mux_laws::lemma_fresh_lanes(streams, serials);
    assert(within(start, serials)) by {
        assert forall|k: u32| #[trigger] start.writers.contains_key(k) implies serials.contains(
            start.writers[k].serial,
        ) by {
            let i = choose|i: int| 0 <= i < streams.len() && (#[trigger] streams[i]).index == k;
            assert(serials.contains(serials[i]));
        }
    }
    assert forall|k: u32| #[trigger] start.writers.contains_key(k) implies start.writers[
        k].ready.len() == 0 by {
        assert(mux_laws::lane_holds(start, content, k));
    }
    let what = |i: int| mux_laws::first_header(start, i);
    lemma_within_opened(start, serials, n);
    let between = mux_laws::lemma_opened(start, content, n);
    let opened = start.opened(n);
    assert forall|i: int| 0 <= i < opened.streams.len() implies between[(
    #[trigger] opened.streams[i]).index] == what(i) by {
        assert(start.streams[i] == opened.streams[i]);
    }
    lemma_within_continued(opened, between, serials, n, what);
    let now = mux_laws::lemma_continued(opened, between, n, what);
    let headed = start.headed();
    assert forall|i: int| 0 <= i < streams.len() implies ({
        let s = #[trigger] streams[i];
        &&& now[s.index] == headers_sent(s)
        &&& headed.writers[s.index].serial == serials[i]
    }) by {
        let index = streams[i].index;
        assert(start.writers.contains_key(index));
        assert(start.writers[start.streams[i].index].serial == serials[i]);
        assert(opened.writers.contains_key(index));
        assert(opened.streams[i] == streams[i]);
        assert(opened.headers(i) == start.headers(i));
        assert(mux_laws::first_header(start, i) + muxer::behind_first(start.headers(i))
            =~= headers_sent(streams[i]));
    }
    now
}

/// A muxer that has written nothing writes the link that it is given.
pub proof fn lemma_link(start: MuxView, serials: Seq<u32>, packets: Seq<PacketView>)
    requires
        unwritten(start, serials),
        addressed(start.streams, packets),
    ensures
        ({
            let pages = mux_laws::run(start.headed(), packets).ended().wire.pages;
            &&& holds_link(pages, start.streams, serials, packets)
            &&& forall|i: int| 0 <= i < pages.len() ==> (#[trigger] pages[i]).wf()
            &&& forall|i: int|
                0 <= i < pages.len() ==> serials.contains((#[trigger] pages[i]).serial)
        }),
{
    let streams = start.streams;
    let n = streams.len() as int;
    let now = lemma_link_headed(start, serials);
    let headed = start.headed();
    assert forall|i: int| 0 <= i < packets.len() implies headed.writers.contains_key(
        (#[trigger] packets[i]).stream_index,
    ) by {
        let j = choose|j: int|
            0 <= j < streams.len() && (#[trigger] streams[j]).index == packets[i].stream_index;
        assert(headed.streams[j].index == packets[i].stream_index);
    }
    lemma_within_run(headed, now, serials, packets);
    let sent = mux_laws::lemma_run(headed, now, packets);
    let ran = mux_laws::run(headed, packets);
    assert(mux_laws::all_there(ran)) by {
        assert forall|i: int| 0 <= i < ran.streams.len() implies ran.writers.contains_key(
            (#[trigger] ran.streams[i]).index,
        ) by {
            assert(headed.writers.contains_key(headed.streams[i].index));
        }
    }
    lemma_within_closed(ran, sent, serials, n);
    mux_laws::lemma_closed_off(ran, sent, n);
    let closed = ran.closed_off(n);
    let pages = ran.ended().wire.pages;
    assert forall|i: int| 0 <= i < streams.len() implies ({
        let s = #[trigger] streams[i];
        let own = mux_laws::of_serial(pages, serials[i]);
        &&& stream_laws::unbroken(own)
        &&& framing::stream_packets(own) matches Ok((found, state)) && found == headers_sent(s)
            + mux_laws::sent_to(packets, s.index)
    }) by {
        let index = streams[i].index;
        assert(headed.writers.contains_key(headed.streams[i].index));
        assert(ran.writers.contains_key(index));
        assert(closed.writers.contains_key(index));
        assert(closed.streams[i] == streams[i]);
        assert(closed.writers[closed.streams[i].index].pending is None);
        assert(mux_laws::lane_holds(closed, sent, index));
        mux_laws::lemma_drained(closed, sent, index);
    }
}

/// Every stream is opened with a header packet.
pub open spec fn opens_all(streams: Seq<StreamInfoView>) -> bool {
    forall|i: int|
        0 <= i < streams.len() ==> codec_headers::headers_of(
            (#[trigger] streams[i]).params.codec,
            streams[i].params.extradata,
        ).len() > 0 && codec_id::header_count(streams[i].params.codec) > 0
}

/// The page that opens the stream at place `i`.
pub open spec fn head_page(streams: Seq<StreamInfoView>, serials: Seq<u32>, i: int) -> PageView {
    let s = streams[i];
    stream_writer::opening_page(
        serials[i],
        0,
        codec_headers::headers_of(s.params.codec, s.params.extradata)[0],
    )
}

/// The pages that open the streams.
pub open spec fn head_pages(streams: Seq<StreamInfoView>, serials: Seq<u32>) -> Seq<PageView> {
    Seq::new(streams.len(), |i: int| head_page(streams, serials, i))
}

pub proof fn lemma_opened_pages(
    start: MuxView,
    content: Map<u32, Seq<Seq<u8>>>,
    serials: Seq<u32>,
    n: int,
)
    requires
        mux_laws::faithful(start, content),
        mux_laws::all_there(start),
        mux_laws::untouched(start, 0),
        start.headers_fit(),
        mux_laws::distinct_streams(start.streams),
        mux_laws::content_is(start, content, 0, |i: int| Seq::empty()),
        forall|i: int|
            0 <= i < start.streams.len() ==> start.writers[(
            #[trigger] start.streams[i]).index].serial == serials[i],
        opens_all(start.streams),
        0 <= n <= start.streams.len(),
    ensures
        start.opened(n).wire.pages == start.wire.pages + head_pages(start.streams, serials).take(
            n,
        ),
    decreases n,
{
    let heads = head_pages(start.streams, serials);
    if n <= 0 {
        assert(start.wire.pages + heads.take(0) =~= start.wire.pages);
    } else {
        lemma_opened_pages(start, content, serials, n - 1);
        let before = mux_laws::lemma_opened(start, content, n - 1);
        let mid = start.opened(n - 1);
        let stream = start.streams[n - 1];
        let k = stream.index;
        let q = start.headers(n - 1);
        assert(mid.streams[n - 1] == stream);
        assert(start.writers.contains_key(k));
        assert(mid.writers.contains_key(k));
        let s = mid.writers[k];
        assert(s == StreamView::fresh(s.serial, codec_id::header_count(stream.params.codec)));
        assert(start.writers[start.streams[n - 1].index].serial == serials[n - 1]);
        let t = s.opened(q[0]);
        mux_laws::lemma_emitted_pages(mid, k, t.ready);
        assert(stream_laws::pages_in(t.ready) =~= seq![heads[n - 1]]);
        assert(start.opened(n).wire.pages =~= start.wire.pages + heads.take(n));
    }
}

/// The pages of a link begin with those that open its streams, in their order.
pub proof fn lemma_heads(start: MuxView, serials: Seq<u32>, packets: Seq<PacketView>)
    requires
        unwritten(start, serials),
        opens_all(start.streams),
    ensures
        ({
            let pages = mux_laws::run(start.headed(), packets).ended().wire.pages;
            let n = start.streams.len() as int;
            &&& n <= pages.len()
            &&& pages.take(n) == head_pages(start.streams, serials)
        }),
{
    let n = start.streams.len() as int;
    let content = lemma_unwritten(start, serials);
    let heads = head_pages(start.streams, serials);
    lemma_opened_pages(start, content, serials, n);
    lemma_opened_streams(start, n);
    let opened = start.opened(n);
    assert(heads.take(n) =~= heads);
    assert(opened.wire.pages =~= heads);
    let bare = MuxView { wire: WireView { pages: Seq::empty(), ..opened.wire }, ..opened };
    assert(heads + bare.wire.pages =~= heads);
    assert(behind(bare, heads) == opened);
    lemma_behind_continued(bare, heads, n);
    lemma_behind_run(bare.continued(n), heads, packets);
    let ran = mux_laws::run(bare.continued(n), packets);
    lemma_behind_closed(ran, heads, ran.streams.len() as int);
    let pages = mux_laws::run(start.headed(), packets).ended().wire.pages;
    assert(pages == heads + ran.ended().wire.pages);
    assert(pages.take(n) =~= heads);
}

} // verus!
