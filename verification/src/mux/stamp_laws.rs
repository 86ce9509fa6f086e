//! The granule positions of the pages on which packets end.
use crate::codec_id;
use crate::mux::codec_headers;
use crate::mux::mux_laws;
use crate::mux::muxer;
use crate::mux::muxer::MuxView;
use crate::mux::neat_laws;
use crate::mux::stream_laws;
use crate::mux::stream_writer;
use crate::mux::stream_writer::{PendingView, StreamView};
use crate::page;
use crate::page::{flags, PageView};
use crate::stream;
use crate::stream::{PacketView, StreamInfoView};
use vstd::prelude::*;

verus! {

/// What pages tell of a packet besides its bytes: its time, and whether it is
/// the last that ends on its page.
pub struct Stamp {
    pub pts: Option<i64>,
    pub last: bool,
}

/// A granule position as a time: a negative one is none.
pub open spec fn time_of(granule: i64) -> Option<i64> {
    if granule >= 0 {
        Some(granule)
    } else {
        None
    }
}

/// The stamps of the packets that end on a page. The last bears the granule
/// position of the page.
pub open spec fn page_stamps(p: PageView) -> Seq<Stamp> {
    let n = page::packets_ended(p.lacing);
    Seq::new(
        n,
        |i: int|
            Stamp {
                pts: if i == n - 1 {
                    time_of(p.granule_position)
                } else {
                    None
                },
                last: i == n - 1,
            },
    )
}

/// The stamps of the packets that end on pages.
pub open spec fn stamps(pages: Seq<PageView>) -> Seq<Stamp>
    decreases pages.len(),
{
    if pages.len() == 0 {
        Seq::empty()
    } else {
        stamps(pages.drop_last()) + page_stamps(pages.last())
    }
}

/// The stamp of a packet that ends its page.
pub open spec fn stamp_of(p: PacketView) -> Stamp {
    Stamp {
        pts: match p.pts {
            Some(t) => time_of(t),
            None => None,
        },
        last: true,
    }
}

/// The stamps of the packets of the stream `index`.
pub open spec fn stamps_sent(packets: Seq<PacketView>, index: u32) -> Seq<Stamp>
    decreases packets.len(),
{
    if packets.len() == 0 {
        Seq::empty()
    } else {
        let front = stamps_sent(packets.drop_last(), index);
        if packets.last().stream_index == index {
            front.push(stamp_of(packets.last()))
        } else {
            front
        }
    }
}

/// Every packet of the stream `index` ends its page.
pub open spec fn ending_pages(packets: Seq<PacketView>, index: u32) -> bool {
    forall|i: int|
        0 <= i < packets.len() && (#[trigger] packets[i]).stream_index == index
            ==> packets[i].unit_boundary
}

/// Nothing is on the page that is being filled.
spec fn clear(s: StreamView) -> bool {
    s.lacing.len() == 0 && s.granule == -1
}

pub proof fn lemma_flush(written: Seq<PageView>, s: StreamView)
    ensures
        stream_laws::finished_pages(written, s.flushed()) == stream_laws::finished_pages(
            written,
            s,
        ).push(s.open_page()),
        stamps(stream_laws::finished_pages(written, s.flushed())) == stamps(
            stream_laws::finished_pages(written, s),
        ) + page_stamps(s.open_page()),
{
    let v = s.flushed();
    let before = stream_laws::finished_pages(written, s);
    let list = s.ready + stream_writer::as_list(s.pending);
    let after = v.ready + stream_writer::as_list(v.pending);
    assert(after =~= list.push(v.pending->Some_0));
    assert(stream_laws::pages_in(after) =~= stream_laws::pages_in(list).push(s.open_page()));
    let pages = stream_laws::finished_pages(written, v);
    assert(pages =~= before.push(s.open_page()));
    assert(pages.drop_last() =~= before);
}

/// The pages that a packet fills bear no stamp; it ends alone on the page that
/// is being filled.
proof fn lemma_spread(written: Seq<PageView>, s: StreamView, packet: Seq<u8>)
    requires
        clear(s),
    ensures
        ({
            let v = s.spread(packet);
            &&& v.granule == -1
            &&& v.headers == s.headers
            &&& page::packets_ended(v.lacing) == 1
            &&& stamps(stream_laws::finished_pages(written, v)) == stamps(
                stream_laws::finished_pages(written, s),
            )
        }),
    decreases packet.len(),
{
    page::law_laced(packet.len());
    if packet.len() < 65025 {
        assert(s.lacing + page::laced(packet.len()) =~= page::laced(packet.len()));
        assert(stream_laws::finished_pages(written, s.spread(packet))
            == stream_laws::finished_pages(written, s));
    } else {
        let run = Seq::new(255, |i: int| 255u8);
        let full = s.with_segments(run, packet.take(65025));
        assert(full.lacing =~= run);
        neat_laws::lemma_none_ended(255);
        assert(stream_laws::finished_pages(written, full) == stream_laws::finished_pages(
            written,
            s,
        ));
        lemma_flush(written, full);
        assert(page_stamps(full.open_page()) =~= Seq::<Stamp>::empty());
        assert(stamps(stream_laws::finished_pages(written, s)) + Seq::<Stamp>::empty() =~= stamps(
            stream_laws::finished_pages(written, s),
        ));
        lemma_spread(written, full.flushed(), packet.skip(65025));
    }
}

/// A packet that ends its page is stamped with its time.
proof fn lemma_written(written: Seq<PageView>, s: StreamView, p: PacketView)
    requires
        clear(s),
        s.headers == 0,
        p.unit_boundary,
    ensures
        clear(s.written(p)),
        s.written(p).headers == 0,
        stamps(stream_laws::finished_pages(written, s.written(p))) == stamps(
            stream_laws::finished_pages(written, s),
        ).push(stamp_of(p)),
{
    let marked = s.marked(p);
    assert(s.with_room(p.data) == s);
    assert(stream_laws::finished_pages(written, marked) == stream_laws::finished_pages(
        written,
        s,
    ));
    lemma_spread(written, marked, p.data);
    let placed = marked.spread(p.data);
    let t = placed.stamped(p.pts);
    assert(stream_laws::finished_pages(written, t) == stream_laws::finished_pages(
        written,
        placed,
    ));
    lemma_flush(written, t);
    assert(page_stamps(t.open_page()) =~= seq![stamp_of(p)]);
}

/// A header packet leaves nothing on the page that is being filled.
proof fn lemma_header_written(s: StreamView, p: PacketView)
    requires
        clear(s),
        s.headers > 0,
    ensures
        clear(s.written(p)),
        s.written(p).headers == s.headers - 1,
{
}

/// Closing a stream on whose page nothing is leaves the stamps as they are.
proof fn lemma_closed(written: Seq<PageView>, s: StreamView)
    requires
        clear(s),
    ensures
        clear(s.closed_off()),
        stamps(stream_laws::finished_pages(written, s.closed_off())) == stamps(
            stream_laws::finished_pages(written, s),
        ),
{
    let c = s.closed_off();
    let pages = stream_laws::finished_pages(written, s);
    match s.pending {
        None => {},
        Some(p) => {
            let marked = PageView { flags: p.page.flags | flags::LAST_PAGE, ..p.page };
            let list = s.ready + stream_writer::as_list(s.pending);
            assert(list =~= s.ready.push(p));
            assert(stream_laws::pages_in(list) =~= stream_laws::pages_in(s.ready).push(p.page));
            assert(pages =~= (written + stream_laws::pages_in(s.ready)).push(p.page));
            assert(pages.drop_last() =~= written + stream_laws::pages_in(s.ready));
            let after = stream_laws::finished_pages(written, c);
            assert(c.ready + stream_writer::as_list(c.pending) =~= c.ready);
            assert(stream_laws::pages_in(c.ready) =~= stream_laws::pages_in(s.ready).push(marked));
            assert(after =~= pages.drop_last().push(marked));
            assert(after.drop_last() =~= pages.drop_last());
            assert(page_stamps(marked) =~= page_stamps(p.page));
        },
    }
}

/// The pages that the stream `k` has finished.
pub open spec fn finished(m: MuxView, k: u32) -> Seq<PageView> {
    stream_laws::finished_pages(
        mux_laws::of_serial(m.wire.pages, m.writers[k].serial),
        m.writers[k],
    )
}

/// The stamps of all that the stream `k` has finished.
spec fn told(m: MuxView, k: u32) -> Seq<Stamp> {
    stamps(finished(m, k))
}

/// A stream that has come to a new state leaves the pages of the others as they
/// were.
pub proof fn lemma_settled(
    m: MuxView,
    content: Map<u32, Seq<Seq<u8>>>,
    j: u32,
    s: StreamView,
    k: u32,
)
    requires
        mux_laws::faithful(m, content),
        m.writers.contains_key(j),
        m.writers.contains_key(k),
        s.serial == m.writers[j].serial,
        s.consistent(),
    ensures
        m.settled(j, s).writers == m.writers.insert(j, s.emptied()),
        finished(m.settled(j, s), k) == (if j == k {
            stream_laws::finished_pages(mux_laws::of_serial(m.wire.pages, s.serial), s)
        } else {
            finished(m, k)
        }),
{
    let after = m.settled(j, s);
    let more = stream_laws::pages_in(s.ready);
    mux_laws::lemma_emitted_pages(m, j, s.ready);
    assert forall|i: int| 0 <= i < more.len() implies (#[trigger] more[i]).serial == s.serial by {
        assert(s.ready[i].page.serial == s.serial);
    }
    let serial = m.writers[k].serial;
    mux_laws::lemma_of_serial_concat(m.wire.pages, more, serial);
    mux_laws::lemma_of_serial_alike(more, s.serial, serial);
    let own = mux_laws::of_serial(m.wire.pages, serial);
    if j == k {
        let e = s.emptied();
        assert(stream_laws::finished_pages(own + more, e) =~= stream_laws::finished_pages(own, s));
    } else {
        assert(own + Seq::<PageView>::empty() =~= own);
    }
}

/// Packets that end their pages are stamped with their times, whatever is
/// written to the other streams.
proof fn lemma_run(
    m: MuxView,
    content: Map<u32, Seq<Seq<u8>>>,
    packets: Seq<PacketView>,
    k: u32,
)
    requires
        mux_laws::faithful(m, content),
        m.writers.contains_key(k),
        clear(m.writers[k]),
        m.writers[k].headers == 0,
        ending_pages(packets, k),
        forall|i: int|
            0 <= i < packets.len() ==> m.writers.contains_key(
                (#[trigger] packets[i]).stream_index,
            ),
    ensures
        ({
            let after = mux_laws::run(m, packets);
            &&& clear(after.writers[k])
            &&& after.writers[k].headers == 0
            &&& told(after, k) == told(m, k) + stamps_sent(packets, k)
        }),
    decreases packets.len(),
{
    if packets.len() == 0 {
        assert(told(m, k) + Seq::<Stamp>::empty() =~= told(m, k));
    } else {
        let front = packets.drop_last();
        assert forall|i: int| 0 <= i < front.len() implies m.writers.contains_key(
            (#[trigger] front[i]).stream_index,
        ) by {
            assert(packets[i] == front[i]);
        }
        assert forall|i: int|
            0 <= i < front.len() && (#[trigger] front[i]).stream_index
                == k implies front[i].unit_boundary by {
            assert(packets[i] == front[i]);
        }
        lemma_run(m, content, front, k);
        let between = mux_laws::lemma_run(m, content, front);
        let mid = mux_laws::run(m, front);
        let p = packets[packets.len() - 1];
        let j = p.stream_index;
        assert(m.writers.contains_key(j));
        assert(mid.writers.contains_key(j) && mid.writers.contains_key(k));
        assert(mux_laws::lane_holds(mid, between, j));
        let s = mid.writers[j];
        let own = mux_laws::of_serial(mid.wire.pages, s.serial);
        stream_laws::lemma_written_consistent(s, p);
        stream_laws::law_written(own, s, between[j], p);
        lemma_settled(mid, between, j, s.written(p), k);
        let after = mux_laws::run(m, packets);
        let settled = mid.settled(j, s.written(p));
        assert(after.writers == settled.writers && after.wire == settled.wire);
        if j == k {
            lemma_written(own, s, p);
            assert((told(m, k) + stamps_sent(front, k)).push(stamp_of(p)) =~= told(m, k)
                + stamps_sent(packets, k));
        }
    }
}

proof fn lemma_closed_off(m: MuxView, content: Map<u32, Seq<Seq<u8>>>, n: int, k: u32)
    requires
        mux_laws::faithful(m, content),
        mux_laws::all_there(m),
        mux_laws::distinct_streams(m.streams),
        0 <= n <= m.streams.len(),
        m.writers.contains_key(k),
        clear(m.writers[k]),
    ensures
        clear(m.closed_off(n).writers[k]),
        told(m.closed_off(n), k) == told(m, k),
    decreases n,
{
    if n > 0 {
        lemma_closed_off(m, content, n - 1, k);
        mux_laws::lemma_closed_off(m, content, n - 1);
        let mid = m.closed_off(n - 1);
        let j = m.streams[n - 1].index;
        assert(mid.streams[n - 1].index == j);
        assert(mid.writers.contains_key(j));
        assert(mid.writers.contains_key(k));
        assert(mux_laws::lane_holds(mid, content, j));
        let s = mid.writers[j];
        stream_laws::lemma_closed_consistent(s);
        lemma_settled(mid, content, j, s.closed_off(), k);
        if j == k {
            lemma_closed(mux_laws::of_serial(mid.wire.pages, s.serial), s);
        }
    }
}

/// The pages of a stream all of whose packets end their pages bear the times of
/// these packets, behind the stamps of what was there before.
pub proof fn lemma_ended_stamps(
    m: MuxView,
    content: Map<u32, Seq<Seq<u8>>>,
    packets: Seq<PacketView>,
    k: u32,
) -> (before: Seq<Stamp>)
    requires
        mux_laws::faithful(m, content),
        mux_laws::all_there(m),
        mux_laws::distinct_streams(m.streams),
        at_page_start(m, k),
        ending_pages(packets, k),
        exists|i: int| 0 <= i < m.streams.len() && (#[trigger] m.streams[i]).index == k,
        forall|i: int|
            0 <= i < packets.len() ==> m.writers.contains_key(
                (#[trigger] packets[i]).stream_index,
            ),
    ensures
        stamps(
            mux_laws::of_serial(
                mux_laws::run(m, packets).ended().wire.pages,
                m.writers[k].serial,
            ),
        ) == before + stamps_sent(packets, k),
{
    let x = choose|i: int| 0 <= i < m.streams.len() && (#[trigger] m.streams[i]).index == k;
    assert(m.writers.contains_key(m.streams[x].index));
    let n = m.streams.len() as int;
    lemma_run(m, content, packets, k);
    let now = mux_laws::lemma_run(m, content, packets);
    let ran = mux_laws::run(m, packets);
    assert(mux_laws::all_there(ran)) by {
        assert forall|i: int| 0 <= i < ran.streams.len() implies ran.writers.contains_key(
            (#[trigger] ran.streams[i]).index,
        ) by {
            assert(m.writers.contains_key(m.streams[i].index));
        }
    }
    assert(ran.writers.contains_key(k));
    lemma_closed_off(ran, now, n, k);
    mux_laws::lemma_closed_off(ran, now, n);
    let closed = ran.closed_off(n);
    assert(closed.streams[x].index == k);
    assert(closed.writers.contains_key(k));
    assert(mux_laws::lane_holds(closed, now, k));
    let s = closed.writers[k];
    let own = mux_laws::of_serial(closed.wire.pages, s.serial);
    assert(s.ready + stream_writer::as_list(s.pending) =~= Seq::<PendingView>::empty());
    assert(stream_laws::finished_pages(own, s) =~= own);
    told(m, k)
}

/// The header packets of the stream `k` have been written, and nothing is on the
/// page that is being filled.
pub open spec fn at_page_start(m: MuxView, k: u32) -> bool {
    let s = m.writers[k];
    s.lacing.len() == 0 && s.granule == -1 && s.headers == 0
}

/// A stream has as many header packets as its codec.
pub open spec fn headers_counted(s: StreamInfoView) -> bool {
    codec_headers::headers_of(s.params.codec, s.params.extradata).len() == codec_id::header_count(
        s.params.codec,
    )
}

/// What one stream comes to leaves the others alone.
proof fn lemma_writers(m: MuxView, j: u32, s: StreamView)
    ensures
        m.settled(j, s).writers == m.writers.insert(j, s.emptied()),
        m.settled(j, s).streams == m.streams,
{
    mux_laws::lemma_emitted_pages(m, j, s.ready);
}

proof fn lemma_opened_start(m: MuxView, n: int, x: int)
    requires
        mux_laws::distinct_streams(m.streams),
        0 <= x < m.streams.len(),
        0 <= n <= m.streams.len(),
        clear(m.writers[m.streams[x].index]),
    ensures
        ({
            let k = m.streams[x].index;
            let s = m.opened(n).writers[k];
            let before = m.writers[k].headers;
            &&& clear(s)
            &&& s.headers == (if x < n && m.headers(x).len() > 0 && before > 0 {
                (before - 1) as nat
            } else {
                before
            })
            &&& m.opened(n).streams == m.streams
        }),
    decreases n,
{
    if n > 0 {
        lemma_opened_start(m, n - 1, x);
        let mid = m.opened(n - 1);
        let j = m.streams[n - 1].index;
        let s = mid.writers[j];
        if m.headers(n - 1).len() > 0 && s.headers > 0 {
            lemma_writers(mid, j, s.opened(m.headers(n - 1)[0]));
        }
        if x < n - 1 {
            assert(m.streams[x].index != m.streams[n - 1].index);
        } else if x > n - 1 {
            assert(m.streams[n - 1].index != m.streams[x].index);
        }
    }
}

proof fn lemma_more_start(m: MuxView, j: u32, packets: Seq<Seq<u8>>, k: u32)
    requires
        clear(m.writers[k]),
        j == k ==> m.writers[k].headers >= packets.len(),
    ensures
        ({
            let after = m.more_headers(j, packets);
            &&& clear(after.writers[k])
            &&& after.writers[k].headers == (if j == k {
                (m.writers[k].headers - packets.len()) as nat
            } else {
                m.writers[k].headers
            })
            &&& after.streams == m.streams
        }),
    decreases packets.len(),
{
    if packets.len() > 0 {
        let front = packets.drop_last();
        lemma_more_start(m, j, front, k);
        let mid = m.more_headers(j, front);
        let p = stream::bare_packet(j, packets.last());
        let s = mid.writers[j];
        lemma_writers(mid, j, s.written(p));
        if j == k {
            lemma_header_written(s, p);
        }
    }
}

proof fn lemma_continued_start(m: MuxView, n: int, x: int)
    requires
        mux_laws::distinct_streams(m.streams),
        0 <= x < m.streams.len(),
        0 <= n <= m.streams.len(),
        clear(m.writers[m.streams[x].index]),
        m.writers[m.streams[x].index].headers >= muxer::behind_first(m.headers(x)).len(),
    ensures
        ({
            let s = m.continued(n).writers[m.streams[x].index];
            let before = m.writers[m.streams[x].index].headers;
            &&& clear(s)
            &&& s.headers == (if x < n {
                (before - muxer::behind_first(m.headers(x)).len()) as nat
            } else {
                before
            })
            &&& m.continued(n).streams == m.streams
        }),
    decreases n,
{
    if n > 0 {
        lemma_continued_start(m, n - 1, x);
        if x < n - 1 {
            assert(m.streams[x].index != m.streams[n - 1].index);
        } else if x > n - 1 {
            assert(m.streams[n - 1].index != m.streams[x].index);
        }
        lemma_more_start(
            m.continued(n - 1),
            m.streams[n - 1].index,
            muxer::behind_first(m.headers(n - 1)),
            m.streams[x].index,
        );
    }
}

proof fn lemma_released_start(m: MuxView, n: int, k: u32)
    requires
        at_page_start(m, k),
    ensures
        at_page_start(m.released(n), k),
    decreases n,
{
    if n > 0 {
        lemma_released_start(m, n - 1, k);
        let mid = m.released(n - 1);
        let j = m.streams[n - 1].index;
        lemma_writers(mid, j, mid.writers[j].released());
    }
}

proof fn lemma_described_writers(m: MuxView, packets: Seq<Seq<u8>>)
    ensures
        m.described_all(packets).writers == m.writers,
    decreases packets.len(),
{
    if packets.len() > 0 {
        lemma_described_writers(m, packets.drop_last());
    }
}

proof fn lemma_reserved_writers(m: MuxView, n: int)
    ensures
        m.reserved(n).writers == m.writers,
    decreases n,
{
    if n > 0 {
        lemma_reserved_writers(m, n - 1);
    }
}

/// Behind the headers, a stream with as many header packets as its codec is at
/// the start of a page.
pub proof fn lemma_headed_start(m: MuxView, x: int)
    requires
        mux_laws::distinct_streams(m.streams),
        mux_laws::untouched(m, 0),
        0 <= x < m.streams.len(),
        headers_counted(m.streams[x]),
    ensures
        at_page_start(m.headed(), m.streams[x].index),
{
    let n = m.streams.len() as int;
    let k = m.streams[x].index;
    assert(m.writers[k] == StreamView::fresh(
        m.writers[k].serial,
        codec_id::header_count(m.streams[x].params.codec),
    ));
    lemma_opened_start(m, n, x);
    let mid = m.opened(n);
    assert(mid.headers(x) == m.headers(x));
    lemma_continued_start(mid, n, x);
}

/// A Skeleton leaves the streams at the start of a page.
pub proof fn lemma_skeleton_start(m: MuxView, k: u32)
    requires
        at_page_start(m, k),
    ensures
        at_page_start(m.with_skeleton(), k),
{
    let n = m.streams.len() as int;
    lemma_released_start(m, n, k);
    let r = m.released(n);
    lemma_described_writers(r, r.secondary_packets());
    let d = r.described_all(r.secondary_packets());
    lemma_reserved_writers(d, d.auto.len() as int);
}

} // verus!
