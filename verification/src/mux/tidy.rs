//! The pages of every bitstream in what a muxer writes.
use crate::codec_id;
use crate::framing;
use crate::framing_laws;
use crate::mux::mux_laws;
use crate::mux::muxer;
use crate::mux::muxer::MuxView;
use crate::mux::neat_laws;
use crate::mux::stream_laws;
use crate::mux::stream_writer;
use crate::mux::stream_writer::StreamView;
use crate::page;
use crate::page::{flags, PageView};
use crate::stream;
use crate::stream::PacketView;
use crate::validate_group;
use crate::validate_laws;
use vstd::prelude::*;

verus! {

/// The pages of the stream `k` that have been written.
pub open spec fn own_pages(m: MuxView, k: u32) -> Seq<PageView> {
    mux_laws::of_serial(m.wire.pages, m.writers[k].serial)
}

/// Some stream has the serial `serial`.
pub open spec fn streamed(m: MuxView, serial: u32) -> bool {
    exists|k: u32| #[trigger] m.writers.contains_key(k) && m.writers[k].serial == serial
}

/// The Skeleton has the serial `serial`.
pub open spec fn describing(m: MuxView, serial: u32) -> bool {
    m.skeleton matches Some(o) && o.serial == serial
}

/// Some stream or the Skeleton has the serial `serial`.
pub open spec fn in_use(m: MuxView, serial: u32) -> bool {
    streamed(m, serial) || describing(m, serial)
}

/// How a physical stream begins.
pub struct Front {
    /// The number of its bitstreams.
    pub heads: int,
    /// The pages of the Skeleton.
    pub described: Seq<PageView>,
}

/// Every page that has been written is of one of the streams or of the
/// Skeleton, and the first `front.heads` of them, and no others, begin one.
pub open spec fn headed_by(m: MuxView, front: Front) -> bool {
    &&& 0 <= front.heads <= m.wire.pages.len()
    &&& m.skeleton matches Some(o) ==> mux_laws::of_serial(m.wire.pages, o.serial)
        == front.described
    &&& forall|i: int| 0 <= i < m.wire.pages.len() ==> in_use(m, (#[trigger] m.wire.pages[i]).serial)
    &&& forall|i: int|
        0 <= i < m.wire.pages.len() ==> (#[trigger] validate_group::rank(m.wire.pages, i) == 0
            <==> i < front.heads)
}

/// The pages of a stream are neat; if `timed`, their granule positions rise and
/// do not exceed `last`.
#[verifier::opaque]
pub open spec fn lane_tidy(written: Seq<PageView>, s: StreamView, last: i64, timed: bool) -> bool {
    &&& neat_laws::neat_lane(written, s)
    &&& timed ==> neat_laws::risen(written, s, last)
}

/// Every stream has begun.
pub open spec fn begun_all(m: MuxView) -> bool {
    forall|k: u32| #[trigger] m.writers.contains_key(k) ==> own_pages(m, k).len() > 0
}

/// The pages of every stream are tidy.
pub open spec fn tidy(m: MuxView, heads: Front, g: Map<u32, i64>, timed: bool) -> bool {
    &&& headed_by(m, heads)
    &&& forall|k: u32| #[trigger]
        m.writers.contains_key(k) ==> lane_tidy(own_pages(m, k), m.writers[k], g[k], timed)
}

pub proof fn lemma_rank_prefix(a: Seq<PageView>, b: Seq<PageView>, i: int)
    requires
        0 <= i < a.len(),
    ensures
        validate_group::rank(a + b, i) == validate_group::rank(a, i),
{
    assert((a + b).take(i) =~= a.take(i));
}

/// A bitstream of several pages has one that does not begin it.
pub proof fn lemma_second(pages: Seq<PageView>, serial: u32) -> (i: int)
    requires
        mux_laws::of_serial(pages, serial).len() > 1,
    ensures
        0 <= i < pages.len(),
        validate_group::rank(pages, i) > 0,
    decreases pages.len(),
{
    let front = pages.drop_last();
    if pages.last().serial == serial {
        assert(pages.take(pages.len() - 1) =~= front);
        pages.len() - 1
    } else {
        let i = lemma_second(front, serial);
        assert(front + seq![pages.last()] =~= pages);
        lemma_rank_prefix(front, seq![pages.last()], i);
        i
    }
}

/// Pages of a stream that has begun begin nothing.
pub proof fn lemma_rank_behind(a: Seq<PageView>, b: Seq<PageView>, serial: u32, i: int)
    requires
        a.len() <= i < (a + b).len(),
        forall|l: int| 0 <= l < b.len() ==> (#[trigger] b[l]).serial == serial,
        mux_laws::of_serial(a, serial).len() > 0,
    ensures
        validate_group::rank(a + b, i) > 0,
{
    let part = b.take(i - a.len());
    assert((a + b).take(i) =~= a + part);
    mux_laws::lemma_of_serial_concat(a, part, serial);
    assert((a + b)[i] == b[i - a.len()]);
}

pub proof fn lemma_lane_moved(written: Seq<PageView>, s: StreamView, last: i64, timed: bool)
    requires
        lane_tidy(written, s, last, timed),
    ensures
        lane_tidy(written, s.released(), last, timed),
        lane_tidy(written + stream_laws::pages_in(s.ready), s.emptied(), last, timed),
{
    reveal(lane_tidy);
    neat_laws::law_moved_neat(written, s, last);
}

pub proof fn lemma_lane_written(
    written: Seq<PageView>,
    s: StreamView,
    p: PacketView,
    g: i64,
    timed: bool,
)
    requires
        lane_tidy(written, s, g, timed),
        timed && s.headers == 0 ==> (p.pts matches Some(t) && t >= g),
    ensures
        lane_tidy(
            written,
            s.written(p),
            if s.headers > 0 {
                0i64
            } else {
                p.pts->Some_0
            },
            timed,
        ),
        s.written(p).pending is Some || s.written(p).lacing.len() > 0,
{
    reveal(lane_tidy);
    neat_laws::law_written_neat(written, s, p);
    if timed {
        neat_laws::law_written_risen(written, s, p, g);
    }
}

/// Pages of a stream that has begun begin no other.
pub proof fn lemma_headed_settled(m: MuxView, k: u32, s: StreamView, heads: Front)
    requires
        headed_by(m, heads),
        m.writers.contains_key(k),
        s.serial == m.writers[k].serial,
        s.consistent(),
        own_pages(m, k).len() > 0 || s.ready.len() == 0,
        !describing(m, s.serial),
    ensures
        headed_by(m.settled(k, s), heads),
{
    let after = m.settled(k, s);
    let more = stream_laws::pages_in(s.ready);
    mux_laws::lemma_emitted_pages(m, k, s.ready);
    assert forall|i: int| 0 <= i < more.len() implies (#[trigger] more[i]).serial == s.serial by {
        assert(s.ready[i].page.serial == s.serial);
    }
    let pages = after.wire.pages;
    assert forall|i: int| 0 <= i < pages.len() implies in_use(
        after,
        (#[trigger] pages[i]).serial,
    ) by {
        if i < m.wire.pages.len() {
            assert(in_use(m, m.wire.pages[i].serial));
            if streamed(m, m.wire.pages[i].serial) {
                let j = choose|j: u32| #[trigger]
                    m.writers.contains_key(j) && m.writers[j].serial == m.wire.pages[i].serial;
                assert(after.writers.contains_key(j));
            }
        } else {
            assert(after.writers.contains_key(k));
            assert(pages[i] == more[i - m.wire.pages.len()]);
        }
    }
    if let Some(o) = m.skeleton {
        mux_laws::lemma_of_serial_concat(m.wire.pages, more, o.serial);
        mux_laws::lemma_of_serial_alike(more, s.serial, o.serial);
        assert(mux_laws::of_serial(pages, o.serial) =~= heads.described);
    }
    assert forall|i: int| 0 <= i < pages.len() implies (#[trigger] validate_group::rank(pages, i)
        == 0 <==> i < heads.heads) by {
        if i < m.wire.pages.len() {
            lemma_rank_prefix(m.wire.pages, more, i);
            assert(validate_group::rank(m.wire.pages, i) == 0 <==> i < heads.heads);
        } else {
            lemma_rank_behind(m.wire.pages, more, s.serial, i);
        }
    }
}

/// A stream that has come to a new state leaves the others tidy.
pub proof fn lemma_tidy_settled(
    m: MuxView,
    content: Map<u32, Seq<Seq<u8>>>,
    k: u32,
    s: StreamView,
    heads: Front,
    g: Map<u32, i64>,
    last: i64,
    timed: bool,
)
    requires
        mux_laws::faithful(m, content),
        tidy(m, heads, g, timed),
        m.writers.contains_key(k),
        s.serial == m.writers[k].serial,
        s.consistent(),
        lane_tidy(own_pages(m, k), s, last, timed),
        own_pages(m, k).len() > 0 || s.ready.len() == 0,
    ensures
        tidy(m.settled(k, s), heads, g.insert(k, last), timed),
        m.settled(k, s).writers == m.writers.insert(k, s.emptied()),
        m.settled(k, s).streams == m.streams,
        begun_all(m) ==> begun_all(m.settled(k, s)),
{
    let after = m.settled(k, s);
    let more = stream_laws::pages_in(s.ready);
    let now = g.insert(k, last);
    mux_laws::lemma_emitted_pages(m, k, s.ready);
    assert(after.wire.pages == m.wire.pages + more);
    assert forall|i: int| 0 <= i < more.len() implies (#[trigger] more[i]).serial == s.serial by {
        assert(s.ready[i].page.serial == s.serial);
    }
    assert forall|j: u32| #[trigger] after.writers.contains_key(j) implies lane_tidy(
        own_pages(after, j),
        after.writers[j],
        now[j],
        timed,
    ) by {
        assert(m.writers.contains_key(j));
        let t = m.writers[j];
        mux_laws::lemma_of_serial_concat(m.wire.pages, more, t.serial);
        mux_laws::lemma_of_serial_alike(more, s.serial, t.serial);
        if j == k {
            lemma_lane_moved(own_pages(m, k), s, last, timed);
        } else {
            assert(t.serial != s.serial) by {
                assert(m.writers.contains_key(k));
            }
            assert(own_pages(after, j) =~= own_pages(m, j));
        }
    }
    if begun_all(m) {
        assert forall|j: u32| #[trigger] after.writers.contains_key(j) implies own_pages(
            after,
            j,
        ).len() > 0 by {
            assert(m.writers.contains_key(j));
            mux_laws::lemma_of_serial_concat(m.wire.pages, more, m.writers[j].serial);
        }
    }
    lemma_headed_settled(m, k, s, heads);
}

/// A packet of a stream that has begun keeps everything tidy, and something of
/// its stream is held back.
pub proof fn lemma_tidy_packet(
    m: MuxView,
    content: Map<u32, Seq<Seq<u8>>>,
    p: PacketView,
    heads: Front,
    g: Map<u32, i64>,
    timed: bool,
)
    requires
        mux_laws::faithful(m, content),
        tidy(m, heads, g, timed),
        begun_all(m),
        m.writers.contains_key(p.stream_index),
        timed && m.writers[p.stream_index].headers == 0 ==> (p.pts matches Some(t) && t
            >= g[p.stream_index]),
    ensures
        ({
            let k = p.stream_index;
            let s = m.writers[k];
            let last = if s.headers > 0 {
                0i64
            } else {
                p.pts->Some_0
            };
            &&& tidy(m.packet(p), heads, g.insert(k, last), timed)
            &&& m.packet(p).writers == m.writers.insert(k, s.written(p).emptied())
            &&& m.packet(p).streams == m.streams
            &&& begun_all(m.packet(p))
            &&& held_back(m.packet(p), k)
        }),
{
    let k = p.stream_index;
    let s = m.writers[k];
    let last = if s.headers > 0 {
        0i64
    } else {
        p.pts->Some_0
    };
    assert(mux_laws::lane_holds(m, content, k));
    lemma_lane_written(own_pages(m, k), s, p, g[k], timed);
    stream_laws::lemma_written_consistent(s, p);
    lemma_written_serial(s, p);
    lemma_tidy_settled(m, content, k, s.written(p), heads, g, last, timed);
    let settled = m.settled(k, s.written(p));
    let after = m.packet(p);
    lemma_same_lanes(settled, after, heads, g.insert(k, last), timed);
    assert forall|j: u32| #[trigger] after.writers.contains_key(j) implies own_pages(
        after,
        j,
    ).len() > 0 by {
        assert(settled.writers.contains_key(j));
        assert(own_pages(settled, j) == own_pages(after, j));
    }
}

/// Only the streams and their pages matter.
pub proof fn lemma_same_lanes(
    m: MuxView,
    after: MuxView,
    heads: Front,
    g: Map<u32, i64>,
    timed: bool,
)
    requires
        tidy(m, heads, g, timed),
        after.wire == m.wire,
        after.writers == m.writers,
        after.skeleton == m.skeleton,
    ensures
        tidy(after, heads, g, timed),
{
    assert forall|j: u32| #[trigger] after.writers.contains_key(j) implies lane_tidy(
        own_pages(after, j),
        after.writers[j],
        g[j],
        timed,
    ) by {
        assert(m.writers.contains_key(j));
    }
    assert forall|i: int| 0 <= i < after.wire.pages.len() implies in_use(
        after,
        (#[trigger] after.wire.pages[i]).serial,
    ) by {
        assert(in_use(m, m.wire.pages[i].serial));
        if streamed(m, m.wire.pages[i].serial) {
            let j = choose|j: u32| #[trigger]
                m.writers.contains_key(j) && m.writers[j].serial == m.wire.pages[i].serial;
            assert(after.writers.contains_key(j));
        }
    }
}

/// Something of the stream `k` has not been written.
pub open spec fn held_back(m: MuxView, k: u32) -> bool {
    m.writers[k].pending is Some || m.writers[k].lacing.len() > 0
}

pub proof fn lemma_spread_serial(s: StreamView, packet: Seq<u8>)
    ensures
        s.spread(packet).serial == s.serial,
    decreases packet.len(),
{
    if packet.len() >= 65025 {
        let full = s.with_segments(Seq::new(255, |i: int| 255u8), packet.take(65025));
        lemma_spread_serial(full.flushed(), packet.skip(65025));
    }
}

pub proof fn lemma_written_serial(s: StreamView, p: PacketView)
    ensures
        s.written(p).serial == s.serial,
{
    let room = s.with_room(p.data);
    lemma_spread_serial(room, p.data);
    lemma_spread_serial(room.marked(p), p.data);
}

pub proof fn lemma_spread_headers(s: StreamView, packet: Seq<u8>)
    ensures
        s.spread(packet).headers == s.headers,
    decreases packet.len(),
{
    if packet.len() >= 65025 {
        let full = s.with_segments(Seq::new(255, |i: int| 255u8), packet.take(65025));
        lemma_spread_headers(full.flushed(), packet.skip(65025));
    }
}

/// Each packet is a header packet as long as header packets are to come.
pub proof fn lemma_written_headers(s: StreamView, p: PacketView)
    ensures
        s.written(p).headers == (if s.headers > 0 {
            s.headers - 1
        } else {
            0
        }),
{
    let room = s.with_room(p.data);
    lemma_spread_headers(room, p.data);
    lemma_spread_headers(room.marked(p), p.data);
}

/// No granule position but 0.
pub open spec fn zeros() -> Map<u32, i64> {
    Map::new(|k: u32| true, |k: u32| 0i64)
}

/// Every writer is that of a stream.
pub open spec fn only_streams(m: MuxView) -> bool {
    forall|k: u32| #[trigger]
        m.writers.contains_key(k) ==> exists|i: int|
            0 <= i < m.streams.len() && (#[trigger] m.streams[i]).index == k
}

/// Every one of the first `n` streams is opened with a page.
pub open spec fn all_open(m: MuxView, n: int) -> bool {
    forall|i: int|
        0 <= i < n ==> (#[trigger] m.headers(i)).len() > 0 && codec_id::header_count(
            m.streams[i].params.codec,
        ) > 0
}

pub proof fn lemma_tidy_fresh(m: MuxView, front: Front, timed: bool)
    requires
        mux_laws::untouched(m, 0),
        only_streams(m),
        headed_by(m, front),
    ensures
        tidy(m, front, zeros(), timed),
{
    assert forall|k: u32| #[trigger] m.writers.contains_key(k) implies lane_tidy(
        own_pages(m, k),
        m.writers[k],
        zeros()[k],
        timed,
    ) by {
        let i = choose|i: int| 0 <= i < m.streams.len() && (#[trigger] m.streams[i]).index == k;
        let s = m.writers[m.streams[i].index];
        reveal(lane_tidy);
        neat_laws::law_begun_neat(s.serial, s.headers, Seq::empty());
        assert(own_pages(m, k) =~= Seq::<PageView>::empty());
    }
}

/// Opening the streams writes one page for each, which begins it.
pub proof fn lemma_tidy_opened(
    m: MuxView,
    content: Map<u32, Seq<Seq<u8>>>,
    n: int,
    front: Front,
    timed: bool,
)
    requires
        mux_laws::faithful(m, content),
        mux_laws::all_there(m),
        mux_laws::untouched(m, 0),
        m.headers_fit(),
        mux_laws::distinct_streams(m.streams),
        mux_laws::content_is(m, content, 0, |i: int| Seq::empty()),
        only_streams(m),
        headed_by(m, front),
        m.wire.pages.len() == front.heads,
        0 <= n <= m.streams.len(),
        all_open(m, n),
    ensures
        ({
            let after = m.opened(n);
            &&& tidy(after, Front { heads: front.heads + n, ..front }, zeros(), timed)
            &&& after.wire.pages.len() == front.heads + n
            &&& after.streams == m.streams
            &&& forall|i: int|
                0 <= i < n ==> {
                    let k = (#[trigger] m.streams[i]).index;
                    &&& own_pages(after, k).len() > 0
                    &&& after.writers[k].headers == codec_id::header_count(
                        m.streams[i].params.codec,
                    ) - 1
                }
        }),
    decreases n,
{
    if n <= 0 {
        lemma_tidy_fresh(m, front, timed);
    } else {
        lemma_tidy_opened(m, content, n - 1, front, timed);
        let before = mux_laws::lemma_opened(m, content, n - 1);
        let mid = m.opened(n - 1);
        let stream = m.streams[n - 1];
        let k = stream.index;
        let s = mid.writers[k];
        let q = m.headers(n - 1);
        assert(mid.streams[n - 1] == stream);
        assert(mid.writers.contains_key(k));
        let t = s.opened(q[0]);
        let after = m.opened(n);
        assert(after == mid.settled(k, t));
        mux_laws::lemma_emitted_pages(mid, k, t.ready);
        let first = stream_writer::opening_page(s.serial, 0, q[0]);
        assert(stream_laws::pages_in(t.ready) =~= seq![first]);
        let pages = after.wire.pages;
        assert(pages =~= mid.wire.pages.push(first));
        let none = Seq::<PageView>::empty();
        assert(own_pages(mid, k) =~= none);
        assert forall|j: u32| #[trigger] after.writers.contains_key(j) implies lane_tidy(
            own_pages(after, j),
            after.writers[j],
            zeros()[j],
            timed,
        ) by {
            assert(mid.writers.contains_key(j));
            let u = mid.writers[j];
            mux_laws::lemma_of_serial_concat(mid.wire.pages, seq![first], u.serial);
            mux_laws::lemma_of_serial_alike(seq![first], s.serial, u.serial);
            assert(mid.wire.pages + seq![first] =~= pages);
            if j == k {
                assert(lane_tidy(none, t, 0, timed)) by {
                    reveal(lane_tidy);
                    neat_laws::law_begun_neat(s.serial, s.headers, q[0]);
                }
                lemma_lane_moved(none, t, 0, timed);
                assert(none + seq![first] =~= seq![first]);
            } else {
                assert(u.serial != s.serial) by {
                    assert(mid.writers.contains_key(k));
                }
                assert(own_pages(after, j) =~= own_pages(mid, j));
            }
        }
        assert forall|i: int| 0 <= i < pages.len() implies in_use(
            after,
            (#[trigger] pages[i]).serial,
        ) by {
            if i < mid.wire.pages.len() {
                assert(in_use(mid, mid.wire.pages[i].serial));
                if streamed(mid, mid.wire.pages[i].serial) {
                    let j = choose|j: u32| #[trigger]
                        mid.writers.contains_key(j) && mid.writers[j].serial
                            == mid.wire.pages[i].serial;
                    assert(after.writers.contains_key(j));
                }
            } else {
                assert(after.writers.contains_key(k));
            }
        }
        if let Some(o) = mid.skeleton {
            assert(mid.wire.pages + seq![first] =~= pages);
            mux_laws::lemma_of_serial_concat(mid.wire.pages, seq![first], o.serial);
            mux_laws::lemma_of_serial_alike(seq![first], s.serial, o.serial);
            assert(mux_laws::of_serial(pages, o.serial) =~= front.described);
        }
        assert forall|i: int| 0 <= i < pages.len() implies (#[trigger] validate_group::rank(
            pages,
            i,
        ) == 0 <==> i < front.heads + n) by {
            assert(mid.wire.pages + seq![first] =~= pages);
            if i < mid.wire.pages.len() {
                lemma_rank_prefix(mid.wire.pages, seq![first], i);
                assert(validate_group::rank(mid.wire.pages, i) == 0 <==> i < front.heads + n - 1);
            } else {
                assert(pages.take(i) =~= mid.wire.pages);
            }
        }
        assert forall|i: int| 0 <= i < n implies ({
            let j = (#[trigger] m.streams[i]).index;
            &&& own_pages(after, j).len() > 0
            &&& after.writers[j].headers == codec_id::header_count(m.streams[i].params.codec) - 1
        }) by {
            let j = m.streams[i].index;
            mux_laws::lemma_of_serial_concat(
                mid.wire.pages,
                seq![first],
                mid.writers[j].serial,
            );
            mux_laws::lemma_of_serial_alike(seq![first], s.serial, mid.writers[j].serial);
            assert(mid.wire.pages + seq![first] =~= pages);
            if i < n - 1 {
                assert(m.streams[i].index != m.streams[n - 1].index);
            }
        }
    }
}

/// Without regard to time it does not matter how far the granule positions go.
pub proof fn lemma_untimed(m: MuxView, heads: Front, g: Map<u32, i64>)
    requires
        tidy(m, heads, g, false),
    ensures
        tidy(m, heads, zeros(), false),
{
    reveal(lane_tidy);
}

pub proof fn lemma_tidy_more(
    m: MuxView,
    content: Map<u32, Seq<Seq<u8>>>,
    k: u32,
    packets: Seq<Seq<u8>>,
    heads: Front,
    timed: bool,
)
    requires
        mux_laws::faithful(m, content),
        tidy(m, heads, zeros(), timed),
        begun_all(m),
        m.writers.contains_key(k),
        timed ==> packets.len() <= m.writers[k].headers,
    ensures
        ({
            let after = m.more_headers(k, packets);
            &&& tidy(after, heads, zeros(), timed)
            &&& begun_all(after)
            &&& after.streams == m.streams
            &&& timed ==> after.writers[k].headers == m.writers[k].headers - packets.len()
            &&& packets.len() > 0 ==> held_back(after, k)
            &&& forall|j: u32|
                j != k && #[trigger] m.writers.contains_key(j) ==> after.writers[j]
                    == m.writers[j]
        }),
    decreases packets.len(),
{
    if packets.len() > 0 {
        let front = packets.drop_last();
        lemma_tidy_more(m, content, k, front, heads, timed);
        mux_laws::lemma_more_headers(m, content, k, front);
        let mid = m.more_headers(k, front);
        let p = stream::bare_packet(k, packets.last());
        assert(mid.writers.contains_key(k));
        lemma_tidy_packet(mid, content.insert(k, content[k] + front), p, heads, zeros(), timed);
        lemma_written_headers(mid.writers[k], p);
        if timed {
            assert(zeros().insert(k, 0i64) =~= zeros());
        } else {
            lemma_untimed(
                m.more_headers(k, packets),
                heads,
                zeros().insert(
                    k,
                    if mid.writers[k].headers > 0 {
                        0i64
                    } else {
                        p.pts->Some_0
                    },
                ),
            );
        }
        assert forall|j: u32| j != k && #[trigger] m.writers.contains_key(j) implies m.more_headers(
            k,
            packets,
        ).writers[j] == m.writers[j] by {
            assert(mid.writers.contains_key(j));
        }
    }
}

/// The header packets behind the first leave everything tidy.
pub proof fn lemma_tidy_continued(
    m: MuxView,
    content: Map<u32, Seq<Seq<u8>>>,
    n: int,
    heads: Front,
    timed: bool,
)
    requires
        mux_laws::faithful(m, content),
        mux_laws::all_there(m),
        mux_laws::distinct_streams(m.streams),
        tidy(m, heads, zeros(), timed),
        begun_all(m),
        0 <= n <= m.streams.len(),
        timed ==> forall|i: int|
            0 <= i < m.streams.len() ==> muxer::behind_first(#[trigger] m.headers(i)).len()
                <= m.writers[m.streams[i].index].headers,
    ensures
        ({
            let after = m.continued(n);
            &&& tidy(after, heads, zeros(), timed)
            &&& begun_all(after)
            &&& after.streams == m.streams
            &&& forall|i: int|
                0 <= i < n && (#[trigger] m.headers(i)).len() > 1 ==> held_back(
                    after,
                    m.streams[i].index,
                )
            &&& forall|i: int|
                n <= i < m.streams.len() ==> after.writers[(#[trigger] m.streams[i]).index]
                    == m.writers[m.streams[i].index]
        }),
    decreases n,
{
    if n > 0 {
        lemma_tidy_continued(m, content, n - 1, heads, timed);
        let what = |i: int| content[m.streams[i].index];
        let before = mux_laws::lemma_continued(m, content, n - 1, what);
        let mid = m.continued(n - 1);
        let k = m.streams[n - 1].index;
        let rest = muxer::behind_first(m.headers(n - 1));
        assert(m.writers.contains_key(k));
        assert(mid.writers.contains_key(k));
        assert(mid.writers[m.streams[n - 1].index] == m.writers[k]);
        lemma_tidy_more(mid, before, k, rest, heads, timed);
        let after = m.continued(n);
        assert forall|i: int| 0 <= i < n && (
        #[trigger] m.headers(i)).len() > 1 implies held_back(after, m.streams[i].index) by {
            if i < n - 1 {
                assert(m.streams[i].index != m.streams[n - 1].index);
                assert(m.writers.contains_key(m.streams[i].index));
                assert(mid.writers.contains_key(m.streams[i].index));
            }
        }
        assert forall|i: int| n <= i < m.streams.len() implies after.writers[(
        #[trigger] m.streams[i]).index] == m.writers[m.streams[i].index] by {
            assert(m.streams[n - 1].index != m.streams[i].index);
            assert(m.writers.contains_key(m.streams[i].index));
            assert(mid.writers.contains_key(m.streams[i].index));
        }
    }
}

/// Packets bear timestamps that are not negative and that never fall within
/// their stream.
pub open spec fn timely(packets: Seq<PacketView>) -> bool {
    &&& forall|a: int|
        0 <= a < packets.len() ==> ((#[trigger] packets[a]).pts matches Some(t) && t >= 0)
    &&& forall|a: int, b: int|
        0 <= a < b < packets.len() && (#[trigger] packets[a]).stream_index == (
        #[trigger] packets[b]).stream_index ==> packets[a].pts->Some_0 <= packets[b].pts->Some_0
}

/// How far the granule positions of the stream `k` go at most behind packets.
pub open spec fn reached(packets: Seq<PacketView>, g: Map<u32, i64>) -> bool {
    forall|k: u32|
        #[trigger] g[k] == 0 || exists|a: int|
            0 <= a < packets.len() && (#[trigger] packets[a]).stream_index == k
                && packets[a].pts == Some(g[k])
}

/// Packets leave everything tidy.
pub proof fn lemma_tidy_run(
    m: MuxView,
    content: Map<u32, Seq<Seq<u8>>>,
    packets: Seq<PacketView>,
    heads: Front,
    timed: bool,
) -> (g: Map<u32, i64>)
    requires
        mux_laws::faithful(m, content),
        tidy(m, heads, zeros(), timed),
        begun_all(m),
        timed ==> timely(packets),
        forall|i: int|
            0 <= i < packets.len() ==> m.writers.contains_key(
                (#[trigger] packets[i]).stream_index,
            ),
    ensures
        tidy(mux_laws::run(m, packets), heads, g, timed),
        begun_all(mux_laws::run(m, packets)),
        timed ==> reached(packets, g),
        mux_laws::run(m, packets).streams == m.streams,
        forall|k: u32| #[trigger]
            m.writers.contains_key(k) && (held_back(m, k) || mux_laws::sent_to(packets, k).len()
                > 0) ==> held_back(mux_laws::run(m, packets), k),
    decreases packets.len(),
{
    if packets.len() == 0 {
        zeros()
    } else {
        let front = packets.drop_last();
        let p = packets.last();
        let k = p.stream_index;
        assert forall|i: int| 0 <= i < front.len() implies m.writers.contains_key(
            (#[trigger] front[i]).stream_index,
        ) by {
            assert(packets[i] == front[i]);
        }
        if timed {
            assert(timely(front)) by {
                assert forall|a: int| 0 <= a < front.len() implies ((
                #[trigger] front[a]).pts matches Some(t) && t >= 0) by {
                    assert(packets[a] == front[a]);
                }
                assert forall|a: int, b: int|
                    0 <= a < b < front.len() && (#[trigger] front[a]).stream_index == (
                    #[trigger] front[b]).stream_index implies front[a].pts->Some_0
                    <= front[b].pts->Some_0 by {
                    assert(packets[a] == front[a] && packets[b] == front[b]);
                }
            }
        }
        let g = lemma_tidy_run(m, content, front, heads, timed);
        let between = mux_laws::lemma_run(m, content, front);
        let mid = mux_laws::run(m, front);
        assert(m.writers.contains_key(packets[packets.len() - 1].stream_index));
        assert(mid.writers.contains_key(k));
        if timed {
            let n = packets.len() - 1;
            assert(packets[n].pts is Some);
            assert(g[k] == 0 || exists|a: int|
                0 <= a < front.len() && (#[trigger] front[a]).stream_index == k && front[a].pts
                    == Some(g[k]));
            if g[k] != 0 {
                let a = choose|a: int|
                    0 <= a < front.len() && (#[trigger] front[a]).stream_index == k
                        && front[a].pts == Some(g[k]);
                assert(packets[a] == front[a]);
                assert(packets[a].stream_index == packets[n].stream_index);
            }
        }
        lemma_tidy_packet(mid, between, p, heads, g, timed);
        let last = if mid.writers[k].headers > 0 {
            0i64
        } else {
            p.pts->Some_0
        };
        let now = g.insert(k, last);
        if timed {
            assert forall|j: u32|
                #[trigger] now[j] == 0 || exists|a: int|
                    0 <= a < packets.len() && (#[trigger] packets[a]).stream_index == j
                        && packets[a].pts == Some(now[j]) by {
                if j == k {
                    assert(packets[packets.len() - 1].stream_index == k);
                } else {
                    assert(now[j] == g[j]);
                    if g[j] != 0 {
                        let a = choose|a: int|
                            0 <= a < front.len() && (#[trigger] front[a]).stream_index == j
                                && front[a].pts == Some(g[j]);
                        assert(packets[a] == front[a]);
                    }
                }
            }
        }
        let after = mux_laws::run(m, packets);
        assert forall|j: u32| #[trigger]
            m.writers.contains_key(j) && (held_back(m, j) || mux_laws::sent_to(packets, j).len()
                > 0) implies held_back(after, j) by {
            if j != k {
                assert(mux_laws::sent_to(packets, j) == mux_laws::sent_to(front, j));
                assert(held_back(mid, j));
            }
        }
        now
    }
}

/// The pages are those of a closed stream.
#[verifier::opaque]
pub open spec fn all_of_lane(own: Seq<PageView>, serial: u32, timed: bool) -> bool {
    &&& own.len() > 1
    &&& neat_laws::neat(own, serial, true)
    &&& !page::ends_open(own.last().lacing)
    &&& timed ==> validate_laws::granules_rise(own)
}

/// The stream `k` is closed.
pub open spec fn closed_lane(m: MuxView, k: u32, timed: bool) -> bool {
    all_of_lane(own_pages(m, k), m.writers[k].serial, timed)
}

/// Closing the streams leaves each of them closed.
#[verifier::spinoff_prover]
pub proof fn lemma_tidy_closed(
    m: MuxView,
    content: Map<u32, Seq<Seq<u8>>>,
    n: int,
    heads: Front,
    g: Map<u32, i64>,
    timed: bool,
)
    requires
        mux_laws::faithful(m, content),
        mux_laws::all_there(m),
        mux_laws::distinct_streams(m.streams),
        tidy(m, heads, g, timed),
        begun_all(m),
        0 <= n <= m.streams.len(),
        forall|i: int|
            0 <= i < m.streams.len() ==> held_back(m, (#[trigger] m.streams[i]).index),
    ensures
        ({
            let after = m.closed_off(n);
            &&& headed_by(after, heads)
            &&& after.streams == m.streams
            &&& after.writers.dom() == m.writers.dom()
            &&& forall|i: int|
                0 <= i < n ==> closed_lane(after, (#[trigger] m.streams[i]).index, timed)
            &&& forall|i: int|
                n <= i < m.streams.len() ==> {
                    let k = (#[trigger] m.streams[i]).index;
                    &&& after.writers[k] == m.writers[k]
                    &&& own_pages(after, k) == own_pages(m, k)
                }
        }),
    decreases n,
{
    if n > 0 {
        lemma_tidy_closed(m, content, n - 1, heads, g, timed);
        mux_laws::lemma_closed_off(m, content, n - 1);
        let mid = m.closed_off(n - 1);
        let k = m.streams[n - 1].index;
        assert(m.writers.contains_key(k));
        assert(mid.writers.contains_key(k));
        assert(mux_laws::lane_holds(mid, content, k));
        let s = mid.writers[k];
        assert(s == m.writers[m.streams[n - 1].index]);
        assert(own_pages(mid, k) == own_pages(m, m.streams[n - 1].index));
        stream_laws::lemma_closed_consistent(s);
        let c = s.closed_off();
        assert(lane_tidy(own_pages(m, k), m.writers[k], g[k], timed));
        assert(held_back(m, m.streams[n - 1].index));
        assert(own_pages(m, k).len() > 0);
        lemma_lane_closed(own_pages(mid, k), s, g[k], timed);
        lemma_headed_settled(mid, k, c, heads);
        let after = m.closed_off(n);
        let more = stream_laws::pages_in(c.ready);
        mux_laws::lemma_emitted_pages(mid, k, c.ready);
        assert forall|i: int| 0 <= i < more.len() implies (#[trigger] more[i]).serial
            == s.serial by {
            assert(c.ready[i].page.serial == c.serial);
        }
        assert forall|i: int| 0 <= i < m.streams.len() implies ({
            let j = (#[trigger] m.streams[i]).index;
            &&& j != k ==> own_pages(after, j) == own_pages(mid, j)
            &&& j == k ==> own_pages(after, j) == own_pages(mid, j) + more
        }) by {
            let j = m.streams[i].index;
            assert(m.writers.contains_key(j));
            assert(mid.writers.contains_key(j));
            mux_laws::lemma_of_serial_concat(mid.wire.pages, more, mid.writers[j].serial);
            mux_laws::lemma_of_serial_alike(more, s.serial, mid.writers[j].serial);
            if j != k {
                assert(mid.writers[j].serial != s.serial) by {
                    assert(mid.writers.contains_key(k));
                }
                assert(own_pages(after, j) =~= own_pages(mid, j));
            }
        }
        assert forall|i: int| 0 <= i < n implies closed_lane(
            after,
            (#[trigger] m.streams[i]).index,
            timed,
        ) by {
            let j = m.streams[i].index;
            if i < n - 1 {
                assert(m.streams[i].index != m.streams[n - 1].index);
                assert(closed_lane(mid, j, timed));
            }
        }
        assert forall|i: int| n <= i < m.streams.len() implies ({
            let j = (#[trigger] m.streams[i]).index;
            &&& after.writers[j] == m.writers[j]
            &&& own_pages(after, j) == own_pages(m, j)
        }) by {
            assert(m.streams[n - 1].index != m.streams[i].index);
        }
        assert(after.writers.dom() =~= m.writers.dom());
    }
}

pub proof fn lemma_lane_closed(written: Seq<PageView>, s: StreamView, g: i64, timed: bool)
    requires
        written.len() > 0,
        lane_tidy(written, s, g, timed),
        stream_laws::at_rest(s),
        s.lacing.len() > 0 || s.pending is Some,
    ensures
        ({
            let pages = written + stream_laws::pages_in(s.closed_off().ready);
            all_of_lane(pages, s.serial, timed)
        }),
{
    reveal(lane_tidy);
    reveal(all_of_lane);
    assert(s.closed_off().ready.len() > 0);
    neat_laws::law_closed_neat(written, s, g);
}

/// Neat pages with rising granule positions are one bitstream.
pub proof fn lemma_one_stream(pages: Seq<PageView>, serial: u32)
    requires
        0 < pages.len() <= u32::MAX,
        neat_laws::neat(pages, serial, true),
        forall|i: int| 0 <= i < pages.len() ==> (#[trigger] pages[i]).wf(),
        !page::ends_open(pages.last().lacing),
        validate_laws::granules_rise(pages),
    ensures
        validate_laws::one_stream(serial, pages),
{
    assert forall|i: int| 0 <= i < pages.len() implies #[trigger] framing_laws::well_placed(
        serial,
        pages,
        i,
        true,
    ) by {
        neat_laws::lemma_numbers(pages, serial, true, i);
        assert(pages[i].wf());
    }
}

pub proof fn lemma_of_serial_len(pages: Seq<PageView>, serial: u32)
    ensures
        mux_laws::of_serial(pages, serial).len() <= pages.len(),
    decreases pages.len(),
{
    if pages.len() > 0 {
        lemma_of_serial_len(pages.drop_last(), serial);
    }
}

/// Releasing held-back pages keeps everything tidy.
pub proof fn lemma_tidy_released(
    m: MuxView,
    content: Map<u32, Seq<Seq<u8>>>,
    n: int,
    heads: Front,
    timed: bool,
)
    requires
        mux_laws::faithful(m, content),
        mux_laws::all_there(m),
        tidy(m, heads, zeros(), timed),
        begun_all(m),
        0 <= n <= m.streams.len(),
    ensures
        tidy(m.released(n), heads, zeros(), timed),
        begun_all(m.released(n)),
    decreases n,
{
    if n > 0 {
        lemma_tidy_released(m, content, n - 1, heads, timed);
        mux_laws::lemma_released(m, content, n - 1);
        let mid = m.released(n - 1);
        let k = m.streams[n - 1].index;
        assert(mid.streams[n - 1].index == k);
        assert(mid.writers.contains_key(k));
        assert(mux_laws::lane_holds(mid, content, k));
        let s = mid.writers[k];
        stream_laws::lemma_closed_consistent(s);
        lemma_lane_moved(own_pages(mid, k), s, 0, timed);
        lemma_tidy_settled(mid, content, k, s.released(), heads, zeros(), 0, timed);
        assert(zeros().insert(k, 0) =~= zeros());
    }
}

/// The pages of a Skeleton, one packet on each.
#[verifier::opaque]
pub open spec fn described_lane(own: Seq<PageView>, serial: u32, seq_no: u32, closed: bool) -> bool {
    &&& own.len() > 0
    &&& neat_laws::neat(own, serial, closed)
    &&& seq_no == stream_writer::successor(own.last().seq_no)
    &&& forall|i: int|
        0 <= i < own.len() ==> (#[trigger] own[i]).granule_position == 0 && !page::ends_open(
            own[i].lacing,
        )
}

/// The Skeleton so far.
pub open spec fn described_so_far(m: MuxView, front: Front, closed: bool) -> bool {
    m.skeleton matches Some(o) && described_lane(front.described, o.serial, o.seq_no, closed)
}

pub proof fn lemma_lane_described(
    own: Seq<PageView>,
    serial: u32,
    seq_no: u32,
    packet: Seq<u8>,
    last: bool,
)
    requires
        described_lane(own, serial, seq_no, false),
    ensures
        ({
            let marks = if last {
                flags::LAST_PAGE
            } else {
                0u8
            };
            described_lane(
                own.push(muxer::skeleton_page(serial, seq_no, marks, packet)),
                serial,
                stream_writer::successor(seq_no),
                last,
            )
        }),
{
    reveal(described_lane);
    let marks = if last {
        flags::LAST_PAGE
    } else {
        0u8
    };
    let p = muxer::skeleton_page(serial, seq_no, marks, packet);
    let pages = own.push(p);
    page::law_laced(packet.len());
    assert forall|i: int| 0 <= i < pages.len() implies ({
        let q = #[trigger] pages[i];
        &&& q.serial == serial
        &&& q.flags == framing::page_flags(
            i > 0 && page::ends_open(pages[i - 1].lacing),
            i == 0,
            last && i == pages.len() - 1,
        )
        &&& q.lacing.len() > 0
        &&& page::packets_ended(q.lacing) == 0 ==> q.granule_position == -1
    }) by {
        if i < own.len() {
            assert(pages[i] == own[i]);
        }
        if i > 0 {
            assert(pages[i - 1] == own[i - 1]);
        }
    }
    assert forall|i: int| 0 < i < pages.len() implies (#[trigger] pages[i]).seq_no
        == stream_writer::successor(pages[i - 1].seq_no) by {
        if i < own.len() {
            assert(pages[i] == own[i]);
        }
        assert(pages[i - 1] == own[i - 1]);
    }
}

/// A page of a Skeleton that has begun keeps everything tidy.
pub proof fn lemma_tidy_described(
    m: MuxView,
    content: Map<u32, Seq<Seq<u8>>>,
    packet: Seq<u8>,
    last: bool,
    heads: Front,
    timed: bool,
) -> (next: Front)
    requires
        mux_laws::faithful(m, content),
        tidy(m, heads, zeros(), timed),
        begun_all(m),
        described_so_far(m, heads, false),
    ensures
        ({
            let marks = if last {
                flags::LAST_PAGE
            } else {
                0u8
            };
            let after = m.described(packet, marks);
            &&& tidy(after, next, zeros(), timed)
            &&& begun_all(after)
            &&& described_so_far(after, next, last)
        }),
        next.heads == heads.heads,
{
    let marks = if last {
        flags::LAST_PAGE
    } else {
        0u8
    };
    let o = m.skeleton->Some_0;
    let p = muxer::skeleton_page(o.serial, o.seq_no, marks, packet);
    let next = Front { described: heads.described.push(p), ..heads };
    let after = m.described(packet, marks);
    let pages = after.wire.pages;
    lemma_lane_described(heads.described, o.serial, o.seq_no, packet, last);
    assert(heads.described.len() > 0) by {
        reveal(described_lane);
    }
    assert(pages.drop_last() =~= m.wire.pages);
    assert(pages.last() == p);
    assert forall|k: u32| #[trigger] after.writers.contains_key(k) implies lane_tidy(
        own_pages(after, k),
        after.writers[k],
        zeros()[k],
        timed,
    ) && own_pages(after, k).len() > 0 by {
        assert(m.writers.contains_key(k));
        assert(own_pages(after, k) == own_pages(m, k));
    }
    assert(mux_laws::of_serial(pages, o.serial) =~= next.described);
    assert forall|i: int| 0 <= i < pages.len() implies in_use(
        after,
        (#[trigger] pages[i]).serial,
    ) by {
        if i < m.wire.pages.len() {
            assert(pages[i] == m.wire.pages[i]);
            assert(in_use(m, m.wire.pages[i].serial));
            if streamed(m, pages[i].serial) {
                let j = choose|j: u32| #[trigger]
                    m.writers.contains_key(j) && m.writers[j].serial == pages[i].serial;
                assert(after.writers.contains_key(j));
            }
        }
    }
    assert forall|i: int| 0 <= i < pages.len() implies (#[trigger] validate_group::rank(pages, i)
        == 0 <==> i < next.heads) by {
        if i < m.wire.pages.len() {
            assert(m.wire.pages + seq![p] =~= pages);
            lemma_rank_prefix(m.wire.pages, seq![p], i);
            assert(validate_group::rank(m.wire.pages, i) == 0 <==> i < heads.heads);
        } else {
            assert(pages.take(i) =~= m.wire.pages);
        }
    }
    next
}

pub proof fn lemma_tidy_described_all(
    m: MuxView,
    content: Map<u32, Seq<Seq<u8>>>,
    packets: Seq<Seq<u8>>,
    heads: Front,
    timed: bool,
) -> (next: Front)
    requires
        mux_laws::faithful(m, content),
        tidy(m, heads, zeros(), timed),
        begun_all(m),
        described_so_far(m, heads, false),
        forall|i: int|
            0 <= i < packets.len() ==> stream_writer::fits_page(#[trigger] packets[i]),
    ensures
        tidy(m.described_all(packets), next, zeros(), timed),
        begun_all(m.described_all(packets)),
        described_so_far(m.described_all(packets), next, false),
        next.heads == heads.heads,
    decreases packets.len(),
{
    if packets.len() == 0 {
        heads
    } else {
        let front = packets.drop_last();
        assert forall|i: int| 0 <= i < front.len() implies stream_writer::fits_page(
            #[trigger] front[i],
        ) by {
            assert(packets[i] == front[i]);
        }
        let mid = lemma_tidy_described_all(m, content, front, heads, timed);
        mux_laws::lemma_described_all(m, content, front);
        lemma_tidy_described(m.described_all(front), content, packets.last(), false, mid, timed)
    }
}

pub proof fn lemma_tidy_reserved(
    m: MuxView,
    content: Map<u32, Seq<Seq<u8>>>,
    n: int,
    heads: Front,
    timed: bool,
) -> (next: Front)
    requires
        mux_laws::faithful(m, content),
        tidy(m, heads, zeros(), timed),
        begun_all(m),
        described_so_far(m, heads, false),
        0 <= n <= m.auto.len(),
        forall|i: int| 0 <= i < m.auto.len() ==> (#[trigger] m.auto[i]).wf(),
    ensures
        tidy(m.reserved(n), next, zeros(), timed),
        begun_all(m.reserved(n)),
        described_so_far(m.reserved(n), next, false),
        next.heads == heads.heads,
    decreases n,
{
    if n <= 0 {
        heads
    } else {
        let before = lemma_tidy_reserved(m, content, n - 1, heads, timed);
        mux_laws::lemma_reserved(m, content, n - 1);
        let mid = m.reserved(n - 1);
        let packet = mid.auto[n - 1].vacant().packet();
        let next = lemma_tidy_described(mid, content, packet, false, before, timed);
        let d = mid.described(packet, 0);
        let after = m.reserved(n);
        lemma_same_lanes(d, after, next, zeros(), timed);
        assert(begun_all(after)) by {
            assert forall|k: u32| #[trigger] after.writers.contains_key(k) implies own_pages(
                after,
                k,
            ).len() > 0 by {
                assert(d.writers.contains_key(k));
            }
        }
        next
    }
}

/// The rest of a Skeleton keeps everything tidy and closes the Skeleton.
pub proof fn lemma_tidy_skeleton(
    m: MuxView,
    content: Map<u32, Seq<Seq<u8>>>,
    heads: Front,
    timed: bool,
) -> (next: Front)
    requires
        mux_laws::faithful(m, content),
        mux_laws::all_there(m),
        mux_laws::indexes_kept(m),
        tidy(m, heads, zeros(), timed),
        begun_all(m),
        described_so_far(m, heads, false),
        forall|i: int|
            0 <= i < m.secondary_packets().len() ==> stream_writer::fits_page(
                #[trigger] m.secondary_packets()[i],
            ),
    ensures
        tidy(m.with_skeleton(), next, zeros(), timed),
        begun_all(m.with_skeleton()),
        described_so_far(m.with_skeleton(), next, true),
        next.heads == heads.heads,
{
    let n = m.streams.len() as int;
    lemma_tidy_released(m, content, n, heads, timed);
    mux_laws::lemma_released(m, content, n);
    mux_laws::lemma_kept_released(m, n);
    let r = m.released(n);
    assert(r.secondary_packets() =~= m.secondary_packets());
    let packets = r.secondary_packets();
    let f1 = lemma_tidy_described_all(r, content, packets, heads, timed);
    mux_laws::lemma_described_all(r, content, packets);
    let d = r.described_all(packets);
    assert forall|i: int| 0 <= i < d.auto.len() implies (#[trigger] d.auto[i]).wf() by {
        assert(r.auto[i].wf());
    }
    let f2 = lemma_tidy_reserved(d, content, d.auto.len() as int, f1, timed);
    mux_laws::lemma_reserved(d, content, d.auto.len() as int);
    let v = d.reserved(d.auto.len() as int);
    let f3 = lemma_tidy_described(v, content, Seq::empty(), true, f2, timed);
    let e = v.described(Seq::empty(), flags::LAST_PAGE);
    let after = m.with_skeleton();
    assert forall|k: u32| #[trigger] after.writers.contains_key(k) implies lane_tidy(
        own_pages(after, k),
        after.writers[k],
        zeros()[k],
        timed,
    ) && own_pages(after, k).len() > 0 by {
        assert(e.writers.contains_key(k));
        assert(own_pages(after, k) == own_pages(e, k));
    }
    assert forall|i: int| 0 <= i < after.wire.pages.len() implies in_use(
        after,
        (#[trigger] after.wire.pages[i]).serial,
    ) by {
        assert(in_use(e, e.wire.pages[i].serial));
        if streamed(e, e.wire.pages[i].serial) {
            let j = choose|j: u32| #[trigger]
                e.writers.contains_key(j) && e.writers[j].serial == e.wire.pages[i].serial;
            assert(after.writers.contains_key(j));
        }
    }
    f3
}

/// Packets leave what is known of the Skeleton as it is.
pub proof fn lemma_run_described(m: MuxView, packets: Seq<PacketView>)
    ensures
        mux_laws::run(m, packets).skeleton == m.skeleton,
    decreases packets.len(),
{
    if packets.len() > 0 {
        let mid = mux_laws::run(m, packets.drop_last());
        let p = packets.last();
        lemma_run_described(m, packets.drop_last());
        mux_laws::lemma_emitted_pages(
            mid,
            p.stream_index,
            mid.writers[p.stream_index].written(p).ready,
        );
    }
}

/// Closing the streams leaves what is known of the Skeleton as it is.
pub proof fn lemma_closed_described(m: MuxView, n: int)
    ensures
        m.closed_off(n).skeleton == m.skeleton,
    decreases n,
{
    if n > 0 {
        lemma_closed_described(m, n - 1);
        let mid = m.closed_off(n - 1);
        let k = m.streams[n - 1].index;
        mux_laws::lemma_emitted_pages(mid, k, mid.writers[k].closed_off().ready);
    }
}

} // verus!
