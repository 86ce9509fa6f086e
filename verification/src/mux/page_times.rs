//! The granule position of each page.
use crate::mux::auto_index::AutoIndexConfig;
use crate::mux::mux_laws;
use crate::mux::muxer;
use crate::mux::muxer::MuxView;
use crate::mux::neat_laws;
use crate::mux::serials;
use crate::mux::stamp_laws;
use crate::mux::stream_laws;
use crate::mux::stream_writer;
use crate::mux::stream_writer::{PendingView, StreamView};
use crate::mux::tidy;
use crate::page;
use crate::page::{flags, PageView};
use crate::skeleton::state::SkeletonView;
use crate::stream::{PacketView, StreamInfoView};
use vstd::prelude::*;

verus! {

/// The last time that is told, as a granule position: -1 where none is.
pub open spec fn latest(times: Seq<Option<i64>>) -> i64
    decreases times.len(),
{
    if times.len() == 0 {
        -1i64
    } else {
        match times.last() {
            Some(t) => t,
            None => latest(times.drop_last()),
        }
    }
}

/// The packets that end on the pages from place `base` on have the times
/// `times`, in their order, and the granule position of each of these pages is
/// the last time told by the packets that end on it.
pub open spec fn timed(pages: Seq<PageView>, base: nat, times: Seq<Option<i64>>) -> bool
    decreases pages.len(),
{
    if pages.len() <= base {
        pages.len() == base && times.len() == 0
    } else {
        let p = pages.last();
        let n = page::packets_ended(p.lacing);
        let at = times.len() - n;
        &&& 0 <= at
        &&& p.granule_position == latest(times.skip(at))
        &&& timed(pages.drop_last(), base, times.take(at))
    }
}

/// The times of the packets of the stream `index`.
pub open spec fn times_sent(packets: Seq<PacketView>, index: u32) -> Seq<Option<i64>>
    decreases packets.len(),
{
    if packets.len() == 0 {
        Seq::empty()
    } else {
        let front = times_sent(packets.drop_last(), index);
        if packets.last().stream_index == index {
            front.push(packets.last().pts)
        } else {
            front
        }
    }
}

/// The finished pages are timed, and the page that is being filled bears the
/// last time told by `n` packets.
spec fn lane(
    written: Seq<PageView>,
    s: StreamView,
    base: nat,
    times: Seq<Option<i64>>,
    n: nat,
) -> bool {
    let at = times.len() - n;
    &&& 0 <= at
    &&& s.granule == latest(times.skip(at))
    &&& timed(stream_laws::finished_pages(written, s), base, times.take(at))
    &&& stream_laws::finished_pages(written, s).len() >= base
}

proof fn lemma_flush(written: Seq<PageView>, s: StreamView, base: nat, times: Seq<Option<i64>>)
    requires
        lane(written, s, base, times, page::packets_ended(s.lacing)),
    ensures
        lane(written, s.flushed(), base, times, 0),
{
    stamp_laws::lemma_flush(written, s);
    let before = stream_laws::finished_pages(written, s);
    let pages = stream_laws::finished_pages(written, s.flushed());
    assert(pages.drop_last() =~= before);
    assert(times.take(times.len() - 0) =~= times);
}

proof fn lemma_spread(
    written: Seq<PageView>,
    s: StreamView,
    packet: Seq<u8>,
    base: nat,
    times: Seq<Option<i64>>,
)
    requires
        lane(written, s, base, times, page::packets_ended(s.lacing)),
        packet.len() >= 65025 ==> s.lacing.len() == 0,
    ensures
        ({
            let v = s.spread(packet);
            let n = page::packets_ended(v.lacing);
            n > 0 && lane(written, v, base, times, (n - 1) as nat)
        }),
    decreases packet.len(),
{
    page::law_laced(packet.len());
    if packet.len() < 65025 {
        page::lemma_packets_ended_concat(s.lacing, page::laced(packet.len()));
        assert(stream_laws::finished_pages(written, s.spread(packet))
            == stream_laws::finished_pages(written, s));
    } else {
        let run = Seq::new(255, |i: int| 255u8);
        let full = s.with_segments(run, packet.take(65025));
        assert(full.lacing =~= run);
        neat_laws::lemma_none_ended(255);
        assert(page::packets_ended(s.lacing) == 0);
        assert(stream_laws::finished_pages(written, full) == stream_laws::finished_pages(
            written,
            s,
        ));
        lemma_flush(written, full, base, times);
        lemma_spread(written, full.flushed(), packet.skip(65025), base, times);
    }
}

/// A packet adds its time to the page on which it ends.
proof fn lemma_written(
    written: Seq<PageView>,
    s: StreamView,
    base: nat,
    times: Seq<Option<i64>>,
    p: PacketView,
)
    requires
        lane(written, s, base, times, page::packets_ended(s.lacing)),
        s.headers == 0,
    ensures
        ({
            let v = s.written(p);
            &&& v.headers == 0
            &&& lane(written, v, base, times.push(p.pts), page::packets_ended(v.lacing))
        }),
{
    let room = s.with_room(p.data);
    page::law_laced(p.data.len());
    if s.lacing.len() > 0 && s.lacing.len() + page::laced(p.data.len()).len() > 255 {
        lemma_flush(written, s, base, times);
    }
    let marked = room.marked(p);
    assert(stream_laws::finished_pages(written, marked) == stream_laws::finished_pages(
        written,
        room,
    ));
    lemma_spread(written, marked, p.data, base, times);
    tidy::lemma_spread_headers(marked, p.data);
    let placed = marked.spread(p.data);
    let t = placed.stamped(p.pts);
    assert(stream_laws::finished_pages(written, t) == stream_laws::finished_pages(
        written,
        placed,
    ));
    let n = page::packets_ended(placed.lacing);
    let more = times.push(p.pts);
    let at = times.len() - (n - 1);
    assert(more.take(at) =~= times.take(at));
    assert(more.skip(at) =~= times.skip(at).push(p.pts));
    assert(times.skip(at).push(p.pts).drop_last() =~= times.skip(at));
    if p.unit_boundary {
        lemma_flush(written, t, base, more);
    }
}

proof fn lemma_closed(written: Seq<PageView>, s: StreamView, base: nat, times: Seq<Option<i64>>)
    requires
        lane(written, s, base, times, page::packets_ended(s.lacing)),
    ensures
        lane(written, s.closed_off(), base, times, page::packets_ended(s.closed_off().lacing)),
{
    if s.lacing.len() > 0 {
        lemma_flush(written, s, base, times);
    }
    let t = if s.lacing.len() > 0 {
        s.flushed()
    } else {
        s
    };
    let c = s.closed_off();
    let pages = stream_laws::finished_pages(written, t);
    match t.pending {
        None => {},
        Some(p) => {
            let marked = PageView { flags: p.page.flags | flags::LAST_PAGE, ..p.page };
            let list = t.ready + stream_writer::as_list(t.pending);
            assert(list =~= t.ready.push(p));
            assert(stream_laws::pages_in(list) =~= stream_laws::pages_in(t.ready).push(p.page));
            assert(pages =~= (written + stream_laws::pages_in(t.ready)).push(p.page));
            assert(pages.drop_last() =~= written + stream_laws::pages_in(t.ready));
            let after = stream_laws::finished_pages(written, c);
            assert(c.ready + stream_writer::as_list(c.pending) =~= c.ready);
            assert(stream_laws::pages_in(c.ready) =~= stream_laws::pages_in(t.ready).push(marked));
            assert(after =~= pages.drop_last().push(marked));
            assert(after.drop_last() =~= pages.drop_last());
        },
    }
}

/// The lane of the stream `k` in a muxer.
spec fn in_lane(m: MuxView, k: u32, base: nat, times: Seq<Option<i64>>) -> bool {
    let s = m.writers[k];
    lane(
        mux_laws::of_serial(m.wire.pages, s.serial),
        s,
        base,
        times,
        page::packets_ended(s.lacing),
    )
}

proof fn lemma_run(
    m: MuxView,
    content: Map<u32, Seq<Seq<u8>>>,
    packets: Seq<PacketView>,
    k: u32,
    base: nat,
)
    requires
        mux_laws::faithful(m, content),
        m.writers.contains_key(k),
        m.writers[k].headers == 0,
        in_lane(m, k, base, Seq::empty()),
        forall|i: int|
            0 <= i < packets.len() ==> m.writers.contains_key(
                (#[trigger] packets[i]).stream_index,
            ),
    ensures
        ({
            let after = mux_laws::run(m, packets);
            &&& after.writers[k].headers == 0
            &&& in_lane(after, k, base, times_sent(packets, k))
        }),
    decreases packets.len(),
{
    if packets.len() > 0 {
        let front = packets.drop_last();
        assert forall|i: int| 0 <= i < front.len() implies m.writers.contains_key(
            (#[trigger] front[i]).stream_index,
        ) by {
            assert(packets[i] == front[i]);
        }
        lemma_run(m, content, front, k, base);
        let between = mux_laws::lemma_run(m, content, front);
        let mid = mux_laws::run(m, front);
        let p = packets[packets.len() - 1];
        let j = p.stream_index;
        assert(m.writers.contains_key(j));
        assert(mid.writers.contains_key(j) && mid.writers.contains_key(k));
        assert(mux_laws::lane_holds(mid, between, j));
        let s = mid.writers[j];
        let own = mux_laws::of_serial(mid.wire.pages, s.serial);
        stream_laws::lemma_written_consistent(s, p);
        stream_laws::law_written(own, s, between[j], p);
        stamp_laws::lemma_settled(mid, between, j, s.written(p), k);
        let after = mux_laws::run(m, packets);
        let settled = mid.settled(j, s.written(p));
        assert(after.writers == settled.writers && after.wire == settled.wire);
        if j == k {
            lemma_written(own, s, base, times_sent(front, k), p);
        }
    }
}

proof fn lemma_closed_off(
    m: MuxView,
    content: Map<u32, Seq<Seq<u8>>>,
    n: int,
    k: u32,
    base: nat,
    times: Seq<Option<i64>>,
)
    requires
        mux_laws::faithful(m, content),
        mux_laws::all_there(m),
        mux_laws::distinct_streams(m.streams),
        0 <= n <= m.streams.len(),
        m.writers.contains_key(k),
        in_lane(m, k, base, times),
    ensures
        in_lane(m.closed_off(n), k, base, times),
    decreases n,
{
    if n > 0 {
        lemma_closed_off(m, content, n - 1, k, base, times);
        mux_laws::lemma_closed_off(m, content, n - 1);
        let mid = m.closed_off(n - 1);
        let j = m.streams[n - 1].index;
        assert(mid.streams[n - 1].index == j);
        assert(mid.writers.contains_key(j));
        assert(mid.writers.contains_key(k));
        assert(mux_laws::lane_holds(mid, content, j));
        let s = mid.writers[j];
        stream_laws::lemma_closed_consistent(s);
        stamp_laws::lemma_settled(mid, content, j, s.closed_off(), k);
        if j == k {
            lemma_closed(mux_laws::of_serial(mid.wire.pages, s.serial), s, base, times);
        }
    }
}

/// The granule position of every page behind the header pages of a stream is
/// the time of the last packet with a time that ends on the page, and -1 where
/// there is none.
pub proof fn law_page_times(
    position: u64,
    streams: Seq<StreamInfoView>,
    skeleton: Option<SkeletonView>,
    config: Option<AutoIndexConfig>,
    packets: Seq<PacketView>,
    i: int,
)
    requires
        mux_laws::sound_setup(streams, skeleton, config),
        muxer::initial(position, streams, skeleton, config).headers_fit(),
        forall|k: int|
            0 <= k < packets.len() ==> exists|j: int|
                0 <= j < streams.len() && (#[trigger] streams[j]).index == (
                #[trigger] packets[k]).stream_index,
        0 <= i < streams.len(),
        stamp_laws::headers_counted(streams[i]),
    ensures
        ({
            let headed = muxer::initial(position, streams, skeleton, config).with_headers();
            let pages = mux_laws::run(headed, packets).ended().wire.pages;
            timed(
                mux_laws::of_serial(pages, serials::assigned(Set::empty(), streams)[i]),
                stamp_laws::finished(headed, streams[i].index).len(),
                times_sent(packets, streams[i].index),
            )
        }),
{
    let m = muxer::initial(position, streams, skeleton, config);
    let empty = mux_laws::lemma_begun(position, streams, skeleton, config);
    let start = mux_laws::begun(m);
    let k = streams[i].index;
    assert(start.streams[i] == streams[i]);
    stamp_laws::lemma_headed_start(start, i);
    let headed = m.with_headers();
    if skeleton is Some {
        stamp_laws::lemma_skeleton_start(start.headed(), k);
        assert(headed == start.headed().with_skeleton());
    } else {
        assert(headed == start.headed());
    }
    let content = mux_laws::law_headers(position, streams, skeleton, config);
    assert(mux_laws::all_there(headed)) by {
        assert forall|j: int| 0 <= j < headed.streams.len() implies headed.writers.contains_key(
            (#[trigger] headed.streams[j]).index,
        ) by {
            assert(headed.streams[j] == streams[j]);
        }
    }
    assert forall|l: int| 0 <= l < packets.len() implies headed.writers.contains_key(
        (#[trigger] packets[l]).stream_index,
    ) by {
        let j = choose|j: int|
            0 <= j < streams.len() && (#[trigger] streams[j]).index == packets[l].stream_index;
        assert(headed.writers.contains_key(streams[j].index));
    }
    assert(headed.streams[i].index == k);
    assert(headed.writers.contains_key(headed.streams[i].index));
    let base = stamp_laws::finished(headed, k).len();
    let none = Seq::<Option<i64>>::empty();
    assert(page::packets_ended(headed.writers[k].lacing) == 0);
    assert(none.skip(0) =~= none);
    assert(none.take(0) =~= none);
    lemma_run(headed, content, packets, k, base);
    let now = mux_laws::lemma_run(headed, content, packets);
    let ran = mux_laws::run(headed, packets);
    let n = streams.len() as int;
    assert(mux_laws::all_there(ran)) by {
        assert forall|j: int| 0 <= j < ran.streams.len() implies ran.writers.contains_key(
            (#[trigger] ran.streams[j]).index,
        ) by {
            assert(headed.writers.contains_key(headed.streams[j].index));
        }
    }
    assert(ran.writers.contains_key(k));
    lemma_closed_off(ran, now, n, k, base, times_sent(packets, k));
    mux_laws::lemma_closed_off(ran, now, n);
    let closed = ran.closed_off(n);
    assert(closed.streams[i].index == k);
    assert(closed.writers[closed.streams[i].index].pending is None);
    assert(closed.writers.contains_key(k));
    assert(mux_laws::lane_holds(closed, now, k));
    let s = closed.writers[k];
    let own = mux_laws::of_serial(closed.wire.pages, s.serial);
    assert(s.ready + stream_writer::as_list(s.pending) =~= Seq::<PendingView>::empty());
    assert(stream_laws::finished_pages(own, s) =~= own);
    let times = times_sent(packets, k);
    assert(page::packets_ended(s.lacing) == 0);
    assert(times.take(times.len() as int) =~= times);
}

} // verus!
