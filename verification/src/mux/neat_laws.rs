//! The marks, numbers and granule positions of the pages of one logical
//! bitstream.
use crate::framing;
use crate::mux::stream_laws;
use crate::mux::stream_writer;
use crate::mux::stream_writer::StreamView;
use crate::page;
use crate::page::{flags, PageView};
use crate::stream::PacketView;
use crate::validate_laws;
use vstd::prelude::*;

verus! {

/// Pages of one bitstream as they follow each other: numbered from 0, the first
/// marked first and no other, each marked continued exactly where the one
/// before it leaves a packet open, and without a granule position where no
/// packet ends. Exactly the last of a closed bitstream is marked last.
pub open spec fn neat(pages: Seq<PageView>, serial: u32, closed: bool) -> bool {
    &&& forall|i: int|
        0 <= i < pages.len() ==> {
            let p = #[trigger] pages[i];
            &&& p.serial == serial
            &&& p.flags == framing::page_flags(
                i > 0 && page::ends_open(pages[i - 1].lacing),
                i == 0,
                closed && i == pages.len() - 1,
            )
            &&& p.lacing.len() > 0
            &&& page::packets_ended(p.lacing) == 0 ==> p.granule_position == -1
        }
    &&& pages.len() > 0 ==> pages[0].seq_no == 0
    &&& stream_laws::unbroken(pages)
}

/// The finished pages of a stream are neat, and the page that is being filled
/// will be.
pub open spec fn neat_lane(written: Seq<PageView>, s: StreamView) -> bool {
    let pages = stream_laws::finished_pages(written, s);
    &&& neat(pages, s.serial, false)
    &&& s.started == (pages.len() > 0)
    &&& s.continued == (pages.len() > 0 && page::ends_open(pages.last().lacing))
    &&& s.seq_no == (if pages.len() > 0 {
        stream_writer::successor(pages.last().seq_no)
    } else {
        0
    })
    &&& page::packets_ended(s.lacing) == 0 ==> s.granule == -1
}

/// The granule positions of pages on which packets end are not negative, never
/// fall and do not exceed `g`.
pub open spec fn risen(written: Seq<PageView>, s: StreamView, g: i64) -> bool {
    let pages = stream_laws::finished_pages(written, s);
    &&& validate_laws::granules_rise(pages)
    &&& g >= 0
    &&& forall|i: int|
        0 <= i < pages.len() && page::packets_ended((#[trigger] pages[i]).lacing) > 0
            ==> pages[i].granule_position <= g
    &&& page::packets_ended(s.lacing) > 0 ==> 0 <= s.granule <= g && forall|i: int|
        0 <= i < pages.len() && page::packets_ended((#[trigger] pages[i]).lacing) > 0
            ==> pages[i].granule_position <= s.granule
    &&& s.headers > 0 ==> g == 0
}

/// The finished pages when one more is finished.
proof fn lemma_flush_pages(written: Seq<PageView>, s: StreamView)
    ensures
        stream_laws::finished_pages(written, s.flushed()) == stream_laws::finished_pages(
            written,
            s,
        ).push(s.open_page()),
{
    let v = s.flushed();
    let list = s.ready + stream_writer::as_list(s.pending);
    let after = v.ready + stream_writer::as_list(v.pending);
    assert(after =~= list.push(v.pending->Some_0));
    assert(stream_laws::pages_in(after) =~= stream_laws::pages_in(list).push(s.open_page()));
    assert(stream_laws::finished_pages(written, v) =~= stream_laws::finished_pages(
        written,
        s,
    ).push(s.open_page()));
}

proof fn lemma_neat_flush(written: Seq<PageView>, s: StreamView)
    requires
        neat_lane(written, s),
        s.lacing.len() > 0,
    ensures
        neat_lane(written, s.flushed()),
{
    lemma_flush_pages(written, s);
    let v = s.flushed();
    let before = stream_laws::finished_pages(written, s);
    let pages = stream_laws::finished_pages(written, v);
    assert forall|i: int| 0 <= i < pages.len() implies ({
        let p = #[trigger] pages[i];
        &&& p.serial == v.serial
        &&& p.flags == framing::page_flags(
            i > 0 && page::ends_open(pages[i - 1].lacing),
            i == 0,
            false,
        )
        &&& p.lacing.len() > 0
        &&& page::packets_ended(p.lacing) == 0 ==> p.granule_position == -1
    }) by {
        if i < before.len() {
            assert(pages[i] == before[i]);
        }
    }
    assert forall|i: int| 0 < i < pages.len() implies (#[trigger] pages[i]).seq_no
        == stream_writer::successor(pages[i - 1].seq_no) by {
        if i < before.len() {
            assert(pages[i] == before[i]);
        }
    }
}

proof fn lemma_risen_flush(written: Seq<PageView>, s: StreamView, g: i64)
    requires
        risen(written, s, g),
    ensures
        risen(written, s.flushed(), g),
{
    lemma_flush_pages(written, s);
    let v = s.flushed();
    let before = stream_laws::finished_pages(written, s);
    let pages = stream_laws::finished_pages(written, v);
    assert forall|i: int|
        0 <= i < pages.len() && page::packets_ended(
            (#[trigger] pages[i]).lacing,
        ) > 0 implies 0 <= pages[i].granule_position <= g by {
        if i < before.len() {
            assert(pages[i] == before[i]);
        }
    }
    assert forall|i: int, j: int|
        0 <= i < j < pages.len() && page::packets_ended((#[trigger] pages[i]).lacing) > 0
            && page::packets_ended(
            (#[trigger] pages[j]).lacing,
        ) > 0 implies pages[i].granule_position <= pages[j].granule_position by {
        assert(pages[i] == before[i]);
        if j < before.len() {
            assert(pages[j] == before[j]);
        }
    }
}

/// A table of full segments ends no packet.
pub proof fn lemma_none_ended(n: nat)
    ensures
        page::packets_ended(Seq::new(n, |i: int| 255u8)) == 0,
    decreases n,
{
    let run = Seq::new(n, |i: int| 255u8);
    if n > 0 {
        lemma_none_ended((n - 1) as nat);
        assert(run.drop_last() =~= Seq::new((n - 1) as nat, |i: int| 255u8));
    }
}

/// A packet that is laid out ends on the page that is being filled.
proof fn lemma_neat_spread(written: Seq<PageView>, s: StreamView, packet: Seq<u8>)
    requires
        neat_lane(written, s),
        packet.len() >= 65025 ==> s.lacing.len() == 0,
    ensures
        neat_lane(written, s.spread(packet)),
        page::packets_ended(s.spread(packet).lacing) > 0,
        s.spread(packet).lacing.len() > 0,
    decreases packet.len(),
{
    if packet.len() >= 65025 {
        let run = Seq::new(255, |i: int| 255u8);
        let full = s.with_segments(run, packet.take(65025));
        lemma_none_ended(255);
        assert(full.lacing =~= run);
        assert(stream_laws::finished_pages(written, full) == stream_laws::finished_pages(
            written,
            s,
        ));
        assert(page::packets_ended(s.lacing) == 0);
        assert(neat_lane(written, full));
        lemma_neat_flush(written, full);
        lemma_neat_spread(written, full.flushed(), packet.skip(65025));
    } else {
        let v = s.with_segments(page::laced(packet.len()), packet);
        page::law_laced(packet.len());
        page::lemma_packets_ended_concat(s.lacing, page::laced(packet.len()));
        assert(stream_laws::finished_pages(written, v) == stream_laws::finished_pages(written, s));
    }
}

proof fn lemma_risen_spread(written: Seq<PageView>, s: StreamView, packet: Seq<u8>, g: i64)
    requires
        risen(written, s, g),
        packet.len() >= 65025 ==> s.lacing.len() == 0,
    ensures
        ({
            let v = s.spread(packet);
            let pages = stream_laws::finished_pages(written, v);
            &&& validate_laws::granules_rise(pages)
            &&& forall|i: int|
                0 <= i < pages.len() && page::packets_ended((#[trigger] pages[i]).lacing) > 0
                    ==> pages[i].granule_position <= g
            &&& v.headers == s.headers
        }),
    decreases packet.len(),
{
    if packet.len() >= 65025 {
        let run = Seq::new(255, |i: int| 255u8);
        let full = s.with_segments(run, packet.take(65025));
        lemma_none_ended(255);
        assert(full.lacing =~= run);
        assert(stream_laws::finished_pages(written, full) == stream_laws::finished_pages(
            written,
            s,
        ));
        assert(risen(written, full, g));
        lemma_risen_flush(written, full, g);
        lemma_risen_spread(written, full.flushed(), packet.skip(65025), g);
    } else {
        let v = s.with_segments(page::laced(packet.len()), packet);
        assert(stream_laws::finished_pages(written, v) == stream_laws::finished_pages(written, s));
    }
}

/// Room for a packet is made on an empty page where the packet is long.
proof fn lemma_room(written: Seq<PageView>, s: StreamView, packet: Seq<u8>)
    requires
        neat_lane(written, s),
    ensures
        neat_lane(written, s.with_room(packet)),
        packet.len() >= 65025 ==> s.with_room(packet).lacing.len() == 0,
{
    page::law_laced(packet.len());
    if s.lacing.len() > 0 && s.lacing.len() + page::laced(packet.len()).len() > 255 {
        lemma_neat_flush(written, s);
    }
}

/// Whatever packet is written, the pages of the stream stay neat, and there is a
/// page that has not been written.
pub proof fn law_written_neat(written: Seq<PageView>, s: StreamView, p: PacketView)
    requires
        neat_lane(written, s),
    ensures
        neat_lane(written, s.written(p)),
        s.written(p).pending is Some || s.written(p).lacing.len() > 0,
{
    let room = s.with_room(p.data);
    lemma_room(written, s, p.data);
    if s.headers > 0 {
        lemma_neat_spread(written, room, p.data);
        let placed = room.spread(p.data);
        let t = StreamView { headers: (s.headers - 1) as nat, granule: 0, ..placed };
        assert(stream_laws::finished_pages(written, t) == stream_laws::finished_pages(
            written,
            placed,
        ));
        lemma_neat_flush(written, t);
    } else {
        let marked = room.marked(p);
        assert(stream_laws::finished_pages(written, marked) == stream_laws::finished_pages(
            written,
            room,
        ));
        assert(neat_lane(written, marked));
        lemma_neat_spread(written, marked, p.data);
        let placed = marked.spread(p.data);
        let t = placed.stamped(p.pts);
        assert(stream_laws::finished_pages(written, t) == stream_laws::finished_pages(
            written,
            placed,
        ));
        assert(neat_lane(written, t));
        if p.unit_boundary {
            lemma_neat_flush(written, t);
        }
    }
}

/// Header packets, and packets with timestamps that never fall, keep the granule
/// positions rising.
pub proof fn law_written_risen(written: Seq<PageView>, s: StreamView, p: PacketView, g: i64)
    requires
        neat_lane(written, s),
        risen(written, s, g),
        s.headers == 0 ==> (p.pts matches Some(t) && t >= g),
    ensures
        risen(
            written,
            s.written(p),
            if s.headers > 0 {
                0
            } else {
                p.pts->Some_0
            },
        ),
{
    let room = s.with_room(p.data);
    lemma_room(written, s, p.data);
    lemma_risen_flush(written, s, g);
    assert(risen(written, room, g));
    if s.headers > 0 {
        lemma_risen_spread(written, room, p.data, g);
        lemma_neat_spread(written, room, p.data);
        let placed = room.spread(p.data);
        let t = StreamView { headers: (s.headers - 1) as nat, granule: 0, ..placed };
        assert(stream_laws::finished_pages(written, t) == stream_laws::finished_pages(
            written,
            placed,
        ));
        assert(risen(written, t, 0));
        lemma_risen_flush(written, t, 0);
    } else {
        let marked = room.marked(p);
        assert(stream_laws::finished_pages(written, marked) == stream_laws::finished_pages(
            written,
            room,
        ));
        assert(risen(written, marked, g));
        lemma_risen_spread(written, marked, p.data, g);
        assert(neat_lane(written, marked));
        lemma_neat_spread(written, marked, p.data);
        let placed = marked.spread(p.data);
        let now = p.pts->Some_0;
        let t = placed.stamped(p.pts);
        assert(stream_laws::finished_pages(written, t) == stream_laws::finished_pages(
            written,
            placed,
        ));
        assert(risen(written, t, now));
        lemma_risen_flush(written, t, now);
    }
}

/// Streams of which nothing or the first packet was written are neat.
pub proof fn law_begun_neat(serial: u32, headers: nat, packet: Seq<u8>)
    ensures
        neat_lane(Seq::empty(), StreamView::fresh(serial, headers)),
        neat_lane(Seq::empty(), StreamView::fresh(serial, headers).opened(packet)),
        risen(Seq::empty(), StreamView::fresh(serial, headers), 0),
        risen(Seq::empty(), StreamView::fresh(serial, headers).opened(packet), 0),
{
    let none = Seq::<PageView>::empty();
    let f = StreamView::fresh(serial, headers);
    assert(stream_laws::finished_pages(none, f) =~= none);
    let s = f.opened(packet);
    assert(s.ready + stream_writer::as_list(s.pending) =~= seq![s.ready[0]]);
    let pages = stream_laws::finished_pages(none, s);
    let first = stream_writer::opening_page(serial, 0, packet);
    assert(pages =~= seq![first]);
    page::law_laced(packet.len());
}

/// Making the held-back page ready, and writing the ready pages, keeps the pages
/// neat.
pub proof fn law_moved_neat(written: Seq<PageView>, s: StreamView, g: i64)
    requires
        neat_lane(written, s),
    ensures
        neat_lane(written, s.released()),
        neat_lane(written + stream_laws::pages_in(s.ready), s.emptied()),
        risen(written, s, g) ==> risen(written, s.released(), g) && risen(
            written + stream_laws::pages_in(s.ready),
            s.emptied(),
            g,
        ),
{
    let r = s.released();
    assert(r.ready + stream_writer::as_list(r.pending) =~= s.ready + stream_writer::as_list(
        s.pending,
    ));
    assert(stream_laws::finished_pages(written, r) == stream_laws::finished_pages(written, s));
    let e = s.emptied();
    let more = written + stream_laws::pages_in(s.ready);
    assert(stream_laws::finished_pages(more, e) =~= stream_laws::finished_pages(written, s)) by {
        assert(e.ready + stream_writer::as_list(e.pending) =~= stream_writer::as_list(s.pending));
        assert(stream_laws::pages_in(s.ready + stream_writer::as_list(s.pending))
            =~= stream_laws::pages_in(s.ready) + stream_laws::pages_in(
            stream_writer::as_list(s.pending),
        ));
    }
}

/// Pages with the last of them marked last.
spec fn with_last_marked(pages: Seq<PageView>) -> Seq<PageView> {
    let last = pages.last();
    pages.drop_last().push(PageView { flags: last.flags | flags::LAST_PAGE, ..last })
}

/// Neat pages are neat with the last of them marked last.
proof fn lemma_last_marked(before: Seq<PageView>, serial: u32)
    requires
        before.len() > 0,
        neat(before, serial, false),
    ensures
        neat(with_last_marked(before), serial, true),
        with_last_marked(before).last().lacing == before.last().lacing,
{
    let pages = with_last_marked(before);
    let n = before.len() - 1;
    framing::law_page_flags(n > 0 && page::ends_open(before[n - 1].lacing), n == 0, false);
    assert forall|i: int| 0 <= i < pages.len() implies ({
        let q = #[trigger] pages[i];
        &&& q.serial == serial
        &&& q.flags == framing::page_flags(
            i > 0 && page::ends_open(pages[i - 1].lacing),
            i == 0,
            i == pages.len() - 1,
        )
        &&& q.lacing.len() > 0
        &&& page::packets_ended(q.lacing) == 0 ==> q.granule_position == -1
    }) by {
        assert(before[i].serial == serial);
    }
    assert forall|i: int| 0 < i < pages.len() implies (#[trigger] pages[i]).seq_no
        == stream_writer::successor(pages[i - 1].seq_no) by {
        assert(before[i].seq_no == stream_writer::successor(before[i - 1].seq_no));
    }
}

proof fn lemma_marked_rises(before: Seq<PageView>)
    requires
        before.len() > 0,
        validate_laws::granules_rise(before),
    ensures
        validate_laws::granules_rise(with_last_marked(before)),
{
    let pages = with_last_marked(before);
    assert forall|i: int|
        0 <= i < pages.len() && page::packets_ended(
            (#[trigger] pages[i]).lacing,
        ) > 0 implies pages[i].granule_position >= 0 by {
        assert(page::packets_ended(before[i].lacing) > 0);
    }
    assert forall|i: int, j: int|
        0 <= i < j < pages.len() && page::packets_ended((#[trigger] pages[i]).lacing) > 0
            && page::packets_ended(
            (#[trigger] pages[j]).lacing,
        ) > 0 implies pages[i].granule_position <= pages[j].granule_position by {
        assert(page::packets_ended(before[i].lacing) > 0);
        assert(page::packets_ended(before[j].lacing) > 0);
    }
}

/// The pages of a stream that is closed while a page is held back.
proof fn lemma_closed_pages(written: Seq<PageView>, t: StreamView)
    requires
        t.pending is Some,
        t.lacing.len() == 0,
    ensures
        written + stream_laws::pages_in(t.closed_off().ready) == with_last_marked(
            stream_laws::finished_pages(written, t),
        ),
        stream_laws::finished_pages(written, t).len() > 0,
{
    let p = t.pending->Some_0;
    let before = stream_laws::finished_pages(written, t);
    let list = t.ready + stream_writer::as_list(t.pending);
    assert(list =~= t.ready.push(p));
    assert(stream_laws::pages_in(list) =~= stream_laws::pages_in(t.ready).push(p.page));
    assert(before =~= (written + stream_laws::pages_in(t.ready)).push(p.page));
    let marked = PageView { flags: p.page.flags | flags::LAST_PAGE, ..p.page };
    let c = t.closed_off();
    assert(stream_laws::pages_in(c.ready) =~= stream_laws::pages_in(t.ready).push(marked));
    assert(written + stream_laws::pages_in(c.ready) =~= with_last_marked(before));
}

/// The pages of a closed stream are neat, where a page had not been written.
pub proof fn law_closed_neat(written: Seq<PageView>, s: StreamView, g: i64)
    requires
        neat_lane(written, s),
        stream_laws::at_rest(s),
        s.lacing.len() > 0 || s.pending is Some,
    ensures
        ({
            let pages = written + stream_laws::pages_in(s.closed_off().ready);
            &&& pages.len() > 0
            &&& neat(pages, s.serial, true)
            &&& !page::ends_open(pages.last().lacing)
            &&& risen(written, s, g) ==> validate_laws::granules_rise(pages)
        }),
{
    let t = if s.lacing.len() > 0 {
        s.flushed()
    } else {
        s
    };
    if s.lacing.len() > 0 {
        lemma_neat_flush(written, s);
        if risen(written, s, g) {
            lemma_risen_flush(written, s, g);
        }
    }
    assert(t.closed_off() == s.closed_off());
    lemma_closed_pages(written, t);
    let before = stream_laws::finished_pages(written, t);
    lemma_last_marked(before, s.serial);
    if risen(written, s, g) {
        lemma_marked_rises(before);
    }
}

/// The pages of a closed bitstream are numbered in their order, as long as the
/// numbers do not run out.
pub proof fn lemma_numbers(pages: Seq<PageView>, serial: u32, closed: bool, i: int)
    requires
        neat(pages, serial, closed),
        pages.len() <= u32::MAX,
        0 <= i < pages.len(),
    ensures
        pages[i].seq_no == i,
    decreases i,
{
    if i > 0 {
        lemma_numbers(pages, serial, closed, i - 1);
        assert(pages[i].seq_no == stream_writer::successor(pages[i - 1].seq_no));
    }
}

} // verus!
