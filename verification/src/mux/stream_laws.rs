//! What holds of the pages that the packets of one logical bitstream are put
//! on.
use crate::error::Error;
use crate::framing;
use crate::framing::{Assembled, AssemblerView};
use crate::framing_laws;
use crate::mux::stream_writer;
use crate::mux::stream_writer::{PendingView, StreamView};
use crate::page;
use crate::page::{flags, PageView};
use crate::stream::PacketView;
use vstd::prelude::*;

verus! {

/// The pages in a list.
pub open spec fn pages_in(list: Seq<PendingView>) -> Seq<PageView> {
    list.map_values(|p: PendingView| p.page)
}

/// The finished pages of a stream, behind those that were written before.
pub open spec fn finished_pages(written: Seq<PageView>, s: StreamView) -> Seq<PageView> {
    written + pages_in(s.ready + stream_writer::as_list(s.pending))
}

/// The packets of all that a stream holds, the page that is being filled
/// included, and the assembler behind it.
pub open spec fn held(written: Seq<PageView>, s: StreamView) -> Result<
    (Seq<Seq<u8>>, AssemblerView),
    Error,
> {
    framing::stream_packets(finished_pages(written, s).push(s.open_page()))
}

/// The stream holds exactly `packets`, each of them whole.
pub open spec fn holds(written: Seq<PageView>, s: StreamView, packets: Seq<Seq<u8>>) -> bool {
    held(written, s) == Ok::<(Seq<Seq<u8>>, AssemblerView), Error>(
        (packets, framing_laws::idle(s.serial)),
    )
}

/// Between two packets: no packet is open on the page that is being filled,
/// and an empty page continues none.
pub open spec fn at_rest(s: StreamView) -> bool {
    &&& !page::ends_open(s.lacing)
    &&& s.lacing.len() == 0 ==> !s.continued
}

/// Segment tables put together lay out what each of them lays out.
proof fn lemma_assembled_concat(
    l1: Seq<u8>,
    l2: Seq<u8>,
    d1: Seq<u8>,
    d2: Seq<u8>,
    pending: Seq<u8>,
    mid_packet: bool,
)
    requires
        d1.len() == page::body_len(l1),
        d2.len() == page::body_len(l2),
    ensures
        ({
            let a = framing::assembled(l1, d1, pending, mid_packet);
            let b = framing::assembled(l2, d2, a.pending, a.mid_packet);
            framing::assembled(l1 + l2, d1 + d2, pending, mid_packet) == (Assembled {
                done: a.done + b.done,
                pending: b.pending,
                mid_packet: b.mid_packet,
            })
        }),
    decreases l2.len(),
{
    let a = framing::assembled(l1, d1, pending, mid_packet);
    if l2.len() == 0 {
        assert(l1 + l2 =~= l1);
        assert(d1 + d2 =~= d1);
        assert(a.done + Seq::<Seq<u8>>::empty() =~= a.done);
    } else {
        let front = l2.drop_last();
        let n = page::body_len(front) as int;
        let e = d2.take(n);
        page::lemma_body_len_concat(l1, front);
        page::lemma_body_len_concat(l1, l2);
        assert((l1 + l2).drop_last() =~= l1 + front);
        lemma_assembled_concat(l1, front, d1, e, pending, mid_packet);
        assert(e.take(n) =~= d2.take(n));
        framing_laws::lemma_assembled_prefix(front, d2, e, a.pending, a.mid_packet);
        assert((d1 + d2).take(d1.len() + n) =~= (d1 + e).take(d1.len() + n));
        framing_laws::lemma_assembled_prefix(l1 + front, d1 + d2, d1 + e, pending, mid_packet);
        let whole = page::body_len(l2) as int;
        assert((d1 + d2).subrange(d1.len() + n, d1.len() + whole) =~= d2.subrange(n, whole));
        let b = framing::assembled(front, d2, a.pending, a.mid_packet);
        let piece = d2.subrange(n, whole);
        if l2.last() < 255 {
            assert((a.done + b.done).push(b.pending + piece) =~= a.done + b.done.push(
                b.pending + piece,
            ));
        }
    }
}

/// The table of one packet lays out that packet.
proof fn lemma_assembled_packet(packet: Seq<u8>, pending: Seq<u8>, mid_packet: bool)
    ensures
        framing::assembled(page::laced(packet.len()), packet, pending, mid_packet) == (Assembled {
            done: seq![pending + packet],
            pending: Seq::empty(),
            mid_packet: false,
        }),
    decreases packet.len(),
{
    let l = page::laced(packet.len());
    if packet.len() < 255 {
        let none = l.drop_last();
        assert(none =~= Seq::<u8>::empty());
        page::lemma_one_segment(packet.len() as u8);
        assert(framing::assembled(none, packet, pending, mid_packet).pending == pending);
        assert(page::body_len(none) == 0);
        assert(l.last() == packet.len() as u8);
        assert(packet.subrange(0, packet.len() as int) =~= packet);
        assert(framing::assembled(l, packet, pending, mid_packet).done =~= seq![pending + packet]);
    } else {
        let head = packet.take(255);
        let tail = packet.skip(255);
        lemma_assembled_run(1, head, pending, mid_packet);
        assert(Seq::new(1, |i: int| 255u8) =~= seq![255u8]);
        lemma_assembled_packet(tail, pending + head, true);
        page::law_laced(tail.len());
        page::lemma_one_segment(255);
        lemma_assembled_concat(seq![255u8], page::laced(tail.len()), head, tail, pending, mid_packet);
        assert(head + tail =~= packet);
        assert(pending + head + tail =~= pending + packet);
        assert(Seq::<Seq<u8>>::empty() + seq![pending + packet] =~= seq![pending + packet]);
    }
}

/// Full segments keep a packet open.
proof fn lemma_assembled_run(n: nat, data: Seq<u8>, pending: Seq<u8>, mid_packet: bool)
    requires
        n >= 1,
        data.len() == 255 * n,
    ensures
        page::body_len(Seq::new(n, |i: int| 255u8)) == 255 * n,
        framing::assembled(Seq::new(n, |i: int| 255u8), data, pending, mid_packet) == (Assembled {
            done: Seq::empty(),
            pending: pending + data,
            mid_packet: true,
        }),
    decreases n,
{
    let run = Seq::new(n, |i: int| 255u8);
    let front = Seq::new((n - 1) as nat, |i: int| 255u8);
    assert(run.drop_last() =~= front);
    let at = 255 * (n - 1);
    if n == 1 {
        assert(data.subrange(0, 255) =~= data);
        assert(framing::assembled(front, data, pending, mid_packet).pending == pending);
        assert(page::body_len(front) == 0);
        assert(page::body_len(run) == 255);
        assert(framing::assembled(run, data, pending, mid_packet).done =~= Seq::<
            Seq<u8>,
        >::empty());
    } else {
        lemma_assembled_run((n - 1) as nat, data.take(at), pending, mid_packet);
        assert(data.take(at).take(at) =~= data.take(at));
        framing_laws::lemma_assembled_prefix(front, data, data.take(at), pending, mid_packet);
        assert(pending + data.take(at) + data.subrange(at, 255 * n as int) =~= pending + data);
    }
}

/// Assembly looks at the marks of an accepted page only for the continued bit.
proof fn lemma_held_unfold(written: Seq<PageView>, s: StreamView)
    ensures
        held(written, s) == (match framing::stream_packets(finished_pages(written, s)) {
            Err(e) => Err::<(Seq<Seq<u8>>, AssemblerView), Error>(e),
            Ok((packets, state)) => {
                let (r, next) = state.accept(s.open_page());
                match r {
                    Err(e) => Err(e),
                    Ok(done) => Ok((packets + done, next)),
                }
            },
        }),
{
    let pages = finished_pages(written, s);
    assert(pages.push(s.open_page()).drop_last() =~= pages);
}

/// Segments put on the page that is being filled add what they lay out.
proof fn lemma_held_segments(written: Seq<PageView>, s: StreamView, l: Seq<u8>, d: Seq<u8>)
    requires
        s.data.len() == page::body_len(s.lacing),
        d.len() == page::body_len(l),
        held(written, s) is Ok,
    ensures
        ({
            let (packets, state) = held(written, s)->Ok_0;
            let a = framing::assembled(l, d, state.pending, state.mid_packet);
            held(written, s.with_segments(l, d)) == Ok::<(Seq<Seq<u8>>, AssemblerView), Error>(
                (
                    packets + a.done,
                    AssemblerView { pending: a.pending, mid_packet: a.mid_packet, ..state },
                ),
            )
        }),
{
    let v = s.with_segments(l, d);
    lemma_held_unfold(written, s);
    lemma_held_unfold(written, v);
    let (before, state) = framing::stream_packets(finished_pages(written, s))->Ok_0;
    lemma_assembled_concat(s.lacing, l, s.data, d, state.pending, state.mid_packet);
    let a = framing::assembled(s.lacing, s.data, state.pending, state.mid_packet);
    let b = framing::assembled(l, d, a.pending, a.mid_packet);
    assert(before + (a.done + b.done) =~= before + a.done + b.done);
}

proof fn lemma_mid_is_open(lacing: Seq<u8>, data: Seq<u8>, pending: Seq<u8>, mid_packet: bool)
    requires
        lacing.len() > 0,
    ensures
        framing::assembled(lacing, data, pending, mid_packet).mid_packet == page::ends_open(
            lacing,
        ),
{
}

/// Finishing a page changes nothing that is held.
proof fn lemma_held_flush(written: Seq<PageView>, s: StreamView)
    requires
        s.lacing.len() > 0,
        held(written, s) is Ok,
    ensures
        held(written, s.flushed()) == held(written, s),
        framing::stream_packets(finished_pages(written, s.flushed())) == held(written, s),
{
    let v = s.flushed();
    let pages = finished_pages(written, s);
    lemma_held_unfold(written, s);
    let list = s.ready + stream_writer::as_list(s.pending);
    let after = v.ready + stream_writer::as_list(v.pending);
    assert(after =~= list.push(v.pending->Some_0));
    assert(pages_in(after) =~= pages_in(list).push(s.open_page()));
    assert(finished_pages(written, v) =~= pages.push(s.open_page()));
    lemma_held_unfold(written, v);
    let (before, state) = framing::stream_packets(pages)->Ok_0;
    lemma_mid_is_open(s.lacing, s.data, state.pending, state.mid_packet);
    let (packets, next) = held(written, s)->Ok_0;
    framing::law_page_flags(s.continued, !s.started, false);
    framing::law_page_flags(v.continued, !v.started, false);
    assert(v.open_page().lacing.len() == 0);
    assert(packets + Seq::<Seq<u8>>::empty() =~= packets);
}

/// Only the continued bit of the page that is being filled matters.
proof fn lemma_held_alike(written: Seq<PageView>, s: StreamView, t: StreamView)
    requires
        s.serial == t.serial,
        s.lacing == t.lacing,
        s.data == t.data,
        s.continued == t.continued,
        s.ready == t.ready,
        s.pending == t.pending,
        held(written, s) is Ok,
    ensures
        held(written, t) == held(written, s),
{
    lemma_held_unfold(written, s);
    lemma_held_unfold(written, t);
    framing::law_page_flags(s.continued, !s.started, false);
    framing::law_page_flags(t.continued, !t.started, false);
    let (before, state) = framing::stream_packets(finished_pages(written, s))->Ok_0;
    framing_laws::lemma_accept_alike(state, s.open_page(), t.open_page());
}

/// Laying out a packet ends exactly that packet.
proof fn lemma_held_spread(written: Seq<PageView>, s: StreamView, packet: Seq<u8>)
    requires
        s.consistent(),
        s.lacing.len() == 0 || s.lacing.len() + page::laced(packet.len()).len() <= 255,
        held(written, s) is Ok,
    ensures
        ({
            let v = s.spread(packet);
            let (packets, state) = held(written, s)->Ok_0;
            &&& v.consistent()
            &&& v.serial == s.serial
            &&& v.headers == s.headers
            &&& v.lacing.len() > 0
            &&& !page::ends_open(v.lacing)
            &&& held(written, v) == Ok::<(Seq<Seq<u8>>, AssemblerView), Error>(
                (
                    packets.push(state.pending + packet),
                    AssemblerView { pending: Seq::empty(), mid_packet: false, ..state },
                ),
            )
        }),
    decreases packet.len(),
{
    let (packets, state) = held(written, s)->Ok_0;
    page::law_laced(packet.len());
    if packet.len() < 65025 {
        let l = page::laced(packet.len());
        lemma_held_segments(written, s, l, packet);
        lemma_assembled_packet(packet, state.pending, state.mid_packet);
        assert(packets + seq![state.pending + packet] =~= packets.push(state.pending + packet));
        page::lemma_body_len_concat(s.lacing, l);
        assert((s.lacing + l).last() == l.last());
    } else {
        let run = Seq::new(255, |i: int| 255u8);
        let piece = packet.take(65025);
        let rest = packet.skip(65025);
        let full = s.with_segments(run, piece);
        assert(s.lacing.len() == 0);
        lemma_assembled_run(255, piece, state.pending, state.mid_packet);
        lemma_held_segments(written, s, run, piece);
        page::lemma_body_len_concat(s.lacing, run);
        assert(full.consistent());
        assert(packets + Seq::<Seq<u8>>::empty() =~= packets);
        lemma_held_flush(written, full);
        let v = full.flushed();
        assert forall|i: int| 0 <= i < v.ready.len() implies (#[trigger] v.ready[i]).page.wf()
            && v.ready[i].page.serial == v.serial by {
            if i < full.ready.len() {
                assert(v.ready[i] == full.ready[i]);
            }
        }
        lemma_held_spread(written, v, rest);
        assert(state.pending + piece + rest =~= state.pending + packet);
    }
}

/// Writing a packet adds exactly that packet to what the stream holds.
pub proof fn law_written(
    written: Seq<PageView>,
    s: StreamView,
    packets: Seq<Seq<u8>>,
    p: PacketView,
)
    requires
        s.consistent(),
        at_rest(s),
        holds(written, s, packets),
    ensures
        at_rest(s.written(p)),
        s.written(p).serial == s.serial,
        holds(written, s.written(p), packets.push(p.data)),
{
    let room = s.with_room(p.data);
    page::law_laced(p.data.len());
    if s.lacing.len() > 0 && s.lacing.len() + page::laced(p.data.len()).len() > 255 {
        lemma_held_flush(written, s);
        assert forall|i: int| 0 <= i < room.ready.len() implies (
        #[trigger] room.ready[i]).page.wf() && room.ready[i].page.serial == room.serial by {
            if i < s.ready.len() {
                assert(room.ready[i] == s.ready[i]);
            }
        }
    }
    assert(Seq::<u8>::empty() + p.data =~= p.data);
    if s.headers > 0 {
        lemma_held_spread(written, room, p.data);
        let placed = room.spread(p.data);
        let t = StreamView { headers: (s.headers - 1) as nat, granule: 0, ..placed };
        lemma_held_alike(written, placed, t);
        lemma_held_flush(written, t);
    } else {
        let marked = room.marked(p);
        lemma_held_alike(written, room, marked);
        lemma_held_spread(written, marked, p.data);
        let placed = marked.spread(p.data);
        let t = placed.stamped(p.pts);
        lemma_held_alike(written, placed, t);
        if p.unit_boundary {
            lemma_held_flush(written, t);
        }
    }
}

/// A stream that is opened with its first packet holds that packet.
pub proof fn law_opened(serial: u32, headers: nat, packet: Seq<u8>)
    ensures
        at_rest(StreamView::fresh(serial, headers).opened(packet)),
        holds(Seq::empty(), StreamView::fresh(serial, headers).opened(packet), seq![packet]),
{
    let none = Seq::<PageView>::empty();
    let s = StreamView::fresh(serial, headers).opened(packet);
    let first = stream_writer::opening_page(serial, 0, packet);
    assert(s.ready + stream_writer::as_list(s.pending) =~= seq![s.ready[0]]);
    let pages = finished_pages(none, s);
    assert(pages =~= seq![first]);
    lemma_held_unfold(none, s);
    assert(pages.drop_last() =~= none);
    framing::law_page_flags(false, true, false);
    framing::law_page_flags(false, false, false);
    lemma_assembled_packet(packet, Seq::empty(), false);
    assert(Seq::<u8>::empty() + packet =~= packet);
    assert(Seq::<Seq<u8>>::empty() + seq![packet] =~= seq![packet]);
    assert(framing::stream_packets(none) == Ok::<(Seq<Seq<u8>>, AssemblerView), Error>(
        (Seq::empty(), AssemblerView::fresh()),
    ));
    assert(framing::stream_packets(pages) == Ok::<(Seq<Seq<u8>>, AssemblerView), Error>(
        (seq![packet], framing_laws::idle(serial)),
    ));
    assert(seq![packet] + Seq::<Seq<u8>>::empty() =~= seq![packet]);
}

/// A stream of which nothing was written holds nothing.
pub proof fn law_fresh(serial: u32, headers: nat)
    ensures
        at_rest(StreamView::fresh(serial, headers)),
        holds(Seq::empty(), StreamView::fresh(serial, headers), Seq::empty()),
{
    let none = Seq::<PageView>::empty();
    let s = StreamView::fresh(serial, headers);
    assert(finished_pages(none, s) =~= none);
    lemma_held_unfold(none, s);
    framing::law_page_flags(false, true, false);
    assert(Seq::<Seq<u8>>::empty() + Seq::<Seq<u8>>::empty() =~= Seq::<Seq<u8>>::empty());
}

/// Making the held-back page ready, and writing the ready pages, changes
/// nothing that the stream holds.
pub proof fn law_moved_on(written: Seq<PageView>, s: StreamView, packets: Seq<Seq<u8>>)
    requires
        holds(written, s, packets),
    ensures
        holds(written, s.released(), packets),
        holds(written + pages_in(s.ready), s.emptied(), packets),
{
    let r = s.released();
    assert(r.ready + stream_writer::as_list(r.pending) =~= s.ready + stream_writer::as_list(
        s.pending,
    ));
    assert(finished_pages(written, r) == finished_pages(written, s));
    let e = s.emptied();
    let more = written + pages_in(s.ready);
    assert(finished_pages(more, e) =~= finished_pages(written, s));
}

/// A page marked as the last carries the same packets.
proof fn lemma_last_mark(pages: Seq<PageView>)
    requires
        pages.len() > 0,
        framing::stream_packets(pages) is Ok,
    ensures
        ({
            let last = pages.last();
            framing::stream_packets(
                pages.drop_last().push(
                    PageView { flags: last.flags | flags::LAST_PAGE, ..last },
                ),
            ) == framing::stream_packets(pages)
        }),
{
    let last = pages.last();
    let marked = PageView { flags: last.flags | flags::LAST_PAGE, ..last };
    let bits = last.flags;
    assert((bits | 4) & 1 == bits & 1) by (bit_vector);
    let after = pages.drop_last().push(marked);
    assert(after.drop_last() =~= pages.drop_last());
    let (before, state) = framing::stream_packets(pages.drop_last())->Ok_0;
    framing_laws::lemma_accept_alike(state, last, marked);
}

/// The pages of a closed stream carry exactly the packets that were written,
/// and every one of them is ready.
pub proof fn law_closed(written: Seq<PageView>, s: StreamView, packets: Seq<Seq<u8>>)
    requires
        s.consistent(),
        at_rest(s),
        holds(written, s, packets),
    ensures
        s.closed_off().pending is None,
        s.closed_off().lacing.len() == 0,
        framing::stream_packets(written + pages_in(s.closed_off().ready)) matches Ok((found, state))
            && found == packets,
        at_rest(s.closed_off()),
        holds(written, s.closed_off(), packets),
{
    let t = if s.lacing.len() > 0 {
        s.flushed()
    } else {
        s
    };
    let c = s.closed_off();
    lemma_held_unfold(written, s);
    if s.lacing.len() > 0 {
        lemma_held_flush(written, s);
    } else {
        framing::law_page_flags(s.continued, !s.started, false);
        let (before, state) = framing::stream_packets(finished_pages(written, s))->Ok_0;
        assert(before + Seq::<Seq<u8>>::empty() =~= before);
    }
    let pages = finished_pages(written, t);
    match t.pending {
        Some(p) => {
            let list = t.ready + stream_writer::as_list(t.pending);
            assert(list =~= t.ready.push(p));
            assert(pages_in(list) =~= pages_in(t.ready).push(p.page));
            assert(pages =~= (written + pages_in(t.ready)).push(p.page));
            assert(pages.drop_last() =~= written + pages_in(t.ready));
            lemma_last_mark(pages);
            let marked = PageView { flags: p.page.flags | flags::LAST_PAGE, ..p.page };
            assert(pages_in(c.ready) =~= pages_in(t.ready).push(marked));
            assert(written + pages_in(c.ready) =~= pages.drop_last().push(marked));
        },
        None => {
            assert(t.ready + stream_writer::as_list(t.pending) =~= t.ready);
        },
    }
    assert(c.ready + stream_writer::as_list(c.pending) =~= c.ready);
    assert(framing::stream_packets(finished_pages(written, c)) == framing::stream_packets(pages));
    lemma_held_unfold(written, t);
    lemma_held_unfold(written, c);
    framing::law_page_flags(t.continued, !t.started, false);
    framing::law_page_flags(c.continued, !c.started, false);
    let (before, state) = framing::stream_packets(pages)->Ok_0;
    framing_laws::lemma_accept_alike(state, t.open_page(), c.open_page());
}

/// Finishing a page keeps the parts together.
proof fn lemma_flushed_consistent(s: StreamView)
    requires
        s.consistent(),
    ensures
        s.flushed().consistent(),
{
    let v = s.flushed();
    assert forall|i: int| 0 <= i < v.ready.len() implies (#[trigger] v.ready[i]).page.wf()
        && v.ready[i].page.serial == v.serial by {
        if i < s.ready.len() {
            assert(v.ready[i] == s.ready[i]);
        }
    }
}

proof fn lemma_spread_consistent(s: StreamView, packet: Seq<u8>)
    requires
        s.consistent(),
        s.lacing.len() == 0 || s.lacing.len() + page::laced(packet.len()).len() <= 255,
    ensures
        s.spread(packet).consistent(),
    decreases packet.len(),
{
    page::law_laced(packet.len());
    if packet.len() < 65025 {
        page::lemma_body_len_concat(s.lacing, page::laced(packet.len()));
    } else {
        let run = Seq::new(255, |i: int| 255u8);
        lemma_assembled_run(255, packet.take(65025), Seq::empty(), false);
        page::lemma_body_len_concat(s.lacing, run);
        let full = s.with_segments(run, packet.take(65025));
        lemma_flushed_consistent(full);
        lemma_spread_consistent(full.flushed(), packet.skip(65025));
    }
}

/// Writing a packet keeps the parts together.
pub proof fn lemma_written_consistent(s: StreamView, p: PacketView)
    requires
        s.consistent(),
    ensures
        s.written(p).consistent(),
{
    lemma_flushed_consistent(s);
    page::law_laced(p.data.len());
    let room = s.with_room(p.data);
    if s.headers > 0 {
        lemma_spread_consistent(room, p.data);
        lemma_flushed_consistent(
            StreamView {
                headers: (s.headers - 1) as nat,
                granule: 0,
                ..room.spread(p.data)
            },
        );
    } else {
        lemma_spread_consistent(room.marked(p), p.data);
        lemma_flushed_consistent(room.marked(p).spread(p.data).stamped(p.pts));
    }
}

/// Closing a stream keeps the parts together.
pub proof fn lemma_closed_consistent(s: StreamView)
    requires
        s.consistent(),
    ensures
        s.closed_off().consistent(),
        s.closed_off().serial == s.serial,
        s.released().consistent(),
{
    lemma_flushed_consistent(s);
    let t = if s.lacing.len() > 0 {
        s.flushed()
    } else {
        s
    };
    let c = s.closed_off();
    assert forall|i: int| 0 <= i < c.ready.len() implies (#[trigger] c.ready[i]).page.wf()
        && c.ready[i].page.serial == c.serial by {
        if i < t.ready.len() {
            assert(c.ready[i] == t.ready[i]);
        }
    }
    let r = s.released();
    assert forall|i: int| 0 <= i < r.ready.len() implies (#[trigger] r.ready[i]).page.wf()
        && r.ready[i].page.serial == r.serial by {
        if i < s.ready.len() {
            assert(r.ready[i] == s.ready[i]);
        }
    }
}

/// The sequence numbers of pages follow each other, around the 32-bit circle.
pub open spec fn unbroken(pages: Seq<PageView>) -> bool {
    forall|i: int|
        0 < i < pages.len() ==> (#[trigger] pages[i]).seq_no == stream_writer::successor(
            pages[i - 1].seq_no,
        )
}

/// The finished pages of a stream follow each other, and so will the page that
/// is being filled.
pub open spec fn in_step(written: Seq<PageView>, s: StreamView) -> bool {
    let pages = finished_pages(written, s);
    &&& unbroken(pages)
    &&& pages.len() > 0 ==> s.seq_no == stream_writer::successor(pages.last().seq_no)
}

proof fn lemma_step_flush(written: Seq<PageView>, s: StreamView)
    requires
        in_step(written, s),
    ensures
        in_step(written, s.flushed()),
{
    let v = s.flushed();
    let before = finished_pages(written, s);
    let list = s.ready + stream_writer::as_list(s.pending);
    let after = v.ready + stream_writer::as_list(v.pending);
    assert(after =~= list.push(v.pending->Some_0));
    assert(pages_in(after) =~= pages_in(list).push(s.open_page()));
    let pages = finished_pages(written, v);
    assert(pages =~= before.push(s.open_page()));
    assert forall|i: int| 0 < i < pages.len() implies (#[trigger] pages[i]).seq_no
        == stream_writer::successor(pages[i - 1].seq_no) by {
        if i < before.len() {
            assert(pages[i] == before[i]);
        }
    }
}

proof fn lemma_step_spread(written: Seq<PageView>, s: StreamView, packet: Seq<u8>)
    requires
        in_step(written, s),
    ensures
        in_step(written, s.spread(packet)),
    decreases packet.len(),
{
    if packet.len() >= 65025 {
        let full = s.with_segments(Seq::new(255, |i: int| 255u8), packet.take(65025));
        assert(finished_pages(written, full) == finished_pages(written, s));
        lemma_step_flush(written, full);
        lemma_step_spread(written, full.flushed(), packet.skip(65025));
    } else {
        assert(finished_pages(written, s.spread(packet)) == finished_pages(written, s));
    }
}

/// Whatever packet is written, the pages of the stream follow each other.
pub proof fn law_written_in_step(written: Seq<PageView>, s: StreamView, p: PacketView)
    requires
        in_step(written, s),
    ensures
        in_step(written, s.written(p)),
{
    let room = s.with_room(p.data);
    lemma_step_flush(written, s);
    if s.headers > 0 {
        lemma_step_spread(written, room, p.data);
        let placed = room.spread(p.data);
        let t = StreamView { headers: (s.headers - 1) as nat, granule: 0, ..placed };
        assert(finished_pages(written, t) == finished_pages(written, placed));
        lemma_step_flush(written, t);
    } else {
        let marked = room.marked(p);
        assert(finished_pages(written, marked) == finished_pages(written, room));
        lemma_step_spread(written, marked, p.data);
        let placed = marked.spread(p.data);
        let t = placed.stamped(p.pts);
        assert(finished_pages(written, t) == finished_pages(written, placed));
        if p.unit_boundary {
            lemma_step_flush(written, t);
        }
    }
}

/// Streams of which nothing or the first packet was written are in step.
pub proof fn law_begun_in_step(serial: u32, headers: nat, packet: Seq<u8>)
    ensures
        in_step(Seq::empty(), StreamView::fresh(serial, headers)),
        in_step(Seq::empty(), StreamView::fresh(serial, headers).opened(packet)),
{
    let s = StreamView::fresh(serial, headers);
    assert(finished_pages(Seq::empty(), s) =~= Seq::<PageView>::empty());
    let t = s.opened(packet);
    assert(t.ready + stream_writer::as_list(t.pending) =~= seq![t.ready[0]]);
    assert(finished_pages(Seq::empty(), t) =~= seq![
        stream_writer::opening_page(serial, 0, packet),
    ]);
}

/// Making the held-back page ready, and writing the ready pages, keeps a stream
/// in step.
pub proof fn law_moved_in_step(written: Seq<PageView>, s: StreamView)
    requires
        in_step(written, s),
    ensures
        in_step(written, s.released()),
        in_step(written + pages_in(s.ready), s.emptied()),
{
    let r = s.released();
    assert(r.ready + stream_writer::as_list(r.pending) =~= s.ready + stream_writer::as_list(
        s.pending,
    ));
    let e = s.emptied();
    assert(finished_pages(written + pages_in(s.ready), e) =~= finished_pages(written, s));
}

/// A closed stream is in step.
pub proof fn law_closed_in_step(written: Seq<PageView>, s: StreamView)
    requires
        in_step(written, s),
    ensures
        in_step(written, s.closed_off()),
{
    let t = if s.lacing.len() > 0 {
        s.flushed()
    } else {
        s
    };
    lemma_step_flush(written, s);
    let c = s.closed_off();
    let before = finished_pages(written, t);
    assert(c.ready + stream_writer::as_list(c.pending) =~= c.ready);
    match t.pending {
        Some(p) => {
            let list = t.ready + stream_writer::as_list(t.pending);
            assert(list =~= t.ready.push(p));
            assert(pages_in(list) =~= pages_in(t.ready).push(p.page));
            let marked = PageView { flags: p.page.flags | flags::LAST_PAGE, ..p.page };
            assert(pages_in(c.ready) =~= pages_in(t.ready).push(marked));
            let pages = finished_pages(written, c);
            assert(before =~= (written + pages_in(t.ready)).push(p.page));
            assert(pages =~= before.drop_last().push(marked));
            assert forall|i: int| 0 < i < pages.len() implies (#[trigger] pages[i]).seq_no
                == stream_writer::successor(pages[i - 1].seq_no) by {
                assert(before[i].seq_no == stream_writer::successor(before[i - 1].seq_no));
            }
        },
        None => {
            assert(t.ready + stream_writer::as_list(t.pending) =~= t.ready);
        },
    }
}

} // verus!
