//! What holds of every stream that a page writer produces.
use crate::error::Error;
use crate::framing;
use crate::framing::{AssemblerView, WriterView};
use crate::page;
use crate::page::{flags, PageView};
use vstd::prelude::*;

verus! {

/// One operation on a page writer.
pub enum WriterOp {
    /// A packet is appended with a granule position.
    Push(Seq<u8>, i64),
    /// A page boundary is forced.
    Flush,
    /// The page-size target is changed or cleared.
    Target(Option<usize>),
}

/// The writer behind a sequence of operations.
pub open spec fn run(serial: u32, ops: Seq<WriterOp>) -> WriterView
    decreases ops.len(),
{
    if ops.len() == 0 {
        WriterView::fresh(serial)
    } else {
        let before = run(serial, ops.drop_last());
        match ops.last() {
            WriterOp::Push(packet, granule) => before.push(packet, granule),
            WriterOp::Flush => before.flush(),
            WriterOp::Target(target) => WriterView { target, ..before },
        }
    }
}

/// The packets that a sequence of operations appends.
pub open spec fn pushed(ops: Seq<WriterOp>) -> Seq<Seq<u8>>
    decreases ops.len(),
{
    if ops.len() == 0 {
        Seq::empty()
    } else {
        match ops.last() {
            WriterOp::Push(packet, granule) => pushed(ops.drop_last()).push(packet),
            _ => pushed(ops.drop_last()),
        }
    }
}

/// An assembler between two packets of the stream `serial`.
pub open spec fn idle(serial: u32) -> AssemblerView {
    AssemblerView { serial: Some(serial), pending: Seq::empty(), mid_packet: false }
}

/// The packets of all that a writer holds, the page it is filling included.
pub open spec fn held(w: WriterView) -> Result<(Seq<Seq<u8>>, AssemblerView), Error> {
    framing::stream_packets(w.pages.push(w.open_page(false)))
}

/// Only the body bytes that the table accounts for matter to assembly.
pub proof fn lemma_assembled_prefix(
    lacing: Seq<u8>,
    a: Seq<u8>,
    b: Seq<u8>,
    pending: Seq<u8>,
    mid_packet: bool,
)
    requires
        page::body_len(lacing) <= a.len(),
        page::body_len(lacing) <= b.len(),
        a.take(page::body_len(lacing) as int) == b.take(page::body_len(lacing) as int),
    ensures
        framing::assembled(lacing, a, pending, mid_packet) == framing::assembled(
            lacing,
            b,
            pending,
            mid_packet,
        ),
    decreases lacing.len(),
{
    if lacing.len() > 0 {
        let n = page::body_len(lacing) as int;
        let m = page::body_len(lacing.drop_last()) as int;
        assert(a.take(n).take(m) =~= a.take(m));
        assert(b.take(n).take(m) =~= b.take(m));
        lemma_assembled_prefix(lacing.drop_last(), a, b, pending, mid_packet);
        assert(a.take(n).subrange(m, n) =~= a.subrange(m, n));
        assert(b.take(n).subrange(m, n) =~= b.subrange(m, n));
    }
}

/// Assembly does not look at the first and last marks, the granule position or
/// the sequence number of a page that it accepts.
pub proof fn lemma_accept_alike(state: AssemblerView, p: PageView, q: PageView)
    requires
        p.serial == q.serial,
        p.lacing == q.lacing,
        p.data == q.data,
        page::flag_set(p.flags, flags::CONTINUED) == page::flag_set(q.flags, flags::CONTINUED),
        state.accept(p).0 is Ok,
    ensures
        state.accept(q) == state.accept(p),
{
}

proof fn lemma_held_unfold(w: WriterView)
    ensures
        held(w) == (match framing::stream_packets(w.pages) {
            Err(e) => Err::<(Seq<Seq<u8>>, AssemblerView), Error>(e),
            Ok((packets, state)) => {
                let (r, next) = state.accept(w.open_page(false));
                match r {
                    Err(e) => Err(e),
                    Ok(done) => Ok((packets + done, next)),
                }
            },
        }),
{
    assert(w.pages.push(w.open_page(false)).drop_last() =~= w.pages);
}

/// One more segment: 255 bytes keep the packet open, fewer end it.
proof fn lemma_held_segment(w: WriterView, piece: Seq<u8>)
    requires
        w.consistent(),
        w.lacing.len() < 255,
        piece.len() <= 255,
        held(w) is Ok,
    ensures
        w.segment(piece).consistent(),
        ({
            let (packets, state) = held(w)->Ok_0;
            held(w.segment(piece)) == Ok::<(Seq<Seq<u8>>, AssemblerView), Error>(
                if piece.len() < 255 {
                    (packets.push(state.pending + piece), idle(w.serial))
                } else {
                    (
                        packets,
                        AssemblerView { pending: state.pending + piece, mid_packet: true, ..state },
                    )
                },
            )
        }),
{
    let v = w.segment(piece);
    let l = piece.len() as u8;
    assert(v.lacing.drop_last() =~= w.lacing);
    assert(v.pages == w.pages);
    lemma_held_unfold(w);
    lemma_held_unfold(v);
    framing::law_page_flags(w.continued, w.pages.len() == 0, false);
    let (before, state) = framing::stream_packets(w.pages)->Ok_0;
    let n = page::body_len(w.lacing) as int;
    assert(v.body.take(n) =~= w.body.take(n));
    lemma_assembled_prefix(w.lacing, v.body, w.body, state.pending, state.mid_packet);
    assert(v.body.subrange(n, n + l) =~= piece);
    let a = framing::assembled(w.lacing, w.body, state.pending, state.mid_packet);
    if piece.len() < 255 {
        assert(before + a.done.push(a.pending + piece) =~= (before + a.done).push(
            a.pending + piece,
        ));
    }
}

/// Emitting a page changes nothing that is held, if the next page is marked as
/// a continuation exactly when a packet is open.
proof fn lemma_held_emit(w: WriterView, next_continued: bool, last: bool)
    requires
        w.consistent(),
        held(w) is Ok,
        next_continued == held(w)->Ok_0.1.mid_packet,
    ensures
        w.emit(next_continued, last).consistent(),
        held(w.emit(next_continued, last)) == held(w),
        framing::stream_packets(w.emit(next_continued, last).pages) == held(w),
{
    let v = w.emit(next_continued, last);
    lemma_held_unfold(w);
    lemma_held_unfold(v);
    framing::law_page_flags(w.continued, w.pages.len() == 0, false);
    framing::law_page_flags(w.continued, w.pages.len() == 0, last);
    framing::law_page_flags(v.continued, v.pages.len() == 0, false);
    let (before, state) = framing::stream_packets(w.pages)->Ok_0;
    assert(v.pages.drop_last() =~= w.pages);
    lemma_accept_alike(state, w.open_page(false), w.open_page(last));
    let (packets, next) = held(w)->Ok_0;
    assert(packets + Seq::<Seq<u8>>::empty() =~= packets);
    assert(v.open_page(false).lacing.len() == 0);
    assert(next.accept(v.open_page(false)).1 == next);
}

/// Laying out the rest of a packet ends exactly that packet.
proof fn lemma_held_segments(w: WriterView, rest: Seq<u8>, granule: i64)
    requires
        w.consistent(),
        held(w) is Ok,
        w.lacing.len() >= 255 ==> held(w)->Ok_0.1.mid_packet,
    ensures
        w.segments(rest, granule).consistent(),
        w.segments(rest, granule).serial == w.serial,
        held(w.segments(rest, granule)) == Ok::<(Seq<Seq<u8>>, AssemblerView), Error>(
            (held(w)->Ok_0.0.push(held(w)->Ok_0.1.pending + rest), idle(w.serial)),
        ),
    decreases
            rest.len(),
            (if w.lacing.len() >= 255 {
                1int
            } else {
                0
            }),
{
    let (packets, state) = held(w)->Ok_0;
    if w.lacing.len() >= 255 {
        lemma_held_emit(w, true, false);
        lemma_held_segments(w.emit(true, false), rest, granule);
    } else if rest.len() >= 255 {
        lemma_held_segment(w, rest.take(255));
        lemma_held_segments(w.segment(rest.take(255)), rest.skip(255), granule);
        assert(state.pending + rest.take(255) + rest.skip(255) =~= state.pending + rest);
    } else {
        lemma_held_segment(w, rest);
        let v = w.segment(rest);
        let stamped = WriterView { granule: Some(granule), ..v };
        lemma_held_unfold(v);
        lemma_held_unfold(stamped);
        let (before, inner) = framing::stream_packets(v.pages)->Ok_0;
        lemma_accept_alike(inner, v.open_page(false), stamped.open_page(false));
        assert(held(stamped) == held(v));
        if v.target is Some && v.body.len() >= v.target->Some_0 {
            lemma_held_emit(stamped, false, false);
        }
    }
}

/// Writing a packet adds exactly that packet to what is held.
proof fn lemma_held_push(w: WriterView, packet: Seq<u8>, granule: i64, packets: Seq<Seq<u8>>)
    requires
        w.consistent(),
        held(w) == Ok::<(Seq<Seq<u8>>, AssemblerView), Error>((packets, idle(w.serial))),
    ensures
        w.push(packet, granule).consistent(),
        w.push(packet, granule).serial == w.serial,
        held(w.push(packet, granule)) == Ok::<(Seq<Seq<u8>>, AssemblerView), Error>(
            (packets.push(packet), idle(w.serial)),
        ),
{
    assert(Seq::<u8>::empty() + packet =~= packet);
    if w.lacing.len() == 255 {
        lemma_held_emit(w, false, false);
        lemma_held_segments(w.emit(false, false), packet, granule);
    } else {
        lemma_held_segments(w, packet, granule);
    }
}

proof fn lemma_held_run(serial: u32, ops: Seq<WriterOp>)
    ensures
        run(serial, ops).consistent(),
        run(serial, ops).serial == serial,
        held(run(serial, ops)) == Ok::<(Seq<Seq<u8>>, AssemblerView), Error>(
            (pushed(ops), idle(serial)),
        ),
    decreases ops.len(),
{
    let w = run(serial, ops);
    if ops.len() == 0 {
        lemma_held_unfold(w);
        framing::law_page_flags(false, true, false);
        assert(pushed(ops) + Seq::<Seq<u8>>::empty() =~= pushed(ops));
    } else {
        let before = run(serial, ops.drop_last());
        lemma_held_run(serial, ops.drop_last());
        match ops.last() {
            WriterOp::Push(packet, granule) => {
                lemma_held_push(before, packet, granule, pushed(ops.drop_last()));
            },
            WriterOp::Flush => {
                if before.lacing.len() > 0 {
                    lemma_held_emit(before, false, false);
                }
            },
            WriterOp::Target(target) => {
                assert(w.open_page(false) == before.open_page(false));
            },
        }
    }
}

/// Whatever packets are written, and wherever page boundaries fall, reading
/// the closed stream gives back exactly those packets in their order.
pub proof fn law_round_trip(serial: u32, ops: Seq<WriterOp>)
    ensures
        framing::packets_of(framing::bytes_of(run(serial, ops).finished())) == Ok::<
            Seq<Seq<u8>>,
            Error,
        >(pushed(ops)),
{
    let w = run(serial, ops);
    lemma_held_run(serial, ops);
    let pages = w.finished();
    lemma_held_unfold(w);
    if w.lacing.len() > 0 {
        lemma_held_emit(w, false, true);
        framing::law_pages_of_bytes_of(pages);
    } else if w.pages.len() > 0 {
        let last = w.pages.last();
        let marked = PageView { flags: last.flags | flags::LAST_PAGE, ..last };
        let (before, state) = framing::stream_packets(w.pages.drop_last())->Ok_0;
        let bits = last.flags;
        assert((bits | 4) & 1 == bits & 1) by (bit_vector);
        lemma_accept_alike(state, last, marked);
        assert(pages.drop_last() =~= w.pages.drop_last());
        assert(framing::stream_packets(pages) == framing::stream_packets(w.pages));
        let (packets, next) = framing::stream_packets(w.pages)->Ok_0;
        assert(packets + Seq::<Seq<u8>>::empty() =~= packets);
        assert forall|i: int| 0 <= i < pages.len() implies (#[trigger] pages[i]).wf() by {
            assert(w.pages[i].wf());
        }
        framing::law_pages_of_bytes_of(pages);
    } else {
        assert(framing::stream_packets(w.pages)->Ok_0.0 =~= pushed(ops)) by {
            assert(Seq::<Seq<u8>>::empty() + Seq::<Seq<u8>>::empty() =~= Seq::empty());
        }
        framing::law_pages_of_bytes_of(pages);
    }
}

/// Page `i` of a stream that is laid out as a writer lays it out: numbered,
/// marked first exactly where it is the first, continued exactly where the page
/// before it left a packet open, stamped with -1 where no packet ends on it,
/// and marked last exactly where it is the last page of a closed stream.
pub open spec fn well_placed(serial: u32, pages: Seq<PageView>, i: int, closed: bool) -> bool {
    let p = pages[i];
    let continued = i > 0 && page::ends_open(pages[i - 1].lacing);
    &&& p.wf()
    &&& p.lacing.len() > 0
    &&& p.serial == serial
    &&& p.seq_no == i as u32
    &&& p.flags == framing::page_flags(continued, i == 0, closed && i == pages.len() - 1)
    &&& page::packets_ended(p.lacing) == 0 ==> p.granule_position == -1
}

/// The emitted pages are well placed, and the page being filled will be.
spec fn well_paged(w: WriterView) -> bool {
    &&& w.consistent()
    &&& forall|i: int|
        0 <= i < w.pages.len() ==> #[trigger] well_placed(w.serial, w.pages, i, false)
    &&& w.continued == (w.pages.len() > 0 && page::ends_open(w.pages.last().lacing))
    &&& page::packets_ended(w.lacing) == 0 ==> w.granule is None
}

proof fn lemma_emit_placed(w: WriterView, last: bool)
    requires
        well_paged(w),
        w.lacing.len() > 0,
    ensures
        ({
            let v = w.emit(page::ends_open(w.lacing), last);
            &&& forall|i: int|
                0 <= i < v.pages.len() ==> #[trigger] well_placed(w.serial, v.pages, i, last)
            &&& !last ==> well_paged(v)
        }),
{
    let v = w.emit(page::ends_open(w.lacing), last);
    assert forall|i: int| 0 <= i < v.pages.len() implies #[trigger] well_placed(
        w.serial,
        v.pages,
        i,
        last,
    ) by {
        if i < w.pages.len() {
            assert(well_placed(w.serial, w.pages, i, false));
        } else {
            assert(v.pages[i] == w.open_page(last));
        }
    }
}

proof fn lemma_segments_placed(w: WriterView, rest: Seq<u8>, granule: i64)
    requires
        well_paged(w),
        w.lacing.len() >= 255 ==> page::ends_open(w.lacing),
    ensures
        well_paged(w.segments(rest, granule)),
        w.segments(rest, granule).at_rest(),
        w.segments(rest, granule).serial == w.serial,
    decreases
            rest.len(),
            (if w.lacing.len() >= 255 {
                1int
            } else {
                0
            }),
{
    if w.lacing.len() >= 255 {
        lemma_emit_placed(w, false);
        lemma_segments_placed(w.emit(true, false), rest, granule);
    } else if rest.len() >= 255 {
        let v = w.segment(rest.take(255));
        assert(v.lacing.drop_last() =~= w.lacing);
        lemma_segments_placed(v, rest.skip(255), granule);
    } else {
        let v = w.segment(rest);
        assert(v.lacing.drop_last() =~= w.lacing);
        let stamped = WriterView { granule: Some(granule), ..v };
        assert forall|i: int| 0 <= i < stamped.pages.len() implies #[trigger] well_placed(
            stamped.serial,
            stamped.pages,
            i,
            false,
        ) by {
            assert(well_placed(w.serial, w.pages, i, false));
        }
        if v.target is Some && v.body.len() >= v.target->Some_0 {
            lemma_emit_placed(stamped, false);
        }
    }
}

proof fn lemma_run_placed(serial: u32, ops: Seq<WriterOp>)
    ensures
        well_paged(run(serial, ops)),
        run(serial, ops).at_rest(),
        run(serial, ops).serial == serial,
    decreases ops.len(),
{
    if ops.len() > 0 {
        let before = run(serial, ops.drop_last());
        lemma_run_placed(serial, ops.drop_last());
        match ops.last() {
            WriterOp::Push(packet, granule) => {
                if before.lacing.len() == 255 {
                    lemma_emit_placed(before, false);
                    lemma_segments_placed(before.emit(false, false), packet, granule);
                } else {
                    lemma_segments_placed(before, packet, granule);
                }
            },
            WriterOp::Flush => {
                if before.lacing.len() > 0 {
                    lemma_emit_placed(before, false);
                }
            },
            WriterOp::Target(target) => {
                let w = run(serial, ops);
                assert forall|i: int| 0 <= i < w.pages.len() implies #[trigger] well_placed(
                    w.serial,
                    w.pages,
                    i,
                    false,
                ) by {
                    assert(well_placed(before.serial, before.pages, i, false));
                }
            },
        }
    }
}

/// The pages of a closed stream count up from 0; exactly the first is marked
/// first and exactly the last is marked last; a page is continued exactly when
/// the page before it left a packet open; the last page leaves none open; and a
/// page on which no packet ends is stamped -1. Closing adds a page only for
/// segments that were waiting.
pub proof fn law_finished_pages(serial: u32, ops: Seq<WriterOp>)
    ensures
        ({
            let pages = run(serial, ops).finished();
            &&& forall|i: int|
                0 <= i < pages.len() ==> #[trigger] well_placed(serial, pages, i, true)
            &&& pages.len() > 0 ==> !page::ends_open(pages.last().lacing)
            &&& pages.len() == run(serial, ops).pages.len() + if run(serial, ops).lacing.len() > 0 {
                1int
            } else {
                0
            }
        }),
{
    let w = run(serial, ops);
    let pages = w.finished();
    lemma_run_placed(serial, ops);
    if w.lacing.len() > 0 {
        lemma_emit_placed(w, true);
        assert forall|i: int| 0 <= i < pages.len() implies #[trigger] well_placed(
            serial,
            pages,
            i,
            true,
        ) by {
            assert(well_placed(w.serial, w.emit(false, true).pages, i, true));
        }
    } else if w.pages.len() > 0 {
        let n = w.pages.len() - 1;
        assert(well_placed(serial, w.pages, n, false));
        framing::law_page_flags(
            n > 0 && page::ends_open(w.pages[n - 1].lacing),
            n == 0,
            false,
        );
        assert forall|i: int| 0 <= i < pages.len() implies #[trigger] well_placed(
            serial,
            pages,
            i,
            true,
        ) by {
            assert(well_placed(serial, w.pages, i, false));
        }
    }
}

/// A stream to which no packet was written has no pages; one to which a packet
/// was written has some.
pub proof fn law_finished_empty(serial: u32, ops: Seq<WriterOp>)
    ensures
        pushed(ops).len() == 0 <==> run(serial, ops).finished().len() == 0,
{
    lemma_held_run(serial, ops);
    lemma_run_placed(serial, ops);
    let w = run(serial, ops);
    lemma_held_unfold(w);
    if w.lacing.len() == 0 && w.pages.len() == 0 {
    } else {
        law_finished_pages(serial, ops);
        law_round_trip(serial, ops);
        let pages = w.finished();
        assert forall|i: int| 0 <= i < pages.len() implies (#[trigger] pages[i]).wf() by {
            assert(well_placed(serial, pages, i, true));
        }
        framing::law_pages_of_bytes_of(pages);
        assert(well_placed(serial, pages, pages.len() - 1, true));
        lemma_some_packet(pages);
    }
}

/// Pages that close their last packet carry a packet.
proof fn lemma_some_packet(pages: Seq<PageView>)
    requires
        pages.len() > 0,
        pages.last().lacing.len() > 0,
        !page::ends_open(pages.last().lacing),
        framing::stream_packets(pages) is Ok,
    ensures
        framing::stream_packets(pages)->Ok_0.0.len() > 0,
{
}

/// The granule positions of the packets that a sequence of operations appends.
pub open spec fn granules_pushed(ops: Seq<WriterOp>) -> Seq<i64>
    decreases ops.len(),
{
    if ops.len() == 0 {
        Seq::empty()
    } else {
        match ops.last() {
            WriterOp::Push(packet, granule) => granules_pushed(ops.drop_last()).push(granule),
            _ => granules_pushed(ops.drop_last()),
        }
    }
}

/// Number of packets that end on pages.
pub open spec fn ended_on(pages: Seq<PageView>) -> nat
    decreases pages.len(),
{
    if pages.len() == 0 {
        0
    } else {
        ended_on(pages.drop_last()) + page::packets_ended(pages.last().lacing)
    }
}

/// Page `i` bears the granule position of the last packet that ends on it, and
/// -1 where none does.
pub open spec fn bears_last(pages: Seq<PageView>, granules: Seq<i64>, i: int) -> bool {
    let n = ended_on(pages.take(i + 1));
    if page::packets_ended(pages[i].lacing) == 0 {
        pages[i].granule_position == -1
    } else {
        &&& 0 < n <= granules.len()
        &&& pages[i].granule_position == granules[n - 1]
    }
}

/// The emitted pages bear the granule positions of the packets that end on
/// them, and the page being filled will.
spec fn well_stamped(w: WriterView, granules: Seq<i64>) -> bool {
    let n = page::packets_ended(w.lacing);
    &&& ended_on(w.pages) + n == granules.len()
    &&& w.granule == if n == 0 {
        None
    } else {
        Some(granules.last())
    }
    &&& forall|i: int| 0 <= i < w.pages.len() ==> #[trigger] bears_last(w.pages, granules, i)
}

proof fn lemma_emit_stamped(
    w: WriterView,
    granules: Seq<i64>,
    next_continued: bool,
    last: bool,
)
    requires
        well_stamped(w, granules),
    ensures
        well_stamped(w.emit(next_continued, last), granules),
{
    let v = w.emit(next_continued, last);
    assert(v.pages.drop_last() =~= w.pages);
    assert forall|i: int| 0 <= i < v.pages.len() implies #[trigger] bears_last(
        v.pages,
        granules,
        i,
    ) by {
        if i < w.pages.len() {
            assert(bears_last(w.pages, granules, i));
            assert(v.pages.take(i + 1) =~= w.pages.take(i + 1));
        } else {
            assert(v.pages.take(i + 1) =~= v.pages);
        }
    }
}

proof fn lemma_segments_stamped(
    w: WriterView,
    granules: Seq<i64>,
    rest: Seq<u8>,
    granule: i64,
)
    requires
        well_stamped(w, granules),
    ensures
        well_stamped(w.segments(rest, granule), granules.push(granule)),
    decreases
            rest.len(),
            (if w.lacing.len() >= 255 {
                1int
            } else {
                0
            }),
{
    if w.lacing.len() >= 255 {
        lemma_emit_stamped(w, granules, true, false);
        lemma_segments_stamped(w.emit(true, false), granules, rest, granule);
    } else if rest.len() >= 255 {
        let v = w.segment(rest.take(255));
        assert(v.lacing.drop_last() =~= w.lacing);
        assert forall|i: int| 0 <= i < v.pages.len() implies #[trigger] bears_last(
            v.pages,
            granules,
            i,
        ) by {
            assert(bears_last(w.pages, granules, i));
        }
        lemma_segments_stamped(v, granules, rest.skip(255), granule);
    } else {
        let v = w.segment(rest);
        assert(v.lacing.drop_last() =~= w.lacing);
        let stamped = WriterView { granule: Some(granule), ..v };
        let more = granules.push(granule);
        assert forall|i: int| 0 <= i < stamped.pages.len() implies #[trigger] bears_last(
            stamped.pages,
            more,
            i,
        ) by {
            assert(bears_last(w.pages, granules, i));
        }
        lemma_emit_stamped(stamped, more, false, false);
    }
}

proof fn lemma_run_stamped(serial: u32, ops: Seq<WriterOp>)
    ensures
        well_stamped(run(serial, ops), granules_pushed(ops)),
    decreases ops.len(),
{
    if ops.len() > 0 {
        let before = run(serial, ops.drop_last());
        let granules = granules_pushed(ops.drop_last());
        lemma_run_stamped(serial, ops.drop_last());
        match ops.last() {
            WriterOp::Push(packet, granule) => {
                if before.lacing.len() == 255 {
                    lemma_emit_stamped(before, granules, false, false);
                    lemma_segments_stamped(before.emit(false, false), granules, packet, granule);
                } else {
                    lemma_segments_stamped(before, granules, packet, granule);
                }
            },
            WriterOp::Flush => {
                lemma_emit_stamped(before, granules, false, false);
            },
            WriterOp::Target(target) => {
                let w = run(serial, ops);
                assert forall|i: int| 0 <= i < w.pages.len() implies #[trigger] bears_last(
                    w.pages,
                    granules,
                    i,
                ) by {
                    assert(bears_last(before.pages, granules, i));
                }
            },
        }
    }
}

/// Every page of a closed stream bears the granule position of the last packet
/// that ends on it, and -1 where none does; each packet ends on one page.
pub proof fn law_page_granules(serial: u32, ops: Seq<WriterOp>)
    ensures
        ({
            let pages = run(serial, ops).finished();
            let granules = granules_pushed(ops);
            &&& ended_on(pages) == granules.len()
            &&& forall|i: int| 0 <= i < pages.len() ==> #[trigger] bears_last(pages, granules, i)
        }),
{
    let w = run(serial, ops);
    let pages = w.finished();
    let granules = granules_pushed(ops);
    lemma_run_stamped(serial, ops);
    if w.lacing.len() > 0 {
        lemma_emit_stamped(w, granules, false, true);
        assert(pages == w.emit(false, true).pages);
    } else if w.pages.len() > 0 {
        assert(pages.drop_last() =~= w.pages.drop_last());
        assert forall|i: int| 0 <= i < pages.len() implies #[trigger] bears_last(
            pages,
            granules,
            i,
        ) by {
            assert(bears_last(w.pages, granules, i));
            if i < pages.len() - 1 {
                assert(pages.take(i + 1) =~= w.pages.take(i + 1));
            } else {
                assert(pages.take(i + 1) =~= pages);
                assert(w.pages.take(i + 1) =~= w.pages);
            }
        }
    }
}

/// No operation changes the page-size target.
pub open spec fn steady(ops: Seq<WriterOp>) -> bool {
    forall|i: int| 0 <= i < ops.len() ==> !((#[trigger] ops[i]) is Target)
}

/// The places of the pages that a forced boundary emitted.
pub open spec fn forced(serial: u32, ops: Seq<WriterOp>) -> Set<int>
    decreases ops.len(),
{
    if ops.len() == 0 {
        Set::empty()
    } else {
        let before = run(serial, ops.drop_last());
        let places = forced(serial, ops.drop_last());
        if ops.last() is Flush && before.lacing.len() > 0 {
            places.insert(before.pages.len() as int)
        } else {
            places
        }
    }
}

/// A page was emitted because its body came to the target: it holds that much,
/// and it ends with the end of a packet.
pub open spec fn at_target(p: PageView, target: usize) -> bool {
    &&& p.data.len() >= target
    &&& p.lacing.len() > 0
    &&& !page::ends_open(p.lacing)
}

/// Only a full segment table or the target closes a page.
spec fn pages_filled(w: WriterView, places: Set<int>, target: usize) -> bool {
    &&& w.target == Some(target)
    &&& forall|i: int|
        0 <= i < w.pages.len() && !places.contains(i) ==> {
            let p = #[trigger] w.pages[i];
            p.lacing.len() == 255 || at_target(p, target)
        }
    &&& forall|i: int|
        0 <= i < w.pages.len() ==> {
            let p = #[trigger] w.pages[i];
            page::ends_open(p.lacing) ==> p.lacing.len() == 255
        }
}

proof fn lemma_segments_filled(
    w: WriterView,
    places: Set<int>,
    target: usize,
    rest: Seq<u8>,
    granule: i64,
)
    requires
        pages_filled(w, places, target),
        w.lacing.len() <= 255,
    ensures
        pages_filled(w.segments(rest, granule), places, target),
        w.segments(rest, granule).lacing.len() <= 255,
        w.segments(rest, granule).body.len() < target || w.segments(rest, granule).body.len() == 0,
        w.segments(rest, granule).at_rest(),
    decreases
            rest.len(),
            (if w.lacing.len() >= 255 {
                1int
            } else {
                0
            }),
{
    if w.lacing.len() >= 255 {
        lemma_segments_filled(w.emit(true, false), places, target, rest, granule);
    } else if rest.len() >= 255 {
        lemma_segments_filled(
            w.segment(rest.take(255)),
            places,
            target,
            rest.skip(255),
            granule,
        );
    }
}

/// With a page-size target that is kept, less than the target waits behind every
/// packet, or nothing does. A page that is neither full nor closed by a forced
/// boundary holds at least the target and ends with the end of a packet. No
/// packet is split but at a full segment table.
pub proof fn law_target_pages(serial: u32, target: usize, ops: Seq<WriterOp>)
    requires
        steady(ops),
    ensures
        ({
            let all = seq![WriterOp::Target(Some(target))] + ops;
            let w = run(serial, all);
            &&& ops.len() > 0 && ops.last() is Push ==> w.body.len() < target || w.body.len() == 0
            &&& forall|i: int|
                0 <= i < w.pages.len() && !forced(serial, all).contains(i) ==> {
                    let p = #[trigger] w.pages[i];
                    p.lacing.len() == 255 || at_target(p, target)
                }
            &&& forall|i: int|
                0 <= i < w.pages.len() ==> {
                    let p = #[trigger] w.pages[i];
                    page::ends_open(p.lacing) ==> p.lacing.len() == 255
                }
        }),
{
    lemma_run_filled(serial, target, ops);
}

proof fn lemma_run_filled(serial: u32, target: usize, ops: Seq<WriterOp>)
    requires
        steady(ops),
    ensures
        ({
            let all = seq![WriterOp::Target(Some(target))] + ops;
            let w = run(serial, all);
            &&& pages_filled(w, forced(serial, all), target)
            &&& w.lacing.len() <= 255
            &&& w.at_rest()
            &&& ops.len() > 0 && ops.last() is Push ==> w.body.len() < target || w.body.len() == 0
        }),
    decreases ops.len(),
{
    let all = seq![WriterOp::Target(Some(target))] + ops;
    if ops.len() == 0 {
        assert(all.drop_last() =~= Seq::<WriterOp>::empty());
        assert(all.last() == WriterOp::Target(Some(target)));
        assert(run(serial, all.drop_last()) == WriterView::fresh(serial));
    } else {
        let front = ops.drop_last();
        assert forall|i: int| 0 <= i < front.len() implies !((#[trigger] front[i]) is Target) by {
            assert(!(ops[i] is Target));
        }
        lemma_run_filled(serial, target, front);
        assert(all.drop_last() =~= seq![WriterOp::Target(Some(target))] + front);
        assert(all.last() == ops.last());
        assert(!(ops[ops.len() - 1] is Target));
        let before = run(serial, all.drop_last());
        let places = forced(serial, all.drop_last());
        match ops.last() {
            WriterOp::Push(packet, granule) => {
                if before.lacing.len() == 255 {
                    lemma_segments_filled(
                        before.emit(false, false),
                        places,
                        target,
                        packet,
                        granule,
                    );
                } else {
                    lemma_segments_filled(before, places, target, packet, granule);
                }
            },
            WriterOp::Flush => {},
            WriterOp::Target(other) => {},
        }
    }
}

/// Behind a forced boundary nothing waits, and the next page continues no
/// packet. It emits one page where a segment was waiting, and otherwise changes
/// nothing; nor does a second one behind it.
pub proof fn law_flush(serial: u32, ops: Seq<WriterOp>)
    ensures
        ({
            let w = run(serial, ops);
            let v = w.flush();
            &&& v.body.len() == 0
            &&& v.lacing.len() == 0
            &&& !v.continued
            &&& if w.lacing.len() > 0 {
                v.pages == w.pages.push(w.open_page(false))
            } else {
                v == w
            }
            &&& v.flush() == v
        }),
{
    lemma_held_run(serial, ops);
    lemma_run_placed(serial, ops);
}

/// A page is emitted once its body has come to the target size: behind a packet,
/// less than that waits to be emitted, or nothing does.
pub proof fn law_target_kept(w: WriterView, packet: Seq<u8>, granule: i64)
    requires
        w.target is Some,
    ensures
        ({
            let v = w.push(packet, granule);
            v.target == w.target && (v.body.len() < w.target->Some_0 || v.body.len() == 0)
        }),
{
    if w.lacing.len() == 255 {
        lemma_target_kept(w.emit(false, false), packet, granule);
    } else {
        lemma_target_kept(w, packet, granule);
    }
}

proof fn lemma_target_kept(w: WriterView, rest: Seq<u8>, granule: i64)
    requires
        w.target is Some,
    ensures
        ({
            let v = w.segments(rest, granule);
            v.target == w.target && (v.body.len() < w.target->Some_0 || v.body.len() == 0)
        }),
    decreases
            rest.len(),
            (if w.lacing.len() >= 255 {
                1int
            } else {
                0
            }),
{
    if w.lacing.len() >= 255 {
        lemma_target_kept(w.emit(true, false), rest, granule);
    } else if rest.len() >= 255 {
        lemma_target_kept(w.segment(rest.take(255)), rest.skip(255), granule);
    }
}

} // verus!
