//! What holds of reading that goes on behind a seek.
use crate::demux::demux_laws;
use crate::demux::demuxer::DemuxView;
use crate::demux::logical;
use crate::demux::logical::LogicalView;
use crate::demux::whole_laws;
use crate::framing;
use crate::framing::AssemblerView;
use crate::mux::mux_laws;
use crate::mux::stream_laws;
use crate::mux::stream_writer;
use crate::page;
use crate::page::{flags, PageView, SegmentView};
use vstd::prelude::*;

verus! {

/// Behind a flush no page is taken to be missing, and what was open before it
/// has no part in the packets that follow.
pub proof fn law_flush_forgets(s: LogicalView, p: PageView)
    ensures
        !s.flushed().misses(p),
        s.flushed().gather(p) == logical::gathered(
            page::segments(p.lacing),
            p.data,
            page::flag_set(p.flags, flags::CONTINUED),
            Seq::empty(),
            false,
        ),
{
}

/// Only the last piece of a page can be left open.
proof fn lemma_pieces_end(lacing: Seq<u8>)
    ensures
        forall|i: int|
            0 <= i < page::segments(lacing).len() - 1 ==> (#[trigger] page::segments(
                lacing,
            )[i]).terminated,
    decreases lacing.len(),
{
    if lacing.len() > 0 {
        lemma_pieces_end(lacing.drop_last());
        let before = page::segments(lacing.drop_last());
        let all = page::segments(lacing);
        assert forall|i: int| 0 <= i < all.len() - 1 implies (#[trigger] all[i]).terminated by {
            assert(all[i] == before[i]);
        }
    }
}

/// Where the beginning of the packet that a page continues is not there, only
/// that packet is lost.
proof fn lemma_headless(pieces: Seq<SegmentView>, data: Seq<u8>, pending: Seq<u8>)
    requires
        forall|i: int| 0 <= i < pieces.len() - 1 ==> (#[trigger] pieces[i]).terminated,
    ensures
        ({
            let g = logical::gathered(pieces, data, true, pending, true);
            let h = logical::gathered(pieces, data, true, Seq::empty(), false);
            if pieces.len() > 0 && pieces[0].terminated {
                &&& g.done.len() > 0
                &&& h.done == g.done.skip(1)
                &&& h.pending == g.pending
                &&& h.valid == g.valid
            } else {
                &&& g.done.len() == 0
                &&& h.done.len() == 0
                &&& h.pending.len() == 0
                &&& g.valid && !h.valid
            }
        }),
    decreases pieces.len(),
{
    if pieces.len() > 0 {
        let front = pieces.drop_last();
        assert forall|i: int| 0 <= i < front.len() - 1 implies (
        #[trigger] front[i]).terminated by {
            assert(pieces[i].terminated);
        }
        lemma_headless(front, data, pending);
        let g = logical::gathered(pieces, data, true, pending, true);
        let h = logical::gathered(pieces, data, true, Seq::empty(), false);
        if pieces.len() > 1 {
            assert(pieces[0].terminated);
            assert(front[0] == pieces[0]);
        }
        if pieces[0].terminated {
            assert(h.done =~= g.done.skip(1));
        }
    }
}

/// How many packets of a logical bitstream end on its first pages, or begin
/// there.
pub open spec fn begun_on(pages: Seq<PageView>) -> nat {
    let (packets, state) = framing::stream_packets(pages)->Ok_0;
    packets.len() + if state.mid_packet {
        1nat
    } else {
        0
    }
}

/// The packets of a logical bitstream that begin behind its first pages.
pub open spec fn begun_behind(first: Seq<PageView>, rest: Seq<PageView>) -> Seq<Seq<u8>> {
    let packets = framing::stream_packets(first + rest)->Ok_0.0;
    packets.skip(demux_laws::cut_at(packets, begun_on(first)))
}

/// A logical bitstream that reads on, beside the assembly of all its pages:
/// `packets` have been put together, `m` of which had begun before, and `sent`
/// have been delivered.
spec fn in_step(
    b: LogicalView,
    state: AssemblerView,
    packets: Seq<Seq<u8>>,
    sent: Seq<Seq<u8>>,
    m: nat,
) -> bool {
    &&& b.headers == 0
    &&& !state.mid_packet ==> state.pending.len() == 0
    &&& if packets.len() >= m {
        &&& b.pending == state.pending
        &&& b.pending_valid == state.mid_packet
        &&& sent == packets.skip(m as int)
    } else {
        &&& packets.len() + 1 == m
        &&& state.mid_packet
        &&& b.pending.len() == 0
        &&& !b.pending_valid
        &&& sent.len() == 0
    }
}

/// One more page keeps step.
proof fn lemma_page_in_step(
    b: LogicalView,
    p: PageView,
    state: AssemblerView,
    packets: Seq<Seq<u8>>,
    sent: Seq<Seq<u8>>,
    m: nat,
)
    requires
        in_step(b, state, packets, sent, m),
        p.wf(),
        state.accept(p).0 is Ok,
        b.last_seq matches Some(n) ==> p.seq_no == stream_writer::successor(n),
    ensures
        ({
            let (done, next) = state.accept(p);
            in_step(b.after(p), next, packets + done->Ok_0, sent + b.gather(p).done, m)
        }),
{
    let done = b.gather(p).done;
    let all = packets + state.accept(p).0->Ok_0;
    if packets.len() >= m {
        demux_laws::lemma_page_taken(b, p, state);
        assert(all.skip(m as int) =~= packets.skip(m as int) + done);
    } else {
        let pieces = page::segments(p.lacing);
        demux_laws::lemma_gathered(p.lacing, p.data, state.pending, true);
        lemma_pieces_end(p.lacing);
        lemma_headless(pieces, p.data, state.pending);
        assert(b.pending =~= Seq::<u8>::empty());
        assert(!b.misses(p));
        let g = logical::gathered(pieces, p.data, true, state.pending, true);
        assert(all == packets + g.done);
        demux_laws::lemma_open_has_bytes(p.lacing, p.data, state.pending, true);
        assert(sent + done =~= done);
        if pieces.len() > 0 && pieces[0].terminated {
            assert(all.skip(m as int) =~= g.done.skip(1));
        }
    }
}

proof fn lemma_read_on(s: LogicalView, first: Seq<PageView>, rest: Seq<PageView>, index: u32)
    requires
        framing::stream_packets(first + rest) is Ok,
        stream_laws::unbroken(first + rest),
        forall|i: int| 0 <= i < (first + rest).len() ==> (#[trigger] (first + rest)[i]).wf(),
        s.headers == 0,
    ensures
        framing::stream_packets(first) is Ok,
        ({
            let (packets, state) = framing::stream_packets(first + rest)->Ok_0;
            let b = demux_laws::behind(s.flushed(), rest);
            let sent = demux_laws::data_of(
                demux_laws::delivered_by(s.flushed(), rest, index),
            );
            &&& b.last_seq == (if rest.len() > 0 {
                Some(rest.last().seq_no)
            } else {
                None
            })
            &&& in_step(b, state, packets, sent, begun_on(first))
        }),
    decreases rest.len(),
{
    let all = first + rest;
    let f = s.flushed();
    if rest.len() == 0 {
        assert(all =~= first);
        demux_laws::lemma_demux(all, LogicalView::fresh(0, 0, 0), index);
        let (packets, state) = framing::stream_packets(all)->Ok_0;
        let sent = demux_laws::data_of(demux_laws::delivered_by(f, rest, index));
        assert(sent =~= Seq::<Seq<u8>>::empty());
        if !state.mid_packet {
            assert(state.pending =~= Seq::<u8>::empty());
            assert(packets.skip(begun_on(first) as int) =~= Seq::<Seq<u8>>::empty());
        }
    } else {
        let front = rest.drop_last();
        let p = rest.last();
        let less = first + front;
        assert(all.drop_last() =~= less);
        assert(all.last() == p);
        assert forall|i: int| 0 < i < less.len() implies (#[trigger] less[i]).seq_no
            == stream_writer::successor(less[i - 1].seq_no) by {
            assert(all[i].seq_no == stream_writer::successor(all[i - 1].seq_no));
        }
        assert forall|i: int| 0 <= i < less.len() implies (#[trigger] less[i]).wf() by {
            assert(all[i].wf());
        }
        lemma_read_on(s, first, front, index);
        assert(all[all.len() - 1].wf());
        if front.len() > 0 {
            assert(all[all.len() - 1].seq_no == stream_writer::successor(
                all[all.len() - 2].seq_no,
            ));
            assert(all[all.len() - 2] == front.last());
        }
        let (before, state) = framing::stream_packets(less)->Ok_0;
        let b = demux_laws::behind(f, front);
        let sent = demux_laws::delivered_by(f, front, index);
        let now = b.delivered(p, index);
        demux_laws::lemma_delivered(b, p, index);
        assert(demux_laws::data_of(sent + now) =~= demux_laws::data_of(sent)
            + demux_laws::data_of(now));
        let done = b.gather(p).done;
        assert(done.skip(0) =~= done);
        lemma_page_in_step(
            b,
            p,
            state,
            before,
            demux_laws::data_of(sent),
            begun_on(first),
        );
    }
}

/// Reading that goes on behind a seek, at any page of a logical bitstream whose
/// pages follow each other, delivers exactly the packets that begin on that page
/// or behind it, each of them whole.
pub proof fn law_read_on(s: LogicalView, first: Seq<PageView>, rest: Seq<PageView>, index: u32)
    requires
        framing::stream_packets(first + rest) is Ok,
        stream_laws::unbroken(first + rest),
        forall|i: int| 0 <= i < (first + rest).len() ==> (#[trigger] (first + rest)[i]).wf(),
        s.headers == 0,
    ensures
        framing::stream_packets(first) is Ok,
        demux_laws::data_of(demux_laws::delivered_by(s.flushed(), rest, index)) == begun_behind(
            first,
            rest,
        ),
{
    lemma_read_on(s, first, rest, index);
    let packets = framing::stream_packets(first + rest)->Ok_0.0;
    let sent = demux_laws::data_of(demux_laws::delivered_by(s.flushed(), rest, index));
    assert(sent =~= begun_behind(first, rest));
}

/// Dropping what waits changes nothing of how streams are numbered.
proof fn lemma_flushed_numbered(d: DemuxView)
    requires
        whole_laws::numbered(d),
    ensures
        whole_laws::numbered(d.flushed()),
{
    let f = d.flushed();
    assert forall|k: u32| #[trigger] f.states.contains_key(k) implies f.states[k].public_index
        < f.streams.len() by {
        assert(d.states.contains_key(k));
    }
    assert forall|k: u32, l: u32|
        #[trigger] f.states.contains_key(k) && #[trigger] f.states.contains_key(l) && k
            != l implies f.states[k].public_index != f.states[l].public_index by {
        assert(d.states.contains_key(k) && d.states.contains_key(l));
    }
}

/// A demuxer that goes on behind a seek counts no hole where the pages of each
/// logical bitstream follow each other, wherever the seek has landed.
pub proof fn law_seek_without_holes(d: DemuxView, pages: Seq<PageView>)
    requires
        whole_laws::numbered(d),
        whole_laws::all_known(d, pages),
        forall|k: u32| #[trigger]
            d.states.contains_key(k) ==> stream_laws::unbroken(mux_laws::of_serial(pages, k)),
    ensures
        whole_laws::taken(d.flushed(), pages).holes == d.holes,
{
    let f = d.flushed();
    lemma_flushed_numbered(d);
    assert forall|i: int| 0 <= i < pages.len() implies f.states.contains_key(
        (#[trigger] pages[i]).serial,
    ) by {
        assert(d.states.contains_key(pages[i].serial));
    }
    assert forall|k: u32| #[trigger] f.states.contains_key(k) implies demux_laws::seamless(
        f.states[k],
        mux_laws::of_serial(pages, k),
    ) by {
        assert(d.states.contains_key(k));
        demux_laws::law_no_holes(mux_laws::of_serial(pages, k), f.states[k]);
    }
    whole_laws::law_no_holes_apart(f, pages);
}

/// A demuxer that goes on behind a seek delivers of each stream exactly the
/// packets that begin on the pages behind the place where it landed.
pub proof fn law_seek_reads(d: DemuxView, first: Seq<PageView>, rest: Seq<PageView>, k: u32)
    requires
        whole_laws::numbered(d),
        whole_laws::all_known(d, rest),
        d.states.contains_key(k),
        d.states[k].headers == 0,
        ({
            let own = mux_laws::of_serial(first + rest, k);
            &&& framing::stream_packets(own) is Ok
            &&& stream_laws::unbroken(own)
            &&& forall|i: int| 0 <= i < own.len() ==> (#[trigger] own[i]).wf()
        }),
    ensures
        ({
            let index = d.streams[d.states[k].public_index as int].index;
            let got = whole_laws::of_stream(
                whole_laws::taken(d.flushed(), rest).packets,
                index,
            );
            demux_laws::data_of(got) == begun_behind(
                mux_laws::of_serial(first, k),
                mux_laws::of_serial(rest, k),
            )
        }),
{
    let f = d.flushed();
    let index = d.streams[d.states[k].public_index as int].index;
    lemma_flushed_numbered(d);
    assert forall|i: int| 0 <= i < rest.len() implies f.states.contains_key(
        (#[trigger] rest[i]).serial,
    ) by {
        assert(d.states.contains_key(rest[i].serial));
    }
    mux_laws::lemma_of_serial_concat(first, rest, k);
    let a = mux_laws::of_serial(first, k);
    let b = mux_laws::of_serial(rest, k);
    whole_laws::law_apart(f, rest, k);
    law_read_on(d.states[k], a, b, index);
    let sent = demux_laws::delivered_by(f.states[k], b, index);
    assert(whole_laws::of_stream(f.packets, index) + sent =~= sent);
}

} // verus!
