//! What a reader notices of lost pages, and what it still delivers.
use crate::demux::demux_laws;
use crate::demux::demuxer::DemuxView;
use crate::demux::flush_laws;
use crate::demux::logical::LogicalView;
use crate::page::flags;
use crate::framing;
use crate::mux::stream_laws;
use crate::mux::stream_writer;
use crate::page;
use crate::page::PageView;
use vstd::prelude::*;

verus! {

/// The page `i` follows the one before it.
spec fn follows(pages: Seq<PageView>, i: int) -> bool {
    pages[i].seq_no == stream_writer::successor(pages[i - 1].seq_no)
}

proof fn lemma_follows(pages: Seq<PageView>, i: int)
    requires
        stream_laws::unbroken(pages),
        0 < i < pages.len(),
    ensures
        follows(pages, i),
{
}

/// The numbers of pages that follow each other count up around the 32-bit circle.
proof fn lemma_counted(pages: Seq<PageView>, i: int, j: int)
    requires
        forall|k: int| 0 < k < pages.len() ==> #[trigger] follows(pages, k),
        0 <= i <= j < pages.len(),
    ensures
        pages[j].seq_no as int == (pages[i].seq_no + (j - i)) % 0x1_0000_0000,
    decreases j - i,
{
    if i < j {
        lemma_counted(pages, i, j - 1);
        assert(follows(pages, j));
    }
}

/// The last page that was taken is the one whose number is known.
proof fn lemma_last_taken(s: LogicalView, pages: Seq<PageView>)
    requires
        pages.len() > 0,
    ensures
        demux_laws::behind(s, pages).last_seq == Some(pages.last().seq_no),
{
}

/// However many pages of a logical bitstream are lost between two others, one or
/// more, the next one tells that they are missing.
pub proof fn law_loss_noticed(s: LogicalView, pages: Seq<PageView>, a: int, b: int)
    requires
        stream_laws::unbroken(pages),
        0 < a < b < pages.len(),
        b - a < 0x1_0000_0000,
        !page::flag_set(pages[b].flags, flags::FIRST_PAGE),
    ensures
        demux_laws::behind(s, pages.take(a)).misses(pages[b]),
{
    lemma_last_taken(s, pages.take(a));
    assert(pages.take(a).last() == pages[a - 1]);
    assert forall|k: int| 0 < k < pages.len() implies #[trigger] follows(pages, k) by {
        lemma_follows(pages, k);
    }
    lemma_counted(pages, a - 1, b);
    let n = pages[a - 1].seq_no as int;
    assert((n + 1) % 0x1_0000_0000 != (n + (b - a) + 1) % 0x1_0000_0000) by {
        let d = b - a;
        assert(0 < d < 0x1_0000_0000);
    }
}

/// Two readers that differ in the granule position that they saw last deliver the
/// same.
spec fn alike(s: LogicalView, t: LogicalView) -> bool {
    s == LogicalView { granule_seen: s.granule_seen, ..t }
}

/// Behind a hole a reader reads on as it does behind a flush.
proof fn lemma_as_flushed(s: LogicalView, pages: Seq<PageView>, index: u32)
    requires
        pages.len() > 0,
        s.misses(pages[0]),
    ensures
        alike(demux_laws::behind(s, pages), demux_laws::behind(s.flushed(), pages)),
        demux_laws::delivered_by(s, pages, index) == demux_laws::delivered_by(
            s.flushed(),
            pages,
            index,
        ),
    decreases pages.len(),
{
    let front = pages.drop_last();
    let p = pages.last();
    if front.len() == 0 {
        assert(front =~= Seq::<PageView>::empty());
        assert(demux_laws::behind(s, front) == s);
        assert(demux_laws::behind(s.flushed(), front) == s.flushed());
        assert(demux_laws::delivered_by(s, front, index) =~= demux_laws::delivered_by(
            s.flushed(),
            front,
            index,
        ));
        assert(s.gather(p) == s.flushed().gather(p));
        assert(s.delivered(p, index) =~= s.flushed().delivered(p, index));
    } else {
        assert(front[0] == pages[0]);
        lemma_as_flushed(s, front, index);
        let (b, c) = (demux_laws::behind(s, front), demux_laws::behind(s.flushed(), front));
        assert(b.gather(p) == c.gather(p));
        assert(b.delivered(p, index) =~= c.delivered(p, index));
    }
}

/// Where pages are lost, the packets that begin behind them are delivered, each
/// of them whole and in order, and nothing of those that the lost pages held or
/// began.
pub proof fn law_loss_survived(
    s: LogicalView,
    pages: Seq<PageView>,
    a: int,
    b: int,
    index: u32,
)
    requires
        framing::stream_packets(pages) is Ok,
        stream_laws::unbroken(pages),
        forall|i: int| 0 <= i < pages.len() ==> (#[trigger] pages[i]).wf(),
        0 < a < b < pages.len(),
        b - a < 0x1_0000_0000,
        !page::flag_set(pages[b].flags, flags::FIRST_PAGE),
        demux_laws::behind(s, pages.take(a)).headers == 0,
    ensures
        ({
            let here = demux_laws::behind(s, pages.take(a));
            demux_laws::data_of(demux_laws::delivered_by(here, pages.skip(b), index))
                == flush_laws::begun_behind(pages.take(b), pages.skip(b))
        }),
{
    let here = demux_laws::behind(s, pages.take(a));
    let (first, rest) = (pages.take(b), pages.skip(b));
    assert(first + rest =~= pages);
    law_loss_noticed(s, pages, a, b);
    assert(rest[0] == pages[b]);
    lemma_as_flushed(here, rest, index);
    flush_laws::law_read_on(here, first, rest, index);
}

/// A demuxer counts a hole where one page or more are missing between two pages
/// of a logical bitstream, however many they are, and none where the second page
/// follows the first.
pub proof fn law_hole_counted(d: DemuxView, q: PageView, p: PageView, lost: int)
    requires
        d.states.contains_key(q.serial),
        p.serial == q.serial,
        !page::flag_set(p.flags, flags::FIRST_PAGE),
        0 <= lost < 0x1_0000_0000,
        p.seq_no as int == (q.seq_no + 1 + lost) % 0x1_0000_0000,
        d.processed(q).0.holes < u64::MAX,
    ensures
        ({
            let m = d.processed(q).0;
            m.processed(p).0.holes == m.holes + if lost > 0 {
                1int
            } else {
                0
            }
        }),
{
    let m = d.processed(q).0;
    let l = d.linked(q);
    assert(m.states.contains_key(q.serial));
    assert(m.states[q.serial].last_seq == Some(q.seq_no)) by {
        assert(l.states == d.states);
    }
}

} // verus!
