//! Where streams end, and where pages end.
use crate::demux::demuxer;
use crate::demux::demuxer::{DemuxView, StreamEnd};
use crate::demux::seek_index;
use crate::page;
use crate::page::PageView;
use vstd::prelude::*;

verus! {

/// The end of the logical bitstream `k` at the granule position `granule`.
pub open spec fn end_at(d: DemuxView, k: u32, granule: i64) -> StreamEnd {
    StreamEnd {
        link_index: d.states[k].link_index,
        time_base: d.streams[d.states[k].public_index as int].time_base,
        granule,
    }
}

/// The ends of streams are told for exactly the bitstreams that the index has
/// pages of, each once and in the order of the keys, at the last entry of their
/// list.
pub proof fn law_stream_ends(d: DemuxView, keys: Seq<u32>)
    ensures
        ({
            let paged = keys.filter(|k: u32| seek_index::list_of(d.index, k).len() > 0);
            let ends = demuxer::ends_of(d, keys);
            &&& ends.len() == paged.len()
            &&& forall|i: int|
                0 <= i < ends.len() ==> #[trigger] ends[i] == end_at(
                    d,
                    paged[i],
                    seek_index::list_of(d.index, paged[i]).last().0,
                )
        }),
    decreases keys.len(),
{
    reveal(Seq::filter);
    let has = |k: u32| seek_index::list_of(d.index, k).len() > 0;
    if keys.len() > 0 {
        law_stream_ends(d, keys.drop_last());
        let front = keys.drop_last().filter(has);
        let ends = demuxer::ends_of(d, keys);
        let paged = keys.filter(has);
        assert forall|i: int| 0 <= i < ends.len() implies #[trigger] ends[i] == end_at(
            d,
            paged[i],
            seek_index::list_of(d.index, paged[i]).last().0,
        ) by {
            if i < front.len() {
                assert(paged[i] == front[i]);
                assert(demuxer::ends_of(d, keys.drop_last())[i] == ends[i]);
            }
        }
    }
}

/// The ends of streams in the tail of a file are told for exactly the bitstreams
/// that are known, each once and in the order of the keys, at the granule
/// positions that were found.
pub proof fn law_tail_ends(d: DemuxView, granules: Map<u32, i64>, keys: Seq<u32>)
    ensures
        ({
            let known = keys.filter(|k: u32| d.states.contains_key(k));
            let ends = demuxer::tail_ends_of(d, granules, keys);
            &&& ends.len() == known.len()
            &&& forall|i: int|
                0 <= i < ends.len() ==> #[trigger] ends[i] == end_at(
                    d,
                    known[i],
                    granules[known[i]],
                )
        }),
    decreases keys.len(),
{
    reveal(Seq::filter);
    let has = |k: u32| d.states.contains_key(k);
    if keys.len() > 0 {
        law_tail_ends(d, granules, keys.drop_last());
        let front = keys.drop_last().filter(has);
        let ends = demuxer::tail_ends_of(d, granules, keys);
        let known = keys.filter(has);
        assert forall|i: int| 0 <= i < ends.len() implies #[trigger] ends[i] == end_at(
            d,
            known[i],
            granules[known[i]],
        ) by {
            if i < front.len() {
                assert(known[i] == front[i]);
                assert(demuxer::tail_ends_of(d, granules, keys.drop_last())[i] == ends[i]);
            }
        }
    }
}

/// Reading a page asks for bytes as long as the page is not there whole, and
/// never for bytes behind it.
pub proof fn law_wanted(p: PageView, n: int)
    requires
        p.wf(),
        0 <= n <= p.encoded_len(),
    ensures
        demuxer::wanted(p.encoded().take(n)) matches Ok(m) && (n < p.encoded_len() ==> 0 < m
            <= p.encoded_len() - n) && (n == p.encoded_len() ==> m == 0),
{
    let good = p.encoded();
    let have = good.take(n);
    page::law_parse_encoded(p, Seq::empty());
    assert(good + Seq::<u8>::empty() =~= good);
    assert(page::page_in(good) == p && page::declared_len(good) == p.encoded_len() && good.take(4)
        == page::CAPTURE_PATTERN@ && good.subrange(27, 27 + good[26] as int) == p.lacing) by {
        reveal(page::parsed);
    }
    if n >= 27 {
        assert(have.take(4) =~= good.take(4));
        assert(have[26] == good[26]);
        if n >= 27 + good[26] as int {
            assert(have.subrange(27, 27 + have[26] as int) =~= good.subrange(
                27,
                27 + good[26] as int,
            ));
        }
    }
}

/// A header that does not begin with the capture pattern is not read on.
pub proof fn law_lost_sync(have: Seq<u8>)
    requires
        have.len() >= 27,
        have.take(4) != seq![0x4Fu8, 0x67, 0x67, 0x53],
    ensures
        demuxer::wanted(have) is Err,
{
    assert(page::CAPTURE_PATTERN@ =~= seq![0x4Fu8, 0x67, 0x67, 0x53]);
}

} // verus!
