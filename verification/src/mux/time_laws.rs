//! The times of the first and the last sample in an index.
use crate::mux::auto_index;
use crate::mux::auto_index::AutoIndexView;
use crate::mux::mux_laws;
use crate::mux::muxer;
use crate::mux::muxer::MuxView;
use crate::mux::stream_writer::PendingView;
use crate::mux::tidy;
use crate::stream::PacketView;
use vstd::prelude::*;

verus! {

/// The times of the packets of the stream `index`, as far as they have one.
pub open spec fn times(packets: Seq<PacketView>, index: u32) -> Seq<i64>
    decreases packets.len(),
{
    if packets.len() == 0 {
        Seq::empty()
    } else {
        let front = times(packets.drop_last(), index);
        match packets.last().pts {
            Some(t) => if packets.last().stream_index == index {
                front.push(t)
            } else {
                front
            },
            None => front,
        }
    }
}

/// What does not change of an index that is being built.
spec fn same_index(a: AutoIndexView, b: AutoIndexView) -> bool {
    &&& a.stream_index == b.stream_index
    &&& a.tb_num == b.tb_num
    &&& a.first_ts == b.first_ts
    &&& a.last_ts == b.last_ts
}

/// Pages change no times.
proof fn lemma_emitted_times(m: MuxView, k: u32, list: Seq<PendingView>)
    ensures
        m.emitted_all(k, list).auto.len() == m.auto.len(),
        forall|i: int|
            0 <= i < m.auto.len() ==> same_index(
                m.emitted_all(k, list).auto[i],
                #[trigger] m.auto[i],
            ),
    decreases list.len(),
{
    if list.len() > 0 {
        lemma_emitted_times(m, k, list.drop_last());
        let mid = m.emitted_all(k, list.drop_last());
        muxer::lemma_first_of(mid.auto, k, 0);
        let after = m.emitted_all(k, list);
        assert forall|i: int| 0 <= i < m.auto.len() implies same_index(
            after.auto[i],
            #[trigger] m.auto[i],
        ) by {
            assert(same_index(mid.auto[i], m.auto[i]));
        }
    }
}

/// Which index comes first depends on the streams of the indexes alone.
proof fn lemma_first_alike(a: Seq<AutoIndexView>, b: Seq<AutoIndexView>, index: u32, from: int)
    requires
        a.len() == b.len(),
        0 <= from,
        forall|i: int|
            0 <= i < a.len() ==> (#[trigger] a[i]).stream_index == b[i].stream_index,
    ensures
        muxer::first_of(a, index, from) == muxer::first_of(b, index, from),
    decreases a.len() - from,
{
    if from < a.len() {
        assert(a[from].stream_index == b[from].stream_index);
        lemma_first_alike(a, b, index, from + 1);
    }
}

/// The times of an index behind packets.
spec fn times_kept(
    a: AutoIndexView,
    before: AutoIndexView,
    packets: Seq<PacketView>,
) -> bool {
    let ts = times(packets, before.stream_index);
    &&& a.stream_index == before.stream_index
    &&& a.tb_num == before.tb_num
    &&& if ts.len() == 0 {
        a.first_ts == before.first_ts && a.last_ts == before.last_ts
    } else {
        &&& a.last_ts == Some(auto_index::clamped(ts.last() * before.tb_num))
        &&& a.first_ts == (if before.first_ts is Some {
            before.first_ts
        } else {
            Some(auto_index::clamped(ts[0] * before.tb_num))
        })
    }
}

proof fn lemma_run_times(m: MuxView, packets: Seq<PacketView>, i: int)
    requires
        0 <= i < m.auto.len(),
        muxer::first_of(m.auto, m.auto[i].stream_index, 0) == Some(i),
        m.writers[m.auto[i].stream_index].headers == 0,
    ensures
        ({
            let after = mux_laws::run(m, packets);
            &&& after.auto.len() == m.auto.len()
            &&& forall|j: int|
                0 <= j < m.auto.len() ==> after.auto[j].stream_index == (
                #[trigger] m.auto[j]).stream_index
            &&& after.writers[m.auto[i].stream_index].headers == 0
            &&& times_kept(after.auto[i], m.auto[i], packets)
        }),
    decreases packets.len(),
{
    if packets.len() > 0 {
        let front = packets.drop_last();
        lemma_run_times(m, front, i);
        let mid = mux_laws::run(m, front);
        let p = packets.last();
        let k = p.stream_index;
        let s = mid.writers[k].written(p);
        let index = m.auto[i].stream_index;
        lemma_emitted_times(mid, k, s.ready);
        mux_laws::lemma_emitted_pages(mid, k, s.ready);
        let settled = mid.settled(k, s);
        let after = mux_laws::run(m, packets);
        tidy::lemma_written_headers(mid.writers[k], p);
        muxer::lemma_first_of(settled.auto, k, 0);
        assert forall|j: int| 0 <= j < m.auto.len() implies settled.auto[j].stream_index == (
        #[trigger] m.auto[j]).stream_index by {
            assert(same_index(settled.auto[j], mid.auto[j]));
        }
        assert(same_index(settled.auto[i], mid.auto[i]));
        lemma_first_alike(m.auto, settled.auto, k, 0);
        assert forall|j: int| 0 <= j < m.auto.len() implies after.auto[j].stream_index == (
        #[trigger] m.auto[j]).stream_index by {
            assert(settled.auto[j].stream_index == m.auto[j].stream_index);
        }
        if k != index {
            if let Some(f) = muxer::first_of(settled.auto, k, 0) {
                lemma_first_is(settled.auto, k, 0);
            }
        }
    }
}

proof fn lemma_first_is(auto: Seq<AutoIndexView>, index: u32, from: int)
    requires
        0 <= from,
    ensures
        muxer::first_of(auto, index, from) matches Some(i) ==> from <= i < auto.len()
            && auto[i].stream_index == index,
    decreases auto.len() - from,
{
    if from < auto.len() && auto[from].stream_index != index {
        lemma_first_is(auto, index, from + 1);
    }
}

/// An index tells the time of the first packet of its stream that has one, and
/// the time of the last.
pub proof fn law_sample_times(m: MuxView, packets: Seq<PacketView>, i: int)
    requires
        0 <= i < m.auto.len(),
        muxer::first_of(m.auto, m.auto[i].stream_index, 0) == Some(i),
        m.writers[m.auto[i].stream_index].headers == 0,
        m.auto[i].first_ts is None,
    ensures
        ({
            let a = mux_laws::run(m, packets).auto[i];
            let ts = times(packets, m.auto[i].stream_index);
            ts.len() > 0 ==> {
                &&& a.index().first_sample_time == auto_index::clamped(ts[0] * m.auto[i].tb_num)
                &&& a.index().last_sample_time == auto_index::clamped(ts.last() * m.auto[i].tb_num)
            }
        }),
{
    lemma_run_times(m, packets, i);
}

} // verus!
