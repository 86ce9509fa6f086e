//! What a muxer refuses.
use crate::error::{Error, Fault};
use crate::mux::auto_index::AutoIndexConfig;
use crate::mux::muxer;
use crate::mux::muxer::MuxView;
use crate::skeleton::state::SkeletonView;
use crate::stream::StreamInfoView;
use vstd::prelude::*;

verus! {

/// The time bases are in order exactly where all are positive; else the first that
/// is not is named.
proof fn lemma_time_bases(streams: Seq<StreamInfoView>, i: int)
    requires
        0 <= i <= streams.len(),
        forall|j: int| 0 <= j < i ==> fine(#[trigger] streams[j]),
    ensures
        i < streams.len() && !fine(streams[i]) ==> muxer::time_base_fault(streams) == Some(
            Fault::IndexTimeBase { index: streams[i].index },
        ),
        i == streams.len() ==> muxer::time_base_fault(streams) is None,
    decreases streams.len(),
{
    if i > 0 {
        let rest = streams.skip(1);
        assert(fine(streams[0]));
        assert forall|j: int| 0 <= j < i - 1 implies fine(#[trigger] rest[j]) by {
            assert(rest[j] == streams[j + 1]);
        }
        lemma_time_bases(rest, i - 1);
    }
}

/// The time base of a stream is positive.
pub open spec fn fine(s: StreamInfoView) -> bool {
    s.time_base.num > 0 && s.time_base.den > 0
}

/// Indexes are built for between 1 and 3249 keypoints, with a Skeleton of version 4
/// or later, where it tells one, and streams whose time bases are all positive. The
/// first stream with another time base is named.
pub proof fn law_index_refused(
    streams: Seq<StreamInfoView>,
    skeleton: SkeletonView,
    config: AutoIndexConfig,
    i: int,
)
    ensures
        muxer::index_fault(streams, skeleton, config) is None <==> {
            &&& 1 <= config.max_keypoints <= 3249
            &&& skeleton.head matches Some(head) ==> head.version.major >= 4
            &&& forall|j: int| 0 <= j < streams.len() ==> fine(#[trigger] streams[j])
        },
        !(1 <= config.max_keypoints <= 3249) ==> muxer::index_fault(streams, skeleton, config)
            == Some(Fault::IndexKeypoints { max_keypoints: config.max_keypoints }),
        1 <= config.max_keypoints <= 3249 && (skeleton.head matches Some(head)
            ==> head.version.major >= 4) && 0 <= i < streams.len() && !fine(streams[i]) && (
        forall|j: int| 0 <= j < i ==> fine(#[trigger] streams[j])) ==> muxer::index_fault(
            streams,
            skeleton,
            config,
        ) == Some(Fault::IndexTimeBase { index: streams[i].index }),
{
    if forall|j: int| 0 <= j < streams.len() ==> fine(#[trigger] streams[j]) {
        lemma_time_bases(streams, streams.len() as int);
    } else {
        let x = choose|x: int|
            0 <= x < streams.len() && !fine(#[trigger] streams[x]);
        let f = lemma_first_bad(streams, x);
        lemma_time_bases(streams, f);
    }
    if 0 <= i < streams.len() && forall|j: int| 0 <= j < i ==> fine(#[trigger] streams[j]) {
        lemma_time_bases(streams, i);
    }
}

proof fn lemma_first_bad(streams: Seq<StreamInfoView>, x: int) -> (f: int)
    requires
        0 <= x < streams.len(),
        !fine(streams[x]),
    ensures
        0 <= f <= x,
        !fine(streams[f]),
        forall|j: int| 0 <= j < f ==> fine(#[trigger] streams[j]),
    decreases x,
{
    if forall|j: int| 0 <= j < x ==> fine(#[trigger] streams[j]) {
        x
    } else {
        let y = choose|y: int| 0 <= y < x && !fine(#[trigger] streams[y]);
        lemma_first_bad(streams, y)
    }
}

/// A new link begins behind content that was written with a header, before the
/// trailer, without a Skeleton and indexes, and with at least one stream. What is
/// wrong is told in this order.
pub proof fn law_link_refused(m: MuxView, streams: nat)
    ensures
        ({
            let fault = muxer::link_fault(m, streams);
            let plain = m.skeleton is None && m.auto.len() == 0;
            &&& fault is None <==> m.header_written && !m.trailer_written && plain
                && m.content_started && streams > 0
            &&& !m.header_written ==> fault == Some(Error::Other(Fault::LinkBeforeHeader))
            &&& m.header_written && m.trailer_written ==> fault == Some(
                Error::Other(Fault::LinkAfterTrailer),
            )
            &&& m.header_written && !m.trailer_written && !plain ==> fault == Some(
                Error::InvalidData(Fault::LinkWithSkeleton),
            )
            &&& m.header_written && !m.trailer_written && plain && !m.content_started ==> fault
                == Some(Error::InvalidData(Fault::LinkWithoutContent))
        }),
{
}

} // verus!
