//! Which keypoints an automatic index takes.
use crate::mux::auto_index::AutoIndexView;
use crate::skeleton::index::KeyPoint;
use vstd::prelude::*;

verus! {

/// A keypoint is kept back: the index is full, or the keypoint does not lie far
/// enough behind the last one, in the file or in time.
pub open spec fn kept_back(a: AutoIndexView, offset: u64, timestamp: int) -> bool {
    let n = a.keypoints.len() as int;
    ||| n >= a.config.max_keypoints
    ||| n > 0 && offset <= a.keypoints[n - 1].offset
    ||| n > 0 && timestamp < a.keypoints[n - 1].timestamp
    ||| n > 0 && offset < a.keypoints[n - 1].offset + a.config.min_keypoint_byte_gap
    ||| n > 0 && 1000 * timestamp < 1000 * a.keypoints[n - 1].timestamp
        + a.config.min_keypoint_time_gap_ms * a.timestamp_denominator
}

/// A keyframe page that is offered is taken with its offset and its time, behind
/// all keypoints before it, exactly where nothing keeps it back; otherwise the
/// index stays as it was.
pub proof fn law_offered(a: AutoIndexView, offset: u64, pts: i64)
    requires
        i64::MIN <= pts * a.tb_num <= i64::MAX,
    ensures
        ({
            let b = a.offered(offset, pts);
            let timestamp = pts * a.tb_num;
            &&& kept_back(a, offset, timestamp) ==> b == a
            &&& !kept_back(a, offset, timestamp) ==> b.keypoints == a.keypoints.push(
                KeyPoint { offset, timestamp: timestamp as i64 },
            ) && b.first_ts == a.first_ts && b.last_ts == a.last_ts && b.serial == a.serial
                && b.timestamp_denominator == a.timestamp_denominator
        }),
{
    let n = a.keypoints.len() as int;
    if n > 0 {
        assert(a.keypoints.last() == a.keypoints[n - 1]);
    }
}

/// The index behind packets with these times.
pub open spec fn all_noted(a: AutoIndexView, times: Seq<i64>) -> AutoIndexView
    decreases times.len(),
{
    if times.len() == 0 {
        a
    } else {
        all_noted(a, times.drop_last()).noted(times.last())
    }
}

/// An index that knew of no packet tells the time of the first packet and that of
/// the last one.
pub proof fn law_noted(a: AutoIndexView, times: Seq<i64>)
    requires
        a.first_ts is None,
        times.len() > 0,
        forall|i: int|
            0 <= i < times.len() ==> i64::MIN <= #[trigger] times[i] * a.tb_num <= i64::MAX,
    ensures
        ({
            let x = all_noted(a, times).index();
            &&& x.first_sample_time == times[0] * a.tb_num
            &&& x.last_sample_time == times[times.len() - 1] * a.tb_num
            &&& x.keypoints == a.keypoints
            &&& x.serial == a.serial
            &&& x.timestamp_denominator == a.timestamp_denominator
        }),
{
    lemma_noted(a, times);
}

proof fn lemma_noted(a: AutoIndexView, times: Seq<i64>)
    requires
        a.first_ts is None,
        forall|i: int|
            0 <= i < times.len() ==> i64::MIN <= #[trigger] times[i] * a.tb_num <= i64::MAX,
    ensures
        ({
            let b = all_noted(a, times);
            &&& b.tb_num == a.tb_num
            &&& b.keypoints == a.keypoints
            &&& b.serial == a.serial
            &&& b.timestamp_denominator == a.timestamp_denominator
            &&& times.len() == 0 ==> b.first_ts is None
            &&& times.len() > 0 ==> b.first_ts == Some((times[0] * a.tb_num) as i64) && b.last_ts
                == Some((times[times.len() - 1] * a.tb_num) as i64)
        }),
    decreases times.len(),
{
    if times.len() > 0 {
        let front = times.drop_last();
        assert forall|i: int| 0 <= i < front.len() implies i64::MIN <= #[trigger] front[i]
            * a.tb_num <= i64::MAX by {
            assert(times[i] == front[i]);
            assert(i64::MIN <= times[i] * a.tb_num <= i64::MAX);
        }
        lemma_noted(a, front);
        assert(i64::MIN <= times[times.len() - 1] * a.tb_num <= i64::MAX);
        assert(i64::MIN <= times[0] * a.tb_num <= i64::MAX);
    }
}

} // verus!
