//! Keyframe indexes that are built while a stream is written.
use crate::error::Error;
use crate::skeleton::index;
use crate::skeleton::index::{KeyPoint, SkelIndex, SkelIndexView};
use vstd::prelude::*;

verus! {

/// Limits of a keyframe index that is built while writing.
#[derive(Clone, Copy, Debug, PartialEq, Eq, Structural)]
pub struct AutoIndexConfig {
    /// The most keypoints for one content stream.
    pub max_keypoints: usize,
    /// The fewest bytes between two keypoints of a stream.
    pub min_keypoint_byte_gap: u64,
    /// The least time between two keypoints of a stream, in milliseconds.
    pub min_keypoint_time_gap_ms: u64,
}

impl Default for AutoIndexConfig {
    fn default() -> (c: Self)
        ensures
            c == (AutoIndexConfig {
                max_keypoints: 128,
                min_keypoint_byte_gap: 65536,
                min_keypoint_time_gap_ms: 1000,
            }),
    {
        AutoIndexConfig {
            max_keypoints: 128,
            min_keypoint_byte_gap: 65536,
            min_keypoint_time_gap_ms: 1000,
        }
    }
}

/// The most keypoints whose index packet fits one page: `(255 * 255 - 42) / 20`.
pub const AUTO_INDEX_MAX_KEYPOINTS_LIMIT: usize = 3249;

/// The index of one content stream as far as it is built.
#[derive(Debug)]
pub struct AutoIndexState {
    /// The content stream's index.
    pub stream_index: u32,
    /// The content stream's serial.
    pub serial: u32,
    /// Denominator of every time in the index.
    pub timestamp_denominator: i64,
    /// Numerator of the stream's time base.
    pub tb_num: i64,
    /// The limits.
    pub config: AutoIndexConfig,
    /// Where the page that holds the place of the index was written, and its
    /// sequence number.
    pub placeholder: Option<(u64, u32)>,
    /// The keypoints so far.
    pub keypoints: Vec<KeyPoint>,
    /// The first time seen.
    pub first_ts: Option<i64>,
    /// The last time seen.
    pub last_ts: Option<i64>,
}

/// What an [`AutoIndexState`] stands for.
#[verifier::ext_equal]
pub struct AutoIndexView {
    pub stream_index: u32,
    pub serial: u32,
    pub timestamp_denominator: i64,
    pub tb_num: i64,
    pub config: AutoIndexConfig,
    pub placeholder: Option<(u64, u32)>,
    pub keypoints: Seq<KeyPoint>,
    pub first_ts: Option<i64>,
    pub last_ts: Option<i64>,
}

impl View for AutoIndexState {
    type V = AutoIndexView;

    open spec fn view(&self) -> AutoIndexView {
        AutoIndexView {
            stream_index: self.stream_index,
            serial: self.serial,
            timestamp_denominator: self.timestamp_denominator,
            tb_num: self.tb_num,
            config: self.config,
            placeholder: self.placeholder,
            keypoints: self.keypoints@,
            first_ts: self.first_ts,
            last_ts: self.last_ts,
        }
    }
}

/// `v` cut off at the ends of the 64-bit range.
pub open spec fn clamped(v: int) -> i64 {
    if v > i64::MAX {
        i64::MAX
    } else if v < i64::MIN {
        i64::MIN
    } else {
        v as i64
    }
}

/// Whether a keypoint may follow another: it lies behind it, not earlier, and
/// both gaps are kept.
pub open spec fn may_follow(
    config: AutoIndexConfig,
    denominator: i64,
    last: KeyPoint,
    next: KeyPoint,
) -> bool {
    &&& next.offset > last.offset
    &&& next.timestamp >= last.timestamp
    &&& next.offset - last.offset >= config.min_keypoint_byte_gap
    &&& (next.timestamp - last.timestamp) * 1000 >= config.min_keypoint_time_gap_ms * denominator
}

impl AutoIndexView {
    /// The length that the index packet is given, whatever it comes to hold.
    pub open spec fn reserved_len(self) -> int {
        42 + 20 * self.config.max_keypoints
    }

    /// The keypoints keep to the limits, and the packet fits one page.
    pub open spec fn wf(self) -> bool {
        &&& self.config.max_keypoints <= AUTO_INDEX_MAX_KEYPOINTS_LIMIT
        &&& self.keypoints.len() <= self.config.max_keypoints
        &&& forall|i: int|
            0 < i < self.keypoints.len() ==> may_follow(
                self.config,
                self.timestamp_denominator,
                self.keypoints[i - 1],
                #[trigger] self.keypoints[i],
            )
    }

    /// Whether a keypoint is taken.
    pub open spec fn takes(self, point: KeyPoint) -> bool {
        &&& self.keypoints.len() < self.config.max_keypoints
        &&& self.keypoints.len() > 0 ==> may_follow(
            self.config,
            self.timestamp_denominator,
            self.keypoints.last(),
            point,
        )
    }

    /// A page at `offset` begins with a keyframe at time `pts`.
    pub open spec fn offered(self, offset: u64, pts: i64) -> AutoIndexView {
        let point = KeyPoint { offset, timestamp: clamped(pts * self.tb_num) };
        if self.takes(point) {
            AutoIndexView { keypoints: self.keypoints.push(point), ..self }
        } else {
            self
        }
    }

    /// A packet has the time `pts`.
    pub open spec fn noted(self, pts: i64) -> AutoIndexView {
        let ts = clamped(pts * self.tb_num);
        AutoIndexView {
            first_ts: if self.first_ts is None {
                Some(ts)
            } else {
                self.first_ts
            },
            last_ts: Some(ts),
            ..self
        }
    }

    /// The index.
    pub open spec fn index(self) -> SkelIndexView {
        SkelIndexView {
            serial: self.serial,
            timestamp_denominator: self.timestamp_denominator,
            first_sample_time: match self.first_ts {
                Some(t) => t,
                None => 0,
            },
            last_sample_time: match self.last_ts {
                Some(t) => t,
                None => 0,
            },
            keypoints: self.keypoints,
        }
    }

    /// The index packet, filled up with zeros to its reserved length.
    pub open spec fn packet(self) -> Seq<u8> {
        padded(self.index().encoded(), self.reserved_len())
    }

    /// The index before anything is known.
    pub open spec fn vacant(self) -> AutoIndexView {
        AutoIndexView { keypoints: Seq::empty(), first_ts: None, last_ts: None, ..self }
    }
}

/// `s` filled up with zeros to the length `len`.
pub open spec fn padded(s: Seq<u8>, len: int) -> Seq<u8> {
    s + Seq::new((len - s.len()) as nat, |i: int| 0u8)
}

/// Index packets take no more than their reserved length.
pub proof fn law_index_fits(a: AutoIndexView)
    requires
        a.keypoints.len() <= a.config.max_keypoints,
    ensures
        42 <= a.index().encoded().len() <= a.reserved_len(),
        a.packet().len() == a.reserved_len(),
{
    lemma_keypoints_len(a.keypoints);
}

proof fn lemma_keypoints_len(points: Seq<KeyPoint>)
    ensures
        index::keypoints_encoded(points).len() <= 20 * points.len(),
    decreases points.len(),
{
    if points.len() > 0 {
        let before = points.drop_last();
        let (offset, timestamp) = index::keypoint_delta(
            index::last_keypoint(before),
            points.last(),
        );
        lemma_keypoints_len(before);
        index::law_vbi_round_trip(offset, Seq::empty());
        index::law_vbi_round_trip(timestamp, Seq::empty());
    }
}

/// The keypoints of a built index ascend strictly by offset and never go back
/// in time.
pub proof fn law_keypoints_ascend(a: AutoIndexView, i: int, j: int)
    requires
        a.wf(),
        0 <= i < j < a.keypoints.len(),
    ensures
        a.keypoints[i].offset < a.keypoints[j].offset,
        a.keypoints[i].timestamp <= a.keypoints[j].timestamp,
    decreases j - i,
{
    assert(may_follow(
        a.config,
        a.timestamp_denominator,
        a.keypoints[j - 1],
        a.keypoints[j],
    ));
    if i < j - 1 {
        law_keypoints_ascend(a, i, j - 1);
    }
}

/// Whatever is offered and noted, the keypoints keep to the limits.
pub proof fn law_limits_kept(a: AutoIndexView, offset: u64, pts: i64)
    requires
        a.wf(),
    ensures
        a.offered(offset, pts).wf(),
        a.noted(pts).wf(),
{
    let after = a.offered(offset, pts);
    assert forall|i: int| 0 < i < after.keypoints.len() implies may_follow(
        after.config,
        after.timestamp_denominator,
        after.keypoints[i - 1],
        #[trigger] after.keypoints[i],
    ) by {
        if i < a.keypoints.len() {
            assert(a.keypoints[i] == after.keypoints[i]);
        }
    }
    let noted = a.noted(pts);
    assert forall|i: int| 0 < i < noted.keypoints.len() implies may_follow(
        noted.config,
        noted.timestamp_denominator,
        noted.keypoints[i - 1],
        #[trigger] noted.keypoints[i],
    ) by {
        assert(a.keypoints[i] == noted.keypoints[i]);
    }
}

/// The reserved packet reads back as the index that was built.
pub proof fn law_packet_reads_back(a: AutoIndexView)
    requires
        a.wf(),
    ensures
        index::parsed_index(a.packet()) == Ok::<SkelIndexView, Error>(a.index()),
{
    law_index_fits(a);
    assert forall|i: int, j: int| 0 <= i <= j < a.keypoints.len() implies a.keypoints[i].offset
        <= a.keypoints[j].offset by {
        if i < j {
            law_keypoints_ascend(a, i, j);
        }
    }
    let zeros = Seq::new((a.reserved_len() - a.index().encoded().len()) as nat, |i: int| 0u8);
    index::law_index_round_trip(a.index(), zeros);
}

fn clamp(v: i128) -> (r: i64)
    ensures
        r == clamped(v as int),
{
    if v > i64::MAX as i128 {
        i64::MAX
    } else if v < i64::MIN as i128 {
        i64::MIN
    } else {
        v as i64
    }
}

impl AutoIndexState {
    /// An index of which nothing is known yet.
    pub fn new(
        stream_index: u32,
        serial: u32,
        timestamp_denominator: i64,
        tb_num: i64,
        config: AutoIndexConfig,
    ) -> (a: Self)
        ensures
            a@ == (AutoIndexView {
                stream_index,
                serial,
                timestamp_denominator,
                tb_num,
                config,
                placeholder: None,
                keypoints: Seq::empty(),
                first_ts: None,
                last_ts: None,
            }),
    {
        AutoIndexState {
            stream_index,
            serial,
            timestamp_denominator,
            tb_num,
            config,
            placeholder: None,
            keypoints: Vec::new(),
            first_ts: None,
            last_ts: None,
        }
    }

    /// `pts` in units of the denominator.
    fn timestamp(&self, pts: i64) -> (ts: i64)
        ensures
            ts == clamped(pts * self.tb_num),
    {
        let num: i64 = self.tb_num;
        assert(-0x4000_0000_0000_0000_0000_0000_0000_0000 <= pts * num
            <= 0x4000_0000_0000_0000_0000_0000_0000_0000) by (nonlinear_arith)
            requires
                -0x8000_0000_0000_0000 <= pts <= 0x7fff_ffff_ffff_ffff,
                -0x8000_0000_0000_0000 <= num <= 0x7fff_ffff_ffff_ffff,
        ;
        clamp(pts as i128 * num as i128)
    }

    /// Takes note of the time of a packet.
    pub fn note_pts(&mut self, pts: i64)
        ensures
            final(self)@ == old(self)@.noted(pts),
    {
        let ts: i64 = self.timestamp(pts);
        if self.first_ts.is_none() {
            self.first_ts = Some(ts);
        }
        self.last_ts = Some(ts);
    }

    fn follows(&self, last: KeyPoint, next: KeyPoint) -> (r: bool)
        ensures
            r == may_follow(self.config, self.timestamp_denominator, last, next),
    {
        if next.offset <= last.offset || next.timestamp < last.timestamp {
            return false;
        }
        if next.offset - last.offset < self.config.min_keypoint_byte_gap {
            return false;
        }
        let dt: i128 = next.timestamp as i128 - last.timestamp as i128;
        let gap: u64 = self.config.min_keypoint_time_gap_ms;
        let den: i64 = self.timestamp_denominator;
        assert(-0x8000_0000_0000_0000_0000_0000_0000_0000 <= gap * den
            <= 0x7fff_ffff_ffff_ffff_ffff_ffff_ffff_ffff) by (nonlinear_arith)
            requires
                0 <= gap <= 0xffff_ffff_ffff_ffff,
                -0x8000_0000_0000_0000 <= den <= 0x7fff_ffff_ffff_ffff,
        ;
        dt * 1000 >= gap as i128 * den as i128
    }

    /// Takes note of a page at `offset` on which a keyframe at time `pts`
    /// starts. It becomes a keypoint where the limits allow it.
    pub fn offer_keypoint(&mut self, offset: u64, pts: i64)
        requires
            old(self)@.wf(),
        ensures
            final(self)@ == old(self)@.offered(offset, pts),
            final(self)@.wf(),
    {
        let n: usize = self.keypoints.len();
        let point = KeyPoint { offset, timestamp: self.timestamp(pts) };
        if n >= self.config.max_keypoints {
            return;
        }
        if n > 0 && !self.follows(self.keypoints[n - 1], point) {
            return;
        }
        self.keypoints.push(point);
        proof {
            law_limits_kept(old(self)@, offset, pts);
        }
    }

    /// The index packet at its reserved length.
    pub fn packet_bytes(&self) -> (out: Vec<u8>)
        requires
            self@.wf(),
        ensures
            out@ == self@.packet(),
            out@.len() == self@.reserved_len(),
    {
        let mut idx = SkelIndex::new(self.serial, self.timestamp_denominator);
        idx.first_sample_time = match self.first_ts {
            Some(t) => t,
            None => 0,
        };
        idx.last_sample_time = match self.last_ts {
            Some(t) => t,
            None => 0,
        };
        idx.keypoints = copied_keypoints(&self.keypoints);
        assert(idx@ =~= self@.index());
        let mut out = idx.to_bytes();
        proof {
            law_index_fits(self@);
        }
        let reserved: usize = 42 + 20 * self.config.max_keypoints;
        let ghost packet = out@;
        while out.len() < reserved
            invariant
                packet.len() <= out@.len() <= reserved,
                out@ == packet + Seq::new((out@.len() - packet.len()) as nat, |i: int| 0u8),
            decreases reserved - out@.len(),
        {
            let ghost before = out@;
            out.push(0);
            assert(out@ =~= packet + Seq::new((out@.len() - packet.len()) as nat, |i: int| 0u8));
        }
        assert(out@ =~= self@.packet());
        out
    }
}

fn copied_keypoints(points: &Vec<KeyPoint>) -> (out: Vec<KeyPoint>)
    ensures
        out@ == points@,
{
    let mut out: Vec<KeyPoint> = Vec::new();
    let mut i: usize = 0;
    while i < points.len()
        invariant
            i <= points@.len(),
            out@ == points@.take(i as int),
        decreases points@.len() - i,
    {
        out.push(points[i]);
        assert(points@.take(i + 1) =~= points@.take(i as int).push(points@[i as int]));
        i += 1;
    }
    assert(points@.take(i as int) =~= points@);
    out
}

} // verus!
