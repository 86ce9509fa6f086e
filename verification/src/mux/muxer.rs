//! The muxer: streams, their headers and packets, and an optional Skeleton, put
//! on one sequence of pages.
use crate::codec_id;
use crate::codec_id::header_packet_count;
use crate::error::{Error, Fault};
use crate::framing;
use crate::mux::auto_index;
use crate::mux::auto_index::{
    AutoIndexConfig, AutoIndexState, AutoIndexView, AUTO_INDEX_MAX_KEYPOINTS_LIMIT,
};
use crate::mux::codec_headers;
use crate::mux::codec_headers::extract_codec_headers;
use crate::mux::serials;
use crate::mux::serials::find_free;
use crate::mux::stream_writer;
use crate::mux::stream_writer::{PendingView, StreamView, StreamWriter};
use crate::mux::wire::{Wire, WireView};
use crate::page;
use crate::page::{flags, lace, Page, PageView};
use crate::serial_map::SerialMap;
use crate::skeleton::head::{FisHead, FisHeadView, Version};
use crate::skeleton::state::{Skeleton, SkeletonView};
use crate::stream;
use crate::stream::{copied_streams, Packet, PacketView, StreamInfo, StreamInfoView};
use vstd::prelude::*;

verus! {

/// A Skeleton that is being written.
#[derive(Debug)]
pub struct SkeletonWriter {
    skel: Skeleton,
    serial: u32,
    seq_no: u32,
    emitted_head: Option<FisHead>,
    content_offset: Option<u64>,
}

/// What a [`SkeletonWriter`] stands for: what it says, its serial, the number of
/// its next page, the `fishead` that was written, and where content begins.
#[verifier::ext_equal]
pub struct SkeletonWriterView {
    pub skel: SkeletonView,
    pub serial: u32,
    pub seq_no: u32,
    pub emitted_head: Option<FisHeadView>,
    pub content_offset: Option<u64>,
}

impl View for SkeletonWriter {
    type V = SkeletonWriterView;

    closed spec fn view(&self) -> SkeletonWriterView {
        SkeletonWriterView {
            skel: self.skel@,
            serial: self.serial,
            seq_no: self.seq_no,
            emitted_head: match self.emitted_head {
                Some(h) => Some(h@),
                None => None,
            },
            content_offset: self.content_offset,
        }
    }
}

/// Bytes that replace what was written earlier.
#[derive(Debug)]
pub struct Patch {
    /// Where the bytes go.
    pub offset: u64,
    /// The bytes.
    pub bytes: Vec<u8>,
}

impl View for Patch {
    type V = (u64, Seq<u8>);

    open spec fn view(&self) -> (u64, Seq<u8>) {
        (self.offset, self.bytes@)
    }
}

/// What a list of patches stands for.
pub open spec fn patches_view(patches: Seq<Patch>) -> Seq<(u64, Seq<u8>)> {
    patches.map_values(|p: Patch| p@)
}

/// What an [`OggMuxer`] stands for.
#[verifier::ext_equal]
pub struct MuxView {
    pub streams: Seq<StreamInfoView>,
    pub writers: Map<u32, StreamView>,
    pub header_written: bool,
    pub trailer_written: bool,
    pub skeleton: Option<SkeletonWriterView>,
    pub auto: Seq<AutoIndexView>,
    pub used: Set<u32>,
    pub link_index: u32,
    pub content_started: bool,
    pub wire: WireView,
}

/// The place of the first index of the stream `index`, from `from` on.
pub open spec fn first_of(auto: Seq<AutoIndexView>, index: u32, from: int) -> Option<int>
    decreases auto.len() - from,
{
    if from >= auto.len() {
        None
    } else if auto[from].stream_index == index {
        Some(from)
    } else {
        first_of(auto, index, from + 1)
    }
}

/// The indexes after a page of the stream `index` at `offset` was written.
pub open spec fn offered(
    auto: Seq<AutoIndexView>,
    index: u32,
    offset: u64,
    pts: Option<i64>,
) -> Seq<AutoIndexView> {
    match (pts, first_of(auto, index, 0)) {
        (Some(t), Some(i)) => auto.update(i, auto[i].offered(offset, t)),
        _ => auto,
    }
}

/// The indexes after a content packet of the stream `index`.
pub open spec fn noted(
    auto: Seq<AutoIndexView>,
    index: u32,
    pts: Option<i64>,
) -> Seq<AutoIndexView> {
    match (pts, first_of(auto, index, 0)) {
        (Some(t), Some(i)) => auto.update(i, auto[i].noted(t)),
        _ => auto,
    }
}

/// A page of the Skeleton: one packet, no time.
pub open spec fn skeleton_page(serial: u32, seq_no: u32, flags: u8, packet: Seq<u8>) -> PageView {
    PageView {
        flags,
        granule_position: 0,
        serial,
        seq_no,
        lacing: page::laced(packet.len()),
        data: packet,
    }
}

/// The writers of streams with the given serials. Of two streams with one index
/// the later counts.
pub open spec fn fresh_writers(streams: Seq<StreamInfoView>, serials: Seq<u32>) -> Map<
    u32,
    StreamView,
>
    decreases streams.len(),
{
    if streams.len() == 0 {
        Map::empty()
    } else {
        let s = streams.last();
        fresh_writers(streams.drop_last(), serials.drop_last()).insert(
            s.index,
            StreamView::fresh(serials.last(), codec_id::header_count(s.params.codec)),
        )
    }
}

/// All packets but the first.
pub open spec fn behind_first(packets: Seq<Seq<u8>>) -> Seq<Seq<u8>> {
    if packets.len() == 0 {
        packets
    } else {
        packets.skip(1)
    }
}

impl MuxView {
    /// The header packets of the stream at place `i`.
    pub open spec fn headers(self, i: int) -> Seq<Seq<u8>> {
        let p = self.streams[i].params;
        codec_headers::headers_of(p.codec, p.extradata)
    }

    /// A page of the stream `index` is on its way.
    pub open spec fn emitted(self, index: u32, p: PendingView) -> MuxView {
        MuxView {
            wire: self.wire.put(p.page),
            auto: offered(self.auto, index, self.wire.position, p.first_keyframe_pts),
            ..self
        }
    }

    /// Pages of the stream `index` are on their way.
    pub open spec fn emitted_all(self, index: u32, list: Seq<PendingView>) -> MuxView
        decreases list.len(),
    {
        if list.len() == 0 {
            self
        } else {
            self.emitted_all(index, list.drop_last()).emitted(index, list.last())
        }
    }

    /// The stream `index` has come to the state `s`: its ready pages are on
    /// their way.
    pub open spec fn settled(self, index: u32, s: StreamView) -> MuxView {
        let m = self.emitted_all(index, s.ready);
        MuxView { writers: m.writers.insert(index, s.emptied()), ..m }
    }

    /// A packet has been written.
    pub open spec fn packet(self, p: PacketView) -> MuxView {
        let before = self.writers[p.stream_index];
        let m = self.settled(p.stream_index, before.written(p));
        if before.headers > 0 {
            m
        } else {
            MuxView {
                auto: noted(m.auto, p.stream_index, p.pts),
                content_started: true,
                ..m
            }
        }
    }

    /// The first `n` streams are opened with their first header packets.
    pub open spec fn opened(self, n: int) -> MuxView
        decreases n,
    {
        if n <= 0 {
            self
        } else {
            let m = self.opened(n - 1);
            let index = self.streams[n - 1].index;
            let s = m.writers[index];
            if self.headers(n - 1).len() > 0 && s.headers > 0 {
                m.settled(index, s.opened(self.headers(n - 1)[0]))
            } else {
                m
            }
        }
    }

    /// Header packets of the stream `index` have been written.
    pub open spec fn more_headers(self, index: u32, packets: Seq<Seq<u8>>) -> MuxView
        decreases packets.len(),
    {
        if packets.len() == 0 {
            self
        } else {
            self.more_headers(index, packets.drop_last()).packet(
                stream::bare_packet(index, packets.last()),
            )
        }
    }

    /// The header packets behind the first have been written for the first `n`
    /// streams.
    pub open spec fn continued(self, n: int) -> MuxView
        decreases n,
    {
        if n <= 0 {
            self
        } else {
            self.continued(n - 1).more_headers(
                self.streams[n - 1].index,
                behind_first(self.headers(n - 1)),
            )
        }
    }

    /// The held-back pages of the first `n` streams are on their way.
    pub open spec fn released(self, n: int) -> MuxView
        decreases n,
    {
        if n <= 0 {
            self
        } else {
            let m = self.released(n - 1);
            let index = self.streams[n - 1].index;
            m.settled(index, m.writers[index].released())
        }
    }

    /// The first `n` streams are closed.
    pub open spec fn closed_off(self, n: int) -> MuxView
        decreases n,
    {
        if n <= 0 {
            self
        } else {
            let m = self.closed_off(n - 1);
            let index = self.streams[n - 1].index;
            m.settled(index, m.writers[index].closed_off())
        }
    }

    /// A Skeleton packet is on its way.
    pub open spec fn described(self, packet: Seq<u8>, flags: u8) -> MuxView {
        let s = self.skeleton->Some_0;
        MuxView {
            wire: self.wire.put(skeleton_page(s.serial, s.seq_no, flags, packet)),
            skeleton: Some(
                SkeletonWriterView { seq_no: stream_writer::successor(s.seq_no), ..s },
            ),
            ..self
        }
    }

    /// Skeleton packets are on their way.
    pub open spec fn described_all(self, packets: Seq<Seq<u8>>) -> MuxView
        decreases packets.len(),
    {
        if packets.len() == 0 {
            self
        } else {
            self.described_all(packets.drop_last()).described(packets.last(), 0)
        }
    }

    /// Places for the first `n` indexes are on their way.
    pub open spec fn reserved(self, n: int) -> MuxView
        decreases n,
    {
        if n <= 0 {
            self
        } else {
            let m = self.reserved(n - 1);
            let seq_no = m.skeleton->Some_0.seq_no;
            let a = m.auto[n - 1];
            let d = m.described(a.vacant().packet(), 0);
            MuxView {
                auto: d.auto.update(
                    n - 1,
                    AutoIndexView { placeholder: Some((m.wire.position, seq_no)), ..a },
                ),
                ..d
            }
        }
    }

    /// The `fishead` that is written: the one that was given, or an empty 4.0
    /// one.
    pub open spec fn head_to_write(self) -> FisHeadView {
        match self.skeleton->Some_0.skel.head {
            Some(h) => h,
            None => default_head(),
        }
    }

    /// The `fishead` page is on its way.
    pub open spec fn with_head(self) -> MuxView {
        let head = self.head_to_write();
        let m = self.described(head.encoded(), flags::FIRST_PAGE);
        MuxView {
            skeleton: Some(
                SkeletonWriterView { emitted_head: Some(head), ..m.skeleton->Some_0 },
            ),
            ..m
        }
    }

    /// The packets behind the `fishead`: those on the streams, and the indexes
    /// that were given.
    pub open spec fn secondary_packets(self) -> Seq<Seq<u8>> {
        let skel = self.skeleton->Some_0.skel;
        Seq::new(skel.bones.len(), |i: int| skel.bones[i].encoded()) + Seq::new(
            skel.indexes.len(),
            |i: int| skel.indexes[i].encoded(),
        )
    }

    /// The rest of the Skeleton is on its way, and content begins behind it.
    pub open spec fn with_skeleton(self) -> MuxView {
        let m = self.released(self.streams.len() as int);
        let d = m.described_all(m.secondary_packets());
        let r = d.reserved(d.auto.len() as int);
        let e = r.described(Seq::empty(), flags::LAST_PAGE);
        MuxView {
            skeleton: Some(
                SkeletonWriterView {
                    content_offset: Some(e.wire.position),
                    ..e.skeleton->Some_0
                },
            ),
            ..e
        }
    }

    /// The header packets of all streams have been written.
    pub open spec fn headed(self) -> MuxView {
        let n = self.streams.len() as int;
        self.opened(n).continued(n)
    }

    /// The headers have been written.
    pub open spec fn with_headers(self) -> MuxView {
        let m = MuxView { header_written: true, ..self };
        if self.skeleton is Some {
            m.with_head().headed().with_skeleton()
        } else {
            m.headed()
        }
    }

    /// A new link of the given streams has been begun.
    pub open spec fn relinked(self, streams: Seq<StreamInfoView>) -> MuxView {
        let m = self.closed_off(self.streams.len() as int);
        let serials = serials::assigned(m.used, streams);
        MuxView {
            streams,
            writers: fresh_writers(streams, serials),
            used: m.used + serials.to_set(),
            link_index: if m.link_index == u32::MAX {
                u32::MAX
            } else {
                (m.link_index + 1) as u32
            },
            content_started: false,
            ..m
        }.headed()
    }

    /// The stream has been ended.
    pub open spec fn ended(self) -> MuxView {
        MuxView { trailer_written: true, ..self.closed_off(self.streams.len() as int) }
    }

    /// The pages that take the places of the first `n` indexes.
    pub open spec fn index_patches(self, n: int) -> Seq<(u64, Seq<u8>)>
        decreases n,
    {
        if n <= 0 {
            Seq::empty()
        } else {
            let a = self.auto[n - 1];
            match a.placeholder {
                Some((offset, seq_no)) => self.index_patches(n - 1).push(
                    (
                        offset,
                        skeleton_page(
                            self.skeleton->Some_0.serial,
                            seq_no,
                            0,
                            a.packet(),
                        ).encoded(),
                    ),
                ),
                None => self.index_patches(n - 1),
            }
        }
    }

    /// The `fishead` with the length of the segment and the place where content
    /// begins filled in, where it leaves them open.
    pub open spec fn measured_head(self) -> FisHeadView {
        let s = self.skeleton->Some_0;
        let head = s.emitted_head->Some_0;
        let end = self.wire.position;
        FisHeadView {
            segment_length: if unknown(head.segment_length) && end != 0 {
                Some(end)
            } else {
                head.segment_length
            },
            content_byte_offset: if unknown(head.content_byte_offset) && s.content_offset is Some {
                s.content_offset
            } else {
                head.content_byte_offset
            },
            ..head
        }
    }

    /// The page that takes the place of the `fishead`, where it has something
    /// to fill in.
    pub open spec fn head_patches(self) -> Seq<(u64, Seq<u8>)> {
        match self.skeleton {
            Some(s) => match s.emitted_head {
                Some(head) => if head.extended() && ((unknown(head.segment_length)
                    && self.wire.position != 0) || (unknown(head.content_byte_offset)
                    && s.content_offset is Some)) {
                    seq![
                        (
                            0u64,
                            skeleton_page(
                                s.serial,
                                0,
                                flags::FIRST_PAGE,
                                self.measured_head().encoded(),
                            ).encoded(),
                        ),
                    ]
                } else {
                    Seq::empty()
                },
                None => Seq::empty(),
            },
            None => Seq::empty(),
        }
    }

    /// Every patch that the end of the stream calls for.
    pub open spec fn patches(self) -> Seq<(u64, Seq<u8>)> {
        if self.skeleton is Some {
            self.index_patches(self.auto.len() as int) + self.head_patches()
        } else {
            Seq::empty()
        }
    }

    /// The header packets that must stand on one page fit one: the first of each
    /// stream that waits for header packets, and those of the Skeleton.
    pub open spec fn headers_fit(self) -> bool {
        &&& forall|i: int|
            0 <= i < self.streams.len() && (#[trigger] self.headers(i)).len() > 0
                && self.writers[self.streams[i].index].headers > 0 ==> stream_writer::fits_page(
                self.headers(i)[0],
            )
        &&& self.secondary_fit()
    }

    /// The packets of the Skeleton behind the `fishead` fit one page each.
    pub open spec fn secondary_fit(self) -> bool {
        self.skeleton is Some ==> forall|i: int|
            0 <= i < self.secondary_packets().len() ==> stream_writer::fits_page(
                #[trigger] self.secondary_packets()[i],
            )
    }

    /// The parts fit together.
    pub open spec fn consistent(self) -> bool {
        &&& forall|i: int|
            0 <= i < self.streams.len() ==> self.writers.contains_key(
                (#[trigger] self.streams[i]).index,
            )
        &&& forall|k: u32| #[trigger]
            self.writers.contains_key(k) ==> self.writers[k].consistent()
                && self.writers[k].ready.len() == 0
        &&& forall|i: int| 0 <= i < self.auto.len() ==> (#[trigger] self.auto[i]).wf()
        &&& self.auto.len() > 0 ==> self.skeleton is Some
    }
}

/// The value is absent or zero.
pub open spec fn unknown(v: Option<u64>) -> bool {
    match v {
        Some(n) => n == 0,
        None => true,
    }
}

/// A 4.0 `fishead` that says nothing.
pub open spec fn default_head() -> FisHeadView {
    FisHeadView {
        version: Version::v4_0(),
        presentation_time: crate::skeleton::head::Rational { numerator: 0, denominator: 0 },
        basetime: crate::skeleton::head::Rational { numerator: 0, denominator: 0 },
        utc: Seq::new(20, |i: int| 0u8),
        segment_length: Some(0),
        content_byte_offset: Some(0),
    }
}

/// The muxer. Its bytes are handed over by [`OggMuxer::take_output`]; whoever
/// calls it puts them behind each other, from the position on that the muxer
/// was made with.
pub struct OggMuxer {
    streams: Vec<StreamInfo>,
    writers: SerialMap<StreamWriter>,
    header_written: bool,
    trailer_written: bool,
    skeleton: Option<SkeletonWriter>,
    auto_index: Vec<AutoIndexState>,
    used: SerialMap<()>,
    link_index: u32,
    content_started: bool,
    wire: Wire,
}

/// What a map of writers stands for.
pub open spec fn writers_view(writers: Map<u32, StreamWriter>) -> Map<u32, StreamView> {
    Map::new(|k: u32| writers.contains_key(k), |k: u32| writers[k]@)
}

/// What a list of indexes stands for.
pub open spec fn auto_view(list: Seq<AutoIndexState>) -> Seq<AutoIndexView> {
    list.map_values(|a: AutoIndexState| a@)
}

impl View for OggMuxer {
    type V = MuxView;

    closed spec fn view(&self) -> MuxView {
        MuxView {
            streams: stream::streams_view(self.streams@),
            writers: writers_view(self.writers@),
            header_written: self.header_written,
            trailer_written: self.trailer_written,
            skeleton: match self.skeleton {
                Some(s) => Some(s@),
                None => None,
            },
            auto: auto_view(self.auto_index@),
            used: self.used@.dom(),
            link_index: self.link_index,
            content_started: self.content_started,
            wire: self.wire@,
        }
    }
}

/// Pages on their way keep the muxer's other parts as they are.
proof fn lemma_emitted_keeps(m: MuxView, index: u32, list: Seq<PendingView>)
    ensures
        m.emitted_all(index, list) == (MuxView {
            wire: m.emitted_all(index, list).wire,
            auto: m.emitted_all(index, list).auto,
            ..m
        }),
    decreases list.len(),
{
    if list.len() > 0 {
        lemma_emitted_keeps(m, index, list.drop_last());
    }
}

impl OggMuxer {
    /// The muxer is in a state that its operations lead to.
    pub closed spec fn wf(&self) -> bool {
        &&& self.writers.wf()
        &&& self.used.wf()
        &&& self.wire.wf()
        &&& self@.consistent()
    }

    /// The parts apart from the writers fit together, and so do all writers
    /// that are there.
    spec fn open_wf(&self) -> bool {
        &&& self.writers.wf()
        &&& self.used.wf()
        &&& self.wire.wf()
        &&& forall|k: u32| #[trigger]
            self@.writers.contains_key(k) ==> self@.writers[k].consistent()
                && self@.writers[k].ready.len() == 0
        &&& forall|i: int| 0 <= i < self@.auto.len() ==> (#[trigger] self@.auto[i]).wf()
        &&& self@.auto.len() > 0 ==> self@.skeleton is Some
    }

    fn auto_of(&self, index: u32) -> (r: Option<usize>)
        ensures
            match r {
                Some(i) => first_of(self@.auto, index, 0) == Some(i as int) && i
                    < self.auto_index@.len(),
                None => first_of(self@.auto, index, 0) is None,
            },
    {
        let mut i: usize = 0;
        while i < self.auto_index.len()
            invariant
                i <= self.auto_index@.len(),
                first_of(self@.auto, index, 0) == first_of(self@.auto, index, i as int),
            decreases self.auto_index@.len() - i,
        {
            if self.auto_index[i].stream_index == index {
                return Some(i);
            }
            i += 1;
        }
        None
    }

    fn emit(&mut self, index: u32, page: &Page, first_keyframe_pts: Option<i64>)
        requires
            old(self).open_wf(),
            page@.wf(),
        ensures
            final(self).open_wf(),
            final(self)@ == old(self)@.emitted(
                index,
                PendingView { page: page@, first_keyframe_pts },
            ),
            final(self).writers == old(self).writers,
    {
        let ghost before = self@;
        let ghost pending = PendingView { page: page@, first_keyframe_pts };
        let offset: u64 = self.wire.position();
        self.wire.put(page);
        if let Some(pts) = first_keyframe_pts {
            if let Some(i) = self.auto_of(index) {
                assert(self@.auto[i as int].wf());
                self.auto_index[i].offer_keypoint(offset, pts);
                assert(self@.auto =~= offered(before.auto, index, offset, first_keyframe_pts));
            }
        }
        assert(self@ =~= before.emitted(index, pending));
        assert forall|i: int| 0 <= i < self@.auto.len() implies (#[trigger] self@.auto[i]).wf() by {
            assert(before.auto[i].wf());
        }
    }

    /// Puts the ready pages of the writer `w` of the stream `index` on their
    /// way and keeps the writer.
    fn settle(&mut self, index: u32, w: StreamWriter)
        requires
            old(self).open_wf(),
            w@.consistent(),
        ensures
            final(self).open_wf(),
            final(self)@ == old(self)@.settled(index, w@),
    {
        let mut w = w;
        let ghost reached = w@;
        let ghost before = self@;
        let ready = w.take_ready();
        let ghost list = reached.ready;
        let mut i: usize = 0;
        assert(list.take(0) =~= Seq::<PendingView>::empty());
        while i < ready.len()
            invariant
                i <= ready@.len(),
                list == stream_writer::pending_view(ready@),
                list == reached.ready,
                reached.consistent(),
                self.open_wf(),
                self.writers == old(self).writers,
                self@ == before.emitted_all(index, list.take(i as int)),
            decreases ready@.len() - i,
        {
            assert(list[i as int] == ready@[i as int]@);
            assert(list[i as int].page.wf());
            self.emit(index, &ready[i].page, ready[i].first_keyframe_pts);
            assert(list.take(i + 1).drop_last() =~= list.take(i as int));
            assert(list.take(i + 1).last() == list[i as int]);
            i += 1;
        }
        assert(list.take(i as int) =~= list);
        let ghost writers = self.writers@;
        self.writers.insert(index, w);
        proof {
            lemma_emitted_keeps(before, index, list);
            assert(writers_view(writers.insert(index, w)) =~= writers_view(writers).insert(
                index,
                w@,
            ));
            assert(self@ =~= before.settled(index, reached));
            assert forall|k: u32| #[trigger] self@.writers.contains_key(k) implies (
            self@.writers[k].consistent() && self@.writers[k].ready.len() == 0) by {
                if k != index {
                    assert(before.writers.contains_key(k));
                    assert(before.writers[k] == self@.writers[k]);
                }
            }
        }
    }
}

proof fn lemma_emitted_apart(m: MuxView, writers: Map<u32, StreamView>, index: u32, list: Seq<PendingView>)
    ensures
        (MuxView { writers, ..m }).emitted_all(index, list) == (MuxView {
            writers,
            ..m.emitted_all(index, list)
        }),
    decreases list.len(),
{
    if list.len() > 0 {
        lemma_emitted_apart(m, writers, index, list.drop_last());
    }
}

/// It makes no difference whether the writer was put aside meanwhile.
proof fn lemma_settled_apart(m: MuxView, index: u32, s: StreamView)
    ensures
        (MuxView { writers: m.writers.remove(index), ..m }).settled(index, s) == m.settled(
            index,
            s,
        ),
{
    lemma_emitted_apart(m, m.writers.remove(index), index, s.ready);
    lemma_emitted_keeps(m, index, s.ready);
    assert(m.writers.remove(index).insert(index, s.emptied()) =~= m.writers.insert(
        index,
        s.emptied(),
    ));
}

impl OggMuxer {
    fn borrow_writer(&mut self, index: u32) -> (w: Option<StreamWriter>)
        requires
            old(self).wf(),
        ensures
            final(self).open_wf(),
            match w {
                Some(w) => old(self)@.writers.contains_key(index) && w@
                    == old(self)@.writers[index] && final(self)@ == (MuxView {
                    writers: old(self)@.writers.remove(index),
                    ..old(self)@
                }) && w@.consistent(),
                None => !old(self)@.writers.contains_key(index) && final(self)@ == old(self)@
                    && final(self).wf(),
            },
    {
        let ghost before = self@;
        let ghost writers = self.writers@;
        let w = self.writers.remove(index);
        proof {
            assert(writers_view(writers.remove(index)) =~= writers_view(writers).remove(index));
            assert(self@ =~= (MuxView { writers: before.writers.remove(index), ..before }));
            assert forall|k: u32| #[trigger] self@.writers.contains_key(k) implies (
            self@.writers[k].consistent() && self@.writers[k].ready.len() == 0) by {
                assert(before.writers.contains_key(k));
            }
            if w is None {
                assert(self@.writers =~= before.writers);
            } else {
                assert(before.writers.contains_key(index));
            }
        }
        w
    }

    fn return_writer(&mut self, index: u32, w: StreamWriter, Ghost(m): Ghost<MuxView>)
        requires
            old(self).open_wf(),
            m.consistent(),
            old(self)@ == (MuxView { writers: m.writers.remove(index), ..m }),
            w@.consistent(),
        ensures
            final(self).wf(),
            final(self)@ == m.settled(index, w@),
    {
        proof {
            lemma_settled_apart(m, index, w@);
            lemma_emitted_keeps(m, index, w@.ready);
        }
        self.settle(index, w);
    }

    fn push_packet(&mut self, packet: &Packet)
        requires
            old(self).wf(),
            old(self)@.writers.contains_key(packet.stream_index),
        ensures
            final(self).wf(),
            final(self)@ == old(self)@.packet(packet@),
    {
        let ghost before = self@;
        let index: u32 = packet.stream_index;
        if let Some(w) = self.borrow_writer(index) {
            let mut w = w;
            let header: bool = w.headers_remaining() > 0;
            w.write(packet);
            self.return_writer(index, w, Ghost(before));
            if !header {
                let ghost m = self@;
                if let Some(pts) = packet.pts {
                    if let Some(i) = self.auto_of(index) {
                        self.auto_index[i].note_pts(pts);
                        assert(self@.auto =~= noted(m.auto, index, packet.pts));
                    }
                }
                self.content_started = true;
                proof {
                    assert(self@ =~= (MuxView {
                        auto: noted(m.auto, index, packet.pts),
                        content_started: true,
                        ..m
                    }));
                    assert forall|i: int| 0 <= i < self@.auto.len() implies (
                    #[trigger] self@.auto[i]).wf() by {
                        assert(m.auto[i].wf());
                    }
                    assert forall|i: int|
                        0 <= i < self@.streams.len() implies self@.writers.contains_key(
                        (#[trigger] self@.streams[i]).index,
                    ) by {
                        assert(m.writers.contains_key(m.streams[i].index));
                    }
                }
            }
        }
    }

    /// Writes a packet of one of the streams.
    pub fn write_packet(&mut self, packet: &Packet) -> (r: Result<(), Error>)
        requires
            old(self).wf(),
        ensures
            final(self).wf(),
            match r {
                Ok(()) => old(self)@.header_written && old(self)@.writers.contains_key(
                    packet.stream_index,
                ) && final(self)@ == old(self)@.packet(packet@),
                Err(e) => final(self)@ == old(self)@ && if !old(self)@.header_written {
                    e == Error::Other(Fault::HeaderMissing)
                } else {
                    !old(self)@.writers.contains_key(packet.stream_index) && e
                        == Error::InvalidData(Fault::UnknownStream { index: packet.stream_index })
                },
            },
    {
        if !self.header_written {
            return Err(Error::Other(Fault::HeaderMissing));
        }
        if !self.writers.contains(packet.stream_index) {
            return Err(
                Error::InvalidData(Fault::UnknownStream { index: packet.stream_index }),
            );
        }
        assert(self@.writers.contains_key(packet.stream_index));
        self.push_packet(packet);
        Ok(())
    }

    /// The bytes that were not handed over before.
    pub fn take_output(&mut self) -> (out: Vec<u8>)
        requires
            old(self).wf(),
        ensures
            final(self).wf(),
            out@ == framing::bytes_of(old(self)@.wire.pages),
            final(self)@ == (MuxView { wire: old(self)@.wire.taken(), ..old(self)@ }),
    {
        let ghost before = self@;
        let out = self.wire.take();
        assert(self@ =~= (MuxView { wire: before.wire.taken(), ..before }));
        out
    }

    /// Number of the link that is being written.
    pub fn link_index(&self) -> (r: u32)
        ensures
            r == self@.link_index,
    {
        self.link_index
    }

    /// Serial of a stream of the link that is being written.
    pub fn stream_serial(&self, stream_index: u32) -> (r: Option<u32>)
        requires
            self.wf(),
        ensures
            r == (if self@.writers.contains_key(stream_index) {
                Some(self@.writers[stream_index].serial)
            } else {
                None
            }),
    {
        match self.writers.get(stream_index) {
            Some(w) => {
                assert(self@.writers.contains_key(stream_index));
                Some(w.serial())
            },
            None => {
                assert(!self@.writers.contains_key(stream_index));
                None
            },
        }
    }
}

/// Everything but the pages, the writers and the indexes is the same.
pub open spec fn same_frame(a: MuxView, b: MuxView) -> bool {
    &&& a.streams == b.streams
    &&& a.header_written == b.header_written
    &&& a.trailer_written == b.trailer_written
    &&& a.skeleton == b.skeleton
    &&& a.used == b.used
    &&& a.link_index == b.link_index
    &&& a.auto.len() == b.auto.len()
}

pub proof fn lemma_first_of(auto: Seq<AutoIndexView>, index: u32, from: int)
    requires
        0 <= from,
    ensures
        first_of(auto, index, from) matches Some(i) ==> from <= i < auto.len(),
    decreases auto.len() - from,
{
    if from < auto.len() && auto[from].stream_index != index {
        lemma_first_of(auto, index, from + 1);
    }
}

proof fn lemma_auto_len(m: MuxView, index: u32, list: Seq<PendingView>)
    ensures
        m.emitted_all(index, list).auto.len() == m.auto.len(),
    decreases list.len(),
{
    if list.len() > 0 {
        lemma_auto_len(m, index, list.drop_last());
        lemma_first_of(m.emitted_all(index, list.drop_last()).auto, index, 0);
    }
}

/// Opening streams adds no header packets to wait for.
proof fn lemma_opened_headers(m: MuxView, n: int, k: u32)
    ensures
        m.opened(n).writers[k].headers <= m.writers[k].headers,
    decreases n,
{
    if n > 0 {
        lemma_opened_headers(m, n - 1, k);
        let mid = m.opened(n - 1);
        let index = m.streams[n - 1].index;
        let s = mid.writers[index];
        if m.headers(n - 1).len() > 0 && s.headers > 0 {
            lemma_emitted_keeps(mid, index, s.opened(m.headers(n - 1)[0]).ready);
        }
    }
}

proof fn lemma_settled_frame(m: MuxView, index: u32, s: StreamView)
    ensures
        same_frame(m.settled(index, s), m),
{
    lemma_emitted_keeps(m, index, s.ready);
    lemma_auto_len(m, index, s.ready);
}

impl OggMuxer {
    fn open_streams(&mut self)
        requires
            old(self).wf(),
            old(self)@.headers_fit(),
        ensures
            final(self).wf(),
            same_frame(final(self)@, old(self)@),
            final(self)@ == old(self)@.opened(old(self)@.streams.len() as int),
    {
        let ghost before = self@;
        let mut i: usize = 0;
        while i < self.streams.len()
            invariant
                self.wf(),
                before.headers_fit(),
                same_frame(self@, before),
                i <= self.streams@.len(),
                self@ == before.opened(i as int),
            decreases self.streams@.len() - i,
        {
            let ghost m = self@;
            let index: u32 = self.streams[i].index;
            let packets = extract_codec_headers(
                &self.streams[i].params.codec_id,
                self.streams[i].params.extradata.as_slice(),
            );
            assert(m.streams[i as int] == self.streams@[i as int]@);
            assert(framing::packets_view(packets@) == before.headers(i as int));
            assert(m.writers.contains_key(m.streams[i as int].index));
            proof {
                lemma_settled_frame(m, index, m.writers[index].opened(before.headers(i as int)[0]));
            }
            let opens: bool = packets.len() > 0 && self.headers_of(index) > 0;
            if opens {
                proof {
                    lemma_opened_headers(before, i as int, index);
                }
                assert(stream_writer::fits_page(before.headers(i as int)[0]));
                assert(packets@[0]@ == before.headers(i as int)[0]);
                if let Some(w) = self.borrow_writer(index) {
                    let mut w = w;
                    w.open_with(packets[0].as_slice());
                    self.return_writer(index, w, Ghost(m));
                }
            }
            i += 1;
        }
    }

    /// Number of header packets that the stream `index` still waits for.
    fn headers_of(&self, index: u32) -> (n: usize)
        requires
            self.wf(),
            self@.writers.contains_key(index),
        ensures
            n == self@.writers[index].headers,
    {
        match self.writers.get(index) {
            Some(w) => w.headers_remaining(),
            None => {
                assert(!self@.writers.contains_key(index));
                0
            },
        }
    }

    fn continue_headers(&mut self)
        requires
            old(self).wf(),
        ensures
            final(self).wf(),
            same_frame(final(self)@, old(self)@),
            final(self)@ == old(self)@.continued(old(self)@.streams.len() as int),
    {
        let ghost before = self@;
        let mut i: usize = 0;
        while i < self.streams.len()
            invariant
                self.wf(),
                same_frame(self@, before),
                i <= self.streams@.len(),
                self@ == before.continued(i as int),
            decreases self.streams@.len() - i,
        {
            let ghost m = self@;
            let index: u32 = self.streams[i].index;
            let packets = extract_codec_headers(
                &self.streams[i].params.codec_id,
                self.streams[i].params.extradata.as_slice(),
            );
            assert(m.streams[i as int] == self.streams@[i as int]@);
            assert(framing::packets_view(packets@) == before.headers(i as int));
            assert(m.writers.contains_key(m.streams[i as int].index));
            self.push_headers(index, packets);
            i += 1;
        }
    }

    /// Writes the header packets behind the first.
    fn push_headers(&mut self, index: u32, packets: Vec<Vec<u8>>)
        requires
            old(self).wf(),
            old(self)@.writers.contains_key(index),
        ensures
            final(self).wf(),
            same_frame(final(self)@, old(self)@),
            final(self)@ == old(self)@.more_headers(
                index,
                behind_first(framing::packets_view(packets@)),
            ),
    {
        let ghost before = self@;
        let ghost rest = behind_first(framing::packets_view(packets@));
        let mut k: usize = 1;
        assert(rest.take(0) =~= Seq::<Seq<u8>>::empty());
        while k < packets.len()
            invariant
                self.wf(),
                same_frame(self@, before),
                self@.writers.contains_key(index),
                1 <= k,
                rest == behind_first(framing::packets_view(packets@)),
                packets@.len() >= 1 ==> k <= packets@.len(),
                packets@.len() == 0 ==> k == 1,
                self@ == before.more_headers(index, rest.take(k - 1)),
            decreases packets@.len() - k,
        {
            let ghost m = self@;
            let mut data: Vec<u8> = Vec::new();
            crate::bytes::push_all(&mut data, packets[k].as_slice());
            let packet = Packet::new(index, data);
            proof {
                assert(data@ =~= packets@[k as int]@);
                assert(rest[k - 1] == packets@[k as int]@);
                assert(rest.take(k as int).drop_last() =~= rest.take(k - 1));
                assert(rest.take(k as int).last() == rest[k - 1]);
                lemma_settled_frame(m, index, m.writers[index].written(packet@));
                lemma_emitted_keeps(m, index, m.writers[index].written(packet@).ready);
            }
            self.push_packet(&packet);
            k += 1;
        }
        proof {
            if packets@.len() == 0 {
                assert(rest.take(0) =~= rest);
            } else {
                assert(rest.take(k - 1) =~= rest);
            }
        }
    }

    fn release_streams(&mut self)
        requires
            old(self).wf(),
        ensures
            final(self).wf(),
            same_frame(final(self)@, old(self)@),
            final(self)@ == old(self)@.released(old(self)@.streams.len() as int),
    {
        let ghost before = self@;
        let mut i: usize = 0;
        while i < self.streams.len()
            invariant
                self.wf(),
                same_frame(self@, before),
                i <= self.streams@.len(),
                self@ == before.released(i as int),
            decreases self.streams@.len() - i,
        {
            let ghost m = self@;
            let index: u32 = self.streams[i].index;
            assert(m.streams[i as int] == self.streams@[i as int]@);
            assert(m.writers.contains_key(m.streams[i as int].index));
            proof {
                lemma_settled_frame(m, index, m.writers[index].released());
            }
            if let Some(w) = self.borrow_writer(index) {
                let mut w = w;
                w.release();
                self.return_writer(index, w, Ghost(m));
            }
            i += 1;
        }
    }

    fn close_streams(&mut self)
        requires
            old(self).wf(),
        ensures
            final(self).wf(),
            same_frame(final(self)@, old(self)@),
            final(self)@ == old(self)@.closed_off(old(self)@.streams.len() as int),
    {
        let ghost before = self@;
        let mut i: usize = 0;
        while i < self.streams.len()
            invariant
                self.wf(),
                same_frame(self@, before),
                i <= self.streams@.len(),
                self@ == before.closed_off(i as int),
            decreases self.streams@.len() - i,
        {
            let ghost m = self@;
            let index: u32 = self.streams[i].index;
            assert(m.streams[i as int] == self.streams@[i as int]@);
            assert(m.writers.contains_key(m.streams[i as int].index));
            proof {
                lemma_settled_frame(m, index, m.writers[index].closed_off());
            }
            if let Some(w) = self.borrow_writer(index) {
                let mut w = w;
                w.close();
                self.return_writer(index, w, Ghost(m));
            }
            i += 1;
        }
    }

    /// Puts a Skeleton packet on its way.
    fn describe(&mut self, packet: Vec<u8>, page_flags: u8)
        requires
            old(self).wf(),
            old(self)@.skeleton is Some,
            stream_writer::fits_page(packet@),
        ensures
            final(self).wf(),
            final(self)@ == old(self)@.described(packet@, page_flags),
    {
        let ghost before = self@;
        if let Some(s) = &self.skeleton {
            let serial: u32 = s.serial;
            let seq_no: u32 = s.seq_no;
            let page = Page {
                flags: page_flags,
                granule_position: 0,
                serial,
                seq_no,
                lacing: lace(packet.len()),
                data: packet,
            };
            proof {
                page::law_laced(packet@.len());
            }
            self.wire.put(&page);
            if let Some(s) = self.skeleton.take() {
                let mut s = s;
                s.seq_no = s.seq_no.wrapping_add(1);
                self.skeleton = Some(s);
            }
            assert(page@ == skeleton_page(serial, seq_no, page_flags, packet@));
            assert(self@ =~= before.described(packet@, page_flags));
        }
    }
}

impl OggMuxer {
    /// Puts the `fishead` page on its way.
    fn write_head(&mut self)
        requires
            old(self).wf(),
            old(self)@.skeleton is Some,
        ensures
            final(self).wf(),
            final(self)@ == old(self)@.with_head(),
    {
        let ghost before = self@;
        if let Some(s) = &self.skeleton {
            let head = match &s.skel.head {
                Some(h) => h.copied(),
                None => FisHead::new(Version::v4_0()),
            };
            assert(head@ =~= before.head_to_write());
            self.describe(head.to_bytes(), flags::FIRST_PAGE);
            let ghost m = self@;
            if let Some(s) = self.skeleton.take() {
                let mut s = s;
                s.emitted_head = Some(head);
                self.skeleton = Some(s);
            }
            assert(self@ =~= before.with_head());
        }
    }

    /// Puts the `fisbone` packets and the indexes that were given on their way.
    fn write_secondary(&mut self)
        requires
            old(self).wf(),
            old(self)@.skeleton is Some,
            old(self)@.secondary_fit(),
        ensures
            final(self).wf(),
            final(self)@.skeleton is Some,
            final(self)@ == old(self)@.described_all(old(self)@.secondary_packets()),
    {
        let ghost before = self@;
        let ghost packets = before.secondary_packets();
        let ghost skel = before.skeleton->Some_0.skel;
        let (bones, indexes) = match &self.skeleton {
            Some(s) => (s.skel.bones.len(), s.skel.indexes.len()),
            None => (0, 0),
        };
        let mut i: usize = 0;
        assert(packets.take(0) =~= Seq::<Seq<u8>>::empty());
        while i < bones
            invariant
                self.wf(),
                before.secondary_fit(),
                before.skeleton is Some,
                packets == before.secondary_packets(),
                skel == before.skeleton->Some_0.skel,
                bones == skel.bones.len(),
                i <= bones,
                self@.skeleton is Some,
                self@.skeleton->Some_0.skel == skel,
                self@ == before.described_all(packets.take(i as int)),
            decreases bones - i,
        {
            if let Some(s) = &self.skeleton {
                let packet = s.skel.bones[i].to_bytes();
                proof {
                    assert(skel.bones[i as int] == s.skel.bones@[i as int]@);
                    assert(packets[i as int] == packet@);
                    assert(packets.take(i + 1).drop_last() =~= packets.take(i as int));
                    assert(packets.take(i + 1).last() == packets[i as int]);
                }
                self.describe(packet, 0);
            }
            i += 1;
        }
        let mut k: usize = 0;
        while k < indexes
            invariant
                self.wf(),
                before.secondary_fit(),
                before.skeleton is Some,
                packets == before.secondary_packets(),
                skel == before.skeleton->Some_0.skel,
                bones == skel.bones.len(),
                indexes == skel.indexes.len(),
                k <= indexes,
                self@.skeleton is Some,
                self@.skeleton->Some_0.skel == skel,
                self@ == before.described_all(packets.take(bones + k)),
            decreases indexes - k,
        {
            if let Some(s) = &self.skeleton {
                let packet = s.skel.indexes[k].to_bytes();
                proof {
                    assert(skel.indexes[k as int] == s.skel.indexes@[k as int]@);
                    assert(packets[bones + k] == packet@);
                    assert(packets.take(bones + k + 1).drop_last() =~= packets.take(bones + k));
                    assert(packets.take(bones + k + 1).last() == packets[bones + k]);
                }
                self.describe(packet, 0);
            }
            k += 1;
        }
        assert(packets.take(bones + k) =~= packets);
    }

    /// Puts the places for the indexes that are being built on their way.
    fn reserve_indexes(&mut self)
        requires
            old(self).wf(),
            old(self)@.skeleton is Some,
        ensures
            final(self).wf(),
            final(self)@.skeleton is Some,
            final(self)@ == old(self)@.reserved(old(self)@.auto.len() as int),
    {
        let ghost before = self@;
        let n: usize = self.auto_index.len();
        let mut i: usize = 0;
        while i < n
            invariant
                self.wf(),
                self@.skeleton is Some,
                n == before.auto.len(),
                self@.auto.len() == n,
                i <= n,
                self@ == before.reserved(i as int),
            decreases n - i,
        {
            let ghost m = self@;
            let offset: u64 = self.wire.position();
            let seq_no: u32 = match &self.skeleton {
                Some(s) => s.seq_no,
                None => 0,
            };
            let a = &self.auto_index[i];
            let blank = AutoIndexState::new(
                a.stream_index,
                a.serial,
                a.timestamp_denominator,
                a.tb_num,
                a.config,
            );
            proof {
                assert(m.auto[i as int].wf());
                assert(m.auto[i as int] == self.auto_index@[i as int]@);
                assert(blank@.index() =~= m.auto[i as int].vacant().index());
                assert(blank@.packet() == m.auto[i as int].vacant().packet());
            }
            let packet = blank.packet_bytes();
            self.describe(packet, 0);
            let ghost d = self@;
            self.auto_index[i].placeholder = Some((offset, seq_no));
            proof {
                let a = AutoIndexView {
                    placeholder: Some((offset, seq_no)),
                    ..m.auto[i as int]
                };
                assert(self@.auto =~= d.auto.update(i as int, a));
                assert(self@ =~= before.reserved(i + 1));
                assert forall|k: int| 0 <= k < self@.auto.len() implies (
                #[trigger] self@.auto[k]).wf() by {
                    assert(m.auto[k].wf());
                }
                assert forall|k: int|
                    0 <= k < self@.streams.len() implies self@.writers.contains_key(
                    (#[trigger] self@.streams[k]).index,
                ) by {
                    assert(m.writers.contains_key(m.streams[k].index));
                }
            }
            i += 1;
        }
    }

    /// Writes the header packets of all streams, and the Skeleton where there
    /// is one. Works once.
    pub fn write_header(&mut self) -> (r: Result<(), Error>)
        requires
            old(self).wf(),
            !old(self)@.header_written ==> old(self)@.headers_fit(),
        ensures
            final(self).wf(),
            match r {
                Ok(()) => !old(self)@.header_written && final(self)@
                    == old(self)@.with_headers(),
                Err(e) => old(self)@.header_written && final(self)@ == old(self)@ && e
                    == Error::Other(Fault::HeaderTwice),
            },
    {
        if self.header_written {
            return Err(Error::Other(Fault::HeaderTwice));
        }
        let ghost before = self@;
        self.header_written = true;
        let ghost m = MuxView { header_written: true, ..before };
        assert(self@ =~= m);
        proof {
            assert forall|i: int|
                0 <= i < self@.streams.len() implies self@.writers.contains_key(
                (#[trigger] self@.streams[i]).index,
            ) by {
                assert(before.writers.contains_key(before.streams[i].index));
            }
        }
        let described: bool = self.skeleton.is_some();
        if described {
            self.write_head();
        }
        proof {
            assert forall|i: int|
                0 <= i < self@.streams.len() && (#[trigger] self@.headers(i)).len() > 0
                    && self@.writers[self@.streams[i].index].headers
                    > 0 implies stream_writer::fits_page(self@.headers(i)[0]) by {
                assert(before.headers(i) == self@.headers(i));
            }
            if described {
                assert(self@.secondary_packets() =~= before.secondary_packets());
            }
        }
        self.open_streams();
        self.continue_headers();
        if described {
            self.release_streams();
            let ghost k = self@;
            proof {
                assert(k.secondary_packets() =~= before.secondary_packets());
            }
            self.write_secondary();
            self.reserve_indexes();
            self.describe(Vec::new(), flags::LAST_PAGE);
            let ghost e = self@;
            let position: u64 = self.wire.position();
            if let Some(s) = self.skeleton.take() {
                let mut s = s;
                s.content_offset = Some(position);
                self.skeleton = Some(s);
            }
            proof {
                assert(self@ =~= before.with_headers());
                assert forall|i: int|
                    0 <= i < self@.streams.len() implies self@.writers.contains_key(
                    (#[trigger] self@.streams[i]).index,
                ) by {
                    assert(e.writers.contains_key(e.streams[i].index));
                }
            }
        }
        Ok(())
    }
}

/// The largest of serials, 0 where there is none.
pub open spec fn largest(serials: Seq<u32>) -> u32
    decreases serials.len(),
{
    if serials.len() == 0 {
        0
    } else {
        let front = largest(serials.drop_last());
        if serials.last() > front {
            serials.last()
        } else {
            front
        }
    }
}

/// The writers of a link: each stream gets a serial that is not used.
fn build_link_writers(streams: &[StreamInfo], used: &mut SerialMap<()>) -> (r: (
    SerialMap<StreamWriter>,
    u32,
))
    requires
        old(used).wf(),
    ensures
        ({
            let views = stream::streams_view(streams@);
            let serials = serials::assigned(old(used)@.dom(), views);
            &&& final(used).wf()
            &&& final(used)@.dom() == old(used)@.dom() + serials.to_set()
            &&& r.0.wf()
            &&& writers_view(r.0@) == fresh_writers(views, serials)
            &&& r.1 == largest(serials)
        }),
{
    let ghost views = stream::streams_view(streams@);
    let ghost before = used@.dom();
    let mut writers: SerialMap<StreamWriter> = SerialMap::new();
    let mut max_serial: u32 = 0;
    let mut i: usize = 0;
    proof {
        let none = views.take(0);
        assert(serials::assigned(before, none).to_set() =~= Set::<u32>::empty());
        assert(before + Set::<u32>::empty() =~= before);
        assert(writers_view(writers@) =~= Map::<u32, StreamView>::empty());
    }
    while i < streams.len()
        invariant
            i <= streams@.len(),
            views == stream::streams_view(streams@),
            used.wf(),
            used@.dom() == before + serials::assigned(before, views.take(i as int)).to_set(),
            writers.wf(),
            writers_view(writers@) == fresh_writers(
                views.take(i as int),
                serials::assigned(before, views.take(i as int)),
            ),
            max_serial == largest(serials::assigned(before, views.take(i as int))),
        decreases streams@.len() - i,
    {
        let ghost done = views.take(i as int);
        let ghost serials = serials::assigned(before, done);
        let ghost map = writers@;
        let index: u32 = streams[i].index;
        let serial: u32 = find_free(used, index);
        let ghost taken = used@.dom();
        used.insert(serial, ());
        let w = StreamWriter::new(serial, header_packet_count(&streams[i].params.codec_id));
        writers.insert(index, w);
        if serial > max_serial {
            max_serial = serial;
        }
        proof {
            let more = views.take(i + 1);
            assert(more.drop_last() =~= done);
            assert(more.last() == streams@[i as int]@);
            let after = serials::assigned(before, more);
            assert(after == serials.push(serial));
            assert(after.drop_last() =~= serials);
            assert(before + after.to_set() =~= taken.insert(serial)) by {
                lemma_to_set_push(serials, serial);
            }
            assert(used@.dom() =~= taken.insert(serial));
            assert(writers_view(writers@) =~= writers_view(map).insert(index, w@));
        }
        i += 1;
    }
    assert(views.take(i as int) =~= views);
    (writers, max_serial)
}

proof fn lemma_to_set_push(s: Seq<u32>, v: u32)
    ensures
        s.push(v).to_set() == s.to_set().insert(v),
{
    assert forall|x: u32| s.push(v).to_set().contains(x) == s.to_set().insert(v).contains(x) by {
        if s.contains(x) {
            let i = choose|i: int| 0 <= i < s.len() && s[i] == x;
            assert(s.push(v)[i] == x);
        }
        assert(s.push(v)[s.len() as int] == v);
    }
    assert(s.push(v).to_set() =~= s.to_set().insert(v));
}

/// Writers of which nothing was written are consistent, and every stream has
/// one.
proof fn lemma_fresh_writers(streams: Seq<StreamInfoView>, serials: Seq<u32>)
    ensures
        forall|k: u32| #[trigger]
            fresh_writers(streams, serials).contains_key(k) ==> fresh_writers(
                streams,
                serials,
            )[k].consistent() && fresh_writers(streams, serials)[k].ready.len() == 0,
        forall|i: int|
            0 <= i < streams.len() ==> fresh_writers(streams, serials).contains_key(
                (#[trigger] streams[i]).index,
            ),
    decreases streams.len(),
{
    if streams.len() > 0 {
        lemma_fresh_writers(streams.drop_last(), serials.drop_last());
        let all = fresh_writers(streams, serials);
        assert forall|i: int| 0 <= i < streams.len() implies all.contains_key(
            (#[trigger] streams[i]).index,
        ) by {
            if i < streams.len() - 1 {
                assert(streams.drop_last()[i] == streams[i]);
            }
        }
    }
}

/// The indexes that are built: one for each stream that no index was given for.
pub open spec fn built_indexes(
    streams: Seq<StreamInfoView>,
    writers: Map<u32, StreamView>,
    skel: SkeletonView,
    config: AutoIndexConfig,
) -> Seq<AutoIndexView>
    decreases streams.len(),
{
    if streams.len() == 0 {
        Seq::empty()
    } else {
        let front = built_indexes(streams.drop_last(), writers, skel, config);
        let s = streams.last();
        let serial = writers[s.index].serial;
        if crate::skeleton::state::index_for(skel.indexes, serial) is Some {
            front
        } else {
            front.push(
                AutoIndexView {
                    stream_index: s.index,
                    serial,
                    timestamp_denominator: s.time_base.den,
                    tb_num: s.time_base.num,
                    config,
                    placeholder: None,
                    keypoints: Seq::empty(),
                    first_ts: None,
                    last_ts: None,
                },
            )
        }
    }
}

/// A muxer of which nothing was written, for a sink at `position`.
pub open spec fn initial(
    position: u64,
    streams: Seq<StreamInfoView>,
    skeleton: Option<SkeletonView>,
    config: Option<AutoIndexConfig>,
) -> MuxView {
    let serials = serials::assigned(Set::empty(), streams);
    let writers = fresh_writers(streams, serials);
    let content = Set::empty() + serials.to_set();
    let own = skeleton_serial(skeleton, content, serials);
    MuxView {
        streams,
        writers,
        header_written: false,
        trailer_written: false,
        skeleton: match skeleton {
            Some(skel) => Some(
                SkeletonWriterView {
                    skel,
                    serial: own,
                    seq_no: 0,
                    emitted_head: None,
                    content_offset: None,
                },
            ),
            None => None,
        },
        auto: match (skeleton, config) {
            (Some(skel), Some(config)) => built_indexes(streams, writers, skel, config),
            _ => Seq::empty(),
        },
        used: if skeleton is Some {
            content.insert(own)
        } else {
            content
        },
        link_index: 0,
        content_started: false,
        wire: WireView { pages: Seq::empty(), position },
    }
}

/// The Skeleton's serial: its own, or the first free one behind the largest of
/// the streams.
pub open spec fn skeleton_serial(
    skeleton: Option<SkeletonView>,
    used: Set<u32>,
    serials: Seq<u32>,
) -> u32 {
    match skeleton {
        Some(skel) => match skel.serial {
            Some(serial) => serial,
            None => serials::next_free(used, stream_writer::successor(largest(serials))),
        },
        None => 0,
    }
}

pub proof fn lemma_built_wf(
    streams: Seq<StreamInfoView>,
    writers: Map<u32, StreamView>,
    skel: SkeletonView,
    config: AutoIndexConfig,
)
    requires
        config.max_keypoints <= AUTO_INDEX_MAX_KEYPOINTS_LIMIT,
    ensures
        forall|i: int|
            0 <= i < built_indexes(streams, writers, skel, config).len() ==> (
            #[trigger] built_indexes(streams, writers, skel, config)[i]).wf(),
    decreases streams.len(),
{
    if streams.len() > 0 {
        lemma_built_wf(streams.drop_last(), writers, skel, config);
        let front = built_indexes(streams.drop_last(), writers, skel, config);
        let all = built_indexes(streams, writers, skel, config);
        assert forall|i: int| 0 <= i < all.len() implies (#[trigger] all[i]).wf() by {
            if i < front.len() {
                assert(all[i] == front[i]);
            }
        }
    }
}

fn build_indexes(
    streams: &[StreamInfo],
    writers: &SerialMap<StreamWriter>,
    skel: &Skeleton,
    config: AutoIndexConfig,
) -> (out: Vec<AutoIndexState>)
    requires
        writers.wf(),
        forall|i: int|
            0 <= i < streams@.len() ==> writers@.contains_key((#[trigger] streams@[i]).index),
    ensures
        auto_view(out@) == built_indexes(
            stream::streams_view(streams@),
            writers_view(writers@),
            skel@,
            config,
        ),
{
    let ghost views = stream::streams_view(streams@);
    let ghost map = writers_view(writers@);
    let mut out: Vec<AutoIndexState> = Vec::new();
    let mut i: usize = 0;
    assert(auto_view(out@) =~= Seq::<AutoIndexView>::empty());
    while i < streams.len()
        invariant
            i <= streams@.len(),
            views == stream::streams_view(streams@),
            map == writers_view(writers@),
            writers.wf(),
            forall|i: int|
                0 <= i < streams@.len() ==> writers@.contains_key((#[trigger] streams@[i]).index),
            auto_view(out@) == built_indexes(views.take(i as int), map, skel@, config),
        decreases streams@.len() - i,
    {
        let ghost before = auto_view(out@);
        let s = &streams[i];
        assert(writers@.contains_key(streams@[i as int].index));
        let serial: u32 = match writers.get(s.index) {
            Some(w) => w.serial(),
            None => 0,
        };
        proof {
            assert(views.take(i + 1).drop_last() =~= views.take(i as int));
            assert(views.take(i + 1).last() == s@);
            assert(map[s.index].serial == serial);
        }
        if skel.index_for_serial(serial).is_none() {
            let a = AutoIndexState::new(
                s.index,
                serial,
                s.time_base.den,
                s.time_base.num,
                config,
            );
            out.push(a);
            assert(auto_view(out@) =~= before.push(a@));
        }
        i += 1;
    }
    assert(views.take(i as int) =~= views);
    out
}

/// What a Skeleton that may be given stands for.
pub open spec fn given_view(skeleton: Option<Skeleton>) -> Option<SkeletonView> {
    match skeleton {
        Some(s) => Some(s@),
        None => None,
    }
}

fn open_muxer(
    position: u64,
    streams: &[StreamInfo],
    skeleton: Option<Skeleton>,
    config: Option<AutoIndexConfig>,
) -> (m: OggMuxer)
    requires
        config matches Some(c) ==> c.max_keypoints <= AUTO_INDEX_MAX_KEYPOINTS_LIMIT,
    ensures
        m.wf(),
        m@ == initial(
            position,
            stream::streams_view(streams@),
            given_view(skeleton),
            config,
        ),
{
    let ghost views = stream::streams_view(streams@);
    let ghost given = given_view(skeleton);
    let mut used: SerialMap<()> = SerialMap::new();
    assert(used@.dom() =~= Set::<u32>::empty());
    let (writers, max_serial) = build_link_writers(streams, &mut used);
    let ghost serials = serials::assigned(Set::empty(), views);
    let ghost content = used@.dom();
    let mut auto_index: Vec<AutoIndexState> = Vec::new();
    assert(auto_view(auto_index@) =~= Seq::<AutoIndexView>::empty());
    proof {
        lemma_fresh_writers(views, serials);
        assert forall|i: int| 0 <= i < streams@.len() implies writers@.contains_key(
            (#[trigger] streams@[i]).index,
        ) by {
            assert(views[i] == streams@[i]@);
            assert(writers_view(writers@).contains_key(views[i].index));
        }
        if given is Some && config is Some {
            lemma_built_wf(views, writers_view(writers@), given->Some_0, config->Some_0);
        }
    }
    let writer: Option<SkeletonWriter> = match skeleton {
        Some(skel) => {
            let serial: u32 = match skel.serial {
                Some(serial) => serial,
                None => find_free(&used, max_serial.wrapping_add(1)),
            };
            used.insert(serial, ());
            if let Some(c) = config {
                auto_index = build_indexes(streams, &writers, &skel, c);
            }
            Some(
                SkeletonWriter {
                    skel,
                    serial,
                    seq_no: 0,
                    emitted_head: None,
                    content_offset: None,
                },
            )
        },
        None => None,
    };
    let m = OggMuxer {
        streams: copied_streams(streams),
        writers,
        header_written: false,
        trailer_written: false,
        skeleton: writer,
        auto_index,
        used,
        link_index: 0,
        content_started: false,
        wire: Wire::new(position),
    };
    proof {
        assert(m@.used =~= initial(position, views, given, config).used);
        assert(m@ =~= initial(position, views, given, config));
    }
    m
}

/// A muxer for a sink at `position`.
pub fn open_concrete(position: u64, streams: &[StreamInfo]) -> (m: OggMuxer)
    ensures
        m.wf(),
        m@ == initial(position, stream::streams_view(streams@), None, None),
{
    open_muxer(position, streams, None, None)
}

/// A muxer for a sink at `position`, with a Skeleton where one is given.
pub fn open_with_skeleton(
    position: u64,
    streams: &[StreamInfo],
    skeleton: Option<Skeleton>,
) -> (m: OggMuxer)
    ensures
        m.wf(),
        m@ == initial(
            position,
            stream::streams_view(streams@),
            given_view(skeleton),
            None,
        ),
{
    open_muxer(position, streams, skeleton, None)
}

/// The first fault in what a muxer that builds indexes is to be made of.
pub open spec fn index_fault(
    streams: Seq<StreamInfoView>,
    skeleton: SkeletonView,
    config: AutoIndexConfig,
) -> Option<Fault> {
    if config.max_keypoints == 0 || config.max_keypoints > AUTO_INDEX_MAX_KEYPOINTS_LIMIT {
        Some(Fault::IndexKeypoints { max_keypoints: config.max_keypoints })
    } else if skeleton.head matches Some(head) && !head.version.reaches(Version::v4_0()) {
        Some(Fault::IndexVersion)
    } else {
        time_base_fault(streams)
    }
}

/// The first stream whose time base is not positive.
pub open spec fn time_base_fault(streams: Seq<StreamInfoView>) -> Option<Fault>
    decreases streams.len(),
{
    if streams.len() == 0 {
        None
    } else if streams[0].time_base.num <= 0 || streams[0].time_base.den <= 0 {
        Some(Fault::IndexTimeBase { index: streams[0].index })
    } else {
        time_base_fault(streams.skip(1))
    }
}

/// A muxer for a sink at `position` that writes a Skeleton and builds a
/// keyframe index for each stream that the Skeleton has none for.
pub fn open_with_skeleton_indexed(
    position: u64,
    streams: &[StreamInfo],
    skeleton: Skeleton,
    config: AutoIndexConfig,
) -> (r: Result<OggMuxer, Error>)
    ensures
        match r {
            Ok(m) => index_fault(stream::streams_view(streams@), skeleton@, config) is None
                && m.wf() && m@ == initial(
                position,
                stream::streams_view(streams@),
                Some(skeleton@),
                Some(config),
            ),
            Err(e) => index_fault(stream::streams_view(streams@), skeleton@, config) matches Some(
                fault,
            ) && e == Error::InvalidData(fault),
        },
{
    if config.max_keypoints == 0 || config.max_keypoints > AUTO_INDEX_MAX_KEYPOINTS_LIMIT {
        return Err(
            Error::InvalidData(Fault::IndexKeypoints { max_keypoints: config.max_keypoints }),
        );
    }
    if let Some(head) = &skeleton.head {
        if !head.version.at_least(Version::v4_0()) {
            return Err(Error::InvalidData(Fault::IndexVersion));
        }
    }
    let ghost views = stream::streams_view(streams@);
    let mut i: usize = 0;
    assert(views.skip(0) =~= views);
    while i < streams.len()
        invariant
            i <= streams@.len(),
            views == stream::streams_view(streams@),
            index_fault(views, skeleton@, config) == time_base_fault(views.skip(i as int)),
        decreases streams@.len() - i,
    {
        assert(views.skip(i as int).skip(1) =~= views.skip(i + 1));
        assert(views.skip(i as int)[0] == streams@[i as int]@);
        let base = streams[i].time_base;
        if base.num <= 0 || base.den <= 0 {
            return Err(
                Error::InvalidData(Fault::IndexTimeBase { index: streams[i].index }),
            );
        }
        i += 1;
    }
    Ok(open_muxer(position, streams, Some(skeleton), Some(config)))
}

/// Number of header packets that the stream `index` of a link waits for.
pub open spec fn awaited(streams: Seq<StreamInfoView>, index: u32) -> nat
    decreases streams.len(),
{
    if streams.len() == 0 {
        0
    } else if streams.last().index == index {
        codec_id::header_count(streams.last().params.codec)
    } else {
        awaited(streams.drop_last(), index)
    }
}

/// A stream that waits for header packets has a first one that fits one page.
pub open spec fn stream_fits_page(s: StreamInfoView, waits: nat) -> bool {
    let headers = codec_headers::headers_of(s.params.codec, s.params.extradata);
    headers.len() > 0 && waits > 0 ==> stream_writer::fits_page(headers[0])
}

/// The first header packet of each stream of a link that waits for header
/// packets fits one page.
pub open spec fn streams_fit_pages(streams: Seq<StreamInfoView>) -> bool {
    forall|i: int|
        0 <= i < streams.len() ==> stream_fits_page(
            #[trigger] streams[i],
            awaited(streams, streams[i].index),
        )
}

/// A new link waits for the header packets of its streams.
pub proof fn lemma_awaited(streams: Seq<StreamInfoView>, serials: Seq<u32>, k: u32)
    requires
        fresh_writers(streams, serials).contains_key(k),
    ensures
        fresh_writers(streams, serials)[k].headers == awaited(streams, k),
    decreases streams.len(),
{
    if streams.len() > 0 && streams.last().index != k {
        lemma_awaited(streams.drop_last(), serials.drop_last(), k);
    }
}

/// Number of header packets that the stream `index` of a link waits for.
fn awaited_headers(streams: &[StreamInfo], index: u32) -> (n: usize)
    ensures
        n == awaited(stream::streams_view(streams@), index),
{
    let ghost views = stream::streams_view(streams@);
    let mut n: usize = 0;
    let mut i: usize = 0;
    while i < streams.len()
        invariant
            i <= streams@.len(),
            views == stream::streams_view(streams@),
            n == awaited(views.take(i as int), index),
        decreases streams@.len() - i,
    {
        proof {
            assert(views[i as int] == streams@[i as int]@);
            assert(views.take(i + 1).drop_last() =~= views.take(i as int));
        }
        if streams[i].index == index {
            n = header_packet_count(&streams[i].params.codec_id);
        }
        i += 1;
    }
    assert(views.take(i as int) =~= views);
    n
}

/// Whether the first header packet of each stream of a link that waits for
/// header packets fits one page.
pub fn streams_fit(streams: &[StreamInfo]) -> (r: bool)
    ensures
        r == streams_fit_pages(stream::streams_view(streams@)),
{
    let ghost views = stream::streams_view(streams@);
    let mut i: usize = 0;
    while i < streams.len()
        invariant
            i <= streams@.len(),
            views == stream::streams_view(streams@),
            forall|k: int|
                0 <= k < i ==> stream_fits_page(
                    #[trigger] views[k],
                    awaited(views, views[k].index),
                ),
        decreases streams@.len() - i,
    {
        assert(views[i as int] == streams@[i as int]@);
        let waits: usize = awaited_headers(streams, streams[i].index);
        if !stream_fits(&streams[i], waits) {
            return false;
        }
        i += 1;
    }
    true
}

/// Whether a stream that waits for header packets has a first one that fits one
/// page.
fn stream_fits(s: &StreamInfo, waits: usize) -> (r: bool)
    ensures
        r == stream_fits_page(s@, waits as nat),
{
    let packets = extract_codec_headers(&s.params.codec_id, s.params.extradata.as_slice());
    if packets.len() > 0 {
        assert(framing::packets_view(packets@)[0] == packets@[0]@);
        waits == 0 || packets[0].len() < 65025
    } else {
        true
    }
}

impl OggMuxer {
    /// Whether the header packets that must stand on one page fit one.
    pub fn headers_fit(&self) -> (r: bool)
        requires
            self.wf(),
        ensures
            r == self@.headers_fit(),
    {
        let mut j: usize = 0;
        while j < self.streams.len()
            invariant
                self.wf(),
                j <= self.streams@.len(),
                forall|i: int|
                    0 <= i < j && (#[trigger] self@.headers(i)).len() > 0
                        && self@.writers[self@.streams[i].index].headers
                        > 0 ==> stream_writer::fits_page(self@.headers(i)[0]),
            decreases self.streams@.len() - j,
        {
            assert(self@.streams[j as int] == self.streams@[j as int]@);
            assert(self@.writers.contains_key(self@.streams[j as int].index));
            let waits: usize = self.headers_of(self.streams[j].index);
            let ghost first = self@.headers(j as int);
            if !stream_fits(&self.streams[j], waits) {
                assert(first.len() > 0 && !stream_writer::fits_page(first[0]));
                return false;
            }
            j += 1;
        }
        match &self.skeleton {
            None => true,
            Some(s) => {
                let ghost packets = self@.secondary_packets();
                let ghost bones = s.skel.bones@.len();
                let mut i: usize = 0;
                while i < s.skel.bones.len()
                    invariant
                        i <= s.skel.bones@.len(),
                        bones == s.skel.bones@.len(),
                        self@.skeleton == Some(s@),
                        packets == self@.secondary_packets(),
                        packets.len() == s.skel.bones@.len() + s.skel.indexes@.len(),
                        forall|k: int|
                            0 <= k < i ==> stream_writer::fits_page(#[trigger] packets[k]),
                    decreases s.skel.bones@.len() - i,
                {
                    assert(packets[i as int] == s.skel.bones@[i as int]@.encoded());
                    if s.skel.bones[i].to_bytes().len() >= 65025 {
                        return false;
                    }
                    i += 1;
                }
                let mut k: usize = 0;
                while k < s.skel.indexes.len()
                    invariant
                        k <= s.skel.indexes@.len(),
                        bones == s.skel.bones@.len(),
                        self@.skeleton == Some(s@),
                        packets == self@.secondary_packets(),
                        packets.len() == s.skel.bones@.len() + s.skel.indexes@.len(),
                        forall|j: int|
                            0 <= j < bones + k ==> stream_writer::fits_page(#[trigger] packets[j]),
                    decreases s.skel.indexes@.len() - k,
                {
                    assert(packets[bones + k] == s.skel.indexes@[k as int]@.encoded());
                    if s.skel.indexes[k].to_bytes().len() >= 65025 {
                        return false;
                    }
                    k += 1;
                }
                true
            },
        }
    }

    /// Why no new link of that many streams can be begun, where none can.
    pub fn link_refusal(&self, streams: usize) -> (r: Option<Error>)
        ensures
            r == link_fault(self@, streams as nat),
    {
        if !self.header_written {
            Some(Error::Other(Fault::LinkBeforeHeader))
        } else if self.trailer_written {
            Some(Error::Other(Fault::LinkAfterTrailer))
        } else if self.skeleton.is_some() || self.auto_index.len() > 0 {
            Some(Error::InvalidData(Fault::LinkWithSkeleton))
        } else if !self.content_started {
            Some(Error::InvalidData(Fault::LinkWithoutContent))
        } else if streams == 0 {
            Some(Error::InvalidData(Fault::LinkWithoutStreams))
        } else {
            None
        }
    }

    /// Whether the headers have been written.
    pub fn has_header(&self) -> (r: bool)
        ensures
            r == self@.header_written,
    {
        self.header_written
    }

    /// Ends the link that is being written and begins a new one with the given
    /// streams.
    pub fn begin_new_link(&mut self, streams: &[StreamInfo]) -> (r: Result<(), Error>)
        requires
            old(self).wf(),
            link_fault(old(self)@, streams@.len()) is None ==> streams_fit_pages(
                stream::streams_view(streams@),
            ),
        ensures
            final(self).wf(),
            match r {
                Ok(()) => link_fault(old(self)@, streams@.len()) is None && final(self)@
                    == old(self)@.relinked(stream::streams_view(streams@)),
                Err(e) => link_fault(old(self)@, streams@.len()) == Some(e) && final(self)@
                    == old(self)@,
            },
    {
        if let Some(e) = self.link_refusal(streams.len()) {
            return Err(e);
        }
        let ghost before = self@;
        let ghost views = stream::streams_view(streams@);
        self.close_streams();
        let ghost m = self@;
        let (writers, _) = build_link_writers(streams, &mut self.used);
        self.writers = writers;
        self.streams = copied_streams(streams);
        self.link_index = self.link_index.saturating_add(1);
        self.content_started = false;
        proof {
            let serials = serials::assigned(m.used, views);
            lemma_fresh_writers(views, serials);
            assert(self@ =~= (MuxView {
                streams: views,
                writers: fresh_writers(views, serials),
                used: m.used + serials.to_set(),
                link_index: if m.link_index == u32::MAX {
                    u32::MAX
                } else {
                    (m.link_index + 1) as u32
                },
                content_started: false,
                ..m
            }));
            assert forall|i: int|
                0 <= i < self@.streams.len() && (#[trigger] self@.headers(i)).len() > 0
                    && self@.writers[self@.streams[i].index].headers
                    > 0 implies stream_writer::fits_page(self@.headers(i)[0]) by {
                assert(stream_fits_page(views[i], awaited(views, views[i].index)));
                lemma_awaited(views, serials, views[i].index);
            }
        }
        self.open_streams();
        self.continue_headers();
        Ok(())
    }

    /// Ends the stream: every logical bitstream is closed. What is returned
    /// goes over what was written before. Does nothing the second time.
    pub fn write_trailer(&mut self) -> (patches: Vec<Patch>)
        requires
            old(self).wf(),
        ensures
            final(self).wf(),
            if old(self)@.trailer_written {
                final(self)@ == old(self)@ && patches@.len() == 0
            } else {
                final(self)@ == old(self)@.ended() && patches_view(patches@)
                    == old(self)@.ended().patches()
            },
    {
        if self.trailer_written {
            return Vec::new();
        }
        let ghost before = self@;
        self.close_streams();
        let ghost m = self@;
        self.trailer_written = true;
        proof {
            assert(self@ =~= before.ended());
            assert forall|i: int|
                0 <= i < self@.streams.len() implies self@.writers.contains_key(
                (#[trigger] self@.streams[i]).index,
            ) by {
                assert(m.writers.contains_key(m.streams[i].index));
            }
        }
        self.collect_patches()
    }

    fn collect_patches(&self) -> (patches: Vec<Patch>)
        requires
            self.wf(),
        ensures
            patches_view(patches@) == self@.patches(),
    {
        let mut patches: Vec<Patch> = Vec::new();
        assert(patches_view(patches@) =~= Seq::<(u64, Seq<u8>)>::empty());
        let s = match &self.skeleton {
            Some(s) => s,
            None => return patches,
        };
        let mut i: usize = 0;
        while i < self.auto_index.len()
            invariant
                self.wf(),
                self@.skeleton == Some(s@),
                i <= self.auto_index@.len(),
                patches_view(patches@) == self@.index_patches(i as int),
            decreases self.auto_index@.len() - i,
        {
            let ghost before = patches_view(patches@);
            let a = &self.auto_index[i];
            assert(self@.auto[i as int] == a@);
            assert(self@.auto[i as int].wf());
            if let Some((offset, seq_no)) = a.placeholder {
                let packet = a.packet_bytes();
                let bytes = skeleton_bytes(s.serial, seq_no, 0, packet);
                let patch = Patch { offset, bytes };
                patches.push(patch);
                assert(patches_view(patches@) =~= before.push(patch@));
            }
            i += 1;
        }
        let ghost indexes = patches_view(patches@);
        if let Some(head) = &s.emitted_head {
            if head.version.at_least(Version::v4_0()) {
                let end: u64 = self.wire.position();
                let mut measured = head.copied();
                let mut changed: bool = false;
                if is_unknown(measured.segment_length) && end != 0 {
                    measured.segment_length = Some(end);
                    changed = true;
                }
                if is_unknown(measured.content_byte_offset) && s.content_offset.is_some() {
                    measured.content_byte_offset = s.content_offset;
                    changed = true;
                }
                if changed {
                    assert(measured@ =~= self@.measured_head());
                    let bytes = skeleton_bytes(
                        s.serial,
                        0,
                        flags::FIRST_PAGE,
                        measured.to_bytes(),
                    );
                    let patch = Patch { offset: 0, bytes };
                    patches.push(patch);
                    assert(patches_view(patches@) =~= indexes + seq![patch@]);
                    assert(self@.head_patches() =~= seq![patch@]);
                    return patches;
                }
            }
        }
        assert(indexes =~= indexes + Seq::<(u64, Seq<u8>)>::empty());
        patches
    }
}

fn is_unknown(v: Option<u64>) -> (r: bool)
    ensures
        r == unknown(v),
{
    match v {
        Some(n) => n == 0,
        None => true,
    }
}

fn skeleton_bytes(serial: u32, seq_no: u32, page_flags: u8, packet: Vec<u8>) -> (out: Vec<u8>)
    requires
        stream_writer::fits_page(packet@),
    ensures
        out@ == skeleton_page(serial, seq_no, page_flags, packet@).encoded(),
{
    let page = Page {
        flags: page_flags,
        granule_position: 0,
        serial,
        seq_no,
        lacing: lace(packet.len()),
        data: packet,
    };
    proof {
        page::law_laced(packet@.len());
        assert(page@ =~= skeleton_page(serial, seq_no, page_flags, packet@));
    }
    page.to_bytes()
}

/// Why no new link can be begun, where none can.
pub open spec fn link_fault(m: MuxView, streams: nat) -> Option<Error> {
    if !m.header_written {
        Some(Error::Other(Fault::LinkBeforeHeader))
    } else if m.trailer_written {
        Some(Error::Other(Fault::LinkAfterTrailer))
    } else if m.skeleton is Some || m.auto.len() > 0 {
        Some(Error::InvalidData(Fault::LinkWithSkeleton))
    } else if !m.content_started {
        Some(Error::InvalidData(Fault::LinkWithoutContent))
    } else if streams == 0 {
        Some(Error::InvalidData(Fault::LinkWithoutStreams))
    } else {
        None
    }
}

} // verus!
