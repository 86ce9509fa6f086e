//! The demuxer: pages in, packets out.
use crate::bytes;
use crate::bytes::matches_at;
use crate::codec_id;
use crate::codec_id::{detect, header_packet_count, THEORA, VORBIS};
use crate::demux::codec_params;
use crate::demux::codec_params::{guess_params, stream_time_base};
use crate::demux::codec_private;
use crate::demux::codec_private::build_codec_private;
use crate::demux::comments;
use crate::demux::comments::{parse_vorbis_comment, CommentView};
use crate::demux::durations;
use crate::demux::durations::last_granules;
use crate::demux::logical;
use crate::demux::logical::{LogicalStream, LogicalView};
use crate::demux::seek_index;
use crate::demux::seek_index::{SeekEntry, SeekIndex};
use crate::error::{Error, Fault};
use crate::framing;
use crate::header_packets::OPUS_TAGS;
use crate::page;
use crate::page::{flags, lacing_sum, Page, PageView, CAPTURE_PATTERN};
use crate::serial_map;
use crate::serial_map::SerialMap;
use crate::stream;
use crate::stream::{Packet, PacketView, ParametersView, StreamInfo, StreamInfoView, TimeBase};
use std::collections::VecDeque;
use vstd::prelude::*;

verus! {

/// What an [`OggDemuxer`] stands for.
#[verifier::ext_equal]
pub struct DemuxView {
    pub streams: Seq<StreamInfoView>,
    pub states: Map<u32, LogicalView>,
    pub pages: Seq<PageView>,
    pub packets: Seq<PacketView>,
    pub metadata: Seq<CommentView>,
    pub index: Map<u32, Seq<SeekEntry>>,
    pub index_built: bool,
    pub next_link: u32,
    pub seen_content: bool,
    pub holes: u64,
}

/// The comments in the second header packet of a stream.
pub open spec fn second_comments(codec: Seq<char>, packets: Seq<Seq<u8>>) -> Seq<CommentView> {
    if packets.len() < 2 {
        Seq::empty()
    } else {
        let p = packets[1];
        if codec == "vorbis"@ && p.len() > 7 && bytes::holds_at(p, 1, VORBIS@) {
            comments::comments_in(p.skip(7))
        } else if codec == "opus"@ && p.len() > 8 && bytes::holds_at(p, 0, OPUS_TAGS@) {
            comments::comments_in(p.skip(8))
        } else if codec == "theora"@ && p.len() > 7 && bytes::holds_at(p, 1, THEORA@) {
            comments::comments_in(p.skip(7))
        } else {
            Seq::empty()
        }
    }
}

/// `n` and one more, cut off at the end of the range.
pub open spec fn one_more(n: u64) -> u64 {
    if n == u64::MAX {
        n
    } else {
        (n + 1) as u64
    }
}

impl DemuxView {
    /// A demuxer that has seen nothing.
    pub open spec fn fresh() -> DemuxView {
        DemuxView {
            streams: Seq::empty(),
            states: Map::empty(),
            pages: Seq::empty(),
            packets: Seq::empty(),
            metadata: Seq::empty(),
            index: Map::empty(),
            index_built: false,
            next_link: 0,
            seen_content: false,
            holes: 0,
        }
    }

    /// A page at `offset` was read.
    pub open spec fn indexed(self, p: PageView, offset: u64) -> DemuxView {
        DemuxView {
            index: seek_index::recorded(self.index, p.serial, p.granule_position, offset),
            ..self
        }
    }

    /// The logical bitstream that a page opens is known: its first packet tells
    /// what it carries.
    pub open spec fn registered(self, p: PageView) -> Result<DemuxView, Error> {
        let pieces = page::segments(p.lacing);
        if pieces.len() == 0 {
            Err(Error::InvalidData(Fault::OpeningWithoutPacket))
        } else {
            let first = p.data.subrange(pieces[0].start as int, pieces[0].end as int);
            let codec = codec_id::codec_of(first);
            match codec_params::params_of(codec, first) {
                Err(e) => Err(e),
                Ok(params) => Ok(
                    DemuxView {
                        streams: self.streams.push(
                            StreamInfoView {
                                index: self.streams.len() as u32,
                                time_base: codec_params::time_base_of(codec, params.sample_rate),
                                params,
                            },
                        ),
                        states: self.states.insert(
                            p.serial,
                            LogicalView::fresh(
                                self.streams.len(),
                                codec_id::header_count(codec),
                                self.next_link,
                            ),
                        ),
                        ..self
                    },
                ),
            }
        }
    }

    /// The setup data of a stream is what its header packets make.
    pub open spec fn with_setup(self, s: LogicalView) -> DemuxView {
        let i = s.public_index as int;
        let info = self.streams[i];
        let extra = codec_private::private_of(info.params.codec, s.header_packets);
        if extra.len() == 0 {
            self
        } else {
            DemuxView {
                streams: self.streams.update(
                    i,
                    StreamInfoView {
                        params: ParametersView { extradata: extra, ..info.params },
                        ..info
                    },
                ),
                ..self
            }
        }
    }

    /// The comments in the header packets of a stream are known.
    pub open spec fn with_comments(self, s: LogicalView) -> DemuxView {
        let codec = self.streams[s.public_index as int].params.codec;
        DemuxView {
            metadata: self.metadata + second_comments(codec, s.header_packets),
            ..self
        }
    }

    /// A page opens a logical bitstream that is not known.
    pub open spec fn opens(self, p: PageView) -> bool {
        page::flag_set(p.flags, flags::FIRST_PAGE) && !self.states.contains_key(p.serial)
    }

    /// The link that a page belongs to is known: one that opens a logical
    /// bitstream behind content begins a new link.
    pub open spec fn linked(self, p: PageView) -> DemuxView {
        if self.opens(p) {
            if self.seen_content {
                DemuxView {
                    next_link: if self.next_link == u32::MAX {
                        u32::MAX
                    } else {
                        (self.next_link + 1) as u32
                    },
                    seen_content: false,
                    ..self
                }
            } else {
                self
            }
        } else if !page::flag_set(p.flags, flags::FIRST_PAGE) {
            DemuxView { seen_content: true, ..self }
        } else {
            self
        }
    }

    /// The packets of a page have been taken. A page of no known logical
    /// bitstream is passed over.
    pub open spec fn consumed(self, p: PageView) -> DemuxView {
        if !self.states.contains_key(p.serial) {
            self
        } else {
            let s = self.states[p.serial];
            let index = self.streams[s.public_index as int].index;
            let m = DemuxView {
                states: self.states.insert(p.serial, s.after(p)),
                packets: self.packets + s.delivered(p, index),
                holes: if s.misses(p) {
                    one_more(self.holes)
                } else {
                    self.holes
                },
                ..self
            };
            if s.completes_headers(p) {
                m.with_setup(s.after(p)).with_comments(s.after(p))
            } else {
                m
            }
        }
    }

    /// A page has been taken apart: the demuxer behind it, and whether that
    /// succeeded.
    pub open spec fn processed(self, p: PageView) -> (DemuxView, Result<(), Error>) {
        let m = self.linked(p);
        if self.opens(p) {
            match m.registered(p) {
                Err(e) => (m, Err(e)),
                Ok(r) => (r.consumed(p), Ok(())),
            }
        } else {
            (m.consumed(p), Ok(()))
        }
    }

    /// The first of the waiting pages is not waiting.
    pub open spec fn without_page(self) -> DemuxView {
        DemuxView { pages: self.pages.skip(1), ..self }
    }

    /// Some logical bitstream waits for header packets.
    pub open spec fn awaits_headers(self) -> bool {
        exists|k: u32| #[trigger] self.states.contains_key(k) && self.states[k].headers > 0
    }

    /// Waiting pages have been taken apart until no logical bitstream waits for
    /// header packets. Says whether more pages are needed for that.
    pub open spec fn absorbed(self) -> (DemuxView, Result<bool, Error>)
        decreases self.pages.len(),
    {
        if !self.awaits_headers() {
            (self, Ok(false))
        } else if self.pages.len() == 0 {
            (self, Ok(true))
        } else {
            let (m, r) = self.without_page().processed(self.pages[0]);
            match r {
                Err(e) => (m, Err(e)),
                Ok(()) => if m.pages.len() < self.pages.len() {
                    m.absorbed()
                } else {
                    (m, Ok(false))
                },
            }
        }
    }

    /// Waiting pages have been taken apart until a packet is there. Says which,
    /// or that more pages are needed.
    pub open spec fn advanced(self) -> (DemuxView, Result<Option<PacketView>, Error>)
        decreases self.pages.len(),
    {
        if self.packets.len() > 0 {
            (DemuxView { packets: self.packets.skip(1), ..self }, Ok(Some(self.packets[0])))
        } else if self.pages.len() == 0 {
            (self, Ok(None))
        } else {
            let (m, r) = self.without_page().processed(self.pages[0]);
            match r {
                Err(e) => (m, Err(e)),
                Ok(()) => if m.pages.len() < self.pages.len() {
                    m.advanced()
                } else {
                    (m, Ok(None))
                },
            }
        }
    }

    /// The setup data of the first `n` logical bitstreams, by serial, is what
    /// their header packets make.
    pub open spec fn with_setups(self, n: int) -> DemuxView
        decreases n,
    {
        if n <= 0 {
            self
        } else {
            self.with_setups(n - 1).with_setup(
                self.states[serial_map::ordered_keys(self.states)[n - 1]],
            )
        }
    }

    /// The comments of the first `n` logical bitstreams, by serial, are known.
    pub open spec fn with_all_comments(self, n: int) -> DemuxView
        decreases n,
    {
        if n <= 0 {
            self
        } else {
            self.with_all_comments(n - 1).with_comments(
                self.states[serial_map::ordered_keys(self.states)[n - 1]],
            )
        }
    }

    /// All that waits is dropped.
    pub open spec fn flushed(self) -> DemuxView {
        DemuxView {
            pages: Seq::empty(),
            packets: Seq::empty(),
            states: Map::new(
                |k: u32| self.states.contains_key(k),
                |k: u32| self.states[k].flushed(),
            ),
            ..self
        }
    }

    /// The parts fit together.
    pub open spec fn consistent(self) -> bool {
        &&& forall|k: u32| #[trigger]
            self.states.contains_key(k) ==> self.states[k].public_index < self.streams.len()
        &&& forall|i: int| 0 <= i < self.pages.len() ==> (#[trigger] self.pages[i]).wf()
    }
}

/// The demuxer. Whoever calls it reads the bytes of the pages.
pub struct OggDemuxer {
    streams: Vec<StreamInfo>,
    states: SerialMap<LogicalStream>,
    page_queue: VecDeque<Page>,
    out_queue: VecDeque<Packet>,
    metadata: Vec<(String, String)>,
    index: SeekIndex,
    index_built: bool,
    next_link_index: u32,
    seen_content: bool,
    holes: u64,
}

/// What a map of logical bitstreams stands for.
pub open spec fn states_view(states: Map<u32, LogicalStream>) -> Map<u32, LogicalView> {
    Map::new(|k: u32| states.contains_key(k), |k: u32| states[k]@)
}

impl View for OggDemuxer {
    type V = DemuxView;

    closed spec fn view(&self) -> DemuxView {
        DemuxView {
            streams: stream::streams_view(self.streams@),
            states: states_view(self.states@),
            pages: self.page_queue@.map_values(|p: Page| p@),
            packets: self.out_queue@.map_values(|p: Packet| p@),
            metadata: comments::comments_view(self.metadata@),
            index: self.index@,
            index_built: self.index_built,
            next_link: self.next_link_index,
            seen_content: self.seen_content,
            holes: self.holes,
        }
    }
}

fn read_second(codec_id: &crate::codec_id::CodecId, packets: &Vec<Vec<u8>>, out: &mut Vec<(String, String)>)
    ensures
        comments::comments_view(final(out)@) == comments::comments_view(old(out)@)
            + second_comments(codec_id@, framing::packets_view(packets@)),
{
    let ghost before = comments::comments_view(out@);
    let ghost all = framing::packets_view(packets@);
    assert(before + Seq::<CommentView>::empty() =~= before);
    if packets.len() < 2 {
        return;
    }
    proof {
        reveal_strlit("vorbis");
        reveal_strlit("theora");
        reveal_strlit("opus");
    }
    let p = packets[1].as_slice();
    let n: usize = p.len();
    assert(all[1] == p@);
    if codec_id.is("vorbis") && n > 7 && matches_at(p, 1, &VORBIS) {
        let body = vstd::slice::slice_subrange(p, 7, n);
        assert(body@ =~= p@.skip(7));
        parse_vorbis_comment(body, out);
    } else if codec_id.is("opus") && n > 8 && matches_at(p, 0, &OPUS_TAGS) {
        let body = vstd::slice::slice_subrange(p, 8, n);
        assert(body@ =~= p@.skip(8));
        parse_vorbis_comment(body, out);
    } else if codec_id.is("theora") && n > 7 && matches_at(p, 1, &THEORA) {
        let body = vstd::slice::slice_subrange(p, 7, n);
        assert(body@ =~= p@.skip(7));
        parse_vorbis_comment(body, out);
    }
}

impl OggDemuxer {
    /// The demuxer is in a state that its operations lead to.
    pub closed spec fn wf(&self) -> bool {
        &&& self.states.wf()
        &&& self.index.wf()
        &&& self@.consistent()
    }

    /// A demuxer that has seen nothing.
    pub fn new() -> (d: Self)
        ensures
            d.wf(),
            d@ == DemuxView::fresh(),
    {
        let d = OggDemuxer {
            streams: Vec::new(),
            states: SerialMap::new(),
            page_queue: VecDeque::new(),
            out_queue: VecDeque::new(),
            metadata: Vec::new(),
            index: SeekIndex::new(),
            index_built: false,
            next_link_index: 0,
            seen_content: false,
            holes: 0,
        };
        assert(d@ =~= DemuxView::fresh());
        d
    }

    /// Registers the logical bitstream that a page opens.
    fn register_stream(&mut self, page: &Page) -> (r: Result<(), Error>)
        requires
            old(self).wf(),
            page@.wf(),
        ensures
            final(self).wf(),
            match r {
                Ok(()) => old(self)@.registered(page@) == Ok::<DemuxView, Error>(final(self)@),
                Err(e) => old(self)@.registered(page@) == Err::<DemuxView, Error>(e)
                    && final(self)@ == old(self)@,
            },
    {
        let ghost before = self@;
        assert(page.data.len() == page@.data.len());
        let pieces = page.packet_segments();
        let ghost all = page::segments(page@.lacing);
        if pieces.len() == 0 {
            return Err(Error::InvalidData(Fault::OpeningWithoutPacket));
        }
        proof {
            logical::lemma_segments_inside(page@.lacing);
            assert(all[0] == pieces@[0]@);
            assert(all[0].start <= all[0].end <= page@.data.len());
        }
        let first = vstd::slice::slice_subrange(
            page.data.as_slice(),
            pieces[0].data.start,
            pieces[0].data.end,
        );
        let id = detect(first);
        let params = match guess_params(&id, first) {
            Ok(p) => p,
            Err(e) => return Err(e),
        };
        let time_base = stream_time_base(&id, params.sample_rate);
        let public_index: usize = self.streams.len();
        let info = StreamInfo { index: public_index as u32, time_base, params };
        self.streams.push(info);
        let ghost states = self.states@;
        let logical = LogicalStream::new(
            public_index,
            header_packet_count(&id),
            self.next_link_index,
        );
        self.states.insert(page.serial, logical);
        proof {
            assert(stream::streams_view(self.streams@) =~= before.streams.push(info@));
            assert(states_view(self.states@) =~= before.states.insert(page.serial, logical@));
            assert(self@ =~= before.registered(page@)->Ok_0);
            assert forall|k: u32| #[trigger] self@.states.contains_key(k) implies (
            self@.states[k].public_index < self@.streams.len()) by {
                if k != page.serial {
                    assert(before.states.contains_key(k));
                }
            }
        }
        Ok(())
    }

    /// Fills in the setup data of the stream of a logical bitstream.
    fn populate_extradata_for(&mut self, serial: u32)
        requires
            old(self).wf(),
            old(self)@.states.contains_key(serial),
        ensures
            final(self).wf(),
            final(self)@ == old(self)@.with_setup(old(self)@.states[serial]),
            final(self).states == old(self).states,
            final(self)@.streams.len() == old(self)@.streams.len(),
    {
        let ghost before = self@;
        match self.states.get(serial) {
            None => {
                assert(!self@.states.contains_key(serial));
            },
            Some(s) => {
                let i: usize = s.public_index;
                assert(before.states[serial] == s@);
                assert(before.streams[i as int] == self.streams@[i as int]@);
                let extra = build_codec_private(
                    &self.streams[i].params.codec_id,
                    &s.header_packets,
                );
                if extra.len() > 0 {
                    self.streams[i].params.extradata = extra;
                    proof {
                        let info = before.streams[i as int];
                        let changed = StreamInfoView {
                            params: ParametersView { extradata: extra@, ..info.params },
                            ..info
                        };
                        assert(self.streams@[i as int]@ =~= changed);
                        assert(self@.streams =~= before.streams.update(i as int, changed));
                    }
                }
                assert(self@ =~= before.with_setup(before.states[serial]));
            },
        }
    }

    /// Takes the comments out of the header packets of a logical bitstream.
    fn populate_metadata_for(&mut self, serial: u32)
        requires
            old(self).wf(),
            old(self)@.states.contains_key(serial),
        ensures
            final(self).wf(),
            final(self)@ == old(self)@.with_comments(old(self)@.states[serial]),
            final(self).states == old(self).states,
    {
        let ghost before = self@;
        match self.states.get(serial) {
            None => {
                assert(!self@.states.contains_key(serial));
            },
            Some(s) => {
                let i: usize = s.public_index;
                assert(before.states[serial] == s@);
                assert(before.streams[i as int] == self.streams@[i as int]@);
                read_second(
                    &self.streams[i].params.codec_id,
                    &s.header_packets,
                    &mut self.metadata,
                );
                assert(self@ =~= before.with_comments(before.states[serial]));
            },
        }
    }

    fn consume(&mut self, page: &Page)
        requires
            old(self).wf(),
            page@.wf(),
        ensures
            final(self).wf(),
            final(self)@ == old(self)@.consumed(page@),
    {
        let ghost before = self@;
        let serial: u32 = page.serial;
        let ghost states = self.states@;
        let s = match self.states.remove(serial) {
            Some(s) => s,
            None => {
                assert(!before.states.contains_key(serial));
                assert(states_view(self.states@) =~= before.states);
                assert(self@ =~= before);
                return;
            },
        };
        assert(before.states.contains_key(serial));
        let mut s = s;
        let ghost was = s@;
        let stream_index: u32 = self.streams[s.public_index].index;
        assert(before.streams[s.public_index as int] == self.streams@[s.public_index as int]@);
        let (packets, hole, completed) = s.take_page(page, stream_index);
        if hole {
            self.holes = self.holes.saturating_add(1);
        }
        self.states.insert(serial, s);
        let ghost queued = before.packets;
        let ghost all = packets@.map_values(|p: Packet| p@);
        let n: usize = packets.len();
        let mut waiting: VecDeque<Packet> = VecDeque::new();
        std::mem::swap(&mut waiting, &mut self.out_queue);
        let waiting = append_packets(waiting, packets);
        self.out_queue = waiting;
        proof {
            assert(states_view(self.states@) =~= before.states.insert(serial, s@));
            let m = DemuxView {
                states: before.states.insert(serial, was.after(page@)),
                packets: before.packets + was.delivered(page@, stream_index),
                holes: if was.misses(page@) {
                    one_more(before.holes)
                } else {
                    before.holes
                },
                ..before
            };
            assert(self@ =~= m);
            assert forall|k: u32| #[trigger] self@.states.contains_key(k) implies (
            self@.states[k].public_index < self@.streams.len()) by {
                if k != serial {
                    assert(before.states.contains_key(k));
                }
            }
        }
        if completed {
            self.populate_extradata_for(serial);
            self.populate_metadata_for(serial);
        }
    }

    /// Takes a page apart.
    fn process_page(&mut self, page: Page) -> (r: Result<(), Error>)
        requires
            old(self).wf(),
            page@.wf(),
        ensures
            final(self).wf(),
            (final(self)@, r) == old(self)@.processed(page@),
    {
        let ghost before = self@;
        let first: bool = page.is_first();
        let known: bool = self.states.contains(page.serial);
        assert(known == before.states.contains_key(page.serial));
        if first && !known {
            if self.seen_content {
                self.next_link_index = self.next_link_index.saturating_add(1);
                self.seen_content = false;
            }
            assert(self@ =~= before.linked(page@));
            match self.register_stream(&page) {
                Ok(()) => {},
                Err(e) => return Err(e),
            }
        } else if !first {
            self.seen_content = true;
            assert(self@ =~= before.linked(page@));
        }
        self.consume(&page);
        Ok(())
    }
}

fn append_packets(queue: VecDeque<Packet>, packets: Vec<Packet>) -> (out: VecDeque<Packet>)
    ensures
        out@.map_values(|p: Packet| p@) == queue@.map_values(|p: Packet| p@)
            + packets@.map_values(|p: Packet| p@),
{
    let mut out = queue;
    let mut packets = packets;
    let ghost before = queue@;
    let ghost all = packets@;
    let n: usize = packets.len();
    let mut i: usize = 0;
    assert(before + all.take(0) =~= before);
    while i < n
        invariant
            i <= n,
            n == all.len(),
            packets@ == all.skip(i as int),
            out@ == before + all.take(i as int),
        decreases n - i,
    {
        let p = packets.remove(0);
        proof {
            assert(packets@ =~= all.skip(i + 1));
            assert(all.take(i + 1) =~= all.take(i as int).push(all[i as int]));
        }
        out.push_back(p);
        assert(out@ =~= before + all.take(i + 1));
        i += 1;
    }
    assert(all.take(n as int) =~= all);
    assert(out@.map_values(|p: Packet| p@) =~= before.map_values(|p: Packet| p@) + all.map_values(
        |p: Packet| p@,
    ));
    out
}

/// Taking a page apart leaves the waiting pages as they are.
pub proof fn lemma_processed_pages(d: DemuxView, p: PageView)
    ensures
        d.processed(p).0.pages == d.pages,
        d.processed(p).0.index == d.index,
        d.processed(p).0.index_built == d.index_built,
{
}

/// Number of bytes that a page takes from a header on: what is needed beyond
/// `have`, of which as much must be there as was asked for before. Nothing is
/// needed beyond a whole page.
pub open spec fn wanted(have: Seq<u8>) -> Result<nat, Error> {
    if have.len() < 27 {
        Ok((27 - have.len()) as nat)
    } else if have.take(4) != CAPTURE_PATTERN@ {
        Err(Error::InvalidData(Fault::LostSync))
    } else if have.len() < 27 + have[26] {
        Ok((27 + have[26] - have.len()) as nat)
    } else if have.len() < page::declared_len(have) {
        Ok((page::declared_len(have) - have.len()) as nat)
    } else {
        Ok(0)
    }
}

/// Says how many more bytes of a page are needed. Reading starts with nothing,
/// and asks again with what was read until nothing more is needed.
pub fn bytes_wanted(have: &[u8]) -> (r: Result<usize, Error>)
    ensures
        match r {
            Ok(n) => wanted(have@) == Ok::<nat, Error>(n as nat),
            Err(e) => wanted(have@) == Err::<nat, Error>(e),
        },
{
    let n: usize = have.len();
    if n < 27 {
        return Ok(27 - n);
    }
    assert(have@.subrange(0, 4) =~= have@.take(4));
    if !matches_at(have, 0, &CAPTURE_PATTERN) {
        return Err(Error::InvalidData(Fault::LostSync));
    }
    let segments: usize = have[26] as usize;
    if n < 27 + segments {
        return Ok(27 + segments - n);
    }
    let table = vstd::slice::slice_subrange(have, 27, 27 + segments);
    proof {
        page::lemma_body_len_bound(table@);
    }
    let total: usize = 27 + segments + lacing_sum(table);
    if n < total {
        Ok(total - n)
    } else {
        Ok(0)
    }
}

/// What an early end of the input means, where `got` bytes of a page header
/// were read: the end of the stream, or a fault.
pub fn input_ended(got: usize) -> (r: Result<(), Error>)
    ensures
        match r {
            Ok(()) => got == 0,
            Err(e) => got > 0 && e == Error::InvalidData(Fault::TruncatedRead { got, want: 27 }),
        },
{
    if got == 0 {
        Ok(())
    } else {
        Err(Error::InvalidData(Fault::TruncatedRead { got, want: 27 }))
    }
}

impl OggDemuxer {
    /// Takes the bytes of a page that was read at `offset`.
    fn read_in(&mut self, offset: u64, data: &[u8]) -> (r: Result<Page, Error>)
        requires
            old(self).wf(),
        ensures
            final(self).wf(),
            match r {
                Ok(p) => p@.wf() && (page::parsed(data@) matches Ok((q, used)) && q == p@)
                    && final(self)@ == old(self)@.indexed(p@, offset),
                Err(e) => page::parsed(data@) == Err::<(PageView, nat), Error>(e) && final(self)@
                    == old(self)@,
            },
    {
        let ghost before = self@;
        match Page::parse(data) {
            Err(e) => Err(e),
            Ok((p, _)) => {
                proof {
                    page::law_encoded_parsed(data@);
                }
                self.index.record(p.serial, p.granule_position, offset);
                assert(self@ =~= before.indexed(p@, offset));
                assert(self@.consistent());
                Ok(p)
            },
        }
    }

    fn queue_page(&mut self, page: Page)
        requires
            old(self).wf(),
            page@.wf(),
        ensures
            final(self).wf(),
            final(self)@ == (DemuxView { pages: old(self)@.pages.push(page@), ..old(self)@ }),
    {
        let ghost before = self@;
        self.page_queue.push_back(page);
        assert(self@.pages =~= before.pages.push(page@));
        assert(self@ =~= (DemuxView { pages: before.pages.push(page@), ..before }));
    }

    /// Takes the bytes of one of the first pages of the stream. A page that
    /// opens a logical bitstream is registered; the section ends with the first
    /// that does not. Says whether it goes on.
    pub fn take_opening_page(&mut self, offset: u64, data: &[u8]) -> (r: Result<bool, Error>)
        requires
            old(self).wf(),
        ensures
            final(self).wf(),
            match page::parsed(data@) {
                Err(e) => r == Err::<bool, Error>(e) && final(self)@ == old(self)@,
                Ok((p, used)) => {
                    let m = old(self)@.indexed(p, offset);
                    if page::flag_set(p.flags, flags::FIRST_PAGE) {
                        match m.registered(p) {
                            Err(e) => r == Err::<bool, Error>(e) && final(self)@ == m,
                            Ok(g) => r == Ok::<bool, Error>(true) && final(self)@ == (DemuxView {
                                pages: g.pages.push(p),
                                ..g
                            }),
                        }
                    } else {
                        r == Ok::<bool, Error>(false) && final(self)@ == (DemuxView {
                            pages: m.pages.push(p),
                            ..m
                        })
                    }
                },
            },
    {
        let page = match self.read_in(offset, data) {
            Ok(p) => p,
            Err(e) => return Err(e),
        };
        let first: bool = page.is_first();
        if first {
            match self.register_stream(&page) {
                Ok(()) => {},
                Err(e) => return Err(e),
            }
        }
        self.queue_page(page);
        Ok(first)
    }

    /// Ends the section of opening pages, which must have opened something.
    pub fn end_opening(&self) -> (r: Result<(), Error>)
        ensures
            match r {
                Ok(()) => self@.streams.len() > 0,
                Err(e) => self@.streams.len() == 0 && e == Error::InvalidData(Fault::NoStreams),
            },
    {
        if self.streams.len() == 0 {
            Err(Error::InvalidData(Fault::NoStreams))
        } else {
            Ok(())
        }
    }

    /// Takes the bytes of a page and lets it wait.
    pub fn feed_page(&mut self, offset: u64, data: &[u8]) -> (r: Result<(), Error>)
        requires
            old(self).wf(),
        ensures
            final(self).wf(),
            match page::parsed(data@) {
                Err(e) => r == Err::<(), Error>(e) && final(self)@ == old(self)@,
                Ok((p, used)) => {
                    let m = old(self)@.indexed(p, offset);
                    r == Ok::<(), Error>(()) && final(self)@ == (DemuxView {
                        pages: m.pages.push(p),
                        ..m
                    })
                },
            },
    {
        let page = match self.read_in(offset, data) {
            Ok(p) => p,
            Err(e) => return Err(e),
        };
        self.queue_page(page);
        Ok(())
    }

    /// Whether some logical bitstream waits for header packets.
    fn waits_for_headers(&self) -> (r: bool)
        requires
            self.wf(),
        ensures
            r == self@.awaits_headers(),
    {
        proof {
            self.states.lemma_ordered();
        }
        let ghost keys = self.states.keys();
        let mut i: usize = 0;
        while i < self.states.len()
            invariant
                self.wf(),
                keys == self.states.keys(),
                i <= keys.len(),
                forall|j: int|
                    0 <= j < i ==> self@.states.contains_key(#[trigger] keys[j])
                        && self@.states[keys[j]].headers == 0,
            decreases keys.len() - i,
        {
            let (k, s) = self.states.at(i);
            assert(self@.states.contains_key(k));
            assert(self@.states[k] == s@);
            if s.headers_remaining > 0 {
                return true;
            }
            i += 1;
        }
        assert forall|k: u32| #[trigger] self@.states.contains_key(k) implies self@.states[k].headers
            == 0 by {
            assert(self.states@.contains_key(k));
            assert(keys.contains(k));
            let j = choose|j: int| 0 <= j < keys.len() && keys[j] == k;
            assert(self@.states[keys[j]].headers == 0);
        }
        false
    }

    fn pop_page(&mut self) -> (r: Option<Page>)
        requires
            old(self).wf(),
        ensures
            final(self).wf(),
            match r {
                Some(p) => old(self)@.pages.len() > 0 && p@ == old(self)@.pages[0] && p@.wf()
                    && final(self)@ == old(self)@.without_page(),
                None => old(self)@.pages.len() == 0 && final(self)@ == old(self)@,
            },
    {
        let ghost before = self@;
        let r = self.page_queue.pop_front();
        proof {
            if r is Some {
                assert(before.pages[0] == r->Some_0@);
                assert(before.pages[0].wf());
                assert(self@.pages =~= before.pages.skip(1));
                assert(self@ =~= before.without_page());
                assert forall|i: int| 0 <= i < self@.pages.len() implies (
                #[trigger] self@.pages[i]).wf() by {
                    assert(before.pages[i + 1].wf());
                }
            } else {
                assert(self@.pages =~= before.pages);
                assert(self@ =~= before);
            }
        }
        r
    }

    /// Takes waiting pages apart until no logical bitstream waits for header
    /// packets. Says whether more pages are needed for that.
    pub fn absorb_headers(&mut self) -> (r: Result<bool, Error>)
        requires
            old(self).wf(),
        ensures
            final(self).wf(),
            (final(self)@, r) == old(self)@.absorbed(),
    {
        let ghost start = self@;
        loop
            invariant
                self.wf(),
                self@.absorbed() == start.absorbed(),
                start == old(self)@,
            decreases self@.pages.len(),
        {
            let ghost here = self@;
            if !self.waits_for_headers() {
                return Ok(false);
            }
            match self.pop_page() {
                None => return Ok(true),
                Some(p) => {
                    proof {
                        lemma_processed_pages(here.without_page(), p@);
                    }
                    match self.process_page(p) {
                        Ok(()) => {},
                        Err(e) => return Err(e),
                    }
                },
            }
        }
    }

    /// The next packet, as far as the waiting pages go. None where more pages
    /// are needed.
    pub fn next_ready(&mut self) -> (r: Result<Option<Packet>, Error>)
        requires
            old(self).wf(),
        ensures
            final(self).wf(),
            ({
                let (m, found) = old(self)@.advanced();
                &&& final(self)@ == m
                &&& match r {
                    Ok(Some(p)) => found == Ok::<Option<PacketView>, Error>(Some(p@)),
                    Ok(None) => found == Ok::<Option<PacketView>, Error>(None),
                    Err(e) => found == Err::<Option<PacketView>, Error>(e),
                }
            }),
    {
        let ghost start = self@;
        loop
            invariant
                self.wf(),
                self@.advanced() == start.advanced(),
                start == old(self)@,
            decreases self@.pages.len(),
        {
            let ghost here = self@;
            if let Some(p) = self.out_queue.pop_front() {
                proof {
                    assert(here.packets[0] == p@);
                    assert(self@.packets =~= here.packets.skip(1));
                    assert(self@ =~= (DemuxView { packets: here.packets.skip(1), ..here }));
                }
                return Ok(Some(p));
            }
            assert(self@.packets =~= here.packets);
            assert(self@ =~= here);
            match self.pop_page() {
                None => return Ok(None),
                Some(p) => {
                    proof {
                        lemma_processed_pages(here.without_page(), p@);
                    }
                    match self.process_page(p) {
                        Ok(()) => {},
                        Err(e) => return Err(e),
                    }
                },
            }
        }
    }

    /// Fills in the setup data and the comments of all streams, when the headers
    /// have been taken.
    pub fn finish_opening(&mut self)
        requires
            old(self).wf(),
        ensures
            final(self).wf(),
            ({
                let n = serial_map::ordered_keys(old(self)@.states).len() as int;
                final(self)@ == old(self)@.with_setups(n).with_all_comments(n)
            }),
    {
        let ghost before = self@;
        let ghost keys = self.states.keys();
        proof {
            self.states.lemma_ordered();
            lemma_view_keys(self);
        }
        let mut i: usize = 0;
        while i < self.states.len()
            invariant
                self.wf(),
                self.states == old(self).states,
                keys == self.states.keys(),
                keys == serial_map::ordered_keys(before.states),
                before.states == states_view(self.states@),
                i <= keys.len(),
                self@ == before.with_setups(i as int),
            decreases keys.len() - i,
        {
            let (k, _) = self.states.at(i);
            assert(self@.states.contains_key(k));
            self.populate_extradata_for(k);
            i += 1;
        }
        let ghost mid = self@;
        proof {
            lemma_setups_keep(before, keys.len() as int);
        }
        let mut j: usize = 0;
        while j < self.states.len()
            invariant
                self.wf(),
                self.states == old(self).states,
                keys == self.states.keys(),
                mid.states == states_view(self.states@),
                keys == serial_map::ordered_keys(mid.states),
                j <= keys.len(),
                self@ == mid.with_all_comments(j as int),
            decreases keys.len() - j,
        {
            let (k, _) = self.states.at(j);
            assert(self@.states.contains_key(k));
            self.populate_metadata_for(k);
            j += 1;
        }
    }

    /// The streams.
    pub fn streams(&self) -> (r: &Vec<StreamInfo>)
        ensures
            stream::streams_view(r@) == self@.streams,
    {
        &self.streams
    }

    /// The comments.
    pub fn metadata(&self) -> (r: &Vec<(String, String)>)
        ensures
            comments::comments_view(r@) == self@.metadata,
    {
        &self.metadata
    }

    /// Number of gaps in the page numbers, over all logical bitstreams, cut off
    /// at the end of the range.
    pub fn hole_count(&self) -> (r: u64)
        ensures
            r == self@.holes,
    {
        self.holes
    }

    /// Number of pages in the seek index.
    pub fn seek_index_len(&self) -> (n: usize)
        requires
            self.wf(),
        ensures
            n == seek_index::size_of(self@.index),
    {
        self.index.len()
    }
}

proof fn lemma_view_keys(d: &OggDemuxer)
    requires
        d.wf(),
    ensures
        d.states.keys() == serial_map::ordered_keys(d@.states),
{
    d.states.lemma_ordered();
    assert forall|k: u32| #[trigger] d.states.keys().contains(k) == d@.states.contains_key(k) by {
        assert(d.states@.contains_key(k) == d@.states.contains_key(k));
    }
    serial_map::lemma_ordered_keys(d@.states, d.states.keys());
}

proof fn lemma_setups_keep(d: DemuxView, n: int)
    ensures
        d.with_setups(n).states == d.states,
    decreases n,
{
    if n > 0 {
        lemma_setups_keep(d, n - 1);
    }
}

/// The first of `keys` whose logical bitstream belongs to the stream number
/// `index`.
pub open spec fn serial_among(d: DemuxView, keys: Seq<u32>, index: u32) -> Option<u32>
    decreases keys.len(),
{
    if keys.len() == 0 {
        None
    } else if d.streams[d.states[keys[0]].public_index as int].index == index {
        Some(keys[0])
    } else {
        serial_among(d, keys.skip(1), index)
    }
}

/// The codecs whose granule positions are timestamps.
pub open spec fn seekable(codec: Seq<char>) -> bool {
    codec == "vorbis"@ || codec == "opus"@ || codec == "flac"@ || codec == "speex"@
}

/// What a seek in the stream number `index` looks for: a page of which logical
/// bitstream. The granule position that it looks for is the timestamp.
pub open spec fn seek_serial(d: DemuxView, index: u32) -> Result<u32, Error> {
    if index >= d.streams.len() {
        Err(Error::InvalidData(Fault::StreamRange { index }))
    } else {
        match serial_among(d, serial_map::ordered_keys(d.states), index) {
            None => Err(Error::Unsupported(Fault::StreamWithoutSerial { index })),
            Some(serial) => if seekable(d.streams[index as int].params.codec) {
                Ok(serial)
            } else {
                Err(Error::Unsupported(Fault::SeekCodec { index }))
            },
        }
    }
}

/// Where a stream ends, as far as the seek index knows.
#[derive(Clone, Copy, Debug, PartialEq, Eq, Structural)]
pub struct StreamEnd {
    /// The link that the stream belongs to.
    pub link_index: u32,
    /// The unit of its granule positions.
    pub time_base: TimeBase,
    /// Its last granule position.
    pub granule: i64,
}

/// Where the logical bitstreams of `keys` end, those that the seek index has
/// pages of.
pub open spec fn ends_of(d: DemuxView, keys: Seq<u32>) -> Seq<StreamEnd>
    decreases keys.len(),
{
    if keys.len() == 0 {
        Seq::empty()
    } else {
        let front = ends_of(d, keys.drop_last());
        let k = keys.last();
        let list = seek_index::list_of(d.index, k);
        if list.len() > 0 {
            let s = d.states[k];
            front.push(
                StreamEnd {
                    link_index: s.link_index,
                    time_base: d.streams[s.public_index as int].time_base,
                    granule: list.last().0,
                },
            )
        } else {
            front
        }
    }
}

/// Where the logical bitstreams of `keys` end by the granule positions
/// `granules`, those that are known.
pub open spec fn tail_ends_of(
    d: DemuxView,
    granules: Map<u32, i64>,
    keys: Seq<u32>,
) -> Seq<StreamEnd>
    decreases keys.len(),
{
    if keys.len() == 0 {
        Seq::empty()
    } else {
        let front = tail_ends_of(d, granules, keys.drop_last());
        let k = keys.last();
        if d.states.contains_key(k) {
            let s = d.states[k];
            front.push(
                StreamEnd {
                    link_index: s.link_index,
                    time_base: d.streams[s.public_index as int].time_base,
                    granule: granules[k],
                },
            )
        } else {
            front
        }
    }
}

impl OggDemuxer {
    /// Finds the logical bitstream in which a seek in the stream number
    /// `stream_index` looks.
    pub fn seek_target(&self, stream_index: u32) -> (r: Result<u32, Error>)
        requires
            self.wf(),
        ensures
            r == seek_serial(self@, stream_index),
    {
        if stream_index as usize >= self.streams.len() {
            return Err(Error::InvalidData(Fault::StreamRange { index: stream_index }));
        }
        proof {
            self.states.lemma_ordered();
            lemma_view_keys(self);
        }
        let ghost keys = self.states.keys();
        let mut i: usize = 0;
        assert(keys.skip(0) =~= keys);
        while i < self.states.len()
            invariant
                self.wf(),
                keys == self.states.keys(),
                i <= keys.len(),
                stream_index < self@.streams.len(),
                keys == serial_map::ordered_keys(self@.states),
                serial_among(self@, keys, stream_index) == serial_among(
                    self@,
                    keys.skip(i as int),
                    stream_index,
                ),
            decreases keys.len() - i,
        {
            let (k, s) = self.states.at(i);
            proof {
                assert(self@.states.contains_key(k));
                assert(self@.states[k] == s@);
                assert(self@.streams[s.public_index as int]
                    == self.streams@[s.public_index as int]@);
                assert(keys.skip(i as int)[0] == k);
                assert(keys.skip(i as int).skip(1) =~= keys.skip(i + 1));
            }
            if self.streams[s.public_index].index == stream_index {
                let id = &self.streams[stream_index as usize].params.codec_id;
                assert(self@.streams[stream_index as int]
                    == self.streams@[stream_index as int]@);
                return if id.is("vorbis") || id.is("opus") || id.is("flac") || id.is("speex") {
                    Ok(k)
                } else {
                    Err(Error::Unsupported(Fault::SeekCodec { index: stream_index }))
                };
            }
            i += 1;
        }
        Err(Error::Unsupported(Fault::StreamWithoutSerial { index: stream_index }))
    }

    /// The last page of the logical bitstream `serial` that the seek index knows
    /// and whose granule position is not beyond `target`.
    pub fn index_floor(&self, serial: u32, target: i64) -> (r: Option<SeekEntry>)
        requires
            self.wf(),
        ensures
            r == seek_index::floor_in(seek_index::list_of(self@.index, serial), target),
    {
        self.index.floor(serial, target)
    }

    /// Takes note of a page in the seek index.
    pub fn index_record(&mut self, serial: u32, granule: i64, offset: u64)
        requires
            old(self).wf(),
        ensures
            final(self).wf(),
            final(self)@ == (DemuxView {
                index: seek_index::recorded(old(self)@.index, serial, granule, offset),
                ..old(self)@
            }),
    {
        let ghost before = self@;
        self.index.record(serial, granule, offset);
        assert(self@ =~= (DemuxView {
            index: seek_index::recorded(before.index, serial, granule, offset),
            ..before
        }));
        assert(self@.consistent());
    }

    /// Whether the seek index holds every page.
    pub fn index_is_built(&self) -> (r: bool)
        ensures
            r == self@.index_built,
    {
        self.index_built
    }

    /// Marks the seek index as holding every page.
    pub fn mark_index_built(&mut self)
        requires
            old(self).wf(),
        ensures
            final(self).wf(),
            final(self)@ == (DemuxView { index_built: true, ..old(self)@ }),
    {
        let ghost before = self@;
        self.index_built = true;
        assert(self@ =~= (DemuxView { index_built: true, ..before }));
        assert(self@.consistent());
    }

    /// Drops all that waits, as a seek must.
    pub fn flush(&mut self)
        requires
            old(self).wf(),
        ensures
            final(self).wf(),
            final(self)@ == old(self)@.flushed(),
    {
        let ghost before = self@;
        self.page_queue = VecDeque::new();
        self.out_queue = VecDeque::new();
        proof {
            self.states.lemma_ordered();
        }
        let ghost keys = self.states.keys();
        let ghost states = self.states@;
        let n: usize = self.states.len();
        let mut i: usize = 0;
        let ghost streams = self.streams;
        let ghost metadata = self.metadata;
        let ghost index = self.index;
        assert forall|j: int| 0 <= j < n implies states.contains_key(#[trigger] keys[j]) by {
            assert(keys.contains(keys[j]));
        }
        while i < n
            invariant
                self.states.wf(),
                self.index.wf(),
                keys == self.states.keys(),
                n == keys.len(),
                serial_map::keys_ascend(keys),
                i <= n,
                self.streams == streams,
                self.metadata == metadata,
                self.index == index,
                self.page_queue@.len() == 0,
                self.out_queue@.len() == 0,
                self.index_built == before.index_built,
                self.next_link_index == before.next_link,
                self.seen_content == before.seen_content,
                self.holes == before.holes,
                forall|k: u32| #[trigger]
                    self.states@.contains_key(k) == states.contains_key(k),
                forall|j: int|
                    0 <= j < i ==> states.contains_key(#[trigger] keys[j])
                        && self.states@[keys[j]]@ == states[keys[j]]@.flushed(),
                forall|j: int|
                    i <= j < n ==> states.contains_key(#[trigger] keys[j]) && self.states@[keys[j]]
                        == states[keys[j]],
            decreases n - i,
        {
            let blank = LogicalStream::new(0, 0, 0);
            let mut s = self.states.replace_at(i, blank);
            s.flush();
            let _ = self.states.replace_at(i, s);
            proof {
                let key = keys[i as int];
                assert forall|j: int| 0 <= j < i + 1 implies states.contains_key(
                    #[trigger] keys[j],
                ) && self.states@[keys[j]]@ == states[keys[j]]@.flushed() by {
                    if j < i {
                        assert(keys[j] < keys[i as int]);
                    }
                }
                assert forall|j: int| i + 1 <= j < n implies states.contains_key(
                    #[trigger] keys[j],
                ) && self.states@[keys[j]] == states[keys[j]] by {
                    assert(keys[i as int] < keys[j]);
                }
            }
            i += 1;
        }
        proof {
            let after = before.flushed();
            assert forall|k: u32| #[trigger] self@.states.contains_key(k) implies (
            self@.states[k] == after.states[k]) by {
                assert(states.contains_key(k));
                assert(keys.contains(k));
                let j = choose|j: int| 0 <= j < keys.len() && keys[j] == k;
                assert(self.states@[keys[j]]@ == states[keys[j]]@.flushed());
            }
            assert forall|k: u32| #[trigger]
                self@.states.contains_key(k) == after.states.contains_key(k) by {
                assert(self.states@.contains_key(k) == states.contains_key(k));
            }
            assert(self@.states =~= after.states);
            assert(self@.pages =~= Seq::<PageView>::empty());
            assert(self@.packets =~= Seq::<PacketView>::empty());
            assert(self@ =~= after);
            assert forall|k: u32| #[trigger] self@.states.contains_key(k) implies (
            self@.states[k].public_index < self@.streams.len()) by {
                assert(before.states.contains_key(k));
            }
        }
    }

    /// Where the logical bitstreams end that the seek index has pages of.
    pub fn stream_ends(&self) -> (out: Vec<StreamEnd>)
        requires
            self.wf(),
        ensures
            out@ == ends_of(self@, serial_map::ordered_keys(self@.states)),
    {
        proof {
            self.states.lemma_ordered();
            lemma_view_keys(self);
        }
        let ghost keys = self.states.keys();
        let mut out: Vec<StreamEnd> = Vec::new();
        let mut i: usize = 0;
        while i < self.states.len()
            invariant
                self.wf(),
                keys == self.states.keys(),
                i <= keys.len(),
                out@ == ends_of(self@, keys.take(i as int)),
            decreases keys.len() - i,
        {
            let (k, s) = self.states.at(i);
            proof {
                assert(self@.states.contains_key(k));
                assert(self@.states[k] == s@);
                assert(self@.streams[s.public_index as int]
                    == self.streams@[s.public_index as int]@);
                assert(keys.take(i + 1).drop_last() =~= keys.take(i as int));
                assert(keys.take(i + 1).last() == k);
            }
            if let Some(e) = self.index.last_of(k) {
                out.push(
                    StreamEnd {
                        link_index: s.link_index,
                        time_base: self.streams[s.public_index].time_base,
                        granule: e.0,
                    },
                );
            }
            i += 1;
        }
        assert(keys.take(i as int) =~= keys);
        out
    }

    /// Where the logical bitstreams that are known end, going by the pages of the
    /// last piece of the file.
    pub fn tail_ends(&self, buf: &[u8]) -> (out: Vec<StreamEnd>)
        requires
            self.wf(),
        ensures
            ({
                let granules = durations::granules_from(buf@, 0, Map::empty());
                out@ == tail_ends_of(self@, granules, serial_map::ordered_keys(granules))
            }),
    {
        let granules = last_granules(buf);
        proof {
            granules.lemma_ordered();
        }
        let ghost keys = granules.keys();
        let mut out: Vec<StreamEnd> = Vec::new();
        let mut i: usize = 0;
        while i < granules.len()
            invariant
                self.wf(),
                granules.wf(),
                keys == granules.keys(),
                i <= keys.len(),
                out@ == tail_ends_of(self@, granules@, keys.take(i as int)),
            decreases keys.len() - i,
        {
            let (k, granule) = granules.at(i);
            proof {
                assert(keys.take(i + 1).drop_last() =~= keys.take(i as int));
                assert(keys.take(i + 1).last() == k);
            }
            match self.states.get(k) {
                Some(s) => {
                    assert(self@.states.contains_key(k));
                    assert(self@.streams[s.public_index as int]
                        == self.streams@[s.public_index as int]@);
                    out.push(
                        StreamEnd {
                            link_index: s.link_index,
                            time_base: self.streams[s.public_index].time_base,
                            granule: *granule,
                        },
                    );
                },
                None => {
                    assert(!self@.states.contains_key(k));
                },
            }
            i += 1;
        }
        assert(keys.take(i as int) =~= keys);
        out
    }

    /// Takes note of a page that was come across while the whole stream was
    /// looked through, and that opens a logical bitstream that is not known. It
    /// is registered, as far as that succeeds.
    pub fn survey_opening(&mut self, page: &Page)
        requires
            old(self).wf(),
            page@.wf(),
            old(self)@.opens(page@),
        ensures
            final(self).wf(),
            final(self)@ == (match old(self)@.linked(page@).registered(page@) {
                Ok(d) => d,
                Err(e) => old(self)@.linked(page@),
            }),
    {
        let ghost before = self@;
        if self.seen_content {
            self.next_link_index = self.next_link_index.saturating_add(1);
            self.seen_content = false;
        }
        assert(self@ =~= before.linked(page@));
        let _ = self.register_stream(page);
    }

    /// Takes note of any other page that was come across while the whole stream
    /// was looked through, of which only the flags matter.
    pub fn survey_page(&mut self, page_flags: u8)
        requires
            old(self).wf(),
        ensures
            final(self).wf(),
            final(self)@ == (DemuxView {
                seen_content: old(self)@.seen_content || !page::flag_set(
                    page_flags,
                    flags::FIRST_PAGE,
                ),
                ..old(self)@
            }),
    {
        let ghost before = self@;
        if page_flags & flags::FIRST_PAGE == 0 {
            self.seen_content = true;
        }
        assert(self@ =~= (DemuxView {
            seen_content: before.seen_content || !page::flag_set(page_flags, flags::FIRST_PAGE),
            ..before
        }));
        assert(self@.consistent());
    }

    /// Whether a page with these flags and serial opens a logical bitstream that
    /// is not known.
    pub fn is_unknown_opening(&self, page_flags: u8, serial: u32) -> (r: bool)
        requires
            self.wf(),
        ensures
            r == (page::flag_set(page_flags, flags::FIRST_PAGE) && !self@.states.contains_key(
                serial,
            )),
    {
        page_flags & flags::FIRST_PAGE != 0 && !self.states.contains(serial)
    }
}

} // verus!
