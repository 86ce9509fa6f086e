//! Looking through a whole file for its pages.
use crate::bytes;
use crate::bytes::{matches_at, read_i64_le, read_u32_le};
use crate::demux::demuxer::{DemuxView, OggDemuxer};
use crate::demux::page_scan;
use crate::demux::page_scan::{find_capture, CHUNK};
use crate::page;
use crate::page::{flags, lacing_sum, Page, PageView, CAPTURE_PATTERN};
use vstd::prelude::*;

verus! {

/// What a walk waits for, or what it came to.
#[derive(Clone, Copy, Debug, PartialEq, Eq, Structural)]
pub enum BuildStage {
    /// A piece of the file.
    Chunk,
    /// The header of a page.
    Header,
    /// The segment table of a page.
    Table,
    /// The body of a page that opens a logical bitstream that is not known.
    Body,
    /// The walk is over; whether it came to the end of the file.
    Done { complete: bool },
}

/// A walk over the pages of a file.
#[derive(Debug)]
pub struct IndexBuild {
    cursor: u64,
    end: u64,
    stage: BuildStage,
    chunk: Vec<u8>,
    at: usize,
    page_offset: u64,
    header: Vec<u8>,
    table: Vec<u8>,
}

/// What an [`IndexBuild`] stands for.
#[verifier::ext_equal]
pub struct BuildView {
    pub cursor: u64,
    pub end: u64,
    pub stage: BuildStage,
    pub chunk: Seq<u8>,
    pub at: nat,
    pub page_offset: u64,
    pub header: Seq<u8>,
    pub table: Seq<u8>,
}

impl View for IndexBuild {
    type V = BuildView;

    closed spec fn view(&self) -> BuildView {
        BuildView {
            cursor: self.cursor,
            end: self.end,
            stage: self.stage,
            chunk: self.chunk@,
            at: self.at as nat,
            page_offset: self.page_offset,
            header: self.header@,
            table: self.table@,
        }
    }
}

impl BuildView {
    /// A walk that has read nothing.
    pub open spec fn started(end: u64) -> BuildView {
        BuildView {
            cursor: 0,
            end,
            stage: if end == 0 {
                BuildStage::Done { complete: true }
            } else {
                BuildStage::Chunk
            },
            chunk: Seq::empty(),
            at: 0,
            page_offset: 0,
            header: Seq::empty(),
            table: Seq::empty(),
        }
    }

    /// Number of segments of the page at hand.
    pub open spec fn segments(self) -> nat {
        self.header[26] as nat
    }

    /// The piece of the file that the walk asks for: where it begins, and how
    /// long it is at most.
    pub open spec fn asked(self) -> Option<(u64, nat)> {
        match self.stage {
            BuildStage::Chunk => Some(
                (
                    self.cursor,
                    if self.end - self.cursor < CHUNK {
                        (self.end - self.cursor) as nat
                    } else {
                        CHUNK as nat
                    },
                ),
            ),
            BuildStage::Header => Some((self.page_offset, 27)),
            BuildStage::Table => Some(
                (page_scan::capped(self.page_offset + 27), self.segments()),
            ),
            BuildStage::Body => Some(
                (
                    page_scan::capped(self.page_offset + 27 + self.segments()),
                    page::body_len(self.table),
                ),
            ),
            BuildStage::Done { complete } => None,
        }
    }

    /// The walk stops before the end of the file.
    pub open spec fn cut_short(self) -> BuildView {
        BuildView { stage: BuildStage::Done { complete: false }, ..self }
    }

    /// The walk goes on at `cursor`, or is over.
    pub open spec fn moved(self, cursor: u64) -> BuildView {
        if cursor >= self.end {
            BuildView { stage: BuildStage::Done { complete: true }, ..self }
        } else {
            BuildView { cursor, stage: BuildStage::Chunk, ..self }
        }
    }

    /// The chunk is looked through from `from` on.
    pub open spec fn looked(self, from: int) -> BuildView {
        match page_scan::capture_in(self.chunk, from) {
            Some(i) => BuildView {
                stage: BuildStage::Header,
                at: i as nat,
                page_offset: page_scan::capped(self.cursor + i),
                ..self
            },
            None => if self.chunk.len() < 4 {
                BuildView { stage: BuildStage::Done { complete: true }, ..self }
            } else {
                self.moved(page_scan::capped(self.cursor + self.chunk.len() - 3))
            },
        }
    }

    /// The page at hand, with the given segment table and body.
    pub open spec fn page(self, table: Seq<u8>, body: Seq<u8>) -> PageView {
        PageView {
            flags: self.header[5],
            granule_position: bytes::le_i64(self.header.skip(6)),
            serial: bytes::le_u32(self.header.skip(14)),
            seq_no: bytes::le_u32(self.header.skip(18)),
            lacing: table,
            data: body,
        }
    }

    /// The walk goes on behind the page at hand.
    pub open spec fn past_page(self, table: Seq<u8>) -> BuildView {
        self.moved(
            page_scan::capped(
                self.page_offset + 27 + self.segments() + page::body_len(table),
            ),
        )
    }

    /// The walk and the demuxer after the bytes that were asked for, or as many
    /// as there are.
    pub open spec fn after(self, d: DemuxView, got: Seq<u8>) -> (BuildView, DemuxView) {
        match self.stage {
            BuildStage::Chunk => (
                if got.len() == 0 {
                    BuildView { stage: BuildStage::Done { complete: true }, ..self }
                } else {
                    BuildView { chunk: got, ..self }.looked(0)
                },
                d,
            ),
            BuildStage::Header => (
                if got.len() != 27 {
                    self.cut_short()
                } else if got.take(4) != CAPTURE_PATTERN@ {
                    self.looked(self.at as int + 1)
                } else {
                    BuildView { stage: BuildStage::Table, header: got, ..self }
                },
                d,
            ),
            BuildStage::Table => if got.len() != self.segments() {
                (self.cut_short(), d)
            } else {
                let p = self.page(got, Seq::empty());
                let r = d.indexed(p, self.page_offset);
                if r.opens(p) {
                    (BuildView { stage: BuildStage::Body, table: got, ..self }, r)
                } else {
                    (
                        self.past_page(got),
                        DemuxView {
                            seen_content: r.seen_content || !page::flag_set(
                                p.flags,
                                flags::FIRST_PAGE,
                            ),
                            ..r
                        },
                    )
                }
            },
            BuildStage::Body => if got.len() != page::body_len(self.table) {
                (self.cut_short(), d)
            } else {
                let p = self.page(self.table, got);
                (
                    self.past_page(self.table),
                    if d.opens(p) {
                        match d.linked(p).registered(p) {
                            Ok(r) => r,
                            Err(e) => d.linked(p),
                        }
                    } else {
                        d
                    },
                )
            },
            BuildStage::Done { complete } => (self, d),
        }
    }

    /// What is asked for makes sense.
    pub open spec fn wf(self) -> bool {
        &&& self.stage == BuildStage::Chunk ==> self.cursor < self.end
        &&& self.stage == BuildStage::Header ==> self.at + 4 <= self.chunk.len()
        &&& self.stage == BuildStage::Table || self.stage == BuildStage::Body
            ==> self.header.len() == 27
        &&& self.stage == BuildStage::Body ==> self.table.len() == self.header[26]
    }
}

impl IndexBuild {
    /// The walk is in a state that its operations lead to.
    pub closed spec fn wf(&self) -> bool {
        self@.wf()
    }

    /// A walk over a file of `end` bytes.
    pub fn new(end: u64) -> (b: Self)
        ensures
            b.wf(),
            b@ == BuildView::started(end),
    {
        let b = IndexBuild {
            cursor: 0,
            end,
            stage: if end == 0 {
                BuildStage::Done { complete: true }
            } else {
                BuildStage::Chunk
            },
            chunk: Vec::new(),
            at: 0,
            page_offset: 0,
            header: Vec::new(),
            table: Vec::new(),
        };
        assert(b@ =~= BuildView::started(end));
        b
    }

    /// What the walk waits for, or what it came to.
    pub fn stage(&self) -> (r: BuildStage)
        ensures
            r == self@.stage,
    {
        self.stage
    }

    /// The piece of the file that the walk asks for.
    pub fn request(&self) -> (r: Option<(u64, usize)>)
        requires
            self.wf(),
        ensures
            match r {
                Some((offset, len)) => self@.asked() == Some((offset, len as nat)),
                None => self@.asked() is None,
            },
    {
        match self.stage {
            BuildStage::Chunk => {
                let left: u64 = self.end - self.cursor;
                let len: u64 = if left < CHUNK {
                    left
                } else {
                    CHUNK
                };
                Some((self.cursor, len as usize))
            },
            BuildStage::Header => Some((self.page_offset, 27)),
            BuildStage::Table => Some(
                (self.page_offset.saturating_add(27), self.header[26] as usize),
            ),
            BuildStage::Body => {
                let n: usize = self.header[26] as usize;
                proof {
                    page::lemma_body_len_bound(self.table@);
                }
                let len: usize = lacing_sum(self.table.as_slice());
                Some((self.page_offset.saturating_add(27 + n as u64), len))
            },
            BuildStage::Done { complete: _ } => None,
        }
    }

    fn move_to(&mut self, cursor: u64)
        requires
            old(self).wf(),
        ensures
            final(self).wf(),
            final(self)@ == old(self)@.moved(cursor),
    {
        if cursor >= self.end {
            self.stage = BuildStage::Done { complete: true };
        } else {
            self.cursor = cursor;
            self.stage = BuildStage::Chunk;
        }
        assert(self@ =~= old(self)@.moved(cursor));
    }

    fn look(&mut self, from: usize)
        requires
            old(self).wf(),
        ensures
            final(self).wf(),
            final(self)@ == old(self)@.looked(from as int),
    {
        let n: usize = self.chunk.len();
        match find_capture(self.chunk.as_slice(), from) {
            Some(i) => {
                self.stage = BuildStage::Header;
                self.at = i;
                self.page_offset = self.cursor.saturating_add(i as u64);
                assert(self@ =~= old(self)@.looked(from as int));
            },
            None => {
                if n < 4 {
                    self.stage = BuildStage::Done { complete: true };
                    assert(self@ =~= old(self)@.looked(from as int));
                } else {
                    self.move_to(self.cursor.saturating_add((n - 3) as u64));
                }
            },
        }
    }

    fn go_past(&mut self, segments: usize, body: usize)
        requires
            old(self).wf(),
            segments <= 255,
            body <= 65025,
        ensures
            final(self).wf(),
            final(self)@ == old(self)@.moved(
                page_scan::capped(old(self)@.page_offset + 27 + segments + body),
            ),
    {
        let step: u64 = 27 + segments as u64 + body as u64;
        self.move_to(self.page_offset.saturating_add(step));
    }

    /// Takes the bytes that the walk asked for, or as many as there are, and
    /// tells the demuxer of the pages among them.
    pub fn answer(&mut self, demuxer: &mut OggDemuxer, got: &[u8])
        requires
            old(self).wf(),
            old(demuxer).wf(),
        ensures
            final(self).wf(),
            final(demuxer).wf(),
            (final(self)@, final(demuxer)@) == old(self)@.after(old(demuxer)@, got@),
    {
        let ghost before = self@;
        let ghost d = demuxer@;
        match self.stage {
            BuildStage::Chunk => {
                if got.len() == 0 {
                    self.stage = BuildStage::Done { complete: true };
                } else {
                    self.chunk = vstd::slice::slice_to_vec(got);
                    assert(self@ =~= (BuildView { chunk: got@, ..before }));
                    self.look(0);
                }
                assert(self@ =~= before.after(d, got@).0);
            },
            BuildStage::Header => {
                if got.len() != 27 {
                    self.stage = BuildStage::Done { complete: false };
                    assert(self@ =~= before.after(d, got@).0);
                    return;
                }
                assert(got@.subrange(0, 4) =~= got@.take(4));
                if !matches_at(got, 0, &CAPTURE_PATTERN) {
                    assert(self.chunk.len() == self.chunk@.len());
                    self.look(self.at + 1);
                    return;
                }
                self.header = vstd::slice::slice_to_vec(got);
                self.stage = BuildStage::Table;
                assert(self@ =~= before.after(d, got@).0);
            },
            BuildStage::Table => {
                self.take_table(demuxer, got);
            },
            BuildStage::Body => {
                self.take_body(demuxer, got);
            },
            BuildStage::Done { complete: _ } => {},
        }
    }

    fn take_table(&mut self, demuxer: &mut OggDemuxer, got: &[u8])
        requires
            old(self).wf(),
            old(self)@.stage == BuildStage::Table,
            old(demuxer).wf(),
        ensures
            final(self).wf(),
            final(demuxer).wf(),
            (final(self)@, final(demuxer)@) == old(self)@.after(old(demuxer)@, got@),
    {
        let ghost before = self@;
        let ghost d = demuxer@;
        let n: usize = self.header[26] as usize;
        if got.len() != n {
            self.stage = BuildStage::Done { complete: false };
            assert(self@ =~= before.after(d, got@).0);
            return;
        }
        let page_flags: u8 = self.header[5];
        let granule: i64 = read_i64_le(self.header.as_slice(), 6);
        let serial: u32 = read_u32_le(self.header.as_slice(), 14);
        demuxer.index_record(serial, granule, self.page_offset);
        let ghost p = before.page(got@, Seq::empty());
        let ghost r = d.indexed(p, before.page_offset);
        assert(demuxer@ =~= r);
        if demuxer.is_unknown_opening(page_flags, serial) {
            self.table = vstd::slice::slice_to_vec(got);
            self.stage = BuildStage::Body;
            assert(self@ =~= before.after(d, got@).0);
        } else {
            demuxer.survey_page(page_flags);
            proof {
                page::lemma_body_len_bound(got@);
            }
            let body: usize = lacing_sum(got);
            self.go_past(n, body);
            assert(self@ =~= before.after(d, got@).0);
        }
    }

    fn take_body(&mut self, demuxer: &mut OggDemuxer, got: &[u8])
        requires
            old(self).wf(),
            old(self)@.stage == BuildStage::Body,
            old(demuxer).wf(),
        ensures
            final(self).wf(),
            final(demuxer).wf(),
            (final(self)@, final(demuxer)@) == old(self)@.after(old(demuxer)@, got@),
    {
        let ghost before = self@;
        let ghost d = demuxer@;
        let n: usize = self.header[26] as usize;
        proof {
            page::lemma_body_len_bound(self.table@);
        }
        let body: usize = lacing_sum(self.table.as_slice());
        if got.len() != body {
            self.stage = BuildStage::Done { complete: false };
            assert(self@ =~= before.after(d, got@).0);
            return;
        }
        let page_flags: u8 = self.header[5];
        let serial: u32 = read_u32_le(self.header.as_slice(), 14);
        let page = Page {
            flags: page_flags,
            granule_position: read_i64_le(self.header.as_slice(), 6),
            serial,
            seq_no: read_u32_le(self.header.as_slice(), 18),
            lacing: vstd::slice::slice_to_vec(self.table.as_slice()),
            data: vstd::slice::slice_to_vec(got),
        };
        assert(page@ =~= before.page(before.table, got@));
        if demuxer.is_unknown_opening(page_flags, serial) {
            demuxer.survey_opening(&page);
        }
        self.go_past(n, body);
        assert(self@ =~= before.after(d, got@).0);
    }
}

} // verus!
