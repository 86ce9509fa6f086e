//! Packets of one logical bitstream put on pages, the last of which is held
//! back so that it can be marked as the last.
use crate::bytes::push_all;
use crate::framing;
use crate::page;
use crate::page::{flags, lace, Page, PageView};
use crate::stream::{Packet, PacketView};
use vstd::prelude::*;

verus! {

/// A finished page that has not been written.
#[derive(Debug)]
pub struct PendingPage {
    /// The page.
    pub page: Page,
    /// The timestamp of the first keyframe that starts on it.
    pub first_keyframe_pts: Option<i64>,
}

/// What a [`PendingPage`] stands for.
#[verifier::ext_equal]
pub struct PendingView {
    pub page: PageView,
    pub first_keyframe_pts: Option<i64>,
}

impl View for PendingPage {
    type V = PendingView;

    open spec fn view(&self) -> PendingView {
        PendingView { page: self.page@, first_keyframe_pts: self.first_keyframe_pts }
    }
}

/// What a list of pages stands for.
pub open spec fn pending_view(pages: Seq<PendingPage>) -> Seq<PendingView> {
    pages.map_values(|p: PendingPage| p@)
}

/// The page-level state of one logical bitstream.
#[derive(Debug)]
pub struct StreamWriter {
    serial: u32,
    seq_no: u32,
    lacing: Vec<u8>,
    data: Vec<u8>,
    starts_continued: bool,
    granule_position: i64,
    first_keyframe_pts: Option<i64>,
    headers_remaining: usize,
    bos_emitted: bool,
    pending: Option<PendingPage>,
    ready: Vec<PendingPage>,
}

/// What a [`StreamWriter`] stands for: the page that is being filled, the page
/// that is held back, and the pages that are ready to be written.
#[verifier::ext_equal]
pub struct StreamView {
    pub serial: u32,
    pub seq_no: u32,
    pub lacing: Seq<u8>,
    pub data: Seq<u8>,
    pub continued: bool,
    pub granule: i64,
    pub first_keyframe_pts: Option<i64>,
    pub headers: nat,
    pub started: bool,
    pub pending: Option<PendingView>,
    pub ready: Seq<PendingView>,
}

impl View for StreamWriter {
    type V = StreamView;

    closed spec fn view(&self) -> StreamView {
        StreamView {
            serial: self.serial,
            seq_no: self.seq_no,
            lacing: self.lacing@,
            data: self.data@,
            continued: self.starts_continued,
            granule: self.granule_position,
            first_keyframe_pts: self.first_keyframe_pts,
            headers: self.headers_remaining as nat,
            started: self.bos_emitted,
            pending: match self.pending {
                Some(p) => Some(p@),
                None => None,
            },
            ready: pending_view(self.ready@),
        }
    }
}

/// A list of the page that is held back, where there is one.
pub open spec fn as_list(pending: Option<PendingView>) -> Seq<PendingView> {
    match pending {
        Some(p) => seq![p],
        None => Seq::empty(),
    }
}

/// A page that opens a logical bitstream with one packet.
pub open spec fn opening_page(serial: u32, seq_no: u32, packet: Seq<u8>) -> PageView {
    PageView {
        flags: flags::FIRST_PAGE,
        granule_position: 0,
        serial,
        seq_no,
        lacing: page::laced(packet.len()),
        data: packet,
    }
}

/// A packet fits one page.
pub open spec fn fits_page(packet: Seq<u8>) -> bool {
    packet.len() < 65025
}

/// The number behind `n` on the 32-bit circle.
pub open spec fn successor(n: u32) -> u32 {
    if n == u32::MAX {
        0
    } else {
        (n + 1) as u32
    }
}

impl StreamView {
    /// A stream of which nothing was written, with `headers` header packets to
    /// come.
    pub open spec fn fresh(serial: u32, headers: nat) -> StreamView {
        StreamView {
            serial,
            seq_no: 0,
            lacing: Seq::empty(),
            data: Seq::empty(),
            continued: false,
            granule: -1i64,
            first_keyframe_pts: None,
            headers,
            started: false,
            pending: None,
            ready: Seq::empty(),
        }
    }

    /// The page that is being filled, as it would be finished now.
    pub open spec fn open_page(self) -> PageView {
        PageView {
            flags: framing::page_flags(self.continued, !self.started, false),
            granule_position: self.granule,
            serial: self.serial,
            seq_no: self.seq_no,
            lacing: self.lacing,
            data: self.data,
        }
    }

    /// The page that is being filled is finished and held back; the one that
    /// was held back is ready to be written.
    pub open spec fn flushed(self) -> StreamView {
        StreamView {
            seq_no: successor(self.seq_no),
            lacing: Seq::empty(),
            data: Seq::empty(),
            continued: page::ends_open(self.lacing),
            granule: -1i64,
            first_keyframe_pts: None,
            started: true,
            pending: Some(
                PendingView {
                    page: self.open_page(),
                    first_keyframe_pts: self.first_keyframe_pts,
                },
            ),
            ready: self.ready + as_list(self.pending),
            ..self
        }
    }

    /// Segments are put on the page that is being filled.
    pub open spec fn with_segments(self, lacing: Seq<u8>, data: Seq<u8>) -> StreamView {
        StreamView { lacing: self.lacing + lacing, data: self.data + data, ..self }
    }

    /// A packet is laid out from an empty page on, 255 segments to a page. The
    /// page that it ends on is left unfinished.
    pub open spec fn spread(self, packet: Seq<u8>) -> StreamView
        decreases packet.len(),
    {
        if packet.len() < 65025 {
            self.with_segments(page::laced(packet.len()), packet)
        } else {
            self.with_segments(
                Seq::new(255, |i: int| 255u8),
                packet.take(65025),
            ).flushed().spread(packet.skip(65025))
        }
    }

    /// A packet will go on the page that is being filled where it fits, else
    /// from a new page on.
    pub open spec fn with_room(self, packet: Seq<u8>) -> StreamView {
        if self.lacing.len() > 0 && self.lacing.len() + page::laced(packet.len()).len() > 255 {
            self.flushed()
        } else {
            self
        }
    }

    /// A content packet starts on the page that is being filled.
    pub open spec fn marked(self, p: PacketView) -> StreamView {
        if p.pts is Some && p.keyframe && self.first_keyframe_pts is None {
            StreamView { first_keyframe_pts: p.pts, ..self }
        } else {
            self
        }
    }

    /// A content packet ends on the page that is being filled.
    pub open spec fn stamped(self, pts: Option<i64>) -> StreamView {
        match pts {
            Some(t) => StreamView { granule: t, ..self },
            None => self,
        }
    }

    /// A packet has been written. Each header packet ends its page.
    pub open spec fn written(self, p: PacketView) -> StreamView {
        let room = self.with_room(p.data);
        if self.headers > 0 {
            StreamView {
                headers: (self.headers - 1) as nat,
                granule: 0,
                ..room.spread(p.data)
            }.flushed()
        } else {
            let placed = room.marked(p).spread(p.data).stamped(p.pts);
            if p.unit_boundary {
                placed.flushed()
            } else {
                placed
            }
        }
    }

    /// The first header packet has been written, on a page of its own that is
    /// ready at once.
    pub open spec fn opened(self, packet: Seq<u8>) -> StreamView {
        StreamView {
            seq_no: successor(self.seq_no),
            started: true,
            headers: (self.headers - 1) as nat,
            ready: self.ready.push(
                PendingView {
                    page: opening_page(self.serial, self.seq_no, packet),
                    first_keyframe_pts: None,
                },
            ),
            ..self
        }
    }

    /// The page that was held back is ready.
    pub open spec fn released(self) -> StreamView {
        StreamView { pending: None, ready: self.ready + as_list(self.pending), ..self }
    }

    /// The stream is closed: its last page is marked as the last and ready.
    pub open spec fn closed_off(self) -> StreamView {
        let s = if self.lacing.len() > 0 {
            self.flushed()
        } else {
            self
        };
        match s.pending {
            None => s,
            Some(p) => StreamView {
                pending: None,
                ready: s.ready.push(
                    PendingView {
                        page: PageView { flags: p.page.flags | flags::LAST_PAGE, ..p.page },
                        ..p
                    },
                ),
                ..s
            },
        }
    }

    /// Every page has been written.
    pub open spec fn emptied(self) -> StreamView {
        StreamView { ready: Seq::empty(), ..self }
    }

    /// The page that is being filled fits the page layout, and every finished
    /// page is well formed and of this stream.
    pub open spec fn consistent(self) -> bool {
        &&& self.lacing.len() <= 255
        &&& self.data.len() == page::body_len(self.lacing)
        &&& self.pending matches Some(p) ==> p.page.wf() && p.page.serial == self.serial
        &&& forall|i: int|
            0 <= i < self.ready.len() ==> (#[trigger] self.ready[i]).page.wf()
                && self.ready[i].page.serial == self.serial
    }
}

/// A full page of one packet that goes on.
proof fn lemma_full_table()
    ensures
        page::body_len(Seq::new(255, |i: int| 255u8)) == 65025,
        page::ends_open(Seq::new(255, |i: int| 255u8)),
{
    lemma_run_of_255(255);
}

proof fn lemma_run_of_255(n: nat)
    ensures
        page::body_len(Seq::new(n, |i: int| 255u8)) == 255 * n,
    decreases n,
{
    let run = Seq::new(n, |i: int| 255u8);
    if n > 0 {
        lemma_run_of_255((n - 1) as nat);
        assert(run.drop_last() =~= Seq::new((n - 1) as nat, |i: int| 255u8));
    }
}

impl StreamWriter {
    /// A stream of which nothing was written.
    pub fn new(serial: u32, headers_remaining: usize) -> (w: Self)
        ensures
            w@ == StreamView::fresh(serial, headers_remaining as nat),
            w@.consistent(),
    {
        let w = StreamWriter {
            serial,
            seq_no: 0,
            lacing: Vec::new(),
            data: Vec::new(),
            starts_continued: false,
            granule_position: -1,
            first_keyframe_pts: None,
            headers_remaining,
            bos_emitted: false,
            pending: None,
            ready: Vec::new(),
        };
        assert(w@ =~= StreamView::fresh(serial, headers_remaining as nat));
        w
    }

    /// Serial of the stream.
    pub fn serial(&self) -> (r: u32)
        ensures
            r == self@.serial,
    {
        self.serial
    }

    /// Number of header packets that are still to come.
    pub fn headers_remaining(&self) -> (r: usize)
        ensures
            r == self@.headers,
    {
        self.headers_remaining
    }

    fn make_ready(&mut self)
        ensures
            final(self)@ == old(self)@.released(),
    {
        let ghost before = pending_view(self.ready@);
        match self.pending.take() {
            Some(p) => {
                self.ready.push(p);
                assert(pending_view(self.ready@) =~= before + seq![p@]);
            },
            None => {
                assert(before =~= before + Seq::<PendingView>::empty());
            },
        }
        assert(self@ =~= old(self)@.released());
    }

    fn flush(&mut self)
        requires
            old(self)@.consistent(),
        ensures
            final(self)@ == old(self)@.flushed(),
            final(self)@.consistent(),
    {
        let mut page_flags: u8 = 0;
        if self.starts_continued {
            page_flags = page_flags + 1;
        }
        if !self.bos_emitted {
            page_flags = page_flags + 2;
        }
        let n: usize = self.lacing.len();
        let open: bool = n > 0 && self.lacing[n - 1] == 255;
        let mut lacing: Vec<u8> = Vec::new();
        let mut data: Vec<u8> = Vec::new();
        std::mem::swap(&mut lacing, &mut self.lacing);
        std::mem::swap(&mut data, &mut self.data);
        let page = Page {
            flags: page_flags,
            granule_position: self.granule_position,
            serial: self.serial,
            seq_no: self.seq_no,
            lacing,
            data,
        };
        assert(page@ =~= old(self)@.open_page());
        let ghost held = self@.pending;
        let ghost ready = self@.ready;
        self.make_ready();
        self.pending = Some(PendingPage { page, first_keyframe_pts: self.first_keyframe_pts });
        self.first_keyframe_pts = None;
        self.seq_no = self.seq_no.wrapping_add(1);
        self.starts_continued = open;
        self.granule_position = -1;
        self.bos_emitted = true;
        proof {
            assert(self@ =~= old(self)@.flushed());
            assert forall|i: int| 0 <= i < self@.ready.len() implies (
            #[trigger] self@.ready[i]).page.wf() && self@.ready[i].page.serial
                == self@.serial by {
                if i < ready.len() {
                    assert(self@.ready[i] == old(self)@.ready[i]);
                }
            }
        }
    }

    fn append(&mut self, lacing: &[u8], data: &[u8])
        requires
            old(self)@.consistent(),
            old(self)@.lacing.len() + lacing@.len() <= 255,
            data@.len() == page::body_len(lacing@),
        ensures
            final(self)@ == old(self)@.with_segments(lacing@, data@),
            final(self)@.consistent(),
    {
        push_all(&mut self.lacing, lacing);
        push_all(&mut self.data, data);
        proof {
            page::lemma_body_len_concat(old(self)@.lacing, lacing@);
            assert(self@ =~= old(self)@.with_segments(lacing@, data@));
        }
    }

    fn spread(&mut self, packet: &[u8])
        requires
            old(self)@.consistent(),
            old(self)@.lacing.len() + page::laced(packet@.len()).len() <= 255
                || old(self)@.lacing.len() == 0,
        ensures
            final(self)@ == old(self)@.spread(packet@),
            final(self)@.consistent(),
    {
        let n: usize = packet.len();
        let mut at: usize = 0;
        assert(packet@.skip(0) =~= packet@);
        while n - at >= 65025
            invariant
                n == packet@.len(),
                at <= n,
                self@.consistent(),
                self@.lacing.len() + page::laced((n - at) as nat).len() <= 255
                    || self@.lacing.len() == 0,
                old(self)@.spread(packet@) == self@.spread(packet@.skip(at as int)),
            decreases n - at,
        {
            let ghost rest = packet@.skip(at as int);
            let piece = vstd::slice::slice_subrange(packet, at, at + 65025);
            assert(piece@ =~= rest.take(65025));
            assert(rest.skip(65025) =~= packet@.skip(at + 65025));
            let table = full_table();
            proof {
                lemma_full_table();
                page::law_laced((n - at) as nat);
            }
            self.append(table.as_slice(), piece);
            self.flush();
            at = at + 65025;
        }
        let ghost rest = packet@.skip(at as int);
        let piece = vstd::slice::slice_subrange(packet, at, n);
        assert(piece@ =~= rest);
        let table = lace(n - at);
        proof {
            page::law_laced((n - at) as nat);
        }
        self.append(table.as_slice(), piece);
    }

    /// Writes a packet. Each header packet ends its page, and so does a content
    /// packet that ends a unit.
    pub fn write(&mut self, packet: &Packet)
        requires
            old(self)@.consistent(),
        ensures
            final(self)@ == old(self)@.written(packet@),
            final(self)@.consistent(),
    {
        let segments: usize = packet.data.len() / 255 + 1;
        proof {
            page::law_laced(packet@.data.len());
        }
        if self.lacing.len() > 0 && segments > 255 - self.lacing.len() {
            self.flush();
        }
        let ghost room = self@;
        if self.headers_remaining > 0 {
            self.spread(packet.data.as_slice());
            proof {
                lemma_spread_keeps(room, packet@.data);
            }
            self.headers_remaining = self.headers_remaining - 1;
            self.granule_position = 0;
            self.flush();
        } else {
            if packet.pts.is_some() && packet.keyframe && self.first_keyframe_pts.is_none() {
                self.first_keyframe_pts = packet.pts;
            }
            assert(self@ =~= room.marked(packet@));
            self.spread(packet.data.as_slice());
            if let Some(pts) = packet.pts {
                self.granule_position = pts;
            }
            assert(self@ =~= room.marked(packet@).spread(packet@.data).stamped(packet.pts));
            if packet.unit_boundary {
                self.flush();
            }
        }
    }

    /// Writes the first header packet on a page of its own.
    pub fn open_with(&mut self, packet: &[u8])
        requires
            old(self)@.consistent(),
            old(self)@.headers > 0,
            fits_page(packet@),
        ensures
            final(self)@ == old(self)@.opened(packet@),
            final(self)@.consistent(),
    {
        let mut data: Vec<u8> = Vec::new();
        push_all(&mut data, packet);
        assert(data@ =~= packet@);
        let page = Page {
            flags: flags::FIRST_PAGE,
            granule_position: 0,
            serial: self.serial,
            seq_no: self.seq_no,
            lacing: lace(packet.len()),
            data,
        };
        proof {
            page::law_laced(packet@.len());
        }
        let ghost before = self@.ready;
        self.ready.push(PendingPage { page, first_keyframe_pts: None });
        self.seq_no = self.seq_no.wrapping_add(1);
        self.bos_emitted = true;
        self.headers_remaining = self.headers_remaining - 1;
        proof {
            assert(page@ == opening_page(old(self)@.serial, old(self)@.seq_no, packet@));
            assert(self@.ready =~= old(self)@.opened(packet@).ready);
            assert(self@ =~= old(self)@.opened(packet@));
            assert forall|i: int| 0 <= i < self@.ready.len() implies (
            #[trigger] self@.ready[i]).page.wf() && self@.ready[i].page.serial
                == self@.serial by {
                if i < before.len() {
                    assert(self@.ready[i] == old(self)@.ready[i]);
                }
            }
        }
    }

    /// Makes the page that is held back ready.
    pub fn release(&mut self)
        requires
            old(self)@.consistent(),
        ensures
            final(self)@ == old(self)@.released(),
            final(self)@.consistent(),
    {
        self.make_ready();
        proof {
            assert forall|i: int| 0 <= i < self@.ready.len() implies (
            #[trigger] self@.ready[i]).page.wf() && self@.ready[i].page.serial
                == self@.serial by {
                if i < old(self)@.ready.len() {
                    assert(self@.ready[i] == old(self)@.ready[i]);
                }
            }
        }
    }

    /// Closes the stream: its last page is marked as the last and ready.
    pub fn close(&mut self)
        requires
            old(self)@.consistent(),
        ensures
            final(self)@ == old(self)@.closed_off(),
            final(self)@.consistent(),
    {
        if self.lacing.len() > 0 {
            self.flush();
        }
        let ghost s = self@;
        match self.pending.take() {
            Some(p) => {
                let mut p = p;
                let ghost held = p@;
                p.page.flags = p.page.flags | flags::LAST_PAGE;
                let ghost marked = PendingView {
                    page: PageView { flags: held.page.flags | flags::LAST_PAGE, ..held.page },
                    ..held
                };
                assert(p@ =~= marked);
                self.ready.push(p);
                proof {
                    assert(self@.ready =~= s.ready.push(marked));
                    assert forall|i: int| 0 <= i < self@.ready.len() implies (
                    #[trigger] self@.ready[i]).page.wf() && self@.ready[i].page.serial
                        == self@.serial by {
                        if i < s.ready.len() {
                            assert(self@.ready[i] == s.ready[i]);
                        }
                    }
                }
            },
            None => {},
        }
        assert(self@ =~= old(self)@.closed_off());
    }

    /// Takes the pages that are ready.
    pub fn take_ready(&mut self) -> (pages: Vec<PendingPage>)
        requires
            old(self)@.consistent(),
        ensures
            pending_view(pages@) == old(self)@.ready,
            final(self)@ == old(self)@.emptied(),
            final(self)@.consistent(),
    {
        let mut pages: Vec<PendingPage> = Vec::new();
        std::mem::swap(&mut pages, &mut self.ready);
        assert(self@ =~= old(self)@.emptied());
        pages
    }
}

/// Laying out a packet changes no count of header packets.
proof fn lemma_spread_keeps(s: StreamView, packet: Seq<u8>)
    ensures
        s.spread(packet).headers == s.headers,
        s.spread(packet).serial == s.serial,
    decreases packet.len(),
{
    if packet.len() >= 65025 {
        let full = Seq::new(255, |i: int| 255u8);
        lemma_spread_keeps(
            s.with_segments(full, packet.take(65025)).flushed(),
            packet.skip(65025),
        );
    }
}

fn full_table() -> (table: Vec<u8>)
    ensures
        table@ == Seq::new(255, |i: int| 255u8),
{
    let mut table: Vec<u8> = Vec::new();
    while table.len() < 255
        invariant
            table@.len() <= 255,
            table@ == Seq::new(table@.len(), |i: int| 255u8),
        decreases 255 - table@.len(),
    {
        table.push(255);
        assert(table@ =~= Seq::new(table@.len(), |i: int| 255u8));
    }
    table
}

} // verus!
