//! Packets to pages and back, for one logical bitstream held in memory.
//!
//! [`PageWriter`] chops packets into lacing segments and lays them out on
//! pages; [`PacketAssembler`] puts the packets together again and rejects the
//! first page that does not continue the stream.
use crate::bytes;
use crate::bytes::push_all;
use crate::error::{Error, Fault};
use crate::page;
use crate::page::{flags, patch_checksum, Page, PageView};
use vstd::prelude::*;

verus! {

/// Maximum number of lacing segments per page.
pub const MAX_PAGE_SEGMENTS: usize = 255;

// ---------------------------------------------------------------------------
// Pages of a physical bitstream
// ---------------------------------------------------------------------------
/// The pages that follow one another in `data`, or the first error met.
pub open spec fn pages_of(data: Seq<u8>) -> Result<Seq<PageView>, Error>
    decreases data.len(),
{
    if data.len() == 0 {
        Ok(Seq::empty())
    } else {
        proof {
            if page::parsed(data) is Ok {
                page::law_encoded_parsed(data);
            }
        }
        match page::parsed(data) {
            Err(e) => Err(e),
            Ok((p, used)) => match pages_of(data.skip(used as int)) {
                Err(e) => Err(e),
                Ok(rest) => Ok(seq![p] + rest),
            },
        }
    }
}

/// The byte forms of `pages`, one behind the other.
pub open spec fn bytes_of(pages: Seq<PageView>) -> Seq<u8>
    decreases pages.len(),
{
    if pages.len() == 0 {
        Seq::empty()
    } else {
        bytes_of(pages.drop_last()) + pages.last().encoded()
    }
}

/// A page behind the pages of `data` is read as one more page.
pub proof fn lemma_pages_append(data: Seq<u8>, p: PageView)
    requires
        pages_of(data) is Ok,
        p.wf(),
    ensures
        pages_of(data + p.encoded()) == Ok::<Seq<PageView>, Error>(pages_of(data)->Ok_0.push(p)),
    decreases data.len(),
{
    let all = data + p.encoded();
    if data.len() == 0 {
        page::law_parse_encoded(p, Seq::empty());
        assert(all =~= p.encoded() + Seq::<u8>::empty());
        let none = all.skip(p.encoded_len() as int);
        assert(none.len() == 0);
        assert(pages_of(none) == Ok::<Seq<PageView>, Error>(Seq::empty()));
        assert(pages_of(all) == Ok::<Seq<PageView>, Error>(seq![p] + Seq::<PageView>::empty()));
        assert(seq![p] + Seq::<PageView>::empty() =~= pages_of(data)->Ok_0.push(p));
    } else {
        let (q, used) = page::parsed(data)->Ok_0;
        page::law_encoded_parsed(data);
        page::law_parsed_prefix(data, p.encoded());
        lemma_pages_append(data.skip(used as int), p);
        assert(all.skip(used as int) =~= data.skip(used as int) + p.encoded());
        let rest = pages_of(data.skip(used as int))->Ok_0;
        assert(seq![q] + rest.push(p) =~= (seq![q] + rest).push(p));
    }
}

/// The pages read from the byte forms of well-formed pages are those pages.
pub proof fn law_pages_of_bytes_of(pages: Seq<PageView>)
    requires
        forall|i: int| 0 <= i < pages.len() ==> (#[trigger] pages[i]).wf(),
    ensures
        pages_of(bytes_of(pages)) == Ok::<Seq<PageView>, Error>(pages),
    decreases pages.len(),
{
    if pages.len() > 0 {
        law_pages_of_bytes_of(pages.drop_last());
        lemma_pages_append(bytes_of(pages.drop_last()), pages.last());
        assert(pages.drop_last().push(pages.last()) =~= pages);
    } else {
        assert(pages =~= Seq::<PageView>::empty());
    }
}

/// Parses every page of a physical bitstream, in order.
pub fn parse_pages(data: &[u8]) -> (r: Result<Vec<Page>, Error>)
    ensures
        match r {
            Ok(pages) => pages_of(data@) == Ok::<Seq<PageView>, Error>(
                pages@.map_values(|p: Page| p@),
            ) && forall|i: int| 0 <= i < pages@.len() ==> (#[trigger] pages@[i]).wf(),
            Err(e) => pages_of(data@) == Err::<Seq<PageView>, Error>(e),
        },
{
    let mut pages: Vec<Page> = Vec::new();
    let mut pos: usize = 0;
    assert(data@.skip(0) =~= data@);
    while pos < data.len()
        invariant
            pos <= data@.len(),
            forall|i: int| 0 <= i < pages@.len() ==> (#[trigger] pages@[i]).wf(),
            match pages_of(data@.skip(pos as int)) {
                Ok(rest) => pages_of(data@) == Ok::<Seq<PageView>, Error>(
                    pages@.map_values(|p: Page| p@) + rest,
                ),
                Err(e) => pages_of(data@) == Err::<Seq<PageView>, Error>(e),
            },
        decreases data@.len() - pos,
    {
        let ghost here = data@.skip(pos as int);
        let ghost before = pages@.map_values(|p: Page| p@);
        let tail = vstd::slice::slice_subrange(data, pos, data.len());
        assert(tail@ =~= here);
        match Page::parse(tail) {
            Err(e) => {
                return Err(e);
            },
            Ok((p, used)) => {
                proof {
                    page::law_encoded_parsed(here);
                    assert(here.skip(used as int) =~= data@.skip(pos + used));
                    let rest = pages_of(here.skip(used as int));
                    if rest is Ok {
                        assert(before + (seq![p@] + rest->Ok_0) =~= before.push(p@) + rest->Ok_0);
                    }
                }
                pages.push(p);
                assert(pages@.map_values(|p: Page| p@) =~= before.push(p@));
                pos += used;
            },
        }
    }
    assert(data@.skip(pos as int) =~= Seq::<u8>::empty());
    assert(pages@.map_values(|p: Page| p@) + Seq::<PageView>::empty() =~= pages@.map_values(
        |p: Page| p@,
    ));
    Ok(pages)
}

// ---------------------------------------------------------------------------
// Packet assembly
// ---------------------------------------------------------------------------
/// What walking a segment table leaves behind: the packets that ended, the
/// bytes of the packet that is still open, and whether one is open.
pub struct Assembled {
    pub done: Seq<Seq<u8>>,
    pub pending: Seq<u8>,
    pub mid_packet: bool,
}

/// Walks `lacing` over `data`, with `pending` bytes already gathered for an
/// open packet.
pub open spec fn assembled(
    lacing: Seq<u8>,
    data: Seq<u8>,
    pending: Seq<u8>,
    mid_packet: bool,
) -> Assembled
    decreases lacing.len(),
{
    if lacing.len() == 0 {
        Assembled { done: Seq::empty(), pending, mid_packet }
    } else {
        let before = assembled(lacing.drop_last(), data, pending, mid_packet);
        let piece = data.subrange(
            page::body_len(lacing.drop_last()) as int,
            page::body_len(lacing) as int,
        );
        if lacing.last() < 255 {
            Assembled {
                done: before.done.push(before.pending + piece),
                pending: Seq::empty(),
                mid_packet: false,
            }
        } else {
            Assembled { done: before.done, pending: before.pending + piece, mid_packet: true }
        }
    }
}

/// What a [`PacketAssembler`] stands for.
pub struct AssemblerView {
    pub serial: Option<u32>,
    pub pending: Seq<u8>,
    pub mid_packet: bool,
}

impl AssemblerView {
    /// An assembler that has seen no page.
    pub open spec fn fresh() -> AssemblerView {
        AssemblerView { serial: None, pending: Seq::empty(), mid_packet: false }
    }

    /// What feeding `p` returns, and the assembler afterwards.
    pub open spec fn accept(self, p: PageView) -> (Result<Seq<Seq<u8>>, Error>, AssemblerView) {
        let locked = AssemblerView { serial: Some(p.serial), ..self };
        let continued = page::flag_set(p.flags, flags::CONTINUED);
        if self.serial is Some && self.serial->Some_0 != p.serial {
            (
                Err(
                    Error::InvalidData(
                        Fault::SerialMismatch { page: p.serial, locked: self.serial->Some_0 },
                    ),
                ),
                self,
            )
        } else if continued != self.mid_packet {
            (
                Err(
                    Error::InvalidData(
                        Fault::Continuity {
                            seq_no: p.seq_no,
                            continued,
                            mid_packet: self.mid_packet,
                        },
                    ),
                ),
                locked,
            )
        } else {
            let a = assembled(p.lacing, p.data, self.pending, self.mid_packet);
            (Ok(a.done), AssemblerView { pending: a.pending, mid_packet: a.mid_packet, ..locked })
        }
    }
}

/// The packets of the logical bitstream `pages` and the assembler behind its
/// last page, or the first error met.
pub open spec fn stream_packets(pages: Seq<PageView>) -> Result<
    (Seq<Seq<u8>>, AssemblerView),
    Error,
>
    decreases pages.len(),
{
    if pages.len() == 0 {
        Ok((Seq::empty(), AssemblerView::fresh()))
    } else {
        match stream_packets(pages.drop_last()) {
            Err(e) => Err(e),
            Ok((packets, state)) => {
                let (r, next) = state.accept(pages.last());
                match r {
                    Err(e) => Err(e),
                    Ok(done) => Ok((packets + done, next)),
                }
            },
        }
    }
}

/// The packets of the physical bitstream `data`, which holds one logical
/// bitstream, or the first error met.
pub open spec fn packets_of(data: Seq<u8>) -> Result<Seq<Seq<u8>>, Error> {
    match pages_of(data) {
        Err(e) => Err(e),
        Ok(pages) => match stream_packets(pages) {
            Err(e) => Err(e),
            Ok((packets, state)) => Ok(packets),
        },
    }
}

/// Pages behind the first bad one make no difference.
proof fn lemma_stream_error(pages: Seq<PageView>, n: int)
    requires
        0 <= n <= pages.len(),
        stream_packets(pages.take(n)) is Err,
    ensures
        stream_packets(pages) == stream_packets(pages.take(n)),
    decreases pages.len() - n,
{
    if n == pages.len() {
        assert(pages.take(n) =~= pages);
    } else {
        assert(pages.take(n + 1).drop_last() =~= pages.take(n));
        lemma_stream_error(pages, n + 1);
    }
}

/// The contents of a vector of packets.
pub open spec fn packets_view(packets: Seq<Vec<u8>>) -> Seq<Seq<u8>> {
    packets.map_values(|p: Vec<u8>| p@)
}

/// Parses a physical bitstream that holds a single logical bitstream to its
/// packets. Fails on a second serial and on any break of the framing.
pub fn pages_to_packets(data: &[u8]) -> (r: Result<Vec<Vec<u8>>, Error>)
    ensures
        match r {
            Ok(packets) => packets_of(data@) == Ok::<Seq<Seq<u8>>, Error>(packets_view(packets@)),
            Err(e) => packets_of(data@) == Err::<Seq<Seq<u8>>, Error>(e),
        },
{
    let pages = match parse_pages(data) {
        Ok(pages) => pages,
        Err(e) => return Err(e),
    };
    let ghost views = pages@.map_values(|p: Page| p@);
    let mut assembler = PacketAssembler::new();
    let mut packets: Vec<Vec<u8>> = Vec::new();
    let mut i: usize = 0;
    assert(packets_view(packets@) =~= Seq::<Seq<u8>>::empty());
    assert(views.take(0).len() == 0);
    while i < pages.len()
        invariant
            i <= pages@.len(),
            pages_of(data@) == Ok::<Seq<PageView>, Error>(views),
            views == pages@.map_values(|p: Page| p@),
            forall|k: int| 0 <= k < pages@.len() ==> (#[trigger] pages@[k]).wf(),
            assembler.wf(),
            stream_packets(views.take(i as int)) == Ok::<(Seq<Seq<u8>>, AssemblerView), Error>(
                (packets_view(packets@), assembler@),
            ),
        decreases pages@.len() - i,
    {
        let ghost before = packets_view(packets@);
        proof {
            assert(pages@[i as int].wf());
            assert(views.take(i + 1).drop_last() =~= views.take(i as int));
            assert(views.take(i + 1).last() == pages@[i as int]@);
        }
        match assembler.push_page(&pages[i]) {
            Err(e) => {
                proof {
                    lemma_stream_error(views, i + 1);
                }
                return Err(e);
            },
            Ok(mut done) => {
                let ghost done_view = packets_view(done@);
                packets.append(&mut done);
                assert(packets_view(packets@) =~= before + done_view);
            },
        }
        i += 1;
    }
    assert(views.take(i as int) =~= views);
    Ok(packets)
}

/// Reassembles one logical bitstream's packets from its pages.
///
/// The assembler locks onto the serial of the first page it sees and rejects
/// pages of other logical bitstreams.
#[derive(Debug, Clone)]
pub struct PacketAssembler {
    serial: Option<u32>,
    pending: Vec<u8>,
    mid_packet: bool,
}

impl View for PacketAssembler {
    type V = AssemblerView;

    closed spec fn view(&self) -> AssemblerView {
        AssemblerView {
            serial: self.serial,
            pending: self.pending@,
            mid_packet: self.mid_packet,
        }
    }
}

impl PacketAssembler {
    /// No bytes are held unless a packet is open.
    pub open spec fn wf(&self) -> bool {
        !self@.mid_packet ==> self@.pending.len() == 0
    }

    /// A fresh assembler with no locked serial and no partial packet.
    pub fn new() -> (r: Self)
        ensures
            r@ == AssemblerView::fresh(),
            r.wf(),
    {
        let r = PacketAssembler { serial: None, pending: Vec::new(), mid_packet: false };
        assert(r@.pending =~= Seq::<u8>::empty());
        r
    }

    /// The serial this assembler locked onto, once a page has been fed.
    pub fn serial(&self) -> (r: Option<u32>)
        ensures
            r == self@.serial,
    {
        self.serial
    }

    /// Whether a packet is split across a page boundary and its continuation
    /// has not arrived.
    pub fn mid_packet(&self) -> (r: bool)
        ensures
            r == self@.mid_packet,
    {
        self.mid_packet
    }

    /// Discards any partial packet and unlocks the serial.
    pub fn reset(&mut self)
        ensures
            final(self)@ == AssemblerView::fresh(),
            final(self).wf(),
    {
        self.serial = None;
        self.pending.clear();
        self.mid_packet = false;
        assert(self@.pending =~= Seq::<u8>::empty());
    }

    /// Feeds one page and returns the packets that end on it, in order.
    ///
    /// A page of another logical bitstream is rejected and changes nothing. A
    /// page whose continued flag contradicts the assembly state is rejected
    /// too; the assembler is locked onto its serial all the same.
    pub fn push_page(&mut self, page: &Page) -> (r: Result<Vec<Vec<u8>>, Error>)
        requires
            old(self).wf(),
            old(self)@.accept(page@).0 is Ok ==> page::body_len(page.lacing@) <= page.data@.len(),
        ensures
            final(self).wf(),
            final(self)@ == old(self)@.accept(page@).1,
            match r {
                Ok(packets) => old(self)@.accept(page@).0 == Ok::<Seq<Seq<u8>>, Error>(
                    packets_view(packets@),
                ),
                Err(e) => old(self)@.accept(page@).0 == Err::<Seq<Seq<u8>>, Error>(e),
            },
    {
        let ghost start = self@;
        match self.serial {
            None => {
                self.serial = Some(page.serial);
            },
            Some(s) => {
                if s != page.serial {
                    return Err(
                        Error::InvalidData(Fault::SerialMismatch { page: page.serial, locked: s }),
                    );
                }
            },
        }
        let continued: bool = page.is_continued();
        if continued != self.mid_packet {
            return Err(
                Error::InvalidData(
                    Fault::Continuity {
                        seq_no: page.seq_no,
                        continued,
                        mid_packet: self.mid_packet,
                    },
                ),
            );
        }
        let mut packets: Vec<Vec<u8>> = Vec::new();
        let mut pos: usize = 0;
        let mut i: usize = 0;
        assert(packets_view(packets@) =~= Seq::<Seq<u8>>::empty());
        while i < page.lacing.len()
            invariant
                i <= page.lacing@.len(),
                page::body_len(page.lacing@) <= page.data@.len(),
                pos == page::body_len(page.lacing@.take(i as int)),
                self.serial == Some(page.serial),
                !self.mid_packet ==> self.pending@.len() == 0,
                assembled(page.lacing@.take(i as int), page.data@, start.pending, start.mid_packet)
                    == (Assembled {
                    done: packets_view(packets@),
                    pending: self.pending@,
                    mid_packet: self.mid_packet,
                }),
            decreases page.lacing@.len() - i,
        {
            let ghost held = self.pending@;
            let ghost before = packets_view(packets@);
            proof {
                page::lemma_body_len_take(page.lacing@, i as int);
                page::lemma_body_len_take(page.lacing@, i + 1);
                assert(page.lacing@.take(i + 1).drop_last() =~= page.lacing@.take(i as int));
            }
            let l: usize = page.lacing[i] as usize;
            assert(page.data@.len() == page.data.len());
            push_all(
                &mut self.pending,
                vstd::slice::slice_subrange(page.data.as_slice(), pos, pos + l),
            );
            pos += l;
            if l < 255 {
                let ghost whole = self.pending@;
                let mut packet: Vec<u8> = Vec::new();
                core::mem::swap(&mut packet, &mut self.pending);
                packets.push(packet);
                assert(packets_view(packets@) =~= before.push(whole));
                assert(self.pending@ =~= Seq::<u8>::empty());
                self.mid_packet = false;
            } else {
                self.mid_packet = true;
            }
            i += 1;
        }
        assert(page.lacing@.take(i as int) =~= page.lacing@);
        Ok(packets)
    }
}

impl Default for PacketAssembler {
    fn default() -> (r: Self)
        ensures
            r@ == AssemblerView::fresh(),
            r.wf(),
    {
        PacketAssembler::new()
    }
}

// ---------------------------------------------------------------------------
// Page writing
// ---------------------------------------------------------------------------
/// The header-type byte with the given bits.
pub open spec fn page_flags(continued: bool, first: bool, last: bool) -> u8 {
    ((if continued {
        1int
    } else {
        0
    }) + (if first {
        2int
    } else {
        0
    }) + (if last {
        4int
    } else {
        0
    })) as u8
}

/// The bits of a header-type byte are those it was made of, and marking a page
/// last afterwards is the same as making it last.
pub proof fn law_page_flags(continued: bool, first: bool, last: bool)
    ensures
        page::flag_set(page_flags(continued, first, last), flags::CONTINUED) == continued,
        page::flag_set(page_flags(continued, first, last), flags::FIRST_PAGE) == first,
        page::flag_set(page_flags(continued, first, last), flags::LAST_PAGE) == last,
        page_flags(continued, first, last) | flags::LAST_PAGE == page_flags(
            continued,
            first,
            true,
        ),
{
    assert({
        &&& 0u8 & 1 == 0 && 0u8 & 2 == 0 && 0u8 & 4 == 0 && 0u8 | 4 == 4
        &&& 1u8 & 1 == 1 && 1u8 & 2 == 0 && 1u8 & 4 == 0 && 1u8 | 4 == 5
        &&& 2u8 & 1 == 0 && 2u8 & 2 == 2 && 2u8 & 4 == 0 && 2u8 | 4 == 6
        &&& 3u8 & 1 == 1 && 3u8 & 2 == 2 && 3u8 & 4 == 0 && 3u8 | 4 == 7
        &&& 4u8 & 1 == 0 && 4u8 & 2 == 0 && 4u8 & 4 == 4 && 4u8 | 4 == 4
        &&& 5u8 & 1 == 1 && 5u8 & 2 == 0 && 5u8 & 4 == 4 && 5u8 | 4 == 5
        &&& 6u8 & 1 == 0 && 6u8 & 2 == 2 && 6u8 & 4 == 4 && 6u8 | 4 == 6
        &&& 7u8 & 1 == 1 && 7u8 & 2 == 2 && 7u8 & 4 == 4 && 7u8 | 4 == 7
    }) by (bit_vector);
}

/// What a [`PageWriter`] stands for: the pages it has emitted and the page it
/// is filling.
#[verifier::ext_equal]
pub struct WriterView {
    pub serial: u32,
    pub pages: Seq<PageView>,
    pub lacing: Seq<u8>,
    pub body: Seq<u8>,
    pub granule: Option<i64>,
    pub continued: bool,
    pub target: Option<usize>,
}

impl WriterView {
    /// A writer that has written nothing.
    pub open spec fn fresh(serial: u32) -> WriterView {
        WriterView {
            serial,
            pages: Seq::empty(),
            lacing: Seq::empty(),
            body: Seq::empty(),
            granule: None,
            continued: false,
            target: None,
        }
    }

    /// The page that is being filled, as it would be emitted now.
    pub open spec fn open_page(self, last: bool) -> PageView {
        PageView {
            flags: page_flags(self.continued, self.pages.len() == 0, last),
            granule_position: if self.granule is Some {
                self.granule->Some_0
            } else {
                -1i64
            },
            serial: self.serial,
            seq_no: self.pages.len() as u32,
            lacing: self.lacing,
            data: self.body,
        }
    }

    /// The page that is being filled has been emitted; the next page continues
    /// a packet if `next_continued`.
    pub open spec fn emit(self, next_continued: bool, last: bool) -> WriterView {
        WriterView {
            pages: self.pages.push(self.open_page(last)),
            lacing: Seq::empty(),
            body: Seq::empty(),
            granule: None,
            continued: next_continued,
            ..self
        }
    }

    /// One more segment stands on the page that is being filled.
    pub open spec fn segment(self, piece: Seq<u8>) -> WriterView {
        WriterView {
            lacing: self.lacing.push(piece.len() as u8),
            body: self.body + piece,
            ..self
        }
    }

    /// A packet with granule position `granule` has ended: it stamps the page,
    /// which is emitted where it has reached the target size.
    pub open spec fn complete(self, granule: i64) -> WriterView {
        let stamped = WriterView { granule: Some(granule), ..self };
        if self.target is Some && self.body.len() >= self.target->Some_0 {
            stamped.emit(false, false)
        } else {
            stamped
        }
    }

    /// The rest of a packet is laid out in segments of 255 bytes and a shorter
    /// last one. A page whose table is full is emitted, and the packet goes on
    /// on the next page.
    pub open spec fn segments(self, rest: Seq<u8>, granule: i64) -> WriterView
        decreases
                rest.len(),
                (if self.lacing.len() >= 255 {
                    1int
                } else {
                    0
                }),
    {
        if self.lacing.len() >= 255 {
            self.emit(true, false).segments(rest, granule)
        } else if rest.len() >= 255 {
            self.segment(rest.take(255)).segments(rest.skip(255), granule)
        } else {
            self.segment(rest).complete(granule)
        }
    }

    /// A packet has been written.
    pub open spec fn push(self, packet: Seq<u8>, granule: i64) -> WriterView {
        if self.lacing.len() == 255 {
            self.emit(false, false).segments(packet, granule)
        } else {
            self.segments(packet, granule)
        }
    }

    /// A page boundary has been forced.
    pub open spec fn flush(self) -> WriterView {
        if self.lacing.len() > 0 {
            self.emit(false, false)
        } else {
            self
        }
    }

    /// The pages of the closed stream: the last one is marked as the last.
    pub open spec fn finished(self) -> Seq<PageView> {
        if self.lacing.len() > 0 {
            self.emit(false, true).pages
        } else if self.pages.len() > 0 {
            let last = self.pages.last();
            self.pages.drop_last().push(PageView { flags: last.flags | flags::LAST_PAGE, ..last })
        } else {
            self.pages
        }
    }

    /// The parts fit together: the emitted pages are well formed and the page
    /// that is being filled fits the page layout.
    pub open spec fn consistent(self) -> bool {
        &&& self.lacing.len() <= 255
        &&& self.body.len() == page::body_len(self.lacing)
        &&& forall|i: int| 0 <= i < self.pages.len() ==> (#[trigger] self.pages[i]).wf()
    }

    /// No packet is open.
    pub open spec fn at_rest(self) -> bool {
        &&& self.lacing.len() > 0 ==> self.lacing.last() < 255
        &&& self.lacing.len() == 0 ==> !self.continued && self.granule is None
    }
}

/// Packet to page encapsulation of one logical bitstream, into memory.
#[derive(Debug, Clone)]
pub struct PageWriter {
    serial: u32,
    sequence: u32,
    lacing: Vec<u8>,
    body: Vec<u8>,
    page_granule: Option<i64>,
    pending_continued: bool,
    bos_pending: bool,
    last_page_range: Option<(usize, usize)>,
    page_target: Option<usize>,
    out: Vec<u8>,
}

impl View for PageWriter {
    type V = WriterView;

    closed spec fn view(&self) -> WriterView {
        WriterView {
            serial: self.serial,
            pages: pages_of(self.out@)->Ok_0,
            lacing: self.lacing@,
            body: self.body@,
            granule: self.page_granule,
            continued: self.pending_continued,
            target: self.page_target,
        }
    }
}

impl PageWriter {
    spec fn inv(&self) -> bool {
        let pages = self@.pages;
        &&& self@.consistent()
        &&& pages_of(self.out@) is Ok
        &&& self.out@ == bytes_of(pages)
        &&& self.sequence == pages.len()
        &&& self.bos_pending == (pages.len() == 0)
        &&& self.last_page_range is None <==> pages.len() == 0
        &&& self.last_page_range matches Some((start, end)) ==> {
            &&& start == bytes_of(pages.drop_last()).len()
            &&& end == self.out@.len()
        }
    }

    /// The writer is in a state that its operations lead to: between calls no
    /// packet is open.
    pub closed spec fn wf(&self) -> bool {
        self.inv() && self@.at_rest()
    }

    /// A fresh writer for a logical bitstream with the given serial.
    pub fn new(serial: u32) -> (w: Self)
        ensures
            w.wf(),
            w@ == WriterView::fresh(serial),
    {
        let w = PageWriter {
            serial,
            sequence: 0,
            lacing: Vec::new(),
            body: Vec::new(),
            page_granule: None,
            pending_continued: false,
            bos_pending: true,
            last_page_range: None,
            page_target: None,
            out: Vec::new(),
        };
        assert(w@ =~= WriterView::fresh(serial));
        w
    }

    /// Emits the page that is being filled.
    fn emit_page(&mut self, next_continued: bool, eos: bool)
        requires
            old(self).inv(),
            old(self)@.pages.len() < u32::MAX,
        ensures
            final(self).inv(),
            final(self)@ == old(self)@.emit(next_continued, eos),
    {
        let ghost before = self@;
        let ghost written = self.out@;
        let mut page_flags: u8 = 0;
        if self.pending_continued {
            page_flags = page_flags | flags::CONTINUED;
        }
        if self.bos_pending {
            page_flags = page_flags | flags::FIRST_PAGE;
        }
        if eos {
            page_flags = page_flags | flags::LAST_PAGE;
        }
        proof {
            assert(0u8 | 1 == 1 && 0u8 | 2 == 2 && 1u8 | 2 == 3 && 0u8 | 4 == 4 && 1u8 | 4 == 5
                && 2u8 | 4 == 6 && 3u8 | 4 == 7) by (bit_vector);
        }
        let mut lacing: Vec<u8> = Vec::new();
        core::mem::swap(&mut lacing, &mut self.lacing);
        let mut data: Vec<u8> = Vec::new();
        core::mem::swap(&mut data, &mut self.body);
        let granule_position: i64 = match self.page_granule {
            Some(g) => g,
            None => -1,
        };
        let page = Page {
            flags: page_flags,
            granule_position,
            serial: self.serial,
            seq_no: self.sequence,
            lacing,
            data,
        };
        assert(page@ =~= before.open_page(eos));
        self.bos_pending = false;
        self.pending_continued = next_continued;
        self.page_granule = None;
        self.sequence = self.sequence + 1;
        let start: usize = self.out.len();
        let encoded = page.to_bytes();
        push_all(&mut self.out, encoded.as_slice());
        self.last_page_range = Some((start, self.out.len()));
        proof {
            lemma_pages_append(written, page@);
            let pages = before.pages.push(page@);
            assert(self@.pages == pages);
            assert(pages.drop_last() =~= before.pages);
            assert(self@ =~= before.emit(next_continued, eos));
        }
    }

    /// Sets a soft page-size target: whenever a packet ends with the body of
    /// the page being filled at or past `bytes`, the page is emitted.
    pub fn with_page_target(self, bytes: usize) -> (w: Self)
        requires
            self.wf(),
        ensures
            w.wf(),
            w@ == (WriterView { target: Some(bytes), ..self@ }),
    {
        let mut w = self;
        w.page_target = Some(bytes);
        w
    }

    /// Changes or clears the soft page-size target, from the next packet that
    /// ends on.
    pub fn set_page_target(&mut self, bytes: Option<usize>)
        requires
            old(self).wf(),
        ensures
            final(self).wf(),
            final(self)@ == (WriterView { target: bytes, ..old(self)@ }),
    {
        self.page_target = bytes;
    }

    /// The bytes of every page emitted so far.
    pub fn written(&self) -> (out: &[u8])
        requires
            self.wf(),
        ensures
            out@ == bytes_of(self@.pages),
    {
        self.out.as_slice()
    }

    /// Number of pages emitted so far.
    pub fn pages_emitted(&self) -> (n: u32)
        requires
            self.wf(),
        ensures
            n == self@.pages.len(),
    {
        self.sequence
    }

    /// Body bytes on the page that is being filled.
    pub fn pending_body_len(&self) -> (n: usize)
        ensures
            n == self@.body.len(),
    {
        self.body.len()
    }

    /// Appends one packet with its granule position, the position of the
    /// stream behind the packet.
    ///
    /// The page sequence number is 32 bits wide, so the pages that the packet
    /// needs must still be countable.
    pub fn push_packet(&mut self, packet: &[u8], granulepos: i64)
        requires
            old(self).wf(),
            old(self)@.push(packet@, granulepos).pages.len() <= u32::MAX,
        ensures
            final(self).wf(),
            final(self)@ == old(self)@.push(packet@, granulepos),
            final(self)@.pages.len() <= old(self)@.pages.len() + packet@.len() / 65025 + 2,
    {
        let ghost goal = self@.push(packet@, granulepos);
        proof {
            lemma_push_page_count(self@, packet@, granulepos);
        }
        if self.lacing.len() == MAX_PAGE_SEGMENTS {
            proof {
                lemma_segments_page_count(self@.emit(false, false), packet@, granulepos);
            }
            self.emit_page(false, false);
        }
        let n: usize = packet.len();
        let mut pos: usize = 0;
        assert(packet@.skip(0) =~= packet@);
        loop
            invariant
                n == packet@.len(),
                pos <= n,
                self.inv(),
                goal == old(self)@.push(packet@, granulepos),
                goal.pages.len() <= old(self)@.pages.len() + packet@.len() / 65025 + 2,
                goal.pages.len() <= u32::MAX,
                self@.segments(packet@.skip(pos as int), granulepos) == goal,
            decreases n - pos, (if self@.lacing.len() >= 255 { 1int } else { 0 }),
        {
            let ghost here = self@;
            let ghost rest = packet@.skip(pos as int);
            if self.lacing.len() >= MAX_PAGE_SEGMENTS {
                proof {
                    lemma_segments_page_count(here.emit(true, false), rest, granulepos);
                }
                self.emit_page(true, false);
            } else {
                let take: usize = if n - pos < 255 {
                    n - pos
                } else {
                    255
                };
                let piece = vstd::slice::slice_subrange(packet, pos, pos + take);
                assert(piece@ =~= rest.take(take as int));
                self.lacing.push(take as u8);
                push_all(&mut self.body, piece);
                proof {
                    assert(self@ =~= here.segment(piece@));
                    assert(self@.lacing.drop_last() =~= here.lacing);
                }
                pos += take;
                if take < 255 {
                    assert(piece@ =~= rest);
                    self.page_granule = Some(granulepos);
                    assert(self@ =~= (WriterView {
                        granule: Some(granulepos),
                        ..here.segment(rest)
                    }));
                    if let Some(target) = self.page_target {
                        if self.body.len() >= target {
                            self.emit_page(false, false);
                        }
                    }
                    return;
                }
                assert(packet@.skip(pos as int) =~= rest.skip(255));
            }
        }
    }

    /// Forces a page boundary: emits the page that is being filled, if any.
    pub fn flush_page(&mut self)
        requires
            old(self).wf(),
            old(self)@.lacing.len() > 0 ==> old(self)@.pages.len() < u32::MAX,
        ensures
            final(self).wf(),
            final(self)@ == old(self)@.flush(),
    {
        if self.lacing.len() > 0 {
            self.emit_page(false, false);
        }
    }

    /// Closes the stream: the last page is marked as the last, in place where
    /// it has already been emitted. Returns the bytes of all pages.
    pub fn finish(self) -> (out: Vec<u8>)
        requires
            self.wf(),
            self@.lacing.len() > 0 ==> self@.pages.len() < u32::MAX,
        ensures
            out@ == bytes_of(self@.finished()),
    {
        let mut w = self;
        let ghost view = w@;
        if w.lacing.len() > 0 {
            w.emit_page(false, true);
        } else if let Some((start, end)) = w.last_page_range {
            let ghost last = view.pages.last();
            let ghost marked = PageView { flags: last.flags | flags::LAST_PAGE, ..last };
            let mut tail = w.out.split_off(start);
            proof {
                page::lemma_patch_flags(last, last.flags | flags::LAST_PAGE);
                assert(tail@ =~= last.encoded());
                assert(w.out@ =~= bytes_of(view.pages.drop_last()));
            }
            let patched: u8 = tail[5] | flags::LAST_PAGE;
            tail.set(5, patched);
            patch_checksum(&mut tail);
            assert(tail@ =~= marked.encoded());
            w.out.append(&mut tail);
            proof {
                let pages = view.pages.drop_last().push(marked);
                assert(pages.drop_last() =~= view.pages.drop_last());
                assert(w.out@ =~= bytes_of(pages));
            }
        }
        w.out
    }
}

/// The pages that laying out the rest of a packet adds.
proof fn lemma_segments_page_count(w: WriterView, rest: Seq<u8>, granule: i64)
    requires
        w.lacing.len() <= 255,
    ensures
        w.pages.len() <= w.segments(rest, granule).pages.len(),
        w.segments(rest, granule).pages.len() <= w.pages.len() + (w.lacing.len() + rest.len() / 255)
            / 255 + 1,
    decreases
            rest.len(),
            (if w.lacing.len() >= 255 {
                1int
            } else {
                0
            }),
{
    if w.lacing.len() >= 255 {
        lemma_segments_page_count(w.emit(true, false), rest, granule);
    } else if rest.len() >= 255 {
        lemma_segments_page_count(w.segment(rest.take(255)), rest.skip(255), granule);
    }
}

/// The pages that writing a packet adds.
proof fn lemma_push_page_count(w: WriterView, packet: Seq<u8>, granule: i64)
    requires
        w.lacing.len() <= 255,
    ensures
        w.push(packet, granule).pages.len() <= w.pages.len() + packet.len() / 65025 + 2,
{
    if w.lacing.len() == 255 {
        lemma_segments_page_count(w.emit(false, false), packet, granule);
    } else {
        lemma_segments_page_count(w, packet, granule);
    }
}

} // verus!
