//! One Ogg page: header fields, segment table and body, and its byte form.
use crate::bytes;
use crate::bytes::{matches_at, push_all, push_i64_le, push_u32_le, read_i64_le, read_u32_le};
use crate::crc;
use crate::crc::compute_page_checksum;
use crate::error::{Error, Fault};
use vstd::prelude::*;

pub mod flags;

verus! {

/// The bytes that every page begins with.
pub const CAPTURE_PATTERN: [u8; 4] = [0x4F, 0x67, 0x67, 0x53];

/// Length of the fixed part of a page header.
pub const HEADER_LEN: usize = 27;

/// Maximum number of lacing values of one page.
pub const MAX_SEGMENTS: usize = 255;

/// One page of a logical bitstream.
#[derive(Clone, Debug, PartialEq, Eq)]
pub struct Page {
    /// Header-type bits, see [`flags`].
    pub flags: u8,
    /// Position of the last packet that ends on this page, -1 where none does.
    pub granule_position: i64,
    /// Serial number of the logical bitstream.
    pub serial: u32,
    /// Sequence number of the page in its logical bitstream.
    pub seq_no: u32,
    /// The segment table.
    pub lacing: Vec<u8>,
    /// The body.
    pub data: Vec<u8>,
}

/// What a [`Page`] stands for.
#[verifier::ext_equal]
pub struct PageView {
    pub flags: u8,
    pub granule_position: i64,
    pub serial: u32,
    pub seq_no: u32,
    pub lacing: Seq<u8>,
    pub data: Seq<u8>,
}

impl View for Page {
    type V = PageView;

    open spec fn view(&self) -> PageView {
        PageView {
            flags: self.flags,
            granule_position: self.granule_position,
            serial: self.serial,
            seq_no: self.seq_no,
            lacing: self.lacing@,
            data: self.data@,
        }
    }
}

/// A contiguous piece of one packet on a page.
#[derive(Debug, PartialEq, Eq)]
pub struct Segment {
    /// Where the piece stands in the page's body.
    pub data: core::ops::Range<usize>,
    /// Whether the packet ends with this piece.
    pub terminated: bool,
}

/// What a [`Segment`] stands for.
pub struct SegmentView {
    pub start: nat,
    pub end: nat,
    pub terminated: bool,
}

impl View for Segment {
    type V = SegmentView;

    open spec fn view(&self) -> SegmentView {
        SegmentView {
            start: self.data.start as nat,
            end: self.data.end as nat,
            terminated: self.terminated,
        }
    }
}

/// Number of body bytes that a segment table accounts for.
pub open spec fn body_len(lacing: Seq<u8>) -> nat
    decreases lacing.len(),
{
    if lacing.len() == 0 {
        0
    } else {
        body_len(lacing.drop_last()) + lacing.last() as nat
    }
}

/// Number of packets that a segment table ends.
pub open spec fn packets_ended(lacing: Seq<u8>) -> nat
    decreases lacing.len(),
{
    if lacing.len() == 0 {
        0
    } else {
        packets_ended(lacing.drop_last()) + if lacing.last() < 255 {
            1nat
        } else {
            0nat
        }
    }
}

/// Whether a segment table leaves a packet open.
pub open spec fn ends_open(lacing: Seq<u8>) -> bool {
    lacing.len() > 0 && lacing.last() == 255
}

/// Whether bit `bit` is set in a header-type byte.
pub open spec fn flag_set(flags: u8, bit: u8) -> bool {
    flags & bit != 0
}

/// The pieces of packets that a segment table lays out: each run of lacing
/// values up to one below 255, and what is left behind the last such value.
pub open spec fn segments(lacing: Seq<u8>) -> Seq<SegmentView>
    decreases lacing.len(),
{
    if lacing.len() == 0 {
        Seq::empty()
    } else {
        let before = segments(lacing.drop_last());
        let end = body_len(lacing);
        let terminated = lacing.last() < 255;
        if before.len() > 0 && !before.last().terminated {
            before.drop_last().push(SegmentView { start: before.last().start, end, terminated })
        } else {
            before.push(SegmentView { start: body_len(lacing.drop_last()), end, terminated })
        }
    }
}

/// The segment table of one packet of `len` bytes: as many 255s as fit, then
/// the rest, which is below 255.
pub open spec fn laced(len: nat) -> Seq<u8>
    decreases len,
{
    if len < 255 {
        seq![len as u8]
    } else {
        seq![255u8] + laced((len - 255) as nat)
    }
}

impl PageView {
    /// The page fits the page layout: its segment count fits one byte, and its
    /// body is as long as the segment table says.
    pub open spec fn wf(self) -> bool {
        self.lacing.len() <= 255 && self.data.len() == body_len(self.lacing)
    }

    /// The header up to the checksum field.
    pub open spec fn before_checksum(self) -> Seq<u8> {
        CAPTURE_PATTERN@ + seq![0u8, self.flags] + bytes::i64_le(self.granule_position)
            + bytes::u32_le(self.serial) + bytes::u32_le(self.seq_no)
    }

    /// The page from the segment count on.
    pub open spec fn after_checksum(self) -> Seq<u8> {
        seq![self.lacing.len() as u8] + self.lacing + self.data
    }

    /// The page's bytes with `checksum` in the checksum field.
    pub open spec fn layout(self, checksum: u32) -> Seq<u8> {
        self.before_checksum() + bytes::u32_le(checksum) + self.after_checksum()
    }

    /// The page's byte form.
    #[verifier::opaque]
    pub open spec fn encoded(self) -> Seq<u8> {
        self.layout(crc::page_crc(self.layout(0)))
    }

    /// Length of the page's byte form.
    pub open spec fn encoded_len(self) -> nat {
        27 + self.lacing.len() + self.data.len()
    }
}

/// Number of bytes of the page whose header begins `buf`, as far as the header
/// itself says it.
pub open spec fn declared_len(buf: Seq<u8>) -> nat {
    27 + buf[26] as nat + body_len(buf.subrange(27, 27 + buf[26] as int))
}

/// The page laid out at the start of `buf`.
pub open spec fn page_in(buf: Seq<u8>) -> PageView {
    PageView {
        flags: buf[5],
        granule_position: bytes::le_i64(buf.skip(6)),
        serial: bytes::le_u32(buf.skip(14)),
        seq_no: bytes::le_u32(buf.skip(18)),
        lacing: buf.subrange(27, 27 + buf[26] as int),
        data: buf.subrange(27 + buf[26] as int, declared_len(buf) as int),
    }
}

/// What reading a page from the start of `buf` gives: the page and the number
/// of bytes it takes, or the first thing that is wrong.
#[verifier::opaque]
pub open spec fn parsed(buf: Seq<u8>) -> Result<(PageView, nat), Error> {
    if buf.len() < 27 {
        Err(Error::NeedMore)
    } else if buf.take(4) != CAPTURE_PATTERN@ {
        Err(Error::InvalidData(Fault::CapturePattern))
    } else if buf[4] != 0 {
        Err(Error::Unsupported(Fault::PageVersion { version: buf[4] }))
    } else if buf.len() < 27 + buf[26] as int || buf.len() < declared_len(buf) {
        Err(Error::NeedMore)
    } else {
        let page = buf.take(declared_len(buf) as int);
        if crc::stored_crc(page) != crc::page_crc(page) {
            Err(
                Error::InvalidData(
                    Fault::PageChecksum {
                        stored: crc::stored_crc(page),
                        computed: crc::page_crc(page),
                    },
                ),
            )
        } else {
            Ok((page_in(buf), declared_len(buf)))
        }
    }
}

/// The byte form of a page has the length that its parts add up to, and its
/// header fields stand at fixed places.
proof fn lemma_layout(p: PageView, checksum: u32, tail: Seq<u8>)
    requires
        p.lacing.len() <= 255,
    ensures
        p.layout(checksum).len() == p.encoded_len(),
        p.before_checksum().len() == 22,
        ({
            let b = p.layout(checksum) + tail;
            &&& b.take(4) == CAPTURE_PATTERN@
            &&& b[4] == 0
            &&& b[5] == p.flags
            &&& bytes::le_i64(b.skip(6)) == p.granule_position
            &&& bytes::le_u32(b.skip(14)) == p.serial
            &&& bytes::le_u32(b.skip(18)) == p.seq_no
            &&& b[26] == p.lacing.len()
            &&& b.subrange(27, 27 + b[26] as int) == p.lacing
            &&& b.subrange(
                27 + p.lacing.len() as int,
                27 + p.lacing.len() as int + p.data.len() as int,
            ) == p.data
        }),
{
    let b = p.layout(checksum) + tail;
    let end = bytes::u32_le(checksum) + p.after_checksum() + tail;
    let seq_on = bytes::u32_le(p.seq_no) + end;
    let serial_on = bytes::u32_le(p.serial) + seq_on;
    let granule_on = bytes::i64_le(p.granule_position) + serial_on;
    assert(b.take(4) =~= CAPTURE_PATTERN@);
    assert(b.skip(18) =~= seq_on);
    assert(b.skip(14) =~= serial_on);
    assert(b.skip(6) =~= granule_on);
    bytes::law_i64_le_round_trip(p.granule_position, serial_on);
    bytes::law_u32_le_round_trip(p.serial, seq_on);
    bytes::law_u32_le_round_trip(p.seq_no, end);
    assert(b.subrange(27, 27 + b[26] as int) =~= p.lacing);
    assert(b.subrange(
        27 + p.lacing.len() as int,
        27 + p.lacing.len() as int + p.data.len() as int,
    ) =~= p.data);
}

/// The checksum field holds what was laid out, and the checksum does not
/// depend on it.
proof fn lemma_layout_checksum(p: PageView, checksum: u32)
    requires
        p.lacing.len() <= 255,
    ensures
        crc::stored_crc(p.layout(checksum)) == checksum,
        crc::page_crc(p.layout(checksum)) == crc::page_crc(p.layout(0)),
{
    lemma_layout(p, checksum, Seq::empty());
    lemma_layout(p, 0, Seq::empty());
    let b = p.layout(checksum);
    let z = p.layout(0);
    assert(b.subrange(22, 26) =~= bytes::u32_le(checksum) + Seq::<u8>::empty());
    bytes::law_u32_le_round_trip(checksum, Seq::empty());
    crc::law_page_crc_ignores_field(z, bytes::u32_le(checksum));
    assert(z.take(22) + bytes::u32_le(checksum) + z.skip(26) =~= b);
}

/// Reading the byte form of a page, whatever follows it, gives the page back
/// and takes exactly its bytes.
pub proof fn law_parse_encoded(p: PageView, tail: Seq<u8>)
    requires
        p.wf(),
    ensures
        parsed(p.encoded() + tail) == Ok::<(PageView, nat), Error>((p, p.encoded_len())),
        p.encoded().len() == p.encoded_len(),
{
    reveal(parsed);
    reveal(PageView::encoded);
    let sum = crc::page_crc(p.layout(0));
    let b = p.encoded() + tail;
    lemma_layout(p, sum, tail);
    lemma_layout_checksum(p, sum);
    assert(b.take(declared_len(b) as int) =~= p.encoded());
    assert(page_in(b) =~= p);
}

/// A page that was read is well formed, and its byte form is what was read.
pub proof fn law_encoded_parsed(buf: Seq<u8>)
    requires
        parsed(buf) is Ok,
    ensures
        parsed(buf)->Ok_0.0.wf(),
        parsed(buf)->Ok_0.1 == parsed(buf)->Ok_0.0.encoded_len(),
        parsed(buf)->Ok_0.1 <= buf.len(),
        buf.take(parsed(buf)->Ok_0.1 as int) == parsed(buf)->Ok_0.0.encoded(),
{
    reveal(parsed);
    reveal(PageView::encoded);
    let (p, n) = parsed(buf)->Ok_0;
    let page = buf.take(n as int);
    let sum = crc::stored_crc(page);
    bytes::law_le_i64_round_trip(buf.subrange(6, 14));
    bytes::law_le_u32_round_trip(buf.subrange(14, 18));
    bytes::law_le_u32_round_trip(buf.subrange(18, 22));
    bytes::law_le_u32_round_trip(page.subrange(22, 26));
    assert(buf.skip(6).take(8) =~= buf.subrange(6, 14).take(8));
    bytes::lemma_le_prefix(buf.skip(6), buf.subrange(6, 14));
    assert(buf.skip(14).take(4) =~= buf.subrange(14, 18).take(4));
    bytes::lemma_le_prefix(buf.skip(14), buf.subrange(14, 18));
    assert(buf.skip(18).take(4) =~= buf.subrange(18, 22).take(4));
    bytes::lemma_le_prefix(buf.skip(18), buf.subrange(18, 22));
    assert(page =~= p.layout(sum)) by {
        assert(buf.take(4) == CAPTURE_PATTERN@);
        assert(page.take(4) =~= CAPTURE_PATTERN@);
        assert(page.subrange(6, 14) =~= bytes::i64_le(p.granule_position));
        assert(page.subrange(14, 18) =~= bytes::u32_le(p.serial));
        assert(page.subrange(18, 22) =~= bytes::u32_le(p.seq_no));
        assert(page.take(22) =~= p.before_checksum());
        assert(page.subrange(22, 26) =~= bytes::u32_le(sum));
        assert(page.skip(26) =~= p.after_checksum());
    }
    lemma_layout_checksum(p, sum);
}

/// Overwriting the flags in a page's byte form and recomputing the checksum
/// gives the byte form of the page with those flags.
pub proof fn lemma_patch_flags(p: PageView, flags: u8)
    requires
        p.wf(),
    ensures
        p.encoded().len() == p.encoded_len(),
        p.encoded()[5] == p.flags,
        ({
            let e = p.encoded().update(5, flags);
            e.take(22) + bytes::u32_le(crc::page_crc(e)) + e.skip(26) == (PageView {
                flags,
                ..p
            }).encoded()
        }),
{
    reveal(PageView::encoded);
    let q = PageView { flags, ..p };
    let sum = crc::page_crc(p.layout(0));
    lemma_layout(p, sum, Seq::empty());
    lemma_layout(q, sum, Seq::empty());
    lemma_layout(q, crc::page_crc(q.layout(0)), Seq::empty());
    assert(p.layout(sum) + Seq::<u8>::empty() =~= p.layout(sum));
    let e = p.encoded().update(5, flags);
    assert(e =~= q.layout(sum));
    lemma_layout_checksum(q, sum);
    assert(e.take(22) =~= q.before_checksum());
    assert(e.skip(26) =~= q.after_checksum());
}

/// Bytes behind a page that was read make no difference.
pub proof fn law_parsed_prefix(buf: Seq<u8>, tail: Seq<u8>)
    requires
        parsed(buf) is Ok,
    ensures
        parsed(buf + tail) == parsed(buf),
{
    law_encoded_parsed(buf);
    let (p, n) = parsed(buf)->Ok_0;
    assert(buf + tail =~= p.encoded() + (buf.skip(n as int) + tail));
    law_parse_encoded(p, buf.skip(n as int) + tail);
}

/// Body length of two segment tables put together.
pub proof fn lemma_body_len_concat(a: Seq<u8>, b: Seq<u8>)
    ensures
        body_len(a + b) == body_len(a) + body_len(b),
    decreases b.len(),
{
    if b.len() == 0 {
        assert(a + b =~= a);
    } else {
        lemma_body_len_concat(a, b.drop_last());
        assert((a + b).drop_last() =~= a + b.drop_last());
    }
}

/// A longer table accounts for at least as many bytes, at most 255 per entry.
pub proof fn lemma_body_len_take(lacing: Seq<u8>, i: int)
    requires
        0 <= i <= lacing.len(),
    ensures
        body_len(lacing.take(i)) <= body_len(lacing),
        body_len(lacing.take(i)) <= 255 * i,
        i < lacing.len() ==> body_len(lacing.take(i + 1)) == body_len(lacing.take(i))
            + lacing[i] as nat,
    decreases lacing.len() - i,
{
    lemma_body_len_bound(lacing.take(i));
    if i < lacing.len() {
        lemma_body_len_take(lacing, i + 1);
        assert(lacing.take(i + 1).drop_last() =~= lacing.take(i));
    } else {
        assert(lacing.take(i) =~= lacing);
    }
}

/// A segment table accounts for at most 255 bytes per entry.
pub proof fn lemma_body_len_bound(lacing: Seq<u8>)
    ensures
        body_len(lacing) <= 255 * lacing.len(),
    decreases lacing.len(),
{
    if lacing.len() > 0 {
        lemma_body_len_bound(lacing.drop_last());
    }
}

/// A segment table of one entry.
pub proof fn lemma_one_segment(l: u8)
    ensures
        body_len(seq![l]) == l,
        packets_ended(seq![l]) == if l < 255 {
            1nat
        } else {
            0nat
        },
{
    let none = seq![l].drop_last();
    assert(body_len(none) == 0);
    assert(packets_ended(none) == 0);
}

/// The segment table of one packet accounts for the packet's length and ends
/// exactly one packet, with its last entry; all others are 255.
pub proof fn law_laced(len: nat)
    ensures
        body_len(laced(len)) == len,
        laced(len).len() == len / 255 + 1,
        laced(len).last() < 255,
        forall|i: int| 0 <= i < laced(len).len() - 1 ==> laced(len)[i] == 255,
        packets_ended(laced(len)) == 1,
        !ends_open(laced(len)),
    decreases len,
{
    if len < 255 {
        lemma_one_segment(len as u8);
    } else {
        let rest = (len - 255) as nat;
        law_laced(rest);
        lemma_body_len_concat(seq![255u8], laced(rest));
        lemma_packets_ended_concat(seq![255u8], laced(rest));
        lemma_one_segment(255);
        assert(len / 255 == rest / 255 + 1);
    }
}

/// Packets ended by two segment tables put together.
pub proof fn lemma_packets_ended_concat(a: Seq<u8>, b: Seq<u8>)
    ensures
        packets_ended(a + b) == packets_ended(a) + packets_ended(b),
    decreases b.len(),
{
    if b.len() == 0 {
        assert(a + b =~= a);
    } else {
        lemma_packets_ended_concat(a, b.drop_last());
        assert((a + b).drop_last() =~= a + b.drop_last());
    }
}

/// Builds the segment table of one packet of `len` bytes.
pub fn lace(len: usize) -> (lacing: Vec<u8>)
    ensures
        lacing@ == laced(len as nat),
{
    let mut out: Vec<u8> = Vec::new();
    let mut left: usize = len;
    assert(out@ + laced(left as nat) =~= laced(len as nat));
    while left >= 255
        invariant
            out@ + laced(left as nat) == laced(len as nat),
        decreases left,
    {
        let ghost before = out@;
        out.push(255);
        left -= 255;
        assert(out@ + laced(left as nat) =~= before + (seq![255u8] + laced(left as nat)));
    }
    let ghost before = out@;
    out.push(left as u8);
    assert(out@ =~= before + seq![left as u8]);
    out
}

/// Adds up a segment table.
pub fn lacing_sum(lacing: &[u8]) -> (sum: usize)
    requires
        body_len(lacing@) <= usize::MAX,
    ensures
        sum == body_len(lacing@),
{
    let mut sum: usize = 0;
    let mut i: usize = 0;
    while i < lacing.len()
        invariant
            i <= lacing@.len(),
            sum == body_len(lacing@.take(i as int)),
            body_len(lacing@) <= usize::MAX,
        decreases lacing@.len() - i,
    {
        proof {
            lemma_body_len_take(lacing@, i as int);
            lemma_body_len_take(lacing@, i + 1);
        }
        sum += lacing[i] as usize;
        i += 1;
    }
    assert(lacing@.take(i as int) =~= lacing@);
    sum
}

impl Page {
    /// Whether the page fits the page layout.
    pub open spec fn wf(&self) -> bool {
        self@.wf()
    }

    /// Whether the page continues a packet that an earlier page left open.
    pub fn is_continued(&self) -> (r: bool)
        ensures
            r == flag_set(self@.flags, flags::CONTINUED),
    {
        self.flags & flags::CONTINUED != 0
    }

    /// Whether the page is the first of its logical bitstream.
    pub fn is_first(&self) -> (r: bool)
        ensures
            r == flag_set(self@.flags, flags::FIRST_PAGE),
    {
        self.flags & flags::FIRST_PAGE != 0
    }

    /// Whether the page is the last of its logical bitstream.
    pub fn is_last(&self) -> (r: bool)
        ensures
            r == flag_set(self@.flags, flags::LAST_PAGE),
    {
        self.flags & flags::LAST_PAGE != 0
    }

    /// Reads one page from the start of `buf` and says how many bytes it takes.
    pub fn parse(buf: &[u8]) -> (r: Result<(Page, usize), Error>)
        ensures
            match r {
                Ok((page, used)) => parsed(buf@) == Ok::<(PageView, nat), Error>(
                    (page@, used as nat),
                ),
                Err(e) => parsed(buf@) == Err::<(PageView, nat), Error>(e),
            },
    {
        reveal(parsed);
        let have: usize = buf.len();
        if have < HEADER_LEN {
            return Err(Error::NeedMore);
        }
        assert(buf@.subrange(0, 4) =~= buf@.take(4));
        if !matches_at(buf, 0, &CAPTURE_PATTERN) {
            return Err(Error::InvalidData(Fault::CapturePattern));
        }
        if buf[4] != 0 {
            return Err(Error::Unsupported(Fault::PageVersion { version: buf[4] }));
        }
        let n_segs: usize = buf[26] as usize;
        let header_len: usize = HEADER_LEN + n_segs;
        if have < header_len {
            return Err(Error::NeedMore);
        }
        let table = vstd::slice::slice_subrange(buf, HEADER_LEN, header_len);
        proof {
            lemma_body_len_bound(table@);
        }
        let data_len: usize = lacing_sum(table);
        if have - header_len < data_len {
            return Err(Error::NeedMore);
        }
        let total: usize = header_len + data_len;
        let whole = vstd::slice::slice_subrange(buf, 0, total);
        assert(whole@ =~= buf@.take(total as int));
        let stored: u32 = read_u32_le(whole, crc::CRC_FIELD_OFFSET);
        let computed: u32 = match compute_page_checksum(whole) {
            Some(c) => c,
            None => 0,
        };
        if stored != computed {
            return Err(Error::InvalidData(Fault::PageChecksum { stored, computed }));
        }
        let page = Page {
            flags: buf[5],
            granule_position: read_i64_le(buf, 6),
            serial: read_u32_le(buf, 14),
            seq_no: read_u32_le(buf, 18),
            lacing: vstd::slice::slice_to_vec(table),
            data: vstd::slice::slice_to_vec(vstd::slice::slice_subrange(buf, header_len, total)),
        };
        assert(page@ =~= page_in(buf@));
        Ok((page, total))
    }

    /// The page's byte form. Fails for a page that does not fit the page
    /// layout.
    pub fn try_to_bytes(&self) -> (r: Result<Vec<u8>, Error>)
        ensures
            match r {
                Ok(out) => self.wf() && out@ == self@.encoded(),
                Err(e) => !self.wf() && e == Error::InvalidData(
                    if self.lacing@.len() > 255 {
                        Fault::TooManySegments { segments: self.lacing.len() }
                    } else {
                        Fault::BodyLength {
                            laced: body_len(self.lacing@) as usize,
                            actual: self.data.len(),
                        }
                    },
                ),
            },
    {
        if self.lacing.len() > MAX_SEGMENTS {
            return Err(
                Error::InvalidData(Fault::TooManySegments { segments: self.lacing.len() }),
            );
        }
        proof {
            lemma_body_len_bound(self.lacing@);
        }
        let laced: usize = lacing_sum(self.lacing.as_slice());
        if laced != self.data.len() {
            return Err(
                Error::InvalidData(Fault::BodyLength { laced, actual: self.data.len() }),
            );
        }
        Ok(self.to_bytes())
    }

    /// The page's byte form.
    pub fn to_bytes(&self) -> (out: Vec<u8>)
        requires
            self.wf(),
        ensures
            out@ == self@.encoded(),
    {
        let mut out: Vec<u8> = Vec::new();
        push_all(&mut out, &CAPTURE_PATTERN);
        out.push(0);
        out.push(self.flags);
        push_i64_le(&mut out, self.granule_position);
        push_u32_le(&mut out, self.serial);
        push_u32_le(&mut out, self.seq_no);
        assert(out@ =~= self@.before_checksum());
        push_u32_le(&mut out, 0);
        out.push(self.lacing.len() as u8);
        push_all(&mut out, self.lacing.as_slice());
        push_all(&mut out, self.data.as_slice());
        assert(out@ =~= self@.layout(0));
        patch_checksum(&mut out);
        proof {
            reveal(PageView::encoded);
            let sum = crc::page_crc(self@.layout(0));
            lemma_layout(self@, 0, Seq::empty());
            assert(out@ =~= self@.layout(sum));
        }
        out
    }

    /// The pieces of packets that the page carries, in order.
    pub fn packet_segments(&self) -> (out: Vec<Segment>)
        requires
            body_len(self.lacing@) <= usize::MAX,
        ensures
            out@.map_values(|s: Segment| s@) == segments(self.lacing@),
    {
        let mut out: Vec<Segment> = Vec::new();
        let mut start: usize = 0;
        let mut pos: usize = 0;
        let mut open: bool = false;
        let mut i: usize = 0;
        assert(out@.map_values(|s: Segment| s@) =~= segments(self.lacing@.take(0)));
        while i < self.lacing.len()
            invariant
                body_len(self.lacing@) <= usize::MAX,
                i <= self.lacing@.len(),
                pos == body_len(self.lacing@.take(i as int)),
                ({
                    let done = out@.map_values(|s: Segment| s@);
                    let all = segments(self.lacing@.take(i as int));
                    if open {
                        all == done.push(
                            SegmentView { start: start as nat, end: pos as nat, terminated: false },
                        )
                    } else {
                        &&& all == done
                        &&& start == pos
                        &&& done.len() > 0 ==> done.last().terminated
                    }
                }),
            decreases self.lacing@.len() - i,
        {
            let ghost done = out@.map_values(|s: Segment| s@);
            let ghost prefix = self.lacing@.take(i + 1);
            proof {
                lemma_body_len_take(self.lacing@, i as int);
                lemma_body_len_take(self.lacing@, i + 1);
                assert(prefix.drop_last() =~= self.lacing@.take(i as int));
                if open {
                    let all = segments(prefix.drop_last());
                    assert(all.drop_last() =~= done);
                }
            }
            let l: u8 = self.lacing[i];
            pos += l as usize;
            if l < 255 {
                let s = Segment { data: start..pos, terminated: true };
                out.push(s);
                assert(out@.map_values(|s: Segment| s@) =~= done.push(s@));
                start = pos;
                open = false;
            } else {
                open = true;
            }
            i += 1;
        }
        assert(self.lacing@.take(i as int) =~= self.lacing@);
        if open {
            let ghost done = out@.map_values(|s: Segment| s@);
            let s = Segment { data: start..pos, terminated: false };
            out.push(s);
            assert(out@.map_values(|s: Segment| s@) =~= done.push(s@));
        }
        out
    }
}

/// Writes the checksum of the page in `page` into its checksum field.
pub fn patch_checksum(page: &mut Vec<u8>)
    requires
        old(page)@.len() >= 26,
    ensures
        final(page)@ == old(page)@.take(22) + bytes::u32_le(crc::page_crc(old(page)@)) + old(
            page,
        )@.skip(26),
{
    let ghost before = page@;
    let sum: u32 = match compute_page_checksum(page.as_slice()) {
        Some(c) => c,
        None => 0,
    };
    page.set(crc::CRC_FIELD_OFFSET, (sum % 0x100) as u8);
    page.set(crc::CRC_FIELD_OFFSET + 1, (sum / 0x100 % 0x100) as u8);
    page.set(crc::CRC_FIELD_OFFSET + 2, (sum / 0x1_0000 % 0x100) as u8);
    page.set(crc::CRC_FIELD_OFFSET + 3, (sum / 0x100_0000) as u8);
    assert(page@ =~= before.take(22) + bytes::u32_le(sum) + before.skip(26));
}

} // verus!
