//! Looking for the next page of a logical bitstream in a file that is read
//! piece by piece.
use crate::bytes;
use crate::bytes::{matches_at, read_i64_le, read_u32_le};
use crate::page;
use crate::page::{lacing_sum, CAPTURE_PATTERN};
use vstd::prelude::*;

verus! {

/// The most bytes that are asked for at once.
pub const CHUNK: u64 = 65536;

/// The first place at or behind `from` where the capture pattern stands whole.
pub open spec fn capture_in(chunk: Seq<u8>, from: int) -> Option<int>
    decreases chunk.len() - from,
{
    if from + 4 > chunk.len() {
        None
    } else if bytes::holds_at(chunk, from, CAPTURE_PATTERN@) {
        Some(from)
    } else {
        capture_in(chunk, from + 1)
    }
}

/// Finds the capture pattern.
pub fn find_capture(chunk: &[u8], from: usize) -> (r: Option<usize>)
    ensures
        match r {
            Some(i) => capture_in(chunk@, from as int) == Some(i as int) && from <= i && i + 4
                <= chunk@.len(),
            None => capture_in(chunk@, from as int) is None,
        },
{
    let n: usize = chunk.len();
    if n < 4 || from > n - 4 {
        return None;
    }
    let mut i: usize = from;
    while i <= n - 4
        invariant
            n == chunk@.len(),
            4 <= n,
            from <= i <= n - 3,
            capture_in(chunk@, from as int) == capture_in(chunk@, i as int),
        decreases n - i,
    {
        if matches_at(chunk, i, &CAPTURE_PATTERN) {
            return Some(i);
        }
        i += 1;
    }
    None
}

/// `a + b`, cut off at the end of the range.
pub open spec fn capped(v: int) -> u64 {
    if v > u64::MAX {
        u64::MAX
    } else {
        v as u64
    }
}

/// What a scan waits for, or what it came to.
#[derive(Clone, Copy, Debug, PartialEq, Eq, Structural)]
pub enum ScanStage {
    /// A piece of the file.
    Chunk,
    /// The header of a page.
    Header,
    /// The segment table of a page.
    Table,
    /// The page was found.
    Found { offset: u64, granule: i64 },
    /// There is no such page.
    Missing,
}

/// A page whose header was read: its serial, granule position and offset.
#[derive(Clone, Copy, Debug, PartialEq, Eq, Structural)]
pub struct SeenPage {
    pub serial: u32,
    pub granule: i64,
    pub offset: u64,
}

/// A search for the next page of the logical bitstream `wanted` that bears a
/// granule position, below `limit`.
#[derive(Debug)]
pub struct PageScan {
    cursor: u64,
    limit: u64,
    wanted: u32,
    stage: ScanStage,
    chunk: Vec<u8>,
    at: usize,
    page_offset: u64,
    segments: usize,
}

/// What a [`PageScan`] stands for.
#[verifier::ext_equal]
pub struct ScanView {
    pub cursor: u64,
    pub limit: u64,
    pub wanted: u32,
    pub stage: ScanStage,
    pub chunk: Seq<u8>,
    pub at: nat,
    pub page_offset: u64,
    pub segments: nat,
}

impl View for PageScan {
    type V = ScanView;

    closed spec fn view(&self) -> ScanView {
        ScanView {
            cursor: self.cursor,
            limit: self.limit,
            wanted: self.wanted,
            stage: self.stage,
            chunk: self.chunk@,
            at: self.at as nat,
            page_offset: self.page_offset,
            segments: self.segments as nat,
        }
    }
}

impl ScanView {
    /// A search that has read nothing.
    pub open spec fn started(start: u64, limit: u64, wanted: u32) -> ScanView {
        ScanView {
            cursor: start,
            limit,
            wanted,
            stage: if start >= limit {
                ScanStage::Missing
            } else {
                ScanStage::Chunk
            },
            chunk: Seq::empty(),
            at: 0,
            page_offset: 0,
            segments: 0,
        }
    }

    /// The piece of the file that the search asks for: where it begins, and how
    /// long it is at most.
    pub open spec fn asked(self) -> Option<(u64, nat)> {
        match self.stage {
            ScanStage::Chunk => Some(
                (
                    self.cursor,
                    if self.limit - self.cursor < CHUNK {
                        (self.limit - self.cursor) as nat
                    } else {
                        CHUNK as nat
                    },
                ),
            ),
            ScanStage::Header => Some((self.page_offset, 27)),
            ScanStage::Table => Some((capped(self.page_offset + 27), self.segments)),
            _ => None,
        }
    }

    /// The search goes on at `cursor`, where that lies below the limit.
    pub open spec fn moved(self, cursor: u64) -> ScanView {
        if cursor >= self.limit {
            ScanView { stage: ScanStage::Missing, ..self }
        } else {
            ScanView { cursor, stage: ScanStage::Chunk, ..self }
        }
    }

    /// The chunk is looked through from `from` on. A capture pattern leads to a
    /// header; without one the search moves on, but for what might begin one.
    pub open spec fn looked(self, from: int) -> ScanView {
        match capture_in(self.chunk, from) {
            Some(i) => ScanView {
                stage: ScanStage::Header,
                at: i as nat,
                page_offset: capped(self.cursor + i),
                ..self
            },
            None => if self.chunk.len() < 4 {
                ScanView { stage: ScanStage::Missing, ..self }
            } else {
                self.moved(capped(self.cursor + self.chunk.len() - 3))
            },
        }
    }

    /// The page whose header this is.
    pub open spec fn seen(self, header: Seq<u8>) -> SeenPage {
        SeenPage {
            serial: bytes::le_u32(header.skip(14)),
            granule: bytes::le_i64(header.skip(6)),
            offset: self.page_offset,
        }
    }

    /// The bytes are a page header.
    pub open spec fn is_header(self, got: Seq<u8>) -> bool {
        got.len() == 27 && got.take(4) == CAPTURE_PATTERN@
    }

    /// The page whose header was read with these bytes, where one was.
    pub open spec fn noted(self, got: Seq<u8>) -> Option<SeenPage> {
        if self.stage == ScanStage::Header && self.is_header(got) {
            Some(self.seen(got))
        } else {
            None
        }
    }

    /// The search after the bytes that it asked for, or as many as there are.
    pub open spec fn after(self, got: Seq<u8>) -> ScanView {
        match self.stage {
            ScanStage::Chunk => if got.len() == 0 {
                ScanView { stage: ScanStage::Missing, ..self }
            } else {
                ScanView { chunk: got, ..self }.looked(0)
            },
            ScanStage::Header => if got.len() != 27 {
                ScanView { stage: ScanStage::Missing, ..self }
            } else if got.take(4) != CAPTURE_PATTERN@ {
                self.looked(self.at as int + 1)
            } else {
                let p = self.seen(got);
                if p.serial == self.wanted && p.granule >= 0 {
                    ScanView {
                        stage: ScanStage::Found { offset: p.offset, granule: p.granule },
                        ..self
                    }
                } else {
                    ScanView { stage: ScanStage::Table, segments: got[26] as nat, ..self }
                }
            },
            ScanStage::Table => if got.len() != self.segments {
                ScanView { stage: ScanStage::Missing, ..self }
            } else {
                self.moved(capped(self.page_offset + 27 + self.segments + page::body_len(got)))
            },
            _ => self,
        }
    }

    /// What is asked for lies below the limit.
    pub open spec fn wf(self) -> bool {
        &&& self.stage == ScanStage::Chunk ==> self.cursor < self.limit
        &&& self.stage == ScanStage::Header ==> self.at + 4 <= self.chunk.len()
        &&& self.segments <= 255
    }
}

impl PageScan {
    /// The search is in a state that its operations lead to.
    pub closed spec fn wf(&self) -> bool {
        self@.wf()
    }

    /// A search from `start` to `limit`.
    pub fn new(start: u64, limit: u64, wanted: u32) -> (s: Self)
        ensures
            s.wf(),
            s@ == ScanView::started(start, limit, wanted),
    {
        let s = PageScan {
            cursor: start,
            limit,
            wanted,
            stage: if start >= limit {
                ScanStage::Missing
            } else {
                ScanStage::Chunk
            },
            chunk: Vec::new(),
            at: 0,
            page_offset: 0,
            segments: 0,
        };
        assert(s@ =~= ScanView::started(start, limit, wanted));
        s
    }

    /// What the search waits for, or what it came to.
    pub fn stage(&self) -> (r: ScanStage)
        ensures
            r == self@.stage,
    {
        self.stage
    }

    /// How far the search has come in the file.
    pub fn position(&self) -> (r: u64)
        ensures
            r == self@.cursor,
    {
        self.cursor
    }

    /// The piece of the file that the search asks for.
    pub fn request(&self) -> (r: Option<(u64, usize)>)
        requires
            self.wf(),
        ensures
            match r {
                Some((offset, len)) => self@.asked() == Some((offset, len as nat)),
                None => self@.asked() is None,
            },
    {
        match self.stage {
            ScanStage::Chunk => {
                let left: u64 = self.limit - self.cursor;
                let len: u64 = if left < CHUNK {
                    left
                } else {
                    CHUNK
                };
                Some((self.cursor, len as usize))
            },
            ScanStage::Header => Some((self.page_offset, 27)),
            ScanStage::Table => Some((self.page_offset.saturating_add(27), self.segments)),
            _ => None,
        }
    }

    fn move_to(&mut self, cursor: u64)
        requires
            old(self).wf(),
        ensures
            final(self).wf(),
            final(self)@ == old(self)@.moved(cursor),
    {
        if cursor >= self.limit {
            self.stage = ScanStage::Missing;
        } else {
            self.cursor = cursor;
            self.stage = ScanStage::Chunk;
        }
        assert(self@ =~= old(self)@.moved(cursor));
    }

    fn look(&mut self, from: usize)
        requires
            old(self).wf(),
        ensures
            final(self).wf(),
            final(self)@ == old(self)@.looked(from as int),
    {
        let n: usize = self.chunk.len();
        match find_capture(self.chunk.as_slice(), from) {
            Some(i) => {
                self.stage = ScanStage::Header;
                self.at = i;
                self.page_offset = self.cursor.saturating_add(i as u64);
                assert(self@ =~= old(self)@.looked(from as int));
            },
            None => {
                if n < 4 {
                    self.stage = ScanStage::Missing;
                    assert(self@ =~= old(self)@.looked(from as int));
                } else {
                    self.move_to(self.cursor.saturating_add((n - 3) as u64));
                }
            },
        }
    }

    /// Takes the bytes that the search asked for, or as many as there are. Says
    /// which page's header was among them.
    pub fn answer(&mut self, got: &[u8]) -> (r: Option<SeenPage>)
        requires
            old(self).wf(),
        ensures
            final(self).wf(),
            final(self)@ == old(self)@.after(got@),
            r == old(self)@.noted(got@),
    {
        let ghost before = self@;
        match self.stage {
            ScanStage::Chunk => {
                if got.len() == 0 {
                    self.stage = ScanStage::Missing;
                } else {
                    self.chunk = vstd::slice::slice_to_vec(got);
                    assert(self@ =~= (ScanView { chunk: got@, ..before }));
                    self.look(0);
                }
                assert(self@ =~= before.after(got@));
                None
            },
            ScanStage::Header => {
                if got.len() != 27 {
                    self.stage = ScanStage::Missing;
                    assert(self@ =~= before.after(got@));
                    return None;
                }
                assert(got@.subrange(0, 4) =~= got@.take(4));
                if !matches_at(got, 0, &CAPTURE_PATTERN) {
                    assert(self.chunk.len() == self.chunk@.len());
                    self.look(self.at + 1);
                    return None;
                }
                let page = SeenPage {
                    serial: read_u32_le(got, 14),
                    granule: read_i64_le(got, 6),
                    offset: self.page_offset,
                };
                if page.serial == self.wanted && page.granule >= 0 {
                    self.stage = ScanStage::Found { offset: page.offset, granule: page.granule };
                } else {
                    self.stage = ScanStage::Table;
                    self.segments = got[26] as usize;
                }
                assert(self@ =~= before.after(got@));
                Some(page)
            },
            ScanStage::Table => {
                if got.len() != self.segments {
                    self.stage = ScanStage::Missing;
                    assert(self@ =~= before.after(got@));
                } else {
                    proof {
                        page::lemma_body_len_bound(got@);
                    }
                    let sum: usize = lacing_sum(got);
                    let step: u64 = 27 + self.segments as u64 + sum as u64;
                    self.move_to(self.page_offset.saturating_add(step));
                }
                None
            },
            _ => {
                assert(self@ =~= before.after(got@));
                None
            },
        }
    }
}

// ---------------------------------------------------------------------------
// What a search finds
// ---------------------------------------------------------------------------
/// The next page of the logical bitstream `wanted` in `data` that bears a
/// granule position: from `from` on, one page behind the other wherever a
/// capture pattern stands below `limit`.
pub open spec fn next_page(data: Seq<u8>, from: int, limit: int, wanted: u32) -> Option<(int, i64)>
    decreases limit - from,
{
    if from >= limit {
        None
    } else {
        match capture_below(data, from, limit) {
            None => None,
            Some(p) => {
                let header = data.subrange(p, p + 27);
                let n = data[p + 26] as int;
                let table = data.subrange(p + 27, p + 27 + n);
                let next = p + 27 + n + page::body_len(table);
                if p + 27 > data.len() {
                    None
                } else if bytes::le_u32(header.skip(14)) == wanted && bytes::le_i64(
                    header.skip(6),
                ) >= 0 {
                    Some((p, bytes::le_i64(header.skip(6))))
                } else if p + 27 + n > data.len() || next >= limit || next <= from {
                    None
                } else {
                    next_page(data, next, limit, wanted)
                }
            },
        }
    }
}

/// The first place at or behind `from` where the capture pattern stands whole
/// below `limit`.
pub open spec fn capture_below(data: Seq<u8>, from: int, limit: int) -> Option<int> {
    capture_in(
        if limit < data.len() {
            data.take(limit)
        } else {
            data
        },
        from,
    )
}

/// The bytes that a file holds where a search asks for them.
pub open spec fn held(data: Seq<u8>, s: ScanView) -> Seq<u8> {
    match s.asked() {
        None => Seq::empty(),
        Some((offset, len)) => if offset >= data.len() {
            Seq::empty()
        } else if offset + len > data.len() {
            data.skip(offset as int)
        } else {
            data.subrange(offset as int, offset + len)
        },
    }
}

/// How far a search has come.
pub open spec fn rank(s: ScanView) -> int {
    match s.stage {
        ScanStage::Chunk => 3,
        ScanStage::Header => 2,
        ScanStage::Table => 1,
        _ => 0,
    }
}

/// What a search comes to that gets what `data` holds wherever it asks.
pub open spec fn outcome(data: Seq<u8>, s: ScanView) -> Option<(int, i64)>
    decreases s.limit - s.cursor, rank(s),
{
    match s.stage {
        ScanStage::Found { offset, granule } => Some((offset as int, granule)),
        ScanStage::Missing => None,
        _ => {
            let next = s.after(held(data, s));
            if next.limit == s.limit && next.limit - next.cursor >= 0 && (next.cursor > s.cursor
                || (next.cursor == s.cursor && rank(next) < rank(s))) {
                outcome(data, next)
            } else {
                None
            }
        },
    }
}

pub proof fn lemma_capture_found(data: Seq<u8>, from: int)
    requires
        0 <= from,
    ensures
        match capture_in(data, from) {
            Some(i) => from <= i && i + 4 <= data.len() && bytes::holds_at(
                data,
                i,
                CAPTURE_PATTERN@,
            ) && forall|j: int|
                from <= j < i ==> !#[trigger] bytes::holds_at(data, j, CAPTURE_PATTERN@),
            None => forall|j: int|
                from <= j ==> !#[trigger] bytes::holds_at(data, j, CAPTURE_PATTERN@),
        },
    decreases data.len() - from,
{
    if from + 4 <= data.len() && !bytes::holds_at(data, from, CAPTURE_PATTERN@) {
        lemma_capture_found(data, from + 1);
    }
}

proof fn lemma_capture_is(data: Seq<u8>, from: int, at: int)
    requires
        0 <= from <= at,
        bytes::holds_at(data, at, CAPTURE_PATTERN@),
        forall|j: int| from <= j < at ==> !#[trigger] bytes::holds_at(data, j, CAPTURE_PATTERN@),
    ensures
        capture_in(data, from) == Some(at),
    decreases at - from,
{
    if from < at {
        assert(!bytes::holds_at(data, from, CAPTURE_PATTERN@));
        lemma_capture_is(data, from + 1, at);
    }
}

proof fn lemma_capture_skips(data: Seq<u8>, from: int, to: int)
    requires
        0 <= from <= to,
        forall|j: int| from <= j < to ==> !#[trigger] bytes::holds_at(data, j, CAPTURE_PATTERN@),
    ensures
        capture_in(data, from) == capture_in(data, to),
    decreases to - from,
{
    if from < to {
        assert(!bytes::holds_at(data, from, CAPTURE_PATTERN@));
        if from + 4 <= data.len() {
            lemma_capture_skips(data, from + 1, to);
        }
    }
}

/// Where the capture pattern stands in a piece of the data, it stands in the
/// data.
pub proof fn lemma_holds_inside(data: Seq<u8>, a: int, b: int, i: int)
    requires
        0 <= a <= b <= data.len(),
        0 <= i,
        i + 4 <= b - a,
    ensures
        bytes::holds_at(data.subrange(a, b), i, CAPTURE_PATTERN@) == bytes::holds_at(
            data,
            a + i,
            CAPTURE_PATTERN@,
        ),
{
    assert(data.subrange(a, b).subrange(i, i + 4) =~= data.subrange(a + i, a + i + 4));
}

/// A search that gets what the file holds wherever it asks finds the next page.
pub proof fn law_scan(data: Seq<u8>, s: ScanView)
    requires
        s.stage == ScanStage::Chunk,
        s.cursor < s.limit,
        s.limit <= data.len() <= u64::MAX - 0x2_0000,
    ensures
        outcome(data, s) == next_page(data, s.cursor as int, s.limit as int, s.wanted),
    decreases s.limit - s.cursor,
{
    let c = s.cursor as int;
    let limit = s.limit as int;
    let view = data.take(limit);
    let got = held(data, s);
    let len = s.asked()->Some_0.1 as int;
    assert(c + len <= limit);
    assert(got =~= data.subrange(c, c + len));
    assert(got =~= view.subrange(c, c + len));
    if limit == data.len() {
        assert(view =~= data);
    }
    assert(capture_below(data, c, limit) == capture_in(view, c));
    let next = s.after(got);
    lemma_capture_found(got, 0);
    assert forall|j: int| 0 <= j && j + 4 <= len implies #[trigger] bytes::holds_at(
        got,
        j,
        CAPTURE_PATTERN@,
    ) == bytes::holds_at(view, c + j, CAPTURE_PATTERN@) by {
        lemma_holds_inside(view, c, c + len, j);
    }
    match capture_in(got, 0) {
        Some(i) => {
            let p = c + i;
            assert(bytes::holds_at(view, c + i, CAPTURE_PATTERN@)) by {
                assert(bytes::holds_at(got, i, CAPTURE_PATTERN@));
            }
            assert forall|j: int| c <= j < p implies !#[trigger] bytes::holds_at(
                view,
                j,
                CAPTURE_PATTERN@,
            ) by {
                assert(!bytes::holds_at(got, j - c, CAPTURE_PATTERN@));
            }
            lemma_capture_is(view, c, p);
            lemma_scan_page(data, s, next, p);
        },
        None => {
            if len < 4 {
                assert(outcome(data, next) is None);
                lemma_capture_found(view, c);
                if capture_in(view, c) is Some {
                    let p = capture_in(view, c)->Some_0;
                    assert(c + len == limit);
                }
            } else {
                let to = c + len - 3;
                assert forall|j: int| c <= j < to implies !#[trigger] bytes::holds_at(
                    view,
                    j,
                    CAPTURE_PATTERN@,
                ) by {
                    assert(!bytes::holds_at(got, j - c, CAPTURE_PATTERN@));
                }
                lemma_capture_skips(view, c, to);
                assert(next.cursor == to && next.stage == ScanStage::Chunk);
                law_scan(data, next);
                lemma_next_page_skips(data, c, to, limit, s.wanted);
            }
        },
    }
}

proof fn lemma_next_page_skips(data: Seq<u8>, a: int, b: int, limit: int, wanted: u32)
    requires
        0 <= a <= b < limit,
        capture_below(data, a, limit) == capture_below(data, b, limit),
    ensures
        next_page(data, a, limit, wanted) == next_page(data, b, limit, wanted),
{
    let d = if limit < data.len() {
        data.take(limit)
    } else {
        data
    };
    lemma_capture_found(d, b);
}

/// A search that has come upon a capture pattern.
proof fn lemma_scan_page(data: Seq<u8>, s: ScanView, next: ScanView, p: int)
    requires
        s.stage == ScanStage::Chunk,
        s.cursor < s.limit,
        s.limit <= data.len() <= u64::MAX - 0x2_0000,
        next == s.after(held(data, s)),
        next.stage == ScanStage::Header,
        next.cursor == s.cursor,
        next.limit == s.limit,
        next.wanted == s.wanted,
        next.page_offset == p,
        s.cursor <= p,
        p + 4 <= s.limit,
        bytes::holds_at(data.take(s.limit as int), p, CAPTURE_PATTERN@),
        capture_below(data, s.cursor as int, s.limit as int) == Some(p),
    ensures
        outcome(data, s) == next_page(data, s.cursor as int, s.limit as int, s.wanted),
    decreases s.limit - s.cursor, 0int,
{
    let c = s.cursor as int;
    let limit = s.limit as int;
    let got = held(data, next);
    let t = next.after(got);
    assert(outcome(data, s) == outcome(data, next));
    if p + 27 > data.len() {
        assert(got.len() != 27);
        assert(outcome(data, next) == outcome(data, t));
    } else {
        let header = data.subrange(p, p + 27);
        assert(got =~= header);
        assert(header.take(4) =~= data.take(limit).subrange(p, p + 4));
        let n = data[p + 26] as int;
        assert(header[26] == n);
        if t.stage == ScanStage::Table {
            let table = held(data, t);
            let u = t.after(table);
            assert(outcome(data, next) == outcome(data, t));
            if p + 27 + n > data.len() {
                assert(table.len() != n);
                assert(outcome(data, t) == outcome(data, u));
            } else {
                assert(table =~= data.subrange(p + 27, p + 27 + n));
                page::lemma_body_len_bound(table);
                let after = p + 27 + n + page::body_len(table);
                assert(capped(after) == after);
                assert(outcome(data, t) == outcome(data, u));
                if after < limit {
                    assert(u.stage == ScanStage::Chunk && u.cursor == after);
                    law_scan(data, u);
                }
            }
        } else {
            assert(outcome(data, next) == outcome(data, t));
        }
    }
}

} // verus!
