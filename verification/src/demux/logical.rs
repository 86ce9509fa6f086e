//! One logical bitstream: its packets put together from its pages.
use crate::bytes::push_all;
use crate::framing;
use crate::mux::stream_writer;
use crate::page;
use crate::page::{flags, Page, PageView, Segment, SegmentView};
use crate::stream::{Packet, PacketView};
use vstd::prelude::*;

verus! {

/// What is known of a logical bitstream.
#[derive(Debug)]
pub struct LogicalStream {
    /// Place of the stream in the list of streams.
    pub public_index: usize,
    /// The bytes of a packet that no page has ended yet.
    pub pending: Vec<u8>,
    /// Number of header packets that are still to come.
    pub headers_remaining: usize,
    /// The header packets so far.
    pub header_packets: Vec<Vec<u8>>,
    /// The last granule position seen.
    pub granule_seen: i64,
    /// The link that the stream belongs to.
    pub link_index: u32,
    /// The sequence number of its last page.
    pub last_seq: Option<u32>,
    /// Whether `pending` holds the beginning of a packet.
    pub pending_valid: bool,
}

/// What a [`LogicalStream`] stands for.
#[verifier::ext_equal]
pub struct LogicalView {
    pub public_index: nat,
    pub pending: Seq<u8>,
    pub headers: nat,
    pub header_packets: Seq<Seq<u8>>,
    pub granule_seen: i64,
    pub link_index: u32,
    pub last_seq: Option<u32>,
    pub pending_valid: bool,
}

impl View for LogicalStream {
    type V = LogicalView;

    open spec fn view(&self) -> LogicalView {
        LogicalView {
            public_index: self.public_index as nat,
            pending: self.pending@,
            headers: self.headers_remaining as nat,
            header_packets: framing::packets_view(self.header_packets@),
            granule_seen: self.granule_seen,
            link_index: self.link_index,
            last_seq: self.last_seq,
            pending_valid: self.pending_valid,
        }
    }
}

/// What the pieces on a page leave behind: the packets that ended, the bytes of
/// the packet that is still open, and whether its beginning is among them.
#[verifier::ext_equal]
pub struct Gathered {
    pub pending: Seq<u8>,
    pub valid: bool,
    pub done: Seq<Seq<u8>>,
}

/// Takes the pieces of a page in their order. The first of a page that is
/// marked continued goes to the packet that was open, where its beginning is
/// there, and is lost where it is not. Every other piece begins a packet.
pub open spec fn gathered(
    pieces: Seq<SegmentView>,
    data: Seq<u8>,
    continued: bool,
    pending: Seq<u8>,
    valid: bool,
) -> Gathered
    decreases pieces.len(),
{
    if pieces.len() == 0 {
        Gathered { pending, valid, done: Seq::empty() }
    } else {
        let g = gathered(pieces.drop_last(), data, continued, pending, valid);
        let piece = pieces.last();
        let bytes = data.subrange(piece.start as int, piece.end as int);
        let resumes = pieces.len() == 1 && continued;
        let whole = if !resumes {
            bytes
        } else if g.valid {
            g.pending + bytes
        } else {
            Seq::empty()
        };
        let good = !resumes || g.valid;
        if piece.terminated {
            Gathered {
                pending: Seq::empty(),
                valid: false,
                done: if good {
                    g.done.push(whole)
                } else {
                    g.done
                },
            }
        } else {
            Gathered { pending: whole, valid: good, done: g.done }
        }
    }
}

impl LogicalView {
    /// A logical bitstream of which no page was taken.
    pub open spec fn fresh(public_index: nat, headers: nat, link_index: u32) -> LogicalView {
        LogicalView {
            public_index,
            pending: Seq::empty(),
            headers,
            header_packets: Seq::empty(),
            granule_seen: 0,
            link_index,
            last_seq: None,
            pending_valid: false,
        }
    }

    /// Pages are missing before this one: it is not the first, and its number
    /// does not follow that of the page before it.
    pub open spec fn misses(self, p: PageView) -> bool {
        !page::flag_set(p.flags, flags::FIRST_PAGE) && self.last_seq is Some && p.seq_no
            != stream_writer::successor(self.last_seq->Some_0)
    }

    /// What a page leaves behind. Where pages are missing before it, what was
    /// open is lost.
    pub open spec fn gather(self, p: PageView) -> Gathered {
        let continued = page::flag_set(p.flags, flags::CONTINUED);
        if self.misses(p) {
            gathered(page::segments(p.lacing), p.data, continued, Seq::empty(), false)
        } else {
            gathered(page::segments(p.lacing), p.data, continued, self.pending, self.pending_valid)
        }
    }

    /// Number of packets on a page that are header packets.
    pub open spec fn header_share(self, p: PageView) -> nat {
        let n = self.gather(p).done.len();
        if self.headers < n {
            self.headers
        } else {
            n
        }
    }

    /// The logical bitstream behind a page.
    pub open spec fn after(self, p: PageView) -> LogicalView {
        let g = self.gather(p);
        let h = self.header_share(p);
        LogicalView {
            pending: g.pending,
            headers: (self.headers - h) as nat,
            header_packets: self.header_packets + g.done.take(h as int),
            granule_seen: if p.granule_position >= 0 {
                p.granule_position
            } else {
                self.granule_seen
            },
            last_seq: Some(p.seq_no),
            pending_valid: g.valid,
            ..self
        }
    }

    /// The packets that a page delivers: those behind the header packets. The
    /// last that ends on the page bears the page's granule position, where it
    /// has one.
    pub open spec fn delivered(self, p: PageView, stream_index: u32) -> Seq<PacketView> {
        let done = self.gather(p).done;
        let h = self.header_share(p);
        Seq::new(
            (done.len() - h) as nat,
            |j: int|
                {
                    let i = h + j;
                    let last = i == done.len() - 1;
                    PacketView {
                        stream_index,
                        pts: if last && p.granule_position >= 0 {
                            Some(p.granule_position)
                        } else {
                            None
                        },
                        keyframe: true,
                        unit_boundary: last,
                        data: done[i],
                    }
                },
        )
    }

    /// The last header packet is on this page.
    pub open spec fn completes_headers(self, p: PageView) -> bool {
        self.headers > 0 && self.after(p).headers == 0
    }

    /// What was open is dropped, and which page follows is not known, as behind
    /// a seek.
    pub open spec fn flushed(self) -> LogicalView {
        LogicalView {
            pending: Seq::empty(),
            pending_valid: false,
            last_seq: None,
            granule_seen: 0,
            ..self
        }
    }
}

/// The pieces of a page lie in its body.
pub proof fn lemma_segments_inside(lacing: Seq<u8>)
    ensures
        forall|i: int|
            0 <= i < page::segments(lacing).len() ==> (#[trigger] page::segments(lacing)[i]).start
                <= page::segments(lacing)[i].end <= page::body_len(lacing),
        lacing.len() > 0 ==> page::segments(lacing).len() > 0 && page::segments(lacing).last().end
            == page::body_len(lacing),
    decreases lacing.len(),
{
    if lacing.len() > 0 {
        let front = lacing.drop_last();
        lemma_segments_inside(front);
        let before = page::segments(front);
        let all = page::segments(lacing);
        assert forall|i: int| 0 <= i < all.len() implies (#[trigger] all[i]).start <= all[i].end
            <= page::body_len(lacing) by {
            if i < before.len() {
                assert(before[i].start <= before[i].end <= page::body_len(front));
            }
        }
    }
}

/// The packets on a page, and what stays open behind it.
fn gather_page(
    page: &Page,
    pending: Vec<u8>,
    pending_valid: bool,
) -> (r: (Vec<u8>, bool, Vec<Vec<u8>>))
    requires
        page@.wf(),
    ensures
        ({
            let g = gathered(
                page::segments(page@.lacing),
                page@.data,
                page::flag_set(page@.flags, flags::CONTINUED),
                pending@,
                pending_valid,
            );
            &&& r.0@ == g.pending
            &&& r.1 == g.valid
            &&& framing::packets_view(r.2@) == g.done
        }),
{
    let ghost first = pending@;
    let ghost first_valid = pending_valid;
    assert(page.data.len() == page@.data.len());
    let pieces = page.packet_segments();
    let ghost all = page::segments(page@.lacing);
    let ghost continued = page::flag_set(page@.flags, flags::CONTINUED);
    let resumed: bool = page.is_continued();
    let mut open = pending;
    let mut valid: bool = pending_valid;
    let mut done: Vec<Vec<u8>> = Vec::new();
    let mut i: usize = 0;
    proof {
        lemma_segments_inside(page@.lacing);
        assert(framing::packets_view(done@) =~= Seq::<Seq<u8>>::empty());
        assert(all.take(0) =~= Seq::<SegmentView>::empty());
    }
    while i < pieces.len()
        invariant
            i <= pieces@.len(),
            page@.wf(),
            all == page::segments(page@.lacing),
            all == pieces@.map_values(|s: Segment| s@),
            forall|k: int|
                0 <= k < all.len() ==> (#[trigger] all[k]).start <= all[k].end
                    <= page@.data.len(),
            continued == page::flag_set(page@.flags, flags::CONTINUED),
            resumed == continued,
            ({
                let g = gathered(all.take(i as int), page@.data, continued, first, first_valid);
                &&& open@ == g.pending
                &&& valid == g.valid
                &&& framing::packets_view(done@) == g.done
            }),
        decreases pieces@.len() - i,
    {
        let ghost before = framing::packets_view(done@);
        let ghost held = open@;
        proof {
            assert(all[i as int] == pieces@[i as int]@);
            assert(all[i as int].start <= all[i as int].end);
            assert(all.take(i + 1).drop_last() =~= all.take(i as int));
            assert(all.take(i + 1).last() == all[i as int]);
        }
        let start: usize = pieces[i].data.start;
        let end: usize = pieces[i].data.end;
        let payload = vstd::slice::slice_subrange(page.data.as_slice(), start, end);
        if i == 0 && resumed {
            if valid {
                push_all(&mut open, payload);
                assert(open@ =~= held + payload@);
            } else {
                open = Vec::new();
            }
        } else {
            open = vstd::slice::slice_to_vec(payload);
            assert(open@ =~= payload@);
            valid = true;
        }
        if pieces[i].terminated {
            let mut packet: Vec<u8> = Vec::new();
            std::mem::swap(&mut packet, &mut open);
            if valid {
                done.push(packet);
                assert(framing::packets_view(done@) =~= before.push(packet@));
            }
            assert(open@ =~= Seq::<u8>::empty());
            valid = false;
        }
        i += 1;
    }
    assert(all.take(i as int) =~= all);
    (open, valid, done)
}

impl LogicalStream {
    /// A logical bitstream of which no page was taken.
    pub fn new(public_index: usize, headers_remaining: usize, link_index: u32) -> (s: Self)
        ensures
            s@ == LogicalView::fresh(public_index as nat, headers_remaining as nat, link_index),
    {
        let s = LogicalStream {
            public_index,
            pending: Vec::new(),
            headers_remaining,
            header_packets: Vec::new(),
            granule_seen: 0,
            link_index,
            last_seq: None,
            pending_valid: false,
        };
        assert(s@ =~= LogicalView::fresh(
            public_index as nat,
            headers_remaining as nat,
            link_index,
        ));
        s
    }

    /// Takes a page: the packets that it delivers, whether pages are missing
    /// before it, and whether the last header packet is on it.
    pub fn take_page(&mut self, page: &Page, stream_index: u32) -> (r: (Vec<Packet>, bool, bool))
        requires
            page@.wf(),
        ensures
            final(self)@ == old(self)@.after(page@),
            r.0@.map_values(|p: Packet| p@) == old(self)@.delivered(page@, stream_index),
            r.1 == old(self)@.misses(page@),
            r.2 == old(self)@.completes_headers(page@),
    {
        let ghost before = self@;
        let hole: bool = !page.is_first() && match self.last_seq {
            Some(prev) => page.seq_no != prev.wrapping_add(1),
            None => false,
        };
        let mut pending: Vec<u8> = Vec::new();
        std::mem::swap(&mut pending, &mut self.pending);
        let mut valid: bool = self.pending_valid;
        if hole {
            pending = Vec::new();
            valid = false;
            assert(pending@ =~= Seq::<u8>::empty());
        }
        let (open, open_valid, done) = gather_page(page, pending, valid);
        self.pending = open;
        self.pending_valid = open_valid;
        let ghost g = before.gather(page@);
        let ghost share = before.header_share(page@);
        let headers: usize = self.headers_remaining;
        let n: usize = done.len();
        let mut done = done;
        let mut packets: Vec<Packet> = Vec::new();
        let mut i: usize = 0;
        let ghost want = before.delivered(page@, stream_index);
        let ghost all = g.done;
        let ghost taken = done@;
        proof {
            assert(all.take(0) =~= Seq::<Seq<u8>>::empty());
            assert(before.header_packets + all.take(0) =~= before.header_packets);
            assert(packets@.map_values(|p: Packet| p@) =~= want.take(0));
        }
        while i < n
            invariant
                i <= n,
                n == all.len(),
                n == taken.len(),
                framing::packets_view(taken) == all,
                done@.len() == n,
                forall|k: int| i <= k < n ==> done@[k] == taken[k],
                headers == before.headers,
                share == before.header_share(page@),
                all == before.gather(page@).done,
                want == before.delivered(page@, stream_index),
                want.len() == n - share,
                share <= n,
                self.pending@ == g.pending,
                self.pending_valid == g.valid,
                self.public_index == before.public_index,
                self.granule_seen == before.granule_seen,
                self.link_index == before.link_index,
                self.last_seq == before.last_seq,
                i <= share ==> {
                    &&& self.headers_remaining == headers - i
                    &&& framing::packets_view(self.header_packets@) == before.header_packets
                        + all.take(i as int)
                    &&& packets@.len() == 0
                },
                i > share ==> {
                    &&& self.headers_remaining == headers - share
                    &&& framing::packets_view(self.header_packets@) == before.header_packets
                        + all.take(share as int)
                    &&& packets@.map_values(|p: Packet| p@) == want.take(i - share)
                },
            decreases n - i,
        {
            let mut data: Vec<u8> = Vec::new();
            std::mem::swap(&mut data, &mut done[i]);
            assert(data@ == all[i as int]);
            if self.headers_remaining > 0 {
                let ghost held = framing::packets_view(self.header_packets@);
                self.header_packets.push(data);
                self.headers_remaining = self.headers_remaining - 1;
                proof {
                    assert(framing::packets_view(self.header_packets@) =~= held.push(data@));
                    assert(before.header_packets + all.take(i + 1) =~= held.push(data@));
                }
            } else {
                let is_last: bool = i == n - 1;
                let ghost sent = packets@.map_values(|p: Packet| p@);
                let pts: Option<i64> = if is_last && page.granule_position >= 0 {
                    Some(page.granule_position)
                } else {
                    None
                };
                let packet = Packet {
                    stream_index,
                    pts,
                    keyframe: true,
                    unit_boundary: is_last,
                    data,
                };
                packets.push(packet);
                proof {
                    assert(packets@.map_values(|p: Packet| p@) =~= sent.push(packet@));
                    assert(want[i - share] == packet@);
                    assert(want.take(i + 1 - share) =~= want.take(i - share).push(
                        want[i - share],
                    ));
                    if i == share {
                        assert(sent =~= want.take(0));
                    }
                }
            }
            i += 1;
        }
        proof {
            if n <= share {
                assert(packets@.map_values(|p: Packet| p@) =~= want);
            } else {
                assert(want.take(n - share) =~= want);
            }
        }
        let completed: bool = headers > 0 && self.headers_remaining == 0;
        if page.granule_position >= 0 {
            self.granule_seen = page.granule_position;
        }
        self.last_seq = Some(page.seq_no);
        assert(self@ =~= before.after(page@));
        (packets, hole, completed)
    }

    /// Drops what is open, and goes on with whatever page comes next.
    pub fn flush(&mut self)
        ensures
            final(self)@ == old(self)@.flushed(),
    {
        self.pending = Vec::new();
        self.pending_valid = false;
        self.last_seq = None;
        self.granule_seen = 0;
        assert(self@ =~= old(self)@.flushed());
    }
}

} // verus!
