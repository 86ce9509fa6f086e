//! What a demuxer reads of links, from the page that opens the first bitstream
//! on.
use crate::codec_id;
use crate::demux::codec_params;
use crate::demux::demux_laws;
use crate::demux::demuxer::DemuxView;
use crate::demux::logical::LogicalView;
use crate::demux::whole_laws;
use crate::mux::chain_laws;
use crate::mux::mux_laws;
use crate::mux::stream_laws;
use crate::page;
use crate::page::{flags, PageView};
use crate::stream::PacketView;
use crate::validate_group;
use vstd::prelude::*;

verus! {

/// The first packet of a page, as far as it stands on the page.
pub open spec fn first_packet(p: PageView) -> Seq<u8> {
    let piece = page::segments(p.lacing)[0];
    p.data.subrange(piece.start as int, piece.end as int)
}

/// The page opens a logical bitstream, and its first packet can be understood.
pub open spec fn opens_well(p: PageView) -> bool {
    let first = first_packet(p);
    &&& page::flag_set(p.flags, flags::FIRST_PAGE)
    &&& page::segments(p.lacing).len() > 0
    &&& codec_params::params_of(codec_id::codec_of(first), first) is Ok
}

/// The number of header packets that the first packet of a page announces.
pub open spec fn headers_told(p: PageView) -> nat {
    codec_id::header_count(codec_id::codec_of(first_packet(p)))
}

/// The number of the link that a bitstream is of which a page opens now.
pub open spec fn link_now(d: DemuxView) -> u32 {
    if !d.seen_content {
        d.next_link
    } else if d.next_link == u32::MAX {
        u32::MAX
    } else {
        (d.next_link + 1) as u32
    }
}

/// What is known of the bitstream that a page opens, `j` others having been
/// opened before it.
pub open spec fn told(d: DemuxView, p: PageView, j: int) -> LogicalView {
    LogicalView::fresh((d.streams.len() + j) as nat, headers_told(p), link_now(d))
}

/// Every packet that waits is of a stream.
pub open spec fn in_streams(d: DemuxView) -> bool {
    forall|i: int|
        0 <= i < d.packets.len() ==> (#[trigger] d.packets[i]).stream_index < d.streams.len()
}

/// A page that opens a bitstream adds a stream for it.
proof fn lemma_new_page(d: DemuxView, p: PageView)
    requires
        whole_laws::numbered(d),
        in_streams(d),
        opens_well(p),
        !d.states.contains_key(p.serial),
        d.streams.len() < u32::MAX,
    ensures
        ({
            let m = d.processed(p).0;
            let s = told(d, p, 0);
            &&& whole_laws::numbered(m)
            &&& in_streams(m)
            &&& m.streams.len() == d.streams.len() + 1
            &&& m.states == d.states.insert(p.serial, s.after(p))
            &&& m.packets == d.packets + s.delivered(p, d.streams.len() as u32)
            &&& m.holes == d.holes
            &&& m.next_link == link_now(d)
            &&& !m.seen_content
        }),
{
    let l = d.linked(p);
    let r = l.registered(p)->Ok_0;
    let s = told(d, p, 0);
    let m = d.processed(p).0;
    assert(d.opens(p));
    assert(l.next_link == link_now(d));
    assert(l.registered(p) is Ok);
    assert(r.states[p.serial] == s);
    assert(r.streams[s.public_index as int].index == d.streams.len());
    assert(m == r.consumed(p));
    assert(m.streams.len() == r.streams.len());
    assert(!s.misses(p));
    assert forall|i: int| 0 <= i < m.streams.len() implies (#[trigger] m.streams[i]).index == i by {
        if i < d.streams.len() {
            assert(d.streams[i].index == i);
        }
    }
    assert(m.states =~= d.states.insert(p.serial, s.after(p)));
    let more = s.delivered(p, d.streams.len() as u32);
    assert(m.packets == d.packets + more);
    assert forall|i: int| 0 <= i < m.packets.len() implies (#[trigger] m.packets[i]).stream_index
        < m.streams.len() by {
        if i < d.packets.len() {
            assert(d.packets[i].stream_index < d.streams.len());
        } else {
            assert(m.packets[i] == more[i - d.packets.len()]);
        }
    }
    assert(whole_laws::numbered(m)) by {
        assert forall|k: u32| #[trigger] m.states.contains_key(k) implies m.states[k].public_index
            < m.streams.len() by {
            if k != p.serial {
                assert(d.states.contains_key(k));
            }
        }
        assert forall|k: u32, j: u32|
            #[trigger] m.states.contains_key(k) && #[trigger] m.states.contains_key(j) && k
                != j implies m.states[k].public_index != m.states[j].public_index by {
            if k != p.serial {
                assert(d.states.contains_key(k));
            }
            if j != p.serial {
                assert(d.states.contains_key(j));
            }
        }
    }
}

/// The pages of a link that a demuxer knows nothing of: the first `n` open its
/// bitstreams, and the others follow one of them.
pub open spec fn unread(d: DemuxView, pages: Seq<PageView>, n: int) -> bool {
    &&& whole_laws::numbered(d)
    &&& in_streams(d)
    &&& 0 <= n <= pages.len()
    &&& d.streams.len() + n <= u32::MAX
    &&& forall|j: int|
        0 <= j < n ==> opens_well(#[trigger] pages[j]) && !d.states.contains_key(pages[j].serial)
            && stream_laws::unbroken(mux_laws::of_serial(pages, pages[j].serial))
    &&& forall|a: int, b: int|
        0 <= a < b < n ==> (#[trigger] pages[a]).serial != (#[trigger] pages[b]).serial
    &&& forall|i: int|
        n <= i < pages.len() ==> exists|j: int|
            0 <= j < n && (#[trigger] pages[j]).serial == (#[trigger] pages[i]).serial
}

/// What the demuxer `d` has become behind the first `i` pages of a link.
pub open spec fn part_read(
    d: DemuxView,
    pages: Seq<PageView>,
    n: int,
    i: int,
    e: DemuxView,
) -> bool {
    let h = if i < n {
        i
    } else {
        n
    };
    &&& whole_laws::numbered(e)
    &&& in_streams(e)
    &&& e.streams.len() == d.streams.len() + h
    &&& e.holes == d.holes
    &&& i == 0 ==> e == d
    &&& 0 < i <= n ==> e.next_link == link_now(d) && !e.seen_content
    &&& forall|k: u32| #[trigger]
        e.states.contains_key(k) <==> d.states.contains_key(k) || exists|j: int|
            0 <= j < h && (#[trigger] pages[j]).serial == k
    &&& forall|k: u32| #[trigger]
        d.states.contains_key(k) ==> e.states[k] == d.states[k]
    &&& forall|x: u32|
        x < d.streams.len() ==> #[trigger] whole_laws::of_stream(e.packets, x)
            == whole_laws::of_stream(d.packets, x)
    &&& forall|j: int|
        0 <= j < h ==> {
            let p = #[trigger] pages[j];
            let own = mux_laws::of_serial(pages.take(i), p.serial);
            let x = (d.streams.len() + j) as u32;
            &&& e.states[p.serial] == demux_laws::behind(told(d, p, j), own)
            &&& whole_laws::of_stream(e.packets, x) == demux_laws::delivered_by(
                told(d, p, j),
                own,
                x,
            )
        }
}

/// A page of a known bitstream changes what is known of that one only.
pub proof fn lemma_known_page(d: DemuxView, p: PageView)
    requires
        whole_laws::numbered(d),
        in_streams(d),
        d.states.contains_key(p.serial),
    ensures
        ({
            let m = d.processed(p).0;
            let t = d.states[p.serial];
            &&& whole_laws::numbered(m)
            &&& in_streams(m)
            &&& m.streams.len() == d.streams.len()
            &&& m.states == d.states.insert(p.serial, t.after(p))
            &&& m.packets == d.packets + t.delivered(p, t.public_index as u32)
            &&& !t.misses(p) ==> m.holes == d.holes
        }),
{
    let l = d.linked(p);
    let m = d.processed(p).0;
    let t = d.states[p.serial];
    assert(m == l.consumed(p));
    assert(l.states == d.states && l.streams == d.streams && l.packets == d.packets);
    assert(d.streams[t.public_index as int].index == t.public_index);
    let more = t.delivered(p, t.public_index as u32);
    assert(m.packets == d.packets + more);
    assert(m.streams.len() == d.streams.len());
    assert forall|i: int| 0 <= i < m.streams.len() implies (#[trigger] m.streams[i]).index == i by {
        assert(d.streams[i].index == i);
    }
    assert forall|i: int| 0 <= i < m.packets.len() implies (#[trigger] m.packets[i]).stream_index
        < m.streams.len() by {
        if i < d.packets.len() {
            assert(d.packets[i].stream_index < d.streams.len());
        } else {
            assert(m.packets[i] == more[i - d.packets.len()]);
        }
    }
}

proof fn lemma_none_of_stream(packets: Seq<PacketView>, x: u32)
    requires
        forall|i: int| 0 <= i < packets.len() ==> (#[trigger] packets[i]).stream_index != x,
    ensures
        whole_laws::of_stream(packets, x) == Seq::<PacketView>::empty(),
    decreases packets.len(),
{
    if packets.len() > 0 {
        let front = packets.drop_last();
        assert forall|i: int| 0 <= i < front.len() implies (#[trigger] front[i]).stream_index
            != x by {
            assert(packets[i] == front[i]);
        }
        lemma_none_of_stream(front, x);
        assert(packets[packets.len() - 1].stream_index != x);
    }
}

/// One more page, with what it adds to the pages of its bitstream.
proof fn lemma_taken_one_more(d: DemuxView, pages: Seq<PageView>, i: int)
    requires
        0 <= i < pages.len(),
    ensures
        whole_laws::taken(d, pages.take(i + 1)) == whole_laws::taken(d, pages.take(i)).processed(
            pages[i],
        ).0,
        forall|s: u32|
            #[trigger] mux_laws::of_serial(pages.take(i + 1), s) == (if pages[i].serial == s {
                mux_laws::of_serial(pages.take(i), s).push(pages[i])
            } else {
                mux_laws::of_serial(pages.take(i), s)
            }),
{
    assert(pages.take(i + 1).drop_last() =~= pages.take(i));
}

proof fn lemma_read_new(d: DemuxView, pages: Seq<PageView>, n: int, i: int, e: DemuxView)
    requires
        unread(d, pages, n),
        0 <= i < n,
        part_read(d, pages, n, i, e),
    ensures
        part_read(d, pages, n, i + 1, e.processed(pages[i]).0),
{
    let p = pages[i];
    let m = e.processed(p).0;
    let s = told(d, p, i);
    let number = (d.streams.len() + i) as u32;
    assert(opens_well(pages[i]));
    assert(!e.states.contains_key(p.serial)) by {
        if e.states.contains_key(p.serial) {
            let j = choose|j: int| 0 <= j < i && (#[trigger] pages[j]).serial == p.serial;
            assert(pages[j].serial != pages[i].serial);
        }
    }
    lemma_new_page(e, p);
    assert(told(e, p, 0) == s);
    let more = s.delivered(p, number);
    lemma_taken_one_more(d, pages, i);
    let part = pages.take(i);
    assert forall|l: int| 0 <= l < part.len() implies (#[trigger] part[l]).serial != p.serial by {
        assert(pages[l].serial != pages[i].serial);
    }
    chain_laws::lemma_none_of_serial(part, p.serial);
    assert forall|l: int| 0 <= l < e.packets.len() implies (#[trigger] e.packets[l]).stream_index
        != number by {
        assert(e.packets[l].stream_index < e.streams.len());
    }
    lemma_none_of_stream(e.packets, number);
    assert forall|x: u32|
        #[trigger] whole_laws::of_stream(m.packets, x) == (if x == number {
            more
        } else {
            whole_laws::of_stream(e.packets, x)
        }) by {
        whole_laws::lemma_of_stream_concat(e.packets, more, x);
        whole_laws::lemma_of_stream_alike(more, number, x);
        let none = Seq::<PacketView>::empty();
        assert(none + more =~= more);
        assert(whole_laws::of_stream(e.packets, x) + none =~= whole_laws::of_stream(e.packets, x));
    }
    assert forall|k: u32| #[trigger]
        m.states.contains_key(k) <==> d.states.contains_key(k) || exists|j: int|
            0 <= j < i + 1 && (#[trigger] pages[j]).serial == k by {
        if k == p.serial {
            assert(pages[i].serial == k);
        }
        if e.states.contains_key(k) && !d.states.contains_key(k) {
            let j = choose|j: int| 0 <= j < i && (#[trigger] pages[j]).serial == k;
            assert(pages[j].serial == k);
        }
        if exists|j: int| 0 <= j < i + 1 && (#[trigger] pages[j]).serial == k {
            let j = choose|j: int| 0 <= j < i + 1 && (#[trigger] pages[j]).serial == k;
            if j < i {
                assert(pages[j].serial == k);
                assert(e.states.contains_key(k));
            }
        }
    }
    assert forall|k: u32| #[trigger] d.states.contains_key(k) implies m.states[k]
        == d.states[k] by {
        assert(e.states.contains_key(k));
    }
    assert forall|j: int| 0 <= j < i + 1 implies ({
        let q = #[trigger] pages[j];
        let own = mux_laws::of_serial(pages.take(i + 1), q.serial);
        let x = (d.streams.len() + j) as u32;
        &&& m.states[q.serial] == demux_laws::behind(told(d, q, j), own)
        &&& whole_laws::of_stream(m.packets, x) == demux_laws::delivered_by(told(d, q, j), own, x)
    }) by {
        let q = pages[j];
        let own = mux_laws::of_serial(pages.take(i + 1), q.serial);
        if j < i {
            assert(pages[j].serial != pages[i].serial);
            assert(own == mux_laws::of_serial(pages.take(i), q.serial));
        } else {
            let none = Seq::<PageView>::empty();
            assert(own =~= none.push(p));
            assert(own.drop_last() =~= none);
            assert(demux_laws::behind(s, none) == s);
            assert(demux_laws::behind(s, own) == s.after(p));
            assert(demux_laws::delivered_by(s, none, number) =~= Seq::<PacketView>::empty());
            assert(demux_laws::delivered_by(s, own, number) =~= more);
        }
    }
}

proof fn lemma_read_known(d: DemuxView, pages: Seq<PageView>, n: int, i: int, e: DemuxView)
    requires
        unread(d, pages, n),
        n <= i < pages.len(),
        part_read(d, pages, n, i, e),
    ensures
        part_read(d, pages, n, i + 1, e.processed(pages[i]).0),
{
    let p = pages[i];
    let m = e.processed(p).0;
    let c = choose|j: int| 0 <= j < n && (#[trigger] pages[j]).serial == p.serial;
    assert(pages[c].serial == p.serial);
    assert(e.states.contains_key(p.serial));
    lemma_known_page(e, p);
    lemma_taken_one_more(d, pages, i);
    let t = e.states[p.serial];
    let s = told(d, pages[c], c);
    let number = (d.streams.len() + c) as u32;
    let before = mux_laws::of_serial(pages.take(i), p.serial);
    let after = mux_laws::of_serial(pages.take(i + 1), p.serial);
    assert(t == demux_laws::behind(s, before));
    demux_laws::lemma_behind_kept(s, before);
    assert(t.public_index == s.public_index);
    let more = t.delivered(p, number);
    assert(!t.misses(p)) by {
        let all = mux_laws::of_serial(pages, p.serial);
        assert(stream_laws::unbroken(mux_laws::of_serial(pages, pages[c].serial)));
        demux_laws::law_no_holes(all, s);
        validate_group::lemma_ranked(pages, i);
        validate_group::lemma_prefix(pages, i, p.serial);
        let r = before.len() as int;
        assert(all.take(r) == before);
        assert(all[r] == p);
        assert(!demux_laws::behind(s, all.take(r)).misses(all[r]));
    }
    assert forall|x: u32|
        #[trigger] whole_laws::of_stream(m.packets, x) == (if x == number {
            whole_laws::of_stream(e.packets, x) + more
        } else {
            whole_laws::of_stream(e.packets, x)
        }) by {
        whole_laws::lemma_of_stream_concat(e.packets, more, x);
        whole_laws::lemma_of_stream_alike(more, number, x);
        let none = Seq::<PacketView>::empty();
        assert(whole_laws::of_stream(e.packets, x) + none =~= whole_laws::of_stream(e.packets, x));
    }
    assert forall|k: u32| #[trigger] d.states.contains_key(k) implies m.states[k]
        == d.states[k] by {
        assert(e.states.contains_key(k));
        assert(!d.states.contains_key(pages[c].serial));
    }
    assert forall|j: int| 0 <= j < n implies ({
        let q = #[trigger] pages[j];
        let own = mux_laws::of_serial(pages.take(i + 1), q.serial);
        let x = (d.streams.len() + j) as u32;
        &&& m.states[q.serial] == demux_laws::behind(told(d, q, j), own)
        &&& whole_laws::of_stream(m.packets, x) == demux_laws::delivered_by(told(d, q, j), own, x)
    }) by {
        let q = pages[j];
        if j < c {
            assert(pages[j].serial != pages[c].serial);
        } else if j > c {
            assert(pages[c].serial != pages[j].serial);
        }
        if j == c {
            assert(after.drop_last() =~= before);
            assert(after.last() == p);
        }
    }
}

/// A demuxer that takes the pages of a link learns of its bitstreams and
/// delivers what each of them carries, and nothing else.
pub proof fn law_link_read(d: DemuxView, pages: Seq<PageView>, n: int, i: int)
    requires
        unread(d, pages, n),
        0 <= i <= pages.len(),
    ensures
        part_read(d, pages, n, i, whole_laws::taken(d, pages.take(i))),
    decreases i,
{
    if i == 0 {
        assert(pages.take(0) =~= Seq::empty());
    } else {
        law_link_read(d, pages, n, i - 1);
        lemma_taken_one_more(d, pages, i - 1);
        let e = whole_laws::taken(d, pages.take(i - 1));
        if i - 1 < n {
            lemma_read_new(d, pages, n, i - 1, e);
        } else {
            lemma_read_known(d, pages, n, i - 1, e);
        }
    }
}

} // verus!
