//! In which order the pages of a Skeleton and of the streams stand.
use crate::framing;
use crate::mux::auto_index::AutoIndexConfig;
use crate::mux::index_laws;
use crate::mux::link_laws;
use crate::mux::mux_laws;
use crate::mux::muxer;
use crate::mux::muxer::MuxView;
use crate::mux::patch_laws;
use crate::mux::serials;
use crate::mux::stream_laws;
use crate::mux::stream_writer;
use crate::mux::stream_writer::StreamView;
use crate::mux::tidy;
use crate::mux::wire::WireView;
use crate::page;
use crate::page::{flags, PageView};
use crate::skeleton::state::SkeletonView;
use crate::stream::{PacketView, StreamInfoView};
use crate::validate_group;
use vstd::prelude::*;

verus! {

proof fn lemma_behind_released(m: MuxView, front: Seq<PageView>, n: int)
    ensures
        link_laws::behind(m, front).released(n) == link_laws::behind(m.released(n), front),
    decreases n,
{
    if n > 0 {
        lemma_behind_released(m, front, n - 1);
        let mid = m.released(n - 1);
        let index = m.streams[n - 1].index;
        link_laws::lemma_behind_settled(mid, front, index, mid.writers[index].released());
    }
}

proof fn lemma_behind_described(m: MuxView, front: Seq<PageView>, packet: Seq<u8>, marks: u8)
    ensures
        link_laws::behind(m, front).described(packet, marks) == link_laws::behind(
            m.described(packet, marks),
            front,
        ),
{
    let o = m.skeleton->Some_0;
    let p = muxer::skeleton_page(o.serial, o.seq_no, marks, packet);
    assert((front + m.wire.pages).push(p) =~= front + m.wire.pages.push(p));
    assert(link_laws::behind(m, front).described(packet, marks) =~= link_laws::behind(
        m.described(packet, marks),
        front,
    ));
}

proof fn lemma_behind_described_all(m: MuxView, front: Seq<PageView>, packets: Seq<Seq<u8>>)
    ensures
        link_laws::behind(m, front).described_all(packets) == link_laws::behind(
            m.described_all(packets),
            front,
        ),
    decreases packets.len(),
{
    if packets.len() > 0 {
        lemma_behind_described_all(m, front, packets.drop_last());
        lemma_behind_described(m.described_all(packets.drop_last()), front, packets.last(), 0);
    }
}

proof fn lemma_behind_reserved(m: MuxView, front: Seq<PageView>, n: int)
    ensures
        link_laws::behind(m, front).reserved(n) == link_laws::behind(m.reserved(n), front),
    decreases n,
{
    if n > 0 {
        lemma_behind_reserved(m, front, n - 1);
        let mid = m.reserved(n - 1);
        lemma_behind_described(mid, front, mid.auto[n - 1].vacant().packet(), 0);
        assert(link_laws::behind(m, front).reserved(n) =~= link_laws::behind(
            m.reserved(n),
            front,
        ));
    }
}

proof fn lemma_behind_skeleton(m: MuxView, front: Seq<PageView>)
    ensures
        link_laws::behind(m, front).with_skeleton() == link_laws::behind(
            m.with_skeleton(),
            front,
        ),
{
    let n = m.streams.len() as int;
    let b = link_laws::behind(m, front);
    lemma_behind_released(m, front, n);
    let r = m.released(n);
    let packets = r.secondary_packets();
    assert(b.released(n).secondary_packets() =~= packets);
    lemma_behind_described_all(r, front, packets);
    let d = r.described_all(packets);
    lemma_behind_reserved(d, front, d.auto.len() as int);
    let v = d.reserved(d.auto.len() as int);
    lemma_behind_described(v, front, Seq::empty(), flags::LAST_PAGE);
    assert(b.with_skeleton() =~= link_laws::behind(m.with_skeleton(), front));
}

/// The muxer with nothing written.
spec fn emptied(m: MuxView) -> MuxView {
    MuxView { wire: WireView { pages: Seq::empty(), ..m.wire }, ..m }
}

proof fn lemma_emptied(m: MuxView)
    ensures
        link_laws::behind(emptied(m), m.wire.pages) == m,
{
    assert(m.wire.pages + Seq::<PageView>::empty() =~= m.wire.pages);
}

/// What is written behind the headers leaves what is there.
proof fn lemma_rest_behind(m: MuxView, packets: Seq<PacketView>)
    ensures
        mux_laws::run(m, packets).ended().wire.pages == m.wire.pages + mux_laws::run(
            emptied(m),
            packets,
        ).ended().wire.pages,
{
    lemma_emptied(m);
    let e = emptied(m);
    link_laws::lemma_behind_run(e, m.wire.pages, packets);
    let ran = mux_laws::run(e, packets);
    link_laws::lemma_behind_closed(ran, m.wire.pages, ran.streams.len() as int);
}

/// A stream that comes to a new state writes no page of another serial.
proof fn lemma_other_settled(m: MuxView, k: u32, s: StreamView, serial: u32)
    requires
        s.consistent(),
        s.serial != serial,
    ensures
        mux_laws::of_serial(m.settled(k, s).wire.pages, serial) == mux_laws::of_serial(
            m.wire.pages,
            serial,
        ),
{
    mux_laws::lemma_emitted_pages(m, k, s.ready);
    let more = stream_laws::pages_in(s.ready);
    assert forall|i: int| 0 <= i < more.len() implies (#[trigger] more[i]).serial == s.serial by {
        assert(s.ready[i].page.serial == s.serial);
    }
    mux_laws::lemma_of_serial_concat(m.wire.pages, more, serial);
    mux_laws::lemma_of_serial_alike(more, s.serial, serial);
    assert(mux_laws::of_serial(m.wire.pages, serial) + Seq::<PageView>::empty()
        =~= mux_laws::of_serial(m.wire.pages, serial));
}

proof fn lemma_other_run(
    m: MuxView,
    content: Map<u32, Seq<Seq<u8>>>,
    packets: Seq<PacketView>,
    serial: u32,
)
    requires
        mux_laws::faithful(m, content),
        m.skeleton matches Some(o) && o.serial == serial,
        forall|i: int|
            0 <= i < packets.len() ==> m.writers.contains_key(
                (#[trigger] packets[i]).stream_index,
            ),
    ensures
        mux_laws::of_serial(mux_laws::run(m, packets).wire.pages, serial) == mux_laws::of_serial(
            m.wire.pages,
            serial,
        ),
    decreases packets.len(),
{
    if packets.len() > 0 {
        let front = packets.drop_last();
        assert forall|i: int| 0 <= i < front.len() implies m.writers.contains_key(
            (#[trigger] front[i]).stream_index,
        ) by {
            assert(packets[i] == front[i]);
        }
        lemma_other_run(m, content, front, serial);
        let between = mux_laws::lemma_run(m, content, front);
        let mid = mux_laws::run(m, front);
        let p = packets.last();
        let k = p.stream_index;
        assert(m.writers.contains_key(packets[packets.len() - 1].stream_index));
        assert(mid.writers.contains_key(k));
        assert(mux_laws::lane_holds(mid, between, k));
        let s = mid.writers[k];
        stream_laws::lemma_written_consistent(s, p);
        tidy::lemma_written_serial(s, p);
        assert(s.serial == m.writers[k].serial);
        lemma_other_settled(mid, k, s.written(p), serial);
    }
}

proof fn lemma_other_closed(
    m: MuxView,
    content: Map<u32, Seq<Seq<u8>>>,
    n: int,
    serial: u32,
)
    requires
        mux_laws::faithful(m, content),
        mux_laws::all_there(m),
        mux_laws::distinct_streams(m.streams),
        m.skeleton matches Some(o) && o.serial == serial,
        0 <= n <= m.streams.len(),
    ensures
        mux_laws::of_serial(m.closed_off(n).wire.pages, serial) == mux_laws::of_serial(
            m.wire.pages,
            serial,
        ),
    decreases n,
{
    if n > 0 {
        lemma_other_closed(m, content, n - 1, serial);
        mux_laws::lemma_closed_off(m, content, n - 1);
        let mid = m.closed_off(n - 1);
        let k = m.streams[n - 1].index;
        assert(m.writers.contains_key(k));
        assert(mid.writers.contains_key(k));
        assert(mux_laws::lane_holds(mid, content, k));
        stream_laws::lemma_closed_consistent(mid.writers[k]);
        lemma_other_settled(mid, k, mid.writers[k].closed_off(), serial);
    }
}

/// The pages of the headers begin with the page of the `fishead` and those that
/// open the streams, and end with the page that closes the Skeleton.
proof fn lemma_header_pages(
    position: u64,
    streams: Seq<StreamInfoView>,
    skel: SkeletonView,
    config: Option<AutoIndexConfig>,
)
    requires
        mux_laws::sound_setup(streams, Some(skel), config),
        muxer::initial(position, streams, Some(skel), config).headers_fit(),
        link_laws::opens_all(streams),
    ensures
        ({
            let n = streams.len() as int;
            let m = muxer::initial(position, streams, Some(skel), config).with_headers();
            let o = m.skeleton->Some_0;
            let pages = m.wire.pages;
            let own = serials::assigned(Set::empty(), streams);
            &&& m.skeleton is Some
            &&& o.emitted_head is Some
            &&& pages.len() > n + 1
            &&& pages[0] == muxer::skeleton_page(
                o.serial,
                0,
                flags::FIRST_PAGE,
                o.emitted_head->Some_0.encoded(),
            )
            &&& pages.subrange(1, n + 1) == link_laws::head_pages(streams, own)
            &&& pages.last().serial == o.serial
            &&& pages.last().flags == flags::LAST_PAGE
            &&& pages.last().data.len() == 0
            &&& o.content_offset == Some(m.wire.position)
        }),
{
    let n = streams.len() as int;
    let own = serials::assigned(Set::empty(), streams);
    let m = muxer::initial(position, streams, Some(skel), config);
    let content = mux_laws::lemma_begun(position, streams, Some(skel), config);
    let start = mux_laws::begun(m);
    let heads = link_laws::head_pages(streams, own);
    link_laws::lemma_opened_pages(start, content, own, n);
    link_laws::lemma_opened_streams(start, n);
    let opened = start.opened(n);
    assert(heads.take(n) =~= heads);
    let front = start.wire.pages + heads;
    assert(opened.wire.pages == front);
    let e = emptied(opened);
    lemma_emptied(opened);
    link_laws::lemma_behind_continued(e, front, n);
    lemma_behind_skeleton(e.continued(n), front);
    let after = m.with_headers();
    let rest = e.continued(n).with_skeleton();
    assert(after == link_laws::behind(rest, front));
    assert(start.wire.pages.len() == 1);
    assert(after.wire.pages.subrange(1, n + 1) =~= heads);
    let now = mux_laws::lemma_headed(start, content);
    let headed = start.headed();
    assert(headed.skeleton == start.skeleton);
    lemma_skeleton_end(headed);
    lemma_skeleton_end(e.continued(n));
    assert(after == headed.with_skeleton());
}

/// A Skeleton ends with an empty packet on a page of its own, and content begins
/// behind it.
proof fn lemma_skeleton_end(m: MuxView)
    requires
        m.skeleton is Some,
    ensures
        ({
            let after = m.with_skeleton();
            let o = m.skeleton->Some_0;
            &&& after.skeleton is Some
            &&& after.skeleton->Some_0.serial == o.serial
            &&& after.skeleton->Some_0.emitted_head == o.emitted_head
            &&& after.skeleton->Some_0.content_offset == Some(after.wire.position)
            &&& after.wire.pages.len() > 0
            &&& after.wire.pages.last().serial == o.serial
            &&& after.wire.pages.last().flags == flags::LAST_PAGE
            &&& after.wire.pages.last().data.len() == 0
        }),
{
    let n = m.streams.len() as int;
    lemma_released_described(m, n);
    let r = m.released(n);
    index_laws::lemma_described_head(r, r.secondary_packets());
    let d = r.described_all(r.secondary_packets());
    lemma_reserved_described(d, d.auto.len() as int);
    let v = d.reserved(d.auto.len() as int);
    let e = v.described(Seq::empty(), flags::LAST_PAGE);
    assert(m.with_skeleton().wire == e.wire);
    assert(e.wire.pages.last() == muxer::skeleton_page(
        v.skeleton->Some_0.serial,
        v.skeleton->Some_0.seq_no,
        flags::LAST_PAGE,
        Seq::empty(),
    ));
}

proof fn lemma_released_described(m: MuxView, n: int)
    ensures
        m.released(n).skeleton == m.skeleton,
    decreases n,
{
    if n > 0 {
        lemma_released_described(m, n - 1);
        let mid = m.released(n - 1);
        let k = m.streams[n - 1].index;
        mux_laws::lemma_emitted_pages(mid, k, mid.writers[k].released().ready);
    }
}

proof fn lemma_reserved_described(m: MuxView, n: int)
    requires
        m.skeleton is Some,
    ensures
        m.reserved(n).skeleton is Some,
        m.reserved(n).skeleton->Some_0.serial == m.skeleton->Some_0.serial,
        m.reserved(n).skeleton->Some_0.emitted_head == m.skeleton->Some_0.emitted_head,
    decreases n,
{
    if n > 0 {
        lemma_reserved_described(m, n - 1);
    }
}

/// No page of the Skeleton is written behind the headers.
proof fn lemma_none_behind(
    position: u64,
    streams: Seq<StreamInfoView>,
    skel: SkeletonView,
    config: Option<AutoIndexConfig>,
    packets: Seq<PacketView>,
)
    requires
        mux_laws::sound_setup(streams, Some(skel), config),
        muxer::initial(position, streams, Some(skel), config).headers_fit(),
        link_laws::addressed(streams, packets),
        muxer::initial(position, streams, Some(skel), config).with_headers().skeleton is Some,
    ensures
        ({
            let headed = muxer::initial(position, streams, Some(skel), config).with_headers();
            let o = headed.skeleton->Some_0;
            mux_laws::of_serial(mux_laws::run(headed, packets).ended().wire.pages, o.serial)
                == mux_laws::of_serial(headed.wire.pages, o.serial)
        }),
{
    let headed = muxer::initial(position, streams, Some(skel), config).with_headers();
    let o = headed.skeleton->Some_0;
    let content = mux_laws::law_headers(position, streams, Some(skel), config);
    assert forall|i: int| 0 <= i < packets.len() implies headed.writers.contains_key(
        (#[trigger] packets[i]).stream_index,
    ) by {
        let j = choose|j: int|
            0 <= j < streams.len() && (#[trigger] streams[j]).index == packets[i].stream_index;
        assert(headed.writers.contains_key(streams[j].index));
    }
    lemma_other_run(headed, content, packets, o.serial);
    let now = mux_laws::lemma_run(headed, content, packets);
    let ran = mux_laws::run(headed, packets);
    tidy::lemma_run_described(headed, packets);
    assert(mux_laws::all_there(ran)) by {
        assert forall|i: int| 0 <= i < ran.streams.len() implies ran.writers.contains_key(
            (#[trigger] ran.streams[i]).index,
        ) by {
            assert(headed.writers.contains_key(streams[i].index));
        }
    }
    lemma_other_closed(ran, now, ran.streams.len() as int, o.serial);
}

/// With a Skeleton, the page of the `fishead` is the first of all, the pages that
/// open the streams follow in their order, and the page that closes the Skeleton
/// is the last of the headers: behind it no page of the Skeleton stands, and
/// there content begins, at the offset that the Skeleton is to tell.
pub proof fn law_skeleton_order(
    position: u64,
    streams: Seq<StreamInfoView>,
    skel: SkeletonView,
    config: Option<AutoIndexConfig>,
    packets: Seq<PacketView>,
)
    requires
        mux_laws::sound_setup(streams, Some(skel), config),
        muxer::initial(position, streams, Some(skel), config).headers_fit(),
        link_laws::opens_all(streams),
        link_laws::addressed(streams, packets),
    ensures
        ({
            let n = streams.len() as int;
            let headed = muxer::initial(position, streams, Some(skel), config).with_headers();
            let o = headed.skeleton->Some_0;
            let pages = mux_laws::run(headed, packets).ended().wire.pages;
            let own = serials::assigned(Set::empty(), streams);
            let c = headed.wire.pages.len() as int;
            &&& n + 1 < c <= pages.len()
            &&& pages.take(c) == headed.wire.pages
            &&& o.emitted_head is Some
            &&& pages[0] == muxer::skeleton_page(
                o.serial,
                0,
                flags::FIRST_PAGE,
                o.emitted_head->Some_0.encoded(),
            )
            &&& pages.subrange(1, n + 1) == link_laws::head_pages(streams, own)
            &&& pages[c - 1].serial == o.serial
            &&& pages[c - 1].flags == flags::LAST_PAGE
            &&& pages[c - 1].data.len() == 0
            &&& forall|q: int| c <= q < pages.len() ==> (#[trigger] pages[q]).serial != o.serial
            &&& o.content_offset == Some(index_laws::place(position, pages, c))
        }),
{
    let n = streams.len() as int;
    let m = muxer::initial(position, streams, Some(skel), config);
    let headed = m.with_headers();
    let o = headed.skeleton->Some_0;
    lemma_header_pages(position, streams, skel, config);
    lemma_rest_behind(headed, packets);
    let front = headed.wire.pages;
    let rest = mux_laws::run(emptied(headed), packets).ended().wire.pages;
    let pages = mux_laws::run(headed, packets).ended().wire.pages;
    let c = front.len() as int;
    assert(pages == front + rest);
    assert(pages.take(c) =~= front);
    assert(pages.subrange(1, n + 1) =~= front.subrange(1, n + 1));
    lemma_none_behind(position, streams, skel, config, packets);
    mux_laws::lemma_of_serial_concat(front, rest, o.serial);
    assert(mux_laws::of_serial(rest, o.serial).len() == 0);
    assert forall|q: int| c <= q < pages.len() implies (#[trigger] pages[q]).serial != o.serial by {
        if pages[q].serial == o.serial {
            assert(rest[q - c] == pages[q]);
            validate_group::lemma_ranked(rest, q - c);
        }
    }
    assert(front.take(c) =~= front);
    index_laws::lemma_header_position(position, streams, Some(skel), config);
}

/// A `fishead` that leaves them open is filled in with the length of the whole
/// file and with the offset at which the page behind the headers begins.
pub proof fn law_measured_head(
    streams: Seq<StreamInfoView>,
    skel: SkeletonView,
    config: Option<AutoIndexConfig>,
    packets: Seq<PacketView>,
)
    requires
        index_laws::writable(streams, Some(skel), config, packets),
        link_laws::opens_all(streams),
        framing::bytes_of(
            index_laws::finished(0, streams, Some(skel), config, packets).wire.pages,
        ).len() <= u64::MAX,
    ensures
        ({
            let m = index_laws::finished(0, streams, Some(skel), config, packets);
            let c = muxer::initial(0, streams, Some(skel), config).with_headers().wire.pages.len();
            let head = m.skeleton->Some_0.emitted_head->Some_0;
            let pages = m.wire.pages;
            &&& muxer::unknown(head.segment_length) ==> m.measured_head().segment_length == Some(
                framing::bytes_of(pages).len() as u64,
            )
            &&& muxer::unknown(head.content_byte_offset) ==> m.measured_head().content_byte_offset
                == Some(framing::bytes_of(pages.take(c as int)).len() as u64)
        }),
{
    let m = index_laws::finished(0, streams, Some(skel), config, packets);
    let headed = muxer::initial(0, streams, Some(skel), config).with_headers();
    let pages = m.wire.pages;
    let c = headed.wire.pages.len() as int;
    let base = index_laws::lemma_finished_places(0, streams, Some(skel), config, packets);
    law_skeleton_order(0, streams, skel, config, packets);
    let ran = mux_laws::run(headed, packets);
    tidy::lemma_run_described(headed, packets);
    tidy::lemma_closed_described(ran, ran.streams.len() as int);
    assert(pages.take(pages.len() as int) =~= pages);
    patch_laws::lemma_bytes_concat(pages.take(c), pages.skip(c));
    assert(pages.take(c) + pages.skip(c) =~= pages);
    patch_laws::lemma_bytes_concat(pages.take(1), pages.skip(1));
    assert(pages.take(1) + pages.skip(1) =~= pages);
    assert(pages.take(1) =~= seq![pages[0]]);
    patch_laws::lemma_bytes_one(pages[0]);
    assert(pages[0].wf());
    page::law_parse_encoded(pages[0], Seq::empty());
    assert(framing::bytes_of(pages).len() > 0);
}

proof fn lemma_largest(all: Seq<u32>, i: int)
    requires
        0 <= i < all.len(),
    ensures
        all[i] <= muxer::largest(all),
    decreases all.len(),
{
    if i < all.len() - 1 {
        lemma_largest(all.drop_last(), i);
    }
}

/// A Skeleton that is given no serial gets one that no stream has: the one behind
/// the largest of theirs, where there is one.
pub proof fn law_skeleton_serial(
    position: u64,
    streams: Seq<StreamInfoView>,
    skel: SkeletonView,
    config: Option<AutoIndexConfig>,
)
    requires
        skel.serial is None,
        streams.len() < serials::SERIAL_COUNT,
    ensures
        ({
            let own = serials::assigned(Set::empty(), streams);
            let m = muxer::initial(position, streams, Some(skel), config);
            let serial = m.skeleton->Some_0.serial;
            &&& !own.contains(serial)
            &&& muxer::largest(own) < u32::MAX ==> serial == muxer::largest(own) + 1
        }),
{
    let own = serials::assigned(Set::empty(), streams);
    serials::law_assigned(Set::empty(), streams);
    let used = Set::empty() + own.to_set();
    let next = stream_writer::successor(muxer::largest(own));
    serials::law_next_free(used, next);
    let m = muxer::initial(position, streams, Some(skel), config);
    let serial = m.skeleton->Some_0.serial;
    assert(serial == serials::next_free(used, next));
    if own.contains(serial) {
        assert(used.contains(serial));
    }
    if muxer::largest(own) < u32::MAX {
        assert(!used.contains(next)) by {
            if used.contains(next) {
                let i = choose|i: int| 0 <= i < own.len() && own[i] == next;
                lemma_largest(own, i);
            }
        }
    }
}

} // verus!
