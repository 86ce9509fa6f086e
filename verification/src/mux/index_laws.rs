//! Where the indexes of a Skeleton point, and where they stand.
use crate::framing;
use crate::mux::auto_index;
use crate::mux::auto_index::{AutoIndexConfig, AutoIndexView};
use crate::mux::link_laws;
use crate::mux::mux_laws;
use crate::mux::muxer;
use crate::mux::muxer::MuxView;
use crate::mux::serials;
use crate::mux::stream_laws;
use crate::mux::stream_writer;
use crate::mux::stream_writer::{PendingView, StreamView};
use crate::mux::tidy;
use crate::page;
use crate::page::{flags, PageView};
use crate::skeleton::state::SkeletonView;
use crate::stream;
use crate::stream::{PacketView, StreamInfoView};
use vstd::prelude::*;

verus! {

/// Where page `q` begins, for a sink that stood at `position` before the first
/// page. Cut off at the end of the range.
pub open spec fn place(position: u64, pages: Seq<PageView>, q: int) -> u64 {
    let at = position + framing::bytes_of(pages.take(q)).len();
    if at > u64::MAX {
        u64::MAX
    } else {
        at as u64
    }
}

/// Page `q` is of the bitstream `serial` and begins at `offset`.
pub open spec fn found_at(
    position: u64,
    pages: Seq<PageView>,
    q: int,
    serial: u32,
    offset: u64,
) -> bool {
    0 <= q < pages.len() && pages[q].serial == serial && offset == place(position, pages, q)
}

/// A page of the bitstream `serial` begins at `offset`.
pub open spec fn begins_at(
    position: u64,
    pages: Seq<PageView>,
    serial: u32,
    offset: u64,
) -> bool {
    exists|q: int| found_at(position, pages, q, serial, offset)
}

/// Every keypoint of an index is where a page of its stream begins.
pub open spec fn points_at_pages(
    position: u64,
    pages: Seq<PageView>,
    a: AutoIndexView,
) -> bool {
    forall|j: int|
        0 <= j < a.keypoints.len() ==> begins_at(
            position,
            pages,
            a.serial,
            (#[trigger] a.keypoints[j]).offset,
        )
}

/// Page `q` keeps the place of an index: a page of the Skeleton with a packet of
/// the reserved length.
pub open spec fn keeps_place(
    position: u64,
    pages: Seq<PageView>,
    q: int,
    serial: u32,
    a: AutoIndexView,
) -> bool {
    a.placeholder matches Some((offset, seq_no)) && {
        &&& found_at(position, pages, q, serial, offset)
        &&& pages[q].flags == 0
        &&& pages[q].granule_position == 0
        &&& pages[q].seq_no == seq_no
        &&& pages[q].lacing == page::laced(a.reserved_len() as nat)
        &&& pages[q].data.len() == a.reserved_len()
    }
}

/// The index points at pages, and page `q`, if any, keeps its place.
#[verifier::opaque]
spec fn entry(
    position: u64,
    pages: Seq<PageView>,
    q: Option<int>,
    serial: u32,
    a: AutoIndexView,
) -> bool {
    &&& a.wf()
    &&& points_at_pages(position, pages, a)
    &&& match q {
        Some(q) => keeps_place(position, pages, q, serial, a),
        None => a.placeholder is None,
    }
}

/// Where the places of `total` indexes are: from page `first` on, for the first
/// `count` of them.
pub struct Places {
    pub first: int,
    pub count: int,
    pub total: int,
}

/// None of `total` indexes has a place.
spec fn nowhere(total: int) -> Places {
    Places { first: 0, count: 0, total }
}

/// The page for index `i`.
spec fn nth(base: Places, i: int) -> Option<int> {
    if i < base.count {
        Some(base.first + i)
    } else {
        None
    }
}

/// The index is that of one of the streams.
spec fn of_stream(m: MuxView, a: AutoIndexView) -> bool {
    m.writers.contains_key(a.stream_index) && m.writers[a.stream_index].serial == a.serial
}

/// A `fishead` that has been written stands on the first page.
pub open spec fn begun_by_head(m: MuxView) -> bool {
    m.skeleton matches Some(o) ==> (o.emitted_head matches Some(head) ==> {
        &&& m.wire.pages.len() > 0
        &&& m.wire.pages[0] == muxer::skeleton_page(
            o.serial,
            0,
            flags::FIRST_PAGE,
            head.encoded(),
        )
    })
}

/// The position is right, and so are the indexes and their places.
spec fn indexed(position: u64, m: MuxView, base: Places) -> bool {
    &&& m.wire.position == place(position, m.wire.pages, m.wire.pages.len() as int)
    &&& m.auto.len() > 0 ==> m.skeleton is Some
    &&& begun_by_head(m)
    &&& base.total == m.auto.len()
    &&& forall|i: int|
        0 <= i < m.auto.len() ==> of_stream(m, #[trigger] m.auto[i]) && entry(
            position,
            m.wire.pages,
            nth(base, i),
            m.skeleton->Some_0.serial,
            m.auto[i],
        )
}

proof fn lemma_place_grows(position: u64, pages: Seq<PageView>, p: PageView, q: int)
    requires
        0 <= q <= pages.len(),
    ensures
        place(position, pages.push(p), q) == place(position, pages, q),
        p.wf() ==> place(position, pages.push(p), (pages.len() + 1) as int) == (if place(
            position,
            pages,
            pages.len() as int,
        ) + p.encoded_len() > u64::MAX {
            u64::MAX as int
        } else {
            place(position, pages, pages.len() as int) + p.encoded_len()
        }),
{
    let more = pages.push(p);
    assert(more.take(q) =~= pages.take(q));
    assert(more.take((pages.len() + 1) as int) =~= more);
    assert(more.drop_last() =~= pages);
    assert(pages.take(pages.len() as int) =~= pages);
    if p.wf() {
        page::law_parse_encoded(p, Seq::empty());
    }
}

proof fn lemma_entry_grows(
    position: u64,
    pages: Seq<PageView>,
    p: PageView,
    q: Option<int>,
    serial: u32,
    a: AutoIndexView,
)
    requires
        entry(position, pages, q, serial, a),
    ensures
        entry(position, pages.push(p), q, serial, a),
{
    reveal(entry);
    let more = pages.push(p);
    assert forall|j: int| 0 <= j < a.keypoints.len() implies begins_at(
        position,
        more,
        a.serial,
        (#[trigger] a.keypoints[j]).offset,
    ) by {
        let offset = a.keypoints[j].offset;
        let q = choose|q: int| found_at(position, pages, q, a.serial, offset);
        lemma_place_grows(position, pages, p, q);
        assert(found_at(position, more, q, a.serial, offset));
    }
    if a.placeholder is Some {
        lemma_place_grows(position, pages, p, q->Some_0);
    }
}

/// A keypoint for the page that is put last.
proof fn lemma_entry_offered(
    position: u64,
    pages: Seq<PageView>,
    p: PageView,
    q: Option<int>,
    serial: u32,
    a: AutoIndexView,
    pts: i64,
)
    requires
        entry(position, pages, q, serial, a),
        p.serial == a.serial,
    ensures
        entry(
            position,
            pages.push(p),
            q,
            serial,
            a.offered(place(position, pages, pages.len() as int), pts),
        ),
{
    lemma_entry_grows(position, pages, p, q, serial, a);
    reveal(entry);
    let more = pages.push(p);
    let offset = place(position, pages, pages.len() as int);
    let b = a.offered(offset, pts);
    auto_index::law_limits_kept(a, offset, pts);
    lemma_place_grows(position, pages, p, pages.len() as int);
    assert forall|j: int| 0 <= j < b.keypoints.len() implies begins_at(
        position,
        more,
        b.serial,
        (#[trigger] b.keypoints[j]).offset,
    ) by {
        if j < a.keypoints.len() {
            assert(b.keypoints[j] == a.keypoints[j]);
        } else {
            assert(found_at(position, more, pages.len() as int, b.serial, offset));
        }
    }
}

/// The page that is put carries the serial of the stream.
proof fn lemma_indexed_emitted(position: u64, m: MuxView, base: Places, index: u32, p: PendingView)
    requires
        indexed(position, m, base),
        p.page.wf(),
        m.writers.contains_key(index),
        p.page.serial == m.writers[index].serial,
    ensures
        indexed(position, m.emitted(index, p), base),
{
    let after = m.emitted(index, p);
    let pages = m.wire.pages;
    lemma_place_grows(position, pages, p.page, pages.len() as int);
    lemma_first_found(m.auto, index, 0);
    assert forall|i: int| 0 <= i < after.auto.len() implies of_stream(
        after,
        #[trigger] after.auto[i],
    ) && entry(
        position,
        after.wire.pages,
        nth(base, i),
        after.skeleton->Some_0.serial,
        after.auto[i],
    ) by {
        let a = m.auto[i];
        assert(of_stream(m, m.auto[i]));
        if p.first_keyframe_pts is Some && muxer::first_of(m.auto, index, 0) == Some(i) {
            lemma_entry_offered(
                position,
                pages,
                p.page,
                nth(base, i),
                m.skeleton->Some_0.serial,
                a,
                p.first_keyframe_pts->Some_0,
            );
        } else {
            assert(after.auto[i] == a);
            lemma_entry_grows(
                position,
                pages,
                p.page,
                nth(base, i),
                m.skeleton->Some_0.serial,
                a,
            );
        }
    }
}

proof fn lemma_first_found(auto: Seq<AutoIndexView>, index: u32, from: int)
    requires
        0 <= from,
    ensures
        muxer::first_of(auto, index, from) matches Some(i) ==> from <= i < auto.len()
            && auto[i].stream_index == index,
    decreases auto.len() - from,
{
    if from < auto.len() && auto[from].stream_index != index {
        lemma_first_found(auto, index, from + 1);
    }
}

proof fn lemma_indexed_emitted_all(
    position: u64,
    m: MuxView,
    base: Places,
    index: u32,
    list: Seq<PendingView>,
)
    requires
        indexed(position, m, base),
        m.writers.contains_key(index),
        forall|i: int|
            0 <= i < list.len() ==> (#[trigger] list[i]).page.wf() && list[i].page.serial
                == m.writers[index].serial,
    ensures
        indexed(position, m.emitted_all(index, list), base),
        m.emitted_all(index, list).writers == m.writers,
    decreases list.len(),
{
    if list.len() > 0 {
        let front = list.drop_last();
        assert forall|i: int| 0 <= i < front.len() implies (#[trigger] front[i]).page.wf()
            && front[i].page.serial == m.writers[index].serial by {
            assert(list[i] == front[i]);
        }
        lemma_indexed_emitted_all(position, m, base, index, front);
        assert(list[list.len() - 1].page.wf());
        lemma_indexed_emitted(position, m.emitted_all(index, front), base, index, list.last());
    }
}

proof fn lemma_indexed_settled(position: u64, m: MuxView, base: Places, k: u32, s: StreamView)
    requires
        indexed(position, m, base),
        m.writers.contains_key(k),
        s.serial == m.writers[k].serial,
        forall|i: int|
            0 <= i < s.ready.len() ==> (#[trigger] s.ready[i]).page.wf() && s.ready[i].page.serial
                == s.serial,
    ensures
        indexed(position, m.settled(k, s), base),
{
    lemma_indexed_emitted_all(position, m, base, k, s.ready);
    let e = m.emitted_all(k, s.ready);
    let after = m.settled(k, s);
    assert forall|i: int| 0 <= i < after.auto.len() implies of_stream(
        after,
        #[trigger] after.auto[i],
    ) && entry(
        position,
        after.wire.pages,
        nth(base, i),
        after.skeleton->Some_0.serial,
        after.auto[i],
    ) by {
        assert(of_stream(e, e.auto[i]));
    }
}

proof fn lemma_indexed_packet(
    position: u64,
    m: MuxView,
    base: Places,
    content: Map<u32, Seq<Seq<u8>>>,
    p: PacketView,
)
    requires
        indexed(position, m, base),
        mux_laws::faithful(m, content),
        m.writers.contains_key(p.stream_index),
    ensures
        indexed(position, m.packet(p), base),
{
    let k = p.stream_index;
    let s = m.writers[k];
    assert(mux_laws::lane_holds(m, content, k));
    stream_laws::lemma_written_consistent(s, p);
    tidy::lemma_written_serial(s, p);
    lemma_indexed_settled(position, m, base, k, s.written(p));
    let mid = m.settled(k, s.written(p));
    let after = m.packet(p);
    lemma_first_found(mid.auto, k, 0);
    assert forall|i: int| 0 <= i < after.auto.len() implies of_stream(
        after,
        #[trigger] after.auto[i],
    ) && entry(
        position,
        after.wire.pages,
        nth(base, i),
        after.skeleton->Some_0.serial,
        after.auto[i],
    ) by {
        assert(of_stream(mid, mid.auto[i]));
        reveal(entry);
        if let Some(t) = p.pts {
            auto_index::law_limits_kept(mid.auto[i], 0, t);
        }
        assert(after.auto[i].keypoints == mid.auto[i].keypoints);
    }
}

proof fn lemma_indexed_opened(
    position: u64,
    m: MuxView,
    base: Places,
    content: Map<u32, Seq<Seq<u8>>>,
    n: int,
)
    requires
        indexed(position, m, base),
        mux_laws::faithful(m, content),
        mux_laws::all_there(m),
        mux_laws::untouched(m, 0),
        m.headers_fit(),
        mux_laws::distinct_streams(m.streams),
        0 <= n <= m.streams.len(),
        mux_laws::content_is(m, content, 0, |i: int| Seq::empty()),
    ensures
        indexed(position, m.opened(n), base),
    decreases n,
{
    if n > 0 {
        lemma_indexed_opened(position, m, base, content, n - 1);
        let before = mux_laws::lemma_opened(m, content, n - 1);
        let mid = m.opened(n - 1);
        let k = m.streams[n - 1].index;
        let s = mid.writers[k];
        let q = m.headers(n - 1);
        assert(mid.streams[n - 1] == m.streams[n - 1]);
        assert(mid.writers.contains_key(k));
        if q.len() > 0 && s.headers > 0 {
            assert(stream_writer::fits_page(q[0]));
            page::law_laced(q[0].len());
            lemma_indexed_settled(position, mid, base, k, s.opened(q[0]));
        }
    }
}

proof fn lemma_indexed_more(
    position: u64,
    m: MuxView,
    base: Places,
    content: Map<u32, Seq<Seq<u8>>>,
    k: u32,
    packets: Seq<Seq<u8>>,
)
    requires
        indexed(position, m, base),
        mux_laws::faithful(m, content),
        m.writers.contains_key(k),
    ensures
        indexed(position, m.more_headers(k, packets), base),
    decreases packets.len(),
{
    if packets.len() > 0 {
        let front = packets.drop_last();
        lemma_indexed_more(position, m, base, content, k, front);
        mux_laws::lemma_more_headers(m, content, k, front);
        let mid = m.more_headers(k, front);
        assert(mid.writers.contains_key(k));
        lemma_indexed_packet(
            position,
            mid,
            base,
            content.insert(k, content[k] + front),
            stream::bare_packet(k, packets.last()),
        );
    }
}

proof fn lemma_indexed_continued(
    position: u64,
    m: MuxView,
    base: Places,
    content: Map<u32, Seq<Seq<u8>>>,
    n: int,
    what: spec_fn(int) -> Seq<Seq<u8>>,
)
    requires
        indexed(position, m, base),
        mux_laws::faithful(m, content),
        mux_laws::all_there(m),
        mux_laws::distinct_streams(m.streams),
        0 <= n <= m.streams.len(),
        forall|i: int|
            0 <= i < m.streams.len() ==> content[(#[trigger] m.streams[i]).index] == what(i),
    ensures
        indexed(position, m.continued(n), base),
    decreases n,
{
    if n > 0 {
        lemma_indexed_continued(position, m, base, content, n - 1, what);
        let before = mux_laws::lemma_continued(m, content, n - 1, what);
        let mid = m.continued(n - 1);
        let k = m.streams[n - 1].index;
        assert(mid.streams[n - 1].index == k);
        assert(mid.writers.contains_key(k));
        lemma_indexed_more(
            position,
            mid,
            base,
            before,
            k,
            muxer::behind_first(m.headers(n - 1)),
        );
    }
}

proof fn lemma_indexed_released(
    position: u64,
    m: MuxView,
    base: Places,
    content: Map<u32, Seq<Seq<u8>>>,
    n: int,
)
    requires
        indexed(position, m, base),
        mux_laws::faithful(m, content),
        mux_laws::all_there(m),
        0 <= n <= m.streams.len(),
    ensures
        indexed(position, m.released(n), base),
    decreases n,
{
    if n > 0 {
        lemma_indexed_released(position, m, base, content, n - 1);
        mux_laws::lemma_released(m, content, n - 1);
        let mid = m.released(n - 1);
        let k = m.streams[n - 1].index;
        assert(mid.streams[n - 1].index == k);
        assert(mid.writers.contains_key(k));
        assert(mux_laws::lane_holds(mid, content, k));
        stream_laws::lemma_closed_consistent(mid.writers[k]);
        lemma_indexed_settled(position, mid, base, k, mid.writers[k].released());
    }
}

proof fn lemma_indexed_closed(
    position: u64,
    m: MuxView,
    base: Places,
    content: Map<u32, Seq<Seq<u8>>>,
    n: int,
)
    requires
        indexed(position, m, base),
        mux_laws::faithful(m, content),
        mux_laws::all_there(m),
        mux_laws::distinct_streams(m.streams),
        0 <= n <= m.streams.len(),
    ensures
        indexed(position, m.closed_off(n), base),
    decreases n,
{
    if n > 0 {
        lemma_indexed_closed(position, m, base, content, n - 1);
        mux_laws::lemma_closed_off(m, content, n - 1);
        let mid = m.closed_off(n - 1);
        let k = m.streams[n - 1].index;
        assert(mid.streams[n - 1].index == k);
        assert(mid.writers.contains_key(k));
        assert(mux_laws::lane_holds(mid, content, k));
        stream_laws::lemma_closed_consistent(mid.writers[k]);
        lemma_indexed_settled(position, mid, base, k, mid.writers[k].closed_off());
    }
}

proof fn lemma_indexed_run(
    position: u64,
    m: MuxView,
    base: Places,
    content: Map<u32, Seq<Seq<u8>>>,
    packets: Seq<PacketView>,
)
    requires
        indexed(position, m, base),
        mux_laws::faithful(m, content),
        forall|i: int|
            0 <= i < packets.len() ==> m.writers.contains_key(
                (#[trigger] packets[i]).stream_index,
            ),
    ensures
        indexed(position, mux_laws::run(m, packets), base),
    decreases packets.len(),
{
    if packets.len() > 0 {
        let front = packets.drop_last();
        assert forall|i: int| 0 <= i < front.len() implies m.writers.contains_key(
            (#[trigger] front[i]).stream_index,
        ) by {
            assert(packets[i] == front[i]);
        }
        lemma_indexed_run(position, m, base, content, front);
        let between = mux_laws::lemma_run(m, content, front);
        let mid = mux_laws::run(m, front);
        assert(m.writers.contains_key(packets[packets.len() - 1].stream_index));
        assert(mid.writers.contains_key(packets.last().stream_index));
        lemma_indexed_packet(position, mid, base, between, packets.last());
    }
}

proof fn lemma_indexed_described(
    position: u64,
    m: MuxView,
    base: Places,
    packet: Seq<u8>,
    marks: u8,
)
    requires
        indexed(position, m, base),
        m.skeleton is Some,
        stream_writer::fits_page(packet),
    ensures
        indexed(position, m.described(packet, marks), base),
{
    let o = m.skeleton->Some_0;
    let p = muxer::skeleton_page(o.serial, o.seq_no, marks, packet);
    let after = m.described(packet, marks);
    page::law_laced(packet.len());
    lemma_place_grows(position, m.wire.pages, p, m.wire.pages.len() as int);
    assert forall|i: int| 0 <= i < after.auto.len() implies of_stream(
        after,
        #[trigger] after.auto[i],
    ) && entry(position, after.wire.pages, nth(base, i), o.serial, after.auto[i]) by {
        assert(of_stream(m, m.auto[i]));
        lemma_entry_grows(position, m.wire.pages, p, nth(base, i), o.serial, m.auto[i]);
    }
}

proof fn lemma_indexed_described_all(
    position: u64,
    m: MuxView,
    base: Places,
    packets: Seq<Seq<u8>>,
)
    requires
        indexed(position, m, base),
        m.skeleton is Some,
        forall|i: int|
            0 <= i < packets.len() ==> stream_writer::fits_page(#[trigger] packets[i]),
    ensures
        indexed(position, m.described_all(packets), base),
        m.described_all(packets).skeleton is Some,
        m.described_all(packets).auto == m.auto,
    decreases packets.len(),
{
    if packets.len() > 0 {
        let front = packets.drop_last();
        assert forall|i: int| 0 <= i < front.len() implies stream_writer::fits_page(
            #[trigger] front[i],
        ) by {
            assert(packets[i] == front[i]);
        }
        lemma_indexed_described_all(position, m, base, front);
        assert(stream_writer::fits_page(packets[packets.len() - 1]));
        lemma_indexed_described(position, m.described_all(front), base, packets.last(), 0);
    }
}

/// The places are kept one behind the other.
proof fn lemma_indexed_reserved(position: u64, m: MuxView, n: int)
    requires
        indexed(position, m, Places { first: m.wire.pages.len() as int, count: 0, total: m.auto.len() as int }),
        m.skeleton is Some,
        0 <= n <= m.auto.len(),
    ensures
        ({
            let after = m.reserved(n);
            &&& head_known(m) ==> head_known(after)
            &&& indexed(
                position,
                after,
                Places {
                    first: m.wire.pages.len() as int,
                    count: n,
                    total: m.auto.len() as int,
                },
            )
            &&& after.wire.pages.len() == m.wire.pages.len() + n
            &&& after.skeleton is Some
            &&& after.auto.len() == m.auto.len()
        }),
    decreases n,
{
    if n > 0 {
        let base = Places {
            first: m.wire.pages.len() as int,
            count: n - 1,
            total: m.auto.len() as int,
        };
        let more = Places { count: n, ..base };
        lemma_indexed_reserved(position, m, n - 1);
        let mid = m.reserved(n - 1);
        let a = mid.auto[n - 1];
        assert(of_stream(mid, mid.auto[n - 1]));
        assert(a.wf()) by {
            reveal(entry);
        }
        auto_index::law_index_fits(a.vacant());
        let packet = a.vacant().packet();
        lemma_indexed_described(position, mid, base, packet, 0);
        let d = mid.described(packet, 0);
        let after = m.reserved(n);
        let o = mid.skeleton->Some_0;
        lemma_place_grows(
            position,
            mid.wire.pages,
            d.wire.pages.last(),
            mid.wire.pages.len() as int,
        );
        assert forall|i: int| 0 <= i < after.auto.len() implies of_stream(
            after,
            #[trigger] after.auto[i],
        ) && entry(position, after.wire.pages, nth(more, i), o.serial, after.auto[i]) by {
            assert(of_stream(d, d.auto[i]));
            if i == n - 1 {
                reveal(entry);
                assert(after.auto[i].keypoints == d.auto[i].keypoints);
            }
        }
    }
}

/// The indexes that are built begin without keypoints and without a place.
proof fn lemma_built(
    streams: Seq<StreamInfoView>,
    writers: Map<u32, StreamView>,
    skel: SkeletonView,
    config: AutoIndexConfig,
)
    requires
        forall|i: int|
            0 <= i < streams.len() ==> writers.contains_key((#[trigger] streams[i]).index),
    ensures
        forall|i: int|
            0 <= i < muxer::built_indexes(streams, writers, skel, config).len() ==> {
                let a = #[trigger] muxer::built_indexes(streams, writers, skel, config)[i];
                &&& a.placeholder is None
                &&& a.keypoints.len() == 0
                &&& writers.contains_key(a.stream_index)
                &&& writers[a.stream_index].serial == a.serial
            },
    decreases streams.len(),
{
    if streams.len() > 0 {
        let front = streams.drop_last();
        assert forall|i: int| 0 <= i < front.len() implies writers.contains_key(
            (#[trigger] front[i]).index,
        ) by {
            assert(streams[i] == front[i]);
        }
        lemma_built(front, writers, skel, config);
        assert(writers.contains_key(streams[streams.len() - 1].index));
    }
}

/// Before anything is written the indexes are right.
proof fn lemma_indexed_initial(
    position: u64,
    streams: Seq<StreamInfoView>,
    skeleton: Option<SkeletonView>,
    config: Option<AutoIndexConfig>,
)
    requires
        mux_laws::sound_setup(streams, skeleton, config),
    ensures
        ({
            let m = muxer::initial(position, streams, skeleton, config);
            indexed(position, m, nowhere(m.auto.len() as int))
        }),
{
    let m = muxer::initial(position, streams, skeleton, config);
    serials::law_assigned(Set::empty(), streams);
    mux_laws::lemma_fresh_lanes(streams, serials::assigned(Set::empty(), streams));
    assert(m.wire.pages.take(0) =~= Seq::empty());
    assert(framing::bytes_of(m.wire.pages.take(0)).len() == 0);
    reveal(entry);
    if let (Some(skel), Some(c)) = (skeleton, config) {
        lemma_built(streams, m.writers, skel, c);
        muxer::lemma_built_wf(streams, m.writers, skel, c);
    }
}

/// Without places it does not matter where they would be.
proof fn lemma_rebased(position: u64, m: MuxView, first: int)
    requires
        indexed(position, m, nowhere(m.auto.len() as int)),
    ensures
        indexed(position, m, Places { first, count: 0, total: m.auto.len() as int }),
{
    let base = Places { first, count: 0, total: m.auto.len() as int };
    let none = nowhere(m.auto.len() as int);
    assert forall|i: int| 0 <= i < m.auto.len() implies of_stream(m, #[trigger] m.auto[i]) && entry(
        position,
        m.wire.pages,
        nth(base, i),
        m.skeleton->Some_0.serial,
        m.auto[i],
    ) by {
        assert(nth(base, i) == nth(none, i));
    }
}

/// Only the pages, the streams, the indexes and the Skeleton's head matter.
proof fn lemma_indexed_alike(position: u64, m: MuxView, after: MuxView, base: Places)
    requires
        indexed(position, m, base),
        after.wire == m.wire,
        after.writers == m.writers,
        after.auto == m.auto,
        m.skeleton is Some == after.skeleton is Some,
        m.skeleton matches Some(o) ==> after.skeleton->Some_0.serial == o.serial,
        begun_by_head(after),
    ensures
        indexed(position, after, base),
{
    assert forall|i: int| 0 <= i < after.auto.len() implies of_stream(
        after,
        #[trigger] after.auto[i],
    ) && entry(
        position,
        after.wire.pages,
        nth(base, i),
        after.skeleton->Some_0.serial,
        after.auto[i],
    ) by {
        assert(of_stream(m, m.auto[i]));
    }
}

/// The rest of a Skeleton gives every index its place.
proof fn lemma_indexed_skeleton(
    position: u64,
    m: MuxView,
    content: Map<u32, Seq<Seq<u8>>>,
) -> (base: Places)
    requires
        indexed(position, m, nowhere(m.auto.len() as int)),
        mux_laws::faithful(m, content),
        mux_laws::all_there(m),
        m.skeleton is Some,
        m.skeleton->Some_0.emitted_head is Some,
        forall|i: int|
            0 <= i < m.secondary_packets().len() ==> stream_writer::fits_page(
                #[trigger] m.secondary_packets()[i],
            ),
    ensures
        indexed(position, m.with_skeleton(), base),
        base.first > 0,
        base.count == base.total == m.auto.len(),
        head_known(m) ==> head_known(m.with_skeleton()),
{
    let n = m.streams.len() as int;
    mux_laws::lemma_released(m, content, n);
    let none = nowhere(m.auto.len() as int);
    lemma_indexed_released(position, m, none, content, n);
    let r = m.released(n);
    assert(r.secondary_packets() =~= m.secondary_packets());
    let packets = r.secondary_packets();
    lemma_indexed_described_all(position, r, none, packets);
    lemma_described_head(r, packets);
    let d = r.described_all(packets);
    lemma_rebased(position, d, d.wire.pages.len() as int);
    lemma_indexed_reserved(position, d, d.auto.len() as int);
    let v = d.reserved(d.auto.len() as int);
    let base = Places {
        first: d.wire.pages.len() as int,
        count: d.auto.len() as int,
        total: d.auto.len() as int,
    };
    lemma_indexed_described(position, v, base, Seq::empty(), flags::LAST_PAGE);
    let e = v.described(Seq::empty(), flags::LAST_PAGE);
    lemma_indexed_alike(position, e, m.with_skeleton(), base);
    base
}

pub proof fn lemma_described_head(m: MuxView, packets: Seq<Seq<u8>>)
    requires
        m.skeleton is Some,
    ensures
        m.described_all(packets).skeleton is Some,
        m.described_all(packets).skeleton->Some_0.emitted_head
            == m.skeleton->Some_0.emitted_head,
        m.described_all(packets).skeleton->Some_0.serial == m.skeleton->Some_0.serial,
    decreases packets.len(),
{
    if packets.len() > 0 {
        lemma_described_head(m, packets.drop_last());
    }
}

/// The muxer in the end.
pub open spec fn finished(
    position: u64,
    streams: Seq<StreamInfoView>,
    skeleton: Option<SkeletonView>,
    config: Option<AutoIndexConfig>,
    packets: Seq<PacketView>,
) -> MuxView {
    mux_laws::run(
        muxer::initial(position, streams, skeleton, config).with_headers(),
        packets,
    ).ended()
}

/// Streams, a Skeleton and packets that can be written.
pub open spec fn writable(
    streams: Seq<StreamInfoView>,
    skeleton: Option<SkeletonView>,
    config: Option<AutoIndexConfig>,
    packets: Seq<PacketView>,
) -> bool {
    &&& mux_laws::sound_setup(streams, skeleton, config)
    &&& muxer::initial(0, streams, skeleton, config).headers_fit()
    &&& link_laws::addressed(streams, packets)
}

/// The `fishead` has been written.
spec fn head_known(m: MuxView) -> bool {
    m.skeleton matches Some(o) && (o.emitted_head matches Some(h) && h.utc.len() == 20)
}

proof fn lemma_indexed_begun(
    position: u64,
    streams: Seq<StreamInfoView>,
    skeleton: Option<SkeletonView>,
    config: Option<AutoIndexConfig>,
)
    requires
        mux_laws::sound_setup(streams, skeleton, config),
    ensures
        ({
            let start = mux_laws::begun(muxer::initial(position, streams, skeleton, config));
            &&& indexed(position, start, nowhere(start.auto.len() as int))
            &&& start.skeleton is Some == skeleton is Some
            &&& skeleton is Some ==> head_known(start)
        }),
{
    let m = muxer::initial(position, streams, skeleton, config);
    let start = mux_laws::begun(m);
    lemma_indexed_initial(position, streams, skeleton, config);
    let b = MuxView { header_written: true, ..m };
    let none = nowhere(m.auto.len() as int);
    lemma_indexed_alike(position, m, b, none);
    if skeleton is Some {
        let packet = b.head_to_write().encoded();
        assert(stream_writer::fits_page(packet));
        lemma_indexed_described(position, b, none, packet, flags::FIRST_PAGE);
        let d = b.described(packet, flags::FIRST_PAGE);
        lemma_indexed_alike(position, d, start, none);
    }
}

/// The header packets of the streams leave the indexes right.
proof fn lemma_indexed_headed(
    position: u64,
    start: MuxView,
    content: Map<u32, Seq<Seq<u8>>>,
    base: Places,
)
    requires
        indexed(position, start, base),
        mux_laws::faithful(start, content),
        mux_laws::all_there(start),
        mux_laws::untouched(start, 0),
        start.headers_fit(),
        mux_laws::distinct_streams(start.streams),
        mux_laws::content_is(start, content, 0, |i: int| Seq::empty()),
    ensures
        indexed(position, start.headed(), base),
{
    let n = start.streams.len() as int;
    lemma_indexed_opened(position, start, base, content, n);
    let between = mux_laws::lemma_opened(start, content, n);
    let opened = start.opened(n);
    let what = |i: int| between[opened.streams[i].index];
    lemma_indexed_continued(position, opened, base, between, n, what);
}

proof fn lemma_indexed_headers(
    position: u64,
    streams: Seq<StreamInfoView>,
    skeleton: Option<SkeletonView>,
    config: Option<AutoIndexConfig>,
) -> (base: Places)
    requires
        mux_laws::sound_setup(streams, skeleton, config),
        muxer::initial(position, streams, skeleton, config).headers_fit(),
    ensures
        ({
            let m = muxer::initial(position, streams, skeleton, config).with_headers();
            &&& indexed(position, m, base)
            &&& base.count == base.total
            &&& skeleton is Some ==> base.first > 0 && head_known(m)
        }),
{
    let m = muxer::initial(position, streams, skeleton, config);
    let content = mux_laws::lemma_begun(position, streams, skeleton, config);
    let start = mux_laws::begun(m);
    lemma_indexed_begun(position, streams, skeleton, config);
    let none = nowhere(start.auto.len() as int);
    lemma_indexed_headed(position, start, content, none);
    let headed = start.headed();
    if skeleton is Some {
        let now = mux_laws::lemma_headed(start, content);
        assert(headed.secondary_packets() =~= start.secondary_packets());
        lemma_indexed_skeleton(position, headed, now)
    } else {
        if let Some(c) = config {
            assert(m.auto.len() == 0);
        }
        none
    }
}

proof fn lemma_finished(
    position: u64,
    streams: Seq<StreamInfoView>,
    skeleton: Option<SkeletonView>,
    config: Option<AutoIndexConfig>,
    packets: Seq<PacketView>,
) -> (base: Places)
    requires
        writable(streams, skeleton, config, packets),
    ensures
        ({
            let m = finished(position, streams, skeleton, config, packets);
            &&& indexed(position, m, base)
            &&& base.count == base.total
            &&& skeleton is Some ==> base.first > 0 && head_known(m)
            &&& forall|i: int| 0 <= i < m.wire.pages.len() ==> (#[trigger] m.wire.pages[i]).wf()
        }),
{
    let m = muxer::initial(position, streams, skeleton, config);
    assert(m.headers_fit()) by {
        let z = muxer::initial(0, streams, skeleton, config);
        assert forall|i: int|
            0 <= i < m.streams.len() && (#[trigger] m.headers(i)).len() > 0
                && m.writers[m.streams[i].index].headers > 0 implies stream_writer::fits_page(
            m.headers(i)[0],
        ) by {
            assert(z.headers(i) == m.headers(i));
        }
        if skeleton is Some {
            assert(m.secondary_packets() =~= z.secondary_packets());
        }
    }
    let base = lemma_indexed_headers(position, streams, skeleton, config);
    let content = mux_laws::law_headers(position, streams, skeleton, config);
    let headed = m.with_headers();
    assert forall|i: int| 0 <= i < packets.len() implies headed.writers.contains_key(
        (#[trigger] packets[i]).stream_index,
    ) by {
        let j = choose|j: int|
            0 <= j < streams.len() && (#[trigger] streams[j]).index == packets[i].stream_index;
        assert(headed.writers.contains_key(streams[j].index));
    }
    lemma_indexed_run(position, headed, base, content, packets);
    let now = mux_laws::lemma_run(headed, content, packets);
    let ran = mux_laws::run(headed, packets);
    assert(mux_laws::all_there(ran)) by {
        assert forall|i: int| 0 <= i < ran.streams.len() implies ran.writers.contains_key(
            (#[trigger] ran.streams[i]).index,
        ) by {
            assert(headed.writers.contains_key(streams[i].index));
        }
    }
    let n = ran.streams.len() as int;
    lemma_indexed_closed(position, ran, base, now, n);
    mux_laws::lemma_closed_off(ran, now, n);
    let closed = ran.closed_off(n);
    let after = ran.ended();
    lemma_indexed_alike(position, closed, after, base);
    tidy::lemma_run_described(headed, packets);
    tidy::lemma_closed_described(ran, n);
    base
}

/// Every keypoint of every index that a muxer builds is where a page of the
/// indexed stream begins.
pub proof fn law_keypoints_at_pages(
    position: u64,
    streams: Seq<StreamInfoView>,
    skeleton: Option<SkeletonView>,
    config: Option<AutoIndexConfig>,
    packets: Seq<PacketView>,
    i: int,
)
    requires
        writable(streams, skeleton, config, packets),
        0 <= i < finished(position, streams, skeleton, config, packets).auto.len(),
    ensures
        ({
            let m = finished(position, streams, skeleton, config, packets);
            points_at_pages(position, m.wire.pages, m.auto[i])
        }),
{
    let base = lemma_finished(position, streams, skeleton, config, packets);
    let m = finished(position, streams, skeleton, config, packets);
    assert(of_stream(m, m.auto[i]));
    reveal(entry);
}

/// In the end every index has its place, one behind the other.
pub proof fn lemma_finished_places(
    position: u64,
    streams: Seq<StreamInfoView>,
    skeleton: Option<SkeletonView>,
    config: Option<AutoIndexConfig>,
    packets: Seq<PacketView>,
) -> (base: Places)
    requires
        writable(streams, skeleton, config, packets),
        skeleton is Some,
    ensures
        ({
            let m = finished(position, streams, skeleton, config, packets);
            &&& m.skeleton matches Some(o) && (o.emitted_head matches Some(h) && h.utc.len()
                == 20)
            &&& base.first > 0
            &&& m.wire.position == place(position, m.wire.pages, m.wire.pages.len() as int)
            &&& begun_by_head(m)
            &&& forall|i: int| 0 <= i < m.wire.pages.len() ==> (#[trigger] m.wire.pages[i]).wf()
            &&& forall|i: int|
                0 <= i < m.auto.len() ==> (#[trigger] m.auto[i]).wf() && keeps_place(
                    position,
                    m.wire.pages,
                    base.first + i,
                    m.skeleton->Some_0.serial,
                    m.auto[i],
                )
        }),
{
    let base = lemma_finished(position, streams, skeleton, config, packets);
    let m = finished(position, streams, skeleton, config, packets);
    assert forall|i: int| 0 <= i < m.auto.len() implies (#[trigger] m.auto[i]).wf() && keeps_place(
        position,
        m.wire.pages,
        base.first + i,
        m.skeleton->Some_0.serial,
        m.auto[i],
    ) by {
        assert(of_stream(m, m.auto[i]));
        reveal(entry);
    }
    base
}

/// The position behind the headers is where the next page will begin.
pub proof fn lemma_header_position(
    position: u64,
    streams: Seq<StreamInfoView>,
    skeleton: Option<SkeletonView>,
    config: Option<AutoIndexConfig>,
)
    requires
        mux_laws::sound_setup(streams, skeleton, config),
        muxer::initial(position, streams, skeleton, config).headers_fit(),
    ensures
        ({
            let m = muxer::initial(position, streams, skeleton, config).with_headers();
            m.wire.position == place(position, m.wire.pages, m.wire.pages.len() as int)
        }),
{
    let base = lemma_indexed_headers(position, streams, skeleton, config);
}

} // verus!
