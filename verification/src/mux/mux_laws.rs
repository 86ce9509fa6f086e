//! What holds of every physical stream that a muxer produces.
use crate::codec_id;
use crate::error::Error;
use crate::framing;
use crate::mux::auto_index::{AutoIndexConfig, AutoIndexView};
use crate::mux::muxer;
use crate::mux::muxer::MuxView;
use crate::mux::serials;
use crate::mux::stream_laws;
use crate::mux::stream_writer;
use crate::mux::stream_writer::{PendingView, StreamView};
use crate::page;
use crate::page::PageView;
use crate::skeleton::state::SkeletonView;
use crate::stream;
use crate::stream::{PacketView, StreamInfoView};
use vstd::prelude::*;

verus! {

/// The pages of the logical bitstream `serial`.
pub open spec fn of_serial(pages: Seq<PageView>, serial: u32) -> Seq<PageView>
    decreases pages.len(),
{
    if pages.len() == 0 {
        Seq::empty()
    } else {
        let front = of_serial(pages.drop_last(), serial);
        if pages.last().serial == serial {
            front.push(pages.last())
        } else {
            front
        }
    }
}

pub proof fn lemma_of_serial_concat(a: Seq<PageView>, b: Seq<PageView>, serial: u32)
    ensures
        of_serial(a + b, serial) == of_serial(a, serial) + of_serial(b, serial),
    decreases b.len(),
{
    if b.len() == 0 {
        assert(a + b =~= a);
        assert(of_serial(a, serial) + of_serial(b, serial) =~= of_serial(a, serial));
    } else {
        assert((a + b).drop_last() =~= a + b.drop_last());
        lemma_of_serial_concat(a, b.drop_last(), serial);
        assert(of_serial(a + b, serial) =~= of_serial(a, serial) + of_serial(b, serial));
    }
}

pub proof fn lemma_of_serial_alike(b: Seq<PageView>, of: u32, serial: u32)
    requires
        forall|i: int| 0 <= i < b.len() ==> (#[trigger] b[i]).serial == of,
    ensures
        of_serial(b, serial) == (if of == serial {
            b
        } else {
            Seq::empty()
        }),
    decreases b.len(),
{
    if b.len() > 0 {
        assert forall|i: int| 0 <= i < b.drop_last().len() implies (
        #[trigger] b.drop_last()[i]).serial == of by {
            assert(b[i].serial == of);
        }
        lemma_of_serial_alike(b.drop_last(), of, serial);
        assert(b.last().serial == of);
        assert(b.drop_last().push(b.last()) =~= b);
    } else {
        assert(b =~= Seq::<PageView>::empty());
    }
}

/// Pages of one logical bitstream among well-formed pages are well formed.
pub proof fn lemma_of_serial_wf(pages: Seq<PageView>, serial: u32)
    requires
        framing::pages_of(framing::bytes_of(pages)) == Ok::<Seq<PageView>, Error>(pages),
    ensures
        forall|i: int|
            0 <= i < of_serial(pages, serial).len() ==> (
            #[trigger] of_serial(pages, serial)[i]).wf(),
{
    lemma_read_pages_wf(framing::bytes_of(pages));
    let read = framing::pages_of(framing::bytes_of(pages))->Ok_0;
    assert forall|i: int| 0 <= i < pages.len() implies (#[trigger] pages[i]).wf() by {
        assert(read[i].wf());
    }
    lemma_of_serial_among(pages, serial);
}

proof fn lemma_read_pages_wf(data: Seq<u8>)
    ensures
        framing::pages_of(data) matches Ok(pages) ==> forall|i: int|
            0 <= i < pages.len() ==> (#[trigger] pages[i]).wf(),
    decreases data.len(),
{
    if data.len() > 0 {
        if let Ok((p, used)) = page::parsed(data) {
            page::law_encoded_parsed(data);
            lemma_read_pages_wf(data.skip(used as int));
            if let Ok(rest) = framing::pages_of(data.skip(used as int)) {
                let pages = seq![p] + rest;
                assert forall|i: int| 0 <= i < pages.len() implies (#[trigger] pages[i]).wf() by {
                    if i > 0 {
                        assert(rest[i - 1].wf());
                    }
                }
            }
        }
    }
}

pub proof fn lemma_of_serial_among(pages: Seq<PageView>, serial: u32)
    requires
        forall|i: int| 0 <= i < pages.len() ==> (#[trigger] pages[i]).wf(),
    ensures
        forall|i: int|
            0 <= i < of_serial(pages, serial).len() ==> (
            #[trigger] of_serial(pages, serial)[i]).wf(),
    decreases pages.len(),
{
    if pages.len() > 0 {
        let front = pages.drop_last();
        assert forall|i: int| 0 <= i < front.len() implies (#[trigger] front[i]).wf() by {
            assert(pages[i].wf());
        }
        lemma_of_serial_among(front, serial);
        assert(pages[pages.len() - 1].wf());
        let own = of_serial(pages, serial);
        assert forall|i: int| 0 <= i < own.len() implies (#[trigger] own[i]).wf() by {
            if i < of_serial(front, serial).len() {
                assert(of_serial(front, serial)[i].wf());
            }
        }
    }
}

/// The stream `k` holds exactly the packets `content[k]`, each of them whole.
pub open spec fn lane_holds(m: MuxView, content: Map<u32, Seq<Seq<u8>>>, k: u32) -> bool {
    let s = m.writers[k];
    &&& s.consistent()
    &&& s.ready.len() == 0
    &&& stream_laws::at_rest(s)
    &&& stream_laws::in_step(of_serial(m.wire.pages, s.serial), s)
    &&& stream_laws::holds(of_serial(m.wire.pages, s.serial), s, content[k])
}

/// Every stream has a serial of its own and holds exactly its packets, and
/// every page is well formed.
pub open spec fn faithful(m: MuxView, content: Map<u32, Seq<Seq<u8>>>) -> bool {
    &&& forall|k: u32| #[trigger] m.writers.contains_key(k) ==> lane_holds(m, content, k)
    &&& forall|j: u32, k: u32|
        #![trigger m.writers.contains_key(j), m.writers.contains_key(k)]
        m.writers.contains_key(j) && m.writers.contains_key(k) && j != k
            ==> m.writers[j].serial != m.writers[k].serial
    &&& m.skeleton matches Some(s) ==> forall|k: u32| #[trigger]
        m.writers.contains_key(k) ==> m.writers[k].serial != s.serial
    &&& forall|i: int| 0 <= i < m.wire.pages.len() ==> (#[trigger] m.wire.pages[i]).wf()
}

pub proof fn lemma_emitted_pages(m: MuxView, index: u32, list: Seq<PendingView>)
    ensures
        m.emitted_all(index, list).wire.pages == m.wire.pages + stream_laws::pages_in(list),
        m.emitted_all(index, list).writers == m.writers,
        m.emitted_all(index, list).skeleton == m.skeleton,
        m.emitted_all(index, list).streams == m.streams,
        m.emitted_all(index, list).used == m.used,
    decreases list.len(),
{
    if list.len() == 0 {
        assert(m.wire.pages + stream_laws::pages_in(list) =~= m.wire.pages);
    } else {
        lemma_emitted_pages(m, index, list.drop_last());
        assert(stream_laws::pages_in(list) =~= stream_laws::pages_in(list.drop_last()).push(
            list.last().page,
        ));
        assert(m.emitted_all(index, list).wire.pages =~= m.wire.pages + stream_laws::pages_in(
            list,
        ));
    }
}

/// A stream that has come to a new state leaves the others as they were.
pub proof fn lemma_settled(
    m: MuxView,
    content: Map<u32, Seq<Seq<u8>>>,
    k: u32,
    s: StreamView,
    packets: Seq<Seq<u8>>,
)
    requires
        faithful(m, content),
        m.writers.contains_key(k),
        s.serial == m.writers[k].serial,
        s.consistent(),
        stream_laws::at_rest(s),
        stream_laws::in_step(of_serial(m.wire.pages, s.serial), s),
        stream_laws::holds(of_serial(m.wire.pages, s.serial), s, packets),
    ensures
        faithful(m.settled(k, s), content.insert(k, packets)),
        m.settled(k, s).streams == m.streams,
        m.settled(k, s).skeleton == m.skeleton,
        m.settled(k, s).writers == m.writers.insert(k, s.emptied()),
        m.settled(k, s).wire.pages == m.wire.pages + stream_laws::pages_in(s.ready),
{
    let after = m.settled(k, s);
    let more = stream_laws::pages_in(s.ready);
    let now = content.insert(k, packets);
    lemma_emitted_pages(m, k, s.ready);
    assert(after.wire.pages == m.wire.pages + more);
    assert forall|i: int| 0 <= i < more.len() implies (#[trigger] more[i]).serial == s.serial by {
        assert(s.ready[i].page.serial == s.serial);
    }
    assert forall|j: u32| #[trigger] after.writers.contains_key(j) implies lane_holds(
        after,
        now,
        j,
    ) by {
        assert(m.writers.contains_key(j));
        let t = m.writers[j];
        lemma_of_serial_concat(m.wire.pages, more, t.serial);
        lemma_of_serial_alike(more, s.serial, t.serial);
        if j == k {
            stream_laws::law_moved_on(of_serial(m.wire.pages, s.serial), s, packets);
            stream_laws::law_moved_in_step(of_serial(m.wire.pages, s.serial), s);
        } else {
            assert(m.writers.contains_key(k));
            assert(t.serial != s.serial);
            assert(of_serial(after.wire.pages, t.serial) =~= of_serial(m.wire.pages, t.serial));
            assert(lane_holds(m, content, j));
        }
    }
    assert forall|i: int| 0 <= i < after.wire.pages.len() implies (
    #[trigger] after.wire.pages[i]).wf() by {
        if i < m.wire.pages.len() {
            assert(m.wire.pages[i].wf());
        } else {
            assert(s.ready[i - m.wire.pages.len()].page.wf());
        }
    }
    assert forall|i: u32, j: u32|
        #![trigger after.writers.contains_key(i), after.writers.contains_key(j)]
        after.writers.contains_key(i) && after.writers.contains_key(j) && i
            != j implies after.writers[i].serial != after.writers[j].serial by {
        assert(m.writers.contains_key(i));
        assert(m.writers.contains_key(j));
    }
    if let Some(own) = after.skeleton {
        assert forall|j: u32| #[trigger] after.writers.contains_key(
            j,
        ) implies after.writers[j].serial != own.serial by {
            assert(m.writers.contains_key(j));
        }
    }
}

/// Writing a packet adds exactly that packet to its stream, and nothing to any
/// other.
pub proof fn law_packet(m: MuxView, content: Map<u32, Seq<Seq<u8>>>, p: PacketView)
    requires
        faithful(m, content),
        m.writers.contains_key(p.stream_index),
    ensures
        faithful(
            m.packet(p),
            content.insert(p.stream_index, content[p.stream_index].push(p.data)),
        ),
        m.packet(p).streams == m.streams,
        m.packet(p).skeleton == m.skeleton,
        m.packet(p).writers.dom() == m.writers.dom(),
        forall|k: u32| #[trigger]
            m.writers.contains_key(k) ==> m.packet(p).writers[k].serial == m.writers[k].serial,
{
    let k = p.stream_index;
    let s = m.writers[k];
    assert(lane_holds(m, content, k));
    stream_laws::law_written(of_serial(m.wire.pages, s.serial), s, content[k], p);
    stream_laws::law_written_in_step(of_serial(m.wire.pages, s.serial), s, p);
    stream_laws::lemma_written_consistent(s, p);
    lemma_settled(m, content, k, s.written(p), content[k].push(p.data));
    let settled = m.settled(k, s.written(p));
    let after = m.packet(p);
    let now = content.insert(k, content[k].push(p.data));
    assert(after.writers == settled.writers);
    assert(after.wire == settled.wire);
    assert(after.skeleton == settled.skeleton);
    assert forall|j: u32| #[trigger] after.writers.contains_key(j) implies lane_holds(
        after,
        now,
        j,
    ) by {
        assert(settled.writers.contains_key(j));
        assert(lane_holds(settled, now, j));
    }
    assert forall|i: u32, j: u32|
        #![trigger after.writers.contains_key(i), after.writers.contains_key(j)]
        after.writers.contains_key(i) && after.writers.contains_key(j) && i
            != j implies after.writers[i].serial != after.writers[j].serial by {
        assert(settled.writers.contains_key(i));
        assert(settled.writers.contains_key(j));
    }
    assert(m.writers.insert(k, s.written(p).emptied()).dom() =~= m.writers.dom());
}

/// A Skeleton page leaves every stream as it was.
pub proof fn lemma_described(
    m: MuxView,
    content: Map<u32, Seq<Seq<u8>>>,
    packet: Seq<u8>,
    page_flags: u8,
)
    requires
        faithful(m, content),
        m.skeleton is Some,
        stream_writer::fits_page(packet),
    ensures
        faithful(m.described(packet, page_flags), content),
{
    let own = m.skeleton->Some_0;
    let p = muxer::skeleton_page(own.serial, own.seq_no, page_flags, packet);
    let after = m.described(packet, page_flags);
    page::law_laced(packet.len());
    assert(after.wire.pages.drop_last() =~= m.wire.pages);
    assert(after.wire.pages.last() == p);
    lemma_frame(m, after, content);
}

/// Only the streams and their pages matter, and pages of other serials do not.
pub proof fn lemma_frame(m: MuxView, after: MuxView, content: Map<u32, Seq<Seq<u8>>>)
    requires
        faithful(m, content),
        after.writers == m.writers,
        m.skeleton is Some,
        after.skeleton is Some,
        after.skeleton->Some_0.serial == m.skeleton->Some_0.serial,
        after.wire.pages == m.wire.pages || (after.wire.pages.len() == m.wire.pages.len() + 1
            && after.wire.pages.drop_last() == m.wire.pages && after.wire.pages.last().serial
            == m.skeleton->Some_0.serial && after.wire.pages.last().wf()),
    ensures
        faithful(after, content),
{
    assert forall|j: u32| #[trigger] after.writers.contains_key(j) implies lane_holds(
        after,
        content,
        j,
    ) by {
        assert(m.writers.contains_key(j));
        assert(lane_holds(m, content, j));
    }
    assert forall|i: int| 0 <= i < after.wire.pages.len() implies (
    #[trigger] after.wire.pages[i]).wf() by {
        if i < m.wire.pages.len() {
            assert(m.wire.pages[i].wf());
            if after.wire.pages != m.wire.pages {
                assert(after.wire.pages.drop_last()[i] == after.wire.pages[i]);
            }
        }
    }
    assert forall|i: u32, j: u32|
        #![trigger after.writers.contains_key(i), after.writers.contains_key(j)]
        after.writers.contains_key(i) && after.writers.contains_key(j) && i
            != j implies after.writers[i].serial != after.writers[j].serial by {
        assert(m.writers.contains_key(i));
        assert(m.writers.contains_key(j));
    }
}

/// The index of each stream is its own.
pub open spec fn distinct_streams(streams: Seq<StreamInfoView>) -> bool {
    forall|i: int, j: int|
        0 <= i < j < streams.len() ==> (#[trigger] streams[i]).index != (
        #[trigger] streams[j]).index
}

/// The header packets that come to be written for the stream at place `i`: the
/// first only where the codec has header packets.
pub open spec fn sent_headers(m: MuxView, i: int) -> Seq<Seq<u8>> {
    if codec_id::header_count(m.streams[i].params.codec) > 0 {
        m.headers(i)
    } else {
        muxer::behind_first(m.headers(i))
    }
}

/// The first header packet that comes to be written for the stream at place
/// `i`, where there is one.
pub open spec fn first_header(m: MuxView, i: int) -> Seq<Seq<u8>> {
    if m.headers(i).len() > 0 && codec_id::header_count(m.streams[i].params.codec) > 0 {
        seq![m.headers(i)[0]]
    } else {
        Seq::empty()
    }
}

/// Streams from place `n` on are untouched.
pub open spec fn untouched(m: MuxView, n: int) -> bool {
    forall|i: int|
        n <= i < m.streams.len() ==> {
            let s = m.writers[(#[trigger] m.streams[i]).index];
            &&& s == StreamView::fresh(
                s.serial,
                codec_id::header_count(m.streams[i].params.codec),
            )
            &&& of_serial(m.wire.pages, s.serial).len() == 0
        }
}

/// Every stream has a writer.
pub open spec fn all_there(m: MuxView) -> bool {
    forall|i: int|
        0 <= i < m.streams.len() ==> m.writers.contains_key((#[trigger] m.streams[i]).index)
}

/// What each stream holds: `content` says it of the stream at place `i` below
/// `n`, and the others hold nothing.
pub open spec fn content_is(
    m: MuxView,
    content: Map<u32, Seq<Seq<u8>>>,
    n: int,
    what: spec_fn(int) -> Seq<Seq<u8>>,
) -> bool {
    forall|i: int|
        0 <= i < m.streams.len() ==> content[(#[trigger] m.streams[i]).index] == (if i < n {
            what(i)
        } else {
            Seq::empty()
        })
}

pub proof fn lemma_opened(
    m: MuxView,
    content: Map<u32, Seq<Seq<u8>>>,
    n: int,
) -> (now: Map<u32, Seq<Seq<u8>>>)
    requires
        faithful(m, content),
        all_there(m),
        untouched(m, 0),
        m.headers_fit(),
        distinct_streams(m.streams),
        0 <= n <= m.streams.len(),
        content_is(m, content, 0, |i: int| Seq::empty()),
    ensures
        ({
            let after = m.opened(n);
            &&& faithful(after, now)
            &&& all_there(after)
            &&& untouched(after, n)
            &&& after.streams == m.streams
            &&& after.skeleton == m.skeleton
            &&& after.writers.dom() == m.writers.dom()
            &&& content_is(m, now, n, |i: int| first_header(m, i))
            &&& forall|k: u32| #[trigger]
                m.writers.contains_key(k) ==> after.writers[k].serial == m.writers[k].serial
        }),
    decreases n,
{
    if n <= 0 {
        content
    } else {
        let before = lemma_opened(m, content, n - 1);
        let mid = m.opened(n - 1);
        let stream = m.streams[n - 1];
        let k = stream.index;
        let s = mid.writers[k];
        let q = m.headers(n - 1);
        let after = m.opened(n);
        assert(mid.streams[n - 1] == stream);
        assert(mid.writers.contains_key(k));
        if q.len() > 0 && s.headers > 0 {
            assert(stream_writer::fits_page(q[0]));
            page::law_laced(q[0].len());
            let t = s.opened(q[0]);
            stream_laws::law_opened(s.serial, s.headers, q[0]);
            stream_laws::law_begun_in_step(s.serial, s.headers, q[0]);
            assert(t.consistent());
            assert(of_serial(mid.wire.pages, s.serial) =~= Seq::<PageView>::empty());
            lemma_settled(mid, before, k, t, seq![q[0]]);
            let now = before.insert(k, seq![q[0]]);
            let more = stream_laws::pages_in(t.ready);
            assert forall|i: int| n <= i < after.streams.len() implies ({
                let s = after.writers[(#[trigger] after.streams[i]).index];
                &&& s == StreamView::fresh(
                    s.serial,
                    codec_id::header_count(after.streams[i].params.codec),
                )
                &&& of_serial(after.wire.pages, s.serial).len() == 0
            }) by {
                let other = mid.streams[i].index;
                assert(mid.streams[n - 1].index != mid.streams[i].index);
                assert(mid.writers.contains_key(other));
                assert(mid.writers.contains_key(k));
                lemma_of_serial_concat(mid.wire.pages, more, mid.writers[other].serial);
                lemma_of_serial_alike(more, s.serial, mid.writers[other].serial);
            }
            assert forall|i: int| 0 <= i < m.streams.len() implies now[(
            #[trigger] m.streams[i]).index] == (if i < n {
                first_header(m, i)
            } else {
                Seq::empty()
            }) by {
                if i < n - 1 {
                    assert(m.streams[i].index != m.streams[n - 1].index);
                } else if i > n - 1 {
                    assert(m.streams[n - 1].index != m.streams[i].index);
                }
                assert(before[m.streams[i].index] == before[m.streams[i].index]);
            }
            assert forall|i: int| 0 <= i < after.streams.len() implies after.writers.contains_key(
                (#[trigger] after.streams[i]).index,
            ) by {
                assert(mid.writers.contains_key(mid.streams[i].index));
            }
            assert(mid.writers.insert(k, t.emptied()).dom() =~= m.writers.dom());
            now
        } else {
            assert forall|i: int| 0 <= i < m.streams.len() implies before[(
            #[trigger] m.streams[i]).index] == (if i < n {
                first_header(m, i)
            } else {
                Seq::empty()
            }) by {
                if i == n - 1 {
                    assert(first_header(m, i) =~= Seq::<Seq<u8>>::empty());
                }
            }
            before
        }
    }
}

pub proof fn lemma_more_headers(
    m: MuxView,
    content: Map<u32, Seq<Seq<u8>>>,
    k: u32,
    packets: Seq<Seq<u8>>,
)
    requires
        faithful(m, content),
        m.writers.contains_key(k),
    ensures
        ({
            let after = m.more_headers(k, packets);
            &&& faithful(after, content.insert(k, content[k] + packets))
            &&& after.streams == m.streams
            &&& after.skeleton == m.skeleton
            &&& after.writers.dom() == m.writers.dom()
            &&& forall|j: u32| #[trigger]
                m.writers.contains_key(j) ==> after.writers[j].serial == m.writers[j].serial
        }),
    decreases packets.len(),
{
    if packets.len() == 0 {
        assert(content[k] + packets =~= content[k]);
        lemma_same_content(m, content, k);
    } else {
        let front = packets.drop_last();
        lemma_more_headers(m, content, k, front);
        let mid = m.more_headers(k, front);
        let between = content.insert(k, content[k] + front);
        let p = stream::bare_packet(k, packets.last());
        assert(mid.writers.contains_key(k));
        law_packet(mid, between, p);
        assert((content[k] + front).push(packets.last()) =~= content[k] + packets);
        assert(between.insert(k, content[k] + packets) =~= content.insert(
            k,
            content[k] + packets,
        ));
        assert forall|j: u32| #[trigger] m.writers.contains_key(j) implies m.more_headers(
            k,
            packets,
        ).writers[j].serial == m.writers[j].serial by {
            assert(mid.writers.contains_key(j));
        }
    }
}

proof fn lemma_same_content(m: MuxView, content: Map<u32, Seq<Seq<u8>>>, k: u32)
    requires
        faithful(m, content),
    ensures
        faithful(m, content.insert(k, content[k])),
{
    let now = content.insert(k, content[k]);
    assert forall|j: u32| #[trigger] m.writers.contains_key(j) implies lane_holds(m, now, j) by {
        assert(lane_holds(m, content, j));
    }
}

pub proof fn lemma_continued(
    m: MuxView,
    content: Map<u32, Seq<Seq<u8>>>,
    n: int,
    what: spec_fn(int) -> Seq<Seq<u8>>,
) -> (now: Map<u32, Seq<Seq<u8>>>)
    requires
        faithful(m, content),
        all_there(m),
        distinct_streams(m.streams),
        0 <= n <= m.streams.len(),
        forall|i: int|
            0 <= i < m.streams.len() ==> content[(#[trigger] m.streams[i]).index] == what(i),
    ensures
        ({
            let after = m.continued(n);
            &&& faithful(after, now)
            &&& all_there(after)
            &&& after.streams == m.streams
            &&& after.skeleton == m.skeleton
            &&& after.writers.dom() == m.writers.dom()
            &&& forall|i: int|
                0 <= i < m.streams.len() ==> now[(#[trigger] m.streams[i]).index] == (if i < n {
                    what(i) + muxer::behind_first(m.headers(i))
                } else {
                    what(i)
                })
            &&& forall|k: u32| #[trigger]
                m.writers.contains_key(k) ==> after.writers[k].serial == m.writers[k].serial
        }),
    decreases n,
{
    if n <= 0 {
        content
    } else {
        let before = lemma_continued(m, content, n - 1, what);
        let mid = m.continued(n - 1);
        let k = m.streams[n - 1].index;
        let rest = muxer::behind_first(m.headers(n - 1));
        assert(mid.streams[n - 1].index == k);
        assert(mid.writers.contains_key(k));
        lemma_more_headers(mid, before, k, rest);
        let now = before.insert(k, before[k] + rest);
        assert forall|i: int| 0 <= i < m.streams.len() implies now[(
        #[trigger] m.streams[i]).index] == (if i < n {
            what(i) + muxer::behind_first(m.headers(i))
        } else {
            what(i)
        }) by {
            if i < n - 1 {
                assert(m.streams[i].index != m.streams[n - 1].index);
            } else if i > n - 1 {
                assert(m.streams[n - 1].index != m.streams[i].index);
            }
            assert(before[m.streams[i].index] == before[m.streams[i].index]);
        }
        let after = m.continued(n);
        assert forall|i: int| 0 <= i < after.streams.len() implies after.writers.contains_key(
            (#[trigger] after.streams[i]).index,
        ) by {
            assert(mid.writers.contains_key(mid.streams[i].index));
        }
        assert forall|j: u32| #[trigger] m.writers.contains_key(j) implies after.writers[j].serial
            == m.writers[j].serial by {
            assert(mid.writers.contains_key(j));
        }
        now
    }
}

pub proof fn lemma_released(m: MuxView, content: Map<u32, Seq<Seq<u8>>>, n: int)
    requires
        faithful(m, content),
        all_there(m),
        0 <= n <= m.streams.len(),
    ensures
        ({
            let after = m.released(n);
            &&& faithful(after, content)
            &&& all_there(after)
            &&& after.streams == m.streams
            &&& after.skeleton == m.skeleton
            &&& after.writers.dom() == m.writers.dom()
            &&& forall|k: u32| #[trigger]
                m.writers.contains_key(k) ==> after.writers[k].serial == m.writers[k].serial
        }),
    decreases n,
{
    if n > 0 {
        lemma_released(m, content, n - 1);
        let mid = m.released(n - 1);
        let k = m.streams[n - 1].index;
        assert(mid.streams[n - 1].index == k);
        assert(mid.writers.contains_key(k));
        assert(lane_holds(mid, content, k));
        let s = mid.writers[k];
        stream_laws::lemma_closed_consistent(s);
        stream_laws::law_moved_on(of_serial(mid.wire.pages, s.serial), s, content[k]);
        stream_laws::law_moved_in_step(of_serial(mid.wire.pages, s.serial), s);
        lemma_settled(mid, content, k, s.released(), content[k]);
        let after = m.released(n);
        let same = content.insert(k, content[k]);
        assert forall|j: u32| #[trigger] after.writers.contains_key(j) implies lane_holds(
            after,
            content,
            j,
        ) by {
            assert(lane_holds(after, same, j));
        }
        assert forall|i: int| 0 <= i < after.streams.len() implies after.writers.contains_key(
            (#[trigger] after.streams[i]).index,
        ) by {
            assert(mid.writers.contains_key(mid.streams[i].index));
        }
        assert(mid.writers.insert(k, s.released().emptied()).dom() =~= m.writers.dom());
        assert forall|j: u32| #[trigger] m.writers.contains_key(j) implies after.writers[j].serial
            == m.writers[j].serial by {
            assert(mid.writers.contains_key(j));
        }
    }
}

pub proof fn lemma_described_all(
    m: MuxView,
    content: Map<u32, Seq<Seq<u8>>>,
    packets: Seq<Seq<u8>>,
)
    requires
        faithful(m, content),
        m.skeleton is Some,
        forall|i: int|
            0 <= i < packets.len() ==> stream_writer::fits_page(#[trigger] packets[i]),
    ensures
        ({
            let after = m.described_all(packets);
            &&& faithful(after, content)
            &&& after.writers == m.writers
            &&& after.streams == m.streams
            &&& after.skeleton is Some
            &&& after.skeleton->Some_0.serial == m.skeleton->Some_0.serial
            &&& after.auto == m.auto
        }),
    decreases packets.len(),
{
    if packets.len() > 0 {
        let front = packets.drop_last();
        assert forall|i: int| 0 <= i < front.len() implies stream_writer::fits_page(
            #[trigger] front[i],
        ) by {
            assert(packets[i] == front[i]);
        }
        lemma_described_all(m, content, front);
        assert(stream_writer::fits_page(packets[packets.len() - 1]));
        lemma_described(m.described_all(front), content, packets.last(), 0);
    }
}

pub proof fn lemma_reserved(m: MuxView, content: Map<u32, Seq<Seq<u8>>>, n: int)
    requires
        faithful(m, content),
        m.skeleton is Some,
        0 <= n <= m.auto.len(),
        forall|i: int| 0 <= i < m.auto.len() ==> (#[trigger] m.auto[i]).wf(),
    ensures
        ({
            let after = m.reserved(n);
            &&& faithful(after, content)
            &&& after.writers == m.writers
            &&& after.streams == m.streams
            &&& after.skeleton is Some
            &&& after.skeleton->Some_0.serial == m.skeleton->Some_0.serial
            &&& after.auto.len() == m.auto.len()
            &&& forall|i: int| 0 <= i < after.auto.len() ==> (#[trigger] after.auto[i]).wf()
        }),
    decreases n,
{
    if n > 0 {
        lemma_reserved(m, content, n - 1);
        let mid = m.reserved(n - 1);
        let a = mid.auto[n - 1];
        assert(a.wf());
        crate::mux::auto_index::law_index_fits(a.vacant());
        lemma_described(mid, content, a.vacant().packet(), 0);
        let d = mid.described(a.vacant().packet(), 0);
        let after = m.reserved(n);
        lemma_frame(d, after, content);
        assert forall|i: int| 0 <= i < after.auto.len() implies (#[trigger] after.auto[i]).wf() by {
            assert(mid.auto[i].wf());
        }
    }
}

/// Every index that is being built keeps to its limits.
pub open spec fn indexes_kept(m: MuxView) -> bool {
    forall|i: int| 0 <= i < m.auto.len() ==> (#[trigger] m.auto[i]).wf()
}

proof fn lemma_kept_emitted(m: MuxView, index: u32, list: Seq<PendingView>)
    requires
        indexes_kept(m),
    ensures
        indexes_kept(m.emitted_all(index, list)),
    decreases list.len(),
{
    if list.len() > 0 {
        let mid = m.emitted_all(index, list.drop_last());
        lemma_kept_emitted(m, index, list.drop_last());
        let after = mid.emitted(index, list.last());
        muxer::lemma_first_of(mid.auto, index, 0);
        assert forall|i: int| 0 <= i < after.auto.len() implies (#[trigger] after.auto[i]).wf() by {
            assert(mid.auto[i].wf());
            if let Some(pts) = list.last().first_keyframe_pts {
                crate::mux::auto_index::law_limits_kept(mid.auto[i], mid.wire.position, pts);
            }
        }
    }
}

/// The indexes keep to their limits whatever packet is written.
pub proof fn law_indexes_kept(m: MuxView, p: PacketView)
    requires
        indexes_kept(m),
    ensures
        indexes_kept(m.packet(p)),
{
    let s = m.writers[p.stream_index].written(p);
    lemma_kept_emitted(m, p.stream_index, s.ready);
    let mid = m.settled(p.stream_index, s);
    let after = m.packet(p);
    muxer::lemma_first_of(mid.auto, p.stream_index, 0);
    assert forall|i: int| 0 <= i < after.auto.len() implies (#[trigger] after.auto[i]).wf() by {
        assert(mid.auto[i].wf());
        if let Some(pts) = p.pts {
            crate::mux::auto_index::law_limits_kept(mid.auto[i], 0, pts);
        }
    }
}

proof fn lemma_kept_headers(m: MuxView, k: u32, packets: Seq<Seq<u8>>)
    requires
        indexes_kept(m),
    ensures
        indexes_kept(m.more_headers(k, packets)),
    decreases packets.len(),
{
    if packets.len() > 0 {
        lemma_kept_headers(m, k, packets.drop_last());
        law_indexes_kept(
            m.more_headers(k, packets.drop_last()),
            stream::bare_packet(k, packets.last()),
        );
    }
}

pub proof fn lemma_kept_opened(m: MuxView, n: int)
    requires
        indexes_kept(m),
    ensures
        indexes_kept(m.opened(n)),
    decreases n,
{
    if n > 0 {
        lemma_kept_opened(m, n - 1);
        let mid = m.opened(n - 1);
        let k = m.streams[n - 1].index;
        lemma_kept_emitted(mid, k, mid.writers[k].opened(m.headers(n - 1)[0]).ready);
    }
}

pub proof fn lemma_kept_continued(m: MuxView, n: int)
    requires
        indexes_kept(m),
    ensures
        indexes_kept(m.continued(n)),
    decreases n,
{
    if n > 0 {
        lemma_kept_continued(m, n - 1);
        lemma_kept_headers(
            m.continued(n - 1),
            m.streams[n - 1].index,
            muxer::behind_first(m.headers(n - 1)),
        );
    }
}

pub proof fn lemma_kept_released(m: MuxView, n: int)
    requires
        indexes_kept(m),
    ensures
        indexes_kept(m.released(n)),
    decreases n,
{
    if n > 0 {
        lemma_kept_released(m, n - 1);
        let mid = m.released(n - 1);
        let k = m.streams[n - 1].index;
        lemma_kept_emitted(mid, k, mid.writers[k].released().ready);
    }
}

/// Writing the headers writes the header packets of each stream to that stream.
pub proof fn lemma_headed(m: MuxView, content: Map<u32, Seq<Seq<u8>>>) -> (now: Map<
    u32,
    Seq<Seq<u8>>,
>)
    requires
        faithful(m, content),
        all_there(m),
        untouched(m, 0),
        m.headers_fit(),
        distinct_streams(m.streams),
        content_is(m, content, 0, |i: int| Seq::empty()),
    ensures
        faithful(m.headed(), now),
        all_there(m.headed()),
        m.headed().streams == m.streams,
        m.headed().skeleton == m.skeleton,
        m.headed().writers.dom() == m.writers.dom(),
        forall|k: u32| #[trigger]
            m.writers.contains_key(k) ==> m.headed().writers[k].serial == m.writers[k].serial,
        forall|i: int|
            0 <= i < m.streams.len() ==> now[(#[trigger] m.streams[i]).index] == sent_headers(
                m,
                i,
            ),
{
    let n = m.streams.len() as int;
    let what = |i: int| first_header(m, i);
    let between = lemma_opened(m, content, n);
    let mid = m.opened(n);
    assert forall|i: int| 0 <= i < mid.streams.len() implies between[(
    #[trigger] mid.streams[i]).index] == what(i) by {
        assert(m.streams[i] == mid.streams[i]);
    }
    let now = lemma_continued(mid, between, n, what);
    assert forall|i: int| 0 <= i < m.streams.len() implies now[(#[trigger] m.streams[i]).index]
        == sent_headers(m, i) by {
        assert(mid.streams[i] == m.streams[i]);
        assert(mid.headers(i) == m.headers(i));
        assert(first_header(m, i) + muxer::behind_first(m.headers(i)) =~= sent_headers(m, i));
    }
    assert forall|k: u32| #[trigger] m.writers.contains_key(k) implies m.headed().writers[k].serial
        == m.writers[k].serial by {
        assert(mid.writers.contains_key(k));
    }
    now
}

pub proof fn lemma_fresh_lanes(streams: Seq<StreamInfoView>, serials: Seq<u32>)
    requires
        distinct_streams(streams),
        serials.len() == streams.len(),
    ensures
        forall|k: u32| #[trigger]
            muxer::fresh_writers(streams, serials).contains_key(k) ==> exists|i: int|
                0 <= i < streams.len() && (#[trigger] streams[i]).index == k,
        forall|i: int|
            0 <= i < streams.len() ==> muxer::fresh_writers(streams, serials).contains_key(
                (#[trigger] streams[i]).index,
            ) && muxer::fresh_writers(streams, serials)[streams[i].index] == StreamView::fresh(
                serials[i],
                codec_id::header_count(streams[i].params.codec),
            ),
    decreases streams.len(),
{
    if streams.len() > 0 {
        let front = streams.drop_last();
        assert forall|i: int, j: int| 0 <= i < j < front.len() implies (#[trigger] front[i]).index
            != (#[trigger] front[j]).index by {
            assert(streams[i].index != streams[j].index);
        }
        lemma_fresh_lanes(front, serials.drop_last());
        let all = muxer::fresh_writers(streams, serials);
        assert forall|i: int| 0 <= i < streams.len() implies all.contains_key(
            (#[trigger] streams[i]).index,
        ) && all[streams[i].index] == StreamView::fresh(
            serials[i],
            codec_id::header_count(streams[i].params.codec),
        ) by {
            if i < streams.len() - 1 {
                assert(front[i] == streams[i]);
                assert(streams[i].index != streams[streams.len() - 1].index);
            }
        }
        assert forall|k: u32| #[trigger] all.contains_key(k) implies exists|i: int|
            0 <= i < streams.len() && (#[trigger] streams[i]).index == k by {
            if k == streams.last().index {
                assert(streams[streams.len() - 1].index == k);
            } else {
                let i = choose|i: int| 0 <= i < front.len() && (#[trigger] front[i]).index == k;
                assert(streams[i].index == k);
            }
        }
    }
}

/// What a muxer can be made of: streams with indexes of their own, no more than
/// there are serials, and a Skeleton whose serial is none of theirs.
pub open spec fn sound_setup(
    streams: Seq<StreamInfoView>,
    skeleton: Option<SkeletonView>,
    config: Option<AutoIndexConfig>,
) -> bool {
    &&& distinct_streams(streams)
    &&& streams.len() < serials::SERIAL_COUNT
    &&& skeleton matches Some(skel) ==> (skel.serial matches Some(own)
        ==> !serials::assigned(Set::empty(), streams).contains(own))
    &&& skeleton matches Some(skel) ==> (skel.head matches Some(h) ==> h.utc.len() == 20)
    &&& config matches Some(c) ==> c.max_keypoints
        <= crate::mux::auto_index::AUTO_INDEX_MAX_KEYPOINTS_LIMIT
}

pub proof fn lemma_initial(
    position: u64,
    streams: Seq<StreamInfoView>,
    skeleton: Option<SkeletonView>,
    config: Option<AutoIndexConfig>,
) -> (content: Map<u32, Seq<Seq<u8>>>)
    requires
        sound_setup(streams, skeleton, config),
    ensures
        ({
            let m = muxer::initial(position, streams, skeleton, config);
            &&& faithful(m, content)
            &&& all_there(m)
            &&& untouched(m, 0)
            &&& indexes_kept(m)
            &&& content_is(m, content, 0, |i: int| Seq::empty())
            &&& forall|i: int|
                0 <= i < streams.len() ==> m.writers[(#[trigger] streams[i]).index].serial
                    == serials::assigned(Set::empty(), streams)[i]
        }),
{
    let m = muxer::initial(position, streams, skeleton, config);
    let serials = serials::assigned(Set::empty(), streams);
    let content = Map::new(|k: u32| true, |k: u32| Seq::<Seq<u8>>::empty());
    serials::law_assigned(Set::empty(), streams);
    lemma_fresh_lanes(streams, serials);
    let none = Seq::<PageView>::empty();
    assert forall|k: u32| #[trigger] m.writers.contains_key(k) implies lane_holds(m, content, k) by {
        let i = choose|i: int| 0 <= i < streams.len() && (#[trigger] streams[i]).index == k;
        stream_laws::law_fresh(serials[i], codec_id::header_count(streams[i].params.codec));
        stream_laws::law_begun_in_step(
            serials[i],
            codec_id::header_count(streams[i].params.codec),
            Seq::empty(),
        );
        assert(of_serial(m.wire.pages, m.writers[k].serial) =~= none);
    }
    assert forall|j: u32, k: u32|
        #![trigger m.writers.contains_key(j), m.writers.contains_key(k)]
        m.writers.contains_key(j) && m.writers.contains_key(k) && j
            != k implies m.writers[j].serial != m.writers[k].serial by {
        let a = choose|i: int| 0 <= i < streams.len() && (#[trigger] streams[i]).index == j;
        let b = choose|i: int| 0 <= i < streams.len() && (#[trigger] streams[i]).index == k;
        assert(serials[a] != serials[b]);
    }
    if let Some(skel) = skeleton {
        let used = Set::empty() + serials.to_set();
        let own = m.skeleton->Some_0.serial;
        serials::law_next_free(used, stream_writer::successor(muxer::largest(serials)));
        assert forall|k: u32| #[trigger] m.writers.contains_key(k) implies m.writers[k].serial
            != own by {
            let i = choose|i: int| 0 <= i < streams.len() && (#[trigger] streams[i]).index == k;
            assert(serials.contains(serials[i]));
            assert(used.contains(serials[i]));
        }
        if let Some(c) = config {
            muxer::lemma_built_wf(streams, m.writers, skel, c);
        }
    }
    content
}

/// The muxer when the content headers are about to be written: with a Skeleton,
/// its first page is on its way.
pub open spec fn begun(m: MuxView) -> MuxView {
    let b = MuxView { header_written: true, ..m };
    if m.skeleton is Some {
        b.with_head()
    } else {
        b
    }
}

pub proof fn lemma_begun(
    position: u64,
    streams: Seq<StreamInfoView>,
    skeleton: Option<SkeletonView>,
    config: Option<AutoIndexConfig>,
) -> (content: Map<u32, Seq<Seq<u8>>>)
    requires
        sound_setup(streams, skeleton, config),
        muxer::initial(position, streams, skeleton, config).headers_fit(),
    ensures
        ({
            let m = muxer::initial(position, streams, skeleton, config);
            let start = begun(m);
            &&& faithful(start, content)
            &&& all_there(start)
            &&& untouched(start, 0)
            &&& indexes_kept(start)
            &&& start.headers_fit()
            &&& content_is(start, content, 0, |i: int| Seq::empty())
            &&& start.streams == streams
            &&& start.writers == m.writers
            &&& start.skeleton is Some == skeleton is Some
            &&& forall|i: int|
                0 <= i < streams.len() ==> m.writers[(#[trigger] streams[i]).index].serial
                    == serials::assigned(Set::empty(), streams)[i]
        }),
{
    let m = muxer::initial(position, streams, skeleton, config);
    let content = lemma_initial(position, streams, skeleton, config);
    let b = MuxView { header_written: true, ..m };
    let start = begun(m);
    assert(faithful(b, content)) by {
        assert forall|k: u32| #[trigger] b.writers.contains_key(k) implies lane_holds(
            b,
            content,
            k,
        ) by {
            assert(m.writers.contains_key(k));
            assert(lane_holds(m, content, k));
        }
        assert forall|i: u32, j: u32|
            #![trigger b.writers.contains_key(i), b.writers.contains_key(j)]
            b.writers.contains_key(i) && b.writers.contains_key(j) && i
                != j implies b.writers[i].serial != b.writers[j].serial by {
            assert(m.writers.contains_key(i));
            assert(m.writers.contains_key(j));
        }
    }
    if skeleton is Some {
        let head = b.head_to_write();
        lemma_described(b, content, head.encoded(), page::flags::FIRST_PAGE);
        let d = b.described(head.encoded(), page::flags::FIRST_PAGE);
        lemma_frame(d, start, content);
        assert(start.wire.pages.drop_last() =~= Seq::<PageView>::empty());
    }
    assert(untouched(start, 0)) by {
        assert forall|i: int| 0 <= i < start.streams.len() implies ({
            let s = start.writers[(#[trigger] start.streams[i]).index];
            &&& s == StreamView::fresh(
                s.serial,
                codec_id::header_count(start.streams[i].params.codec),
            )
            &&& of_serial(start.wire.pages, s.serial).len() == 0
        }) by {
            let k = m.streams[i].index;
            assert(m.writers.contains_key(k));
            if skeleton is Some {
                let pages = start.wire.pages;
                assert(start.skeleton->Some_0.serial == pages.last().serial);
                assert(of_serial(pages.drop_last(), m.writers[k].serial).len() == 0);
            }
        }
    }
    assert(all_there(start)) by {
        assert forall|i: int| 0 <= i < start.streams.len() implies start.writers.contains_key(
            (#[trigger] start.streams[i]).index,
        ) by {
            assert(m.writers.contains_key(m.streams[i].index));
        }
    }
    assert(content_is(start, content, 0, |i: int| Seq::empty())) by {
        assert forall|i: int| 0 <= i < start.streams.len() implies content[(
        #[trigger] start.streams[i]).index] == Seq::<Seq<u8>>::empty() by {
            assert(content[m.streams[i].index] == Seq::<Seq<u8>>::empty());
        }
    }
    assert(start.headers_fit()) by {
        assert forall|i: int|
            0 <= i < start.streams.len() && (#[trigger] start.headers(i)).len() > 0
                && start.writers[start.streams[i].index].headers
                > 0 implies stream_writer::fits_page(start.headers(i)[0]) by {
            assert(m.headers(i) == start.headers(i));
        }
        if skeleton is Some {
            assert(start.secondary_packets() =~= m.secondary_packets());
        }
    }
    assert(indexes_kept(start)) by {
        assert forall|i: int| 0 <= i < start.auto.len() implies (#[trigger] start.auto[i]).wf() by {
            assert(m.auto[i].wf());
        }
    }
    content
}

/// The rest of a Skeleton leaves every stream as it was.
pub proof fn lemma_with_skeleton(m: MuxView, content: Map<u32, Seq<Seq<u8>>>)
    requires
        faithful(m, content),
        all_there(m),
        indexes_kept(m),
        m.skeleton is Some,
        forall|i: int|
            0 <= i < m.secondary_packets().len() ==> stream_writer::fits_page(
                #[trigger] m.secondary_packets()[i],
            ),
    ensures
        faithful(m.with_skeleton(), content),
        m.with_skeleton().streams == m.streams,
        m.with_skeleton().writers.dom() == m.writers.dom(),
        forall|k: u32| #[trigger]
            m.writers.contains_key(k) ==> m.with_skeleton().writers[k].serial
                == m.writers[k].serial,
{
    let n = m.streams.len() as int;
    lemma_released(m, content, n);
    lemma_kept_released(m, n);
    let r = m.released(n);
    assert(r.secondary_packets() =~= m.secondary_packets());
    lemma_described_all(r, content, r.secondary_packets());
    let d = r.described_all(r.secondary_packets());
    assert forall|i: int| 0 <= i < d.auto.len() implies (#[trigger] d.auto[i]).wf() by {
        assert(r.auto[i].wf());
    }
    lemma_reserved(d, content, d.auto.len() as int);
    let v = d.reserved(d.auto.len() as int);
    lemma_described(v, content, Seq::empty(), page::flags::LAST_PAGE);
    let e = v.described(Seq::empty(), page::flags::LAST_PAGE);
    lemma_frame(e, m.with_skeleton(), content);
}

/// Writing the headers writes the header packets of each stream to that
/// stream, and nothing else.
pub proof fn law_headers(
    position: u64,
    streams: Seq<StreamInfoView>,
    skeleton: Option<SkeletonView>,
    config: Option<AutoIndexConfig>,
) -> (content: Map<u32, Seq<Seq<u8>>>)
    requires
        sound_setup(streams, skeleton, config),
        muxer::initial(position, streams, skeleton, config).headers_fit(),
    ensures
        ({
            let m = muxer::initial(position, streams, skeleton, config);
            let after = m.with_headers();
            &&& faithful(after, content)
            &&& after.streams == streams
            &&& forall|i: int|
                0 <= i < streams.len() ==> content[(#[trigger] streams[i]).index] == sent_headers(
                    m,
                    i,
                ) && after.writers.contains_key(streams[i].index)
                    && after.writers[streams[i].index].serial == serials::assigned(
                    Set::empty(),
                    streams,
                )[i]
        }),
{
    let m = muxer::initial(position, streams, skeleton, config);
    let content = lemma_begun(position, streams, skeleton, config);
    let start = begun(m);
    let now = lemma_headed(start, content);
    let headed = start.headed();
    let after = m.with_headers();
    let n = streams.len() as int;
    lemma_kept_opened(start, n);
    lemma_kept_continued(start.opened(n), n);
    assert(start.opened(n).streams == start.streams) by {
        let x = lemma_opened(start, content, n);
    }
    assert forall|i: int| 0 <= i < streams.len() implies now[(#[trigger] streams[i]).index]
        == sent_headers(m, i) && headed.writers.contains_key(streams[i].index)
        && headed.writers[streams[i].index].serial == serials::assigned(
        Set::empty(),
        streams,
    )[i] by {
        assert(start.streams[i] == streams[i]);
        assert(start.headers(i) == m.headers(i));
        assert(start.writers.contains_key(start.streams[i].index));
    }
    if skeleton is Some {
        assert(headed.secondary_packets() =~= start.secondary_packets());
        lemma_with_skeleton(headed, now);
        assert(after == headed.with_skeleton());
        assert forall|i: int| 0 <= i < streams.len() implies now[(#[trigger] streams[i]).index]
            == sent_headers(m, i) && after.writers.contains_key(streams[i].index)
            && after.writers[streams[i].index].serial == serials::assigned(
            Set::empty(),
            streams,
        )[i] by {
            assert(headed.writers.contains_key(streams[i].index));
        }
    } else {
        assert(after == headed);
    }
    now
}

/// The first `n` streams hold nothing that is not on its way.
pub open spec fn drained(m: MuxView, n: int) -> bool {
    forall|i: int|
        0 <= i < n ==> m.writers[(#[trigger] m.streams[i]).index].pending is None
            && m.writers[m.streams[i].index].lacing.len() == 0
}

pub proof fn lemma_closed_off(m: MuxView, content: Map<u32, Seq<Seq<u8>>>, n: int)
    requires
        faithful(m, content),
        all_there(m),
        distinct_streams(m.streams),
        0 <= n <= m.streams.len(),
    ensures
        ({
            let after = m.closed_off(n);
            &&& faithful(after, content)
            &&& all_there(after)
            &&& drained(after, n)
            &&& after.streams == m.streams
            &&& forall|k: u32| #[trigger]
                m.writers.contains_key(k) ==> after.writers.contains_key(k)
                    && after.writers[k].serial == m.writers[k].serial
        }),
    decreases n,
{
    if n > 0 {
        lemma_closed_off(m, content, n - 1);
        let mid = m.closed_off(n - 1);
        let k = m.streams[n - 1].index;
        assert(mid.streams[n - 1].index == k);
        assert(mid.writers.contains_key(k));
        assert(lane_holds(mid, content, k));
        let s = mid.writers[k];
        stream_laws::lemma_closed_consistent(s);
        stream_laws::law_closed(of_serial(mid.wire.pages, s.serial), s, content[k]);
        stream_laws::law_closed_in_step(of_serial(mid.wire.pages, s.serial), s);
        lemma_settled(mid, content, k, s.closed_off(), content[k]);
        let after = m.closed_off(n);
        let same = content.insert(k, content[k]);
        assert forall|j: u32| #[trigger] after.writers.contains_key(j) implies lane_holds(
            after,
            content,
            j,
        ) by {
            assert(lane_holds(after, same, j));
        }
        assert forall|i: int| 0 <= i < after.streams.len() implies after.writers.contains_key(
            (#[trigger] after.streams[i]).index,
        ) by {
            assert(mid.writers.contains_key(mid.streams[i].index));
        }
        assert forall|i: int| 0 <= i < n implies after.writers[(
        #[trigger] after.streams[i]).index].pending is None
            && after.writers[after.streams[i].index].lacing.len() == 0 by {
            if i < n - 1 {
                assert(m.streams[i].index != m.streams[n - 1].index);
                assert(mid.writers[mid.streams[i].index].pending is None);
            }
        }
        assert forall|j: u32| #[trigger] m.writers.contains_key(j) implies (
        after.writers.contains_key(j) && after.writers[j].serial == m.writers[j].serial) by {
            assert(mid.writers.contains_key(j));
        }
    }
}

/// A stream that holds nothing but pages on their way: they carry its packets.
pub proof fn lemma_drained(m: MuxView, content: Map<u32, Seq<Seq<u8>>>, k: u32)
    requires
        lane_holds(m, content, k),
        m.writers[k].pending is None,
        m.writers[k].lacing.len() == 0,
    ensures
        framing::stream_packets(of_serial(m.wire.pages, m.writers[k].serial)) matches Ok(
            (found, state),
        ) && found == content[k],
        stream_laws::unbroken(of_serial(m.wire.pages, m.writers[k].serial)),
{
    let s = m.writers[k];
    let pages = of_serial(m.wire.pages, s.serial);
    assert(s.ready + stream_writer::as_list(s.pending) =~= Seq::<PendingView>::empty());
    let all = stream_laws::finished_pages(pages, s);
    assert(all =~= pages);
    assert(all.push(s.open_page()).drop_last() =~= pages);
    let (found, state) = framing::stream_packets(pages)->Ok_0;
    assert(found + Seq::<Seq<u8>>::empty() =~= found);
}

/// The muxer after a sequence of packets.
pub open spec fn run(m: MuxView, packets: Seq<PacketView>) -> MuxView
    decreases packets.len(),
{
    if packets.len() == 0 {
        m
    } else {
        run(m, packets.drop_last()).packet(packets.last())
    }
}

/// The packets of the stream `index`.
pub open spec fn sent_to(packets: Seq<PacketView>, index: u32) -> Seq<Seq<u8>>
    decreases packets.len(),
{
    if packets.len() == 0 {
        Seq::empty()
    } else {
        let front = sent_to(packets.drop_last(), index);
        if packets.last().stream_index == index {
            front.push(packets.last().data)
        } else {
            front
        }
    }
}

pub proof fn lemma_run(
    m: MuxView,
    content: Map<u32, Seq<Seq<u8>>>,
    packets: Seq<PacketView>,
) -> (now: Map<u32, Seq<Seq<u8>>>)
    requires
        faithful(m, content),
        forall|i: int|
            0 <= i < packets.len() ==> m.writers.contains_key(
                (#[trigger] packets[i]).stream_index,
            ),
    ensures
        ({
            let after = run(m, packets);
            &&& faithful(after, now)
            &&& after.streams == m.streams
            &&& after.writers.dom() == m.writers.dom()
            &&& forall|k: u32| #[trigger]
                m.writers.contains_key(k) ==> now[k] == content[k] + sent_to(packets, k)
                    && after.writers[k].serial == m.writers[k].serial
        }),
    decreases packets.len(),
{
    if packets.len() == 0 {
        assert forall|k: u32| #[trigger] m.writers.contains_key(k) implies content[k] == content[k]
            + sent_to(packets, k) by {
            assert(content[k] + Seq::<Seq<u8>>::empty() =~= content[k]);
        }
        content
    } else {
        let front = packets.drop_last();
        assert forall|i: int| 0 <= i < front.len() implies m.writers.contains_key(
            (#[trigger] front[i]).stream_index,
        ) by {
            assert(packets[i] == front[i]);
        }
        let between = lemma_run(m, content, front);
        let mid = run(m, front);
        let p = packets.last();
        assert(m.writers.contains_key(packets[packets.len() - 1].stream_index));
        assert(mid.writers.contains_key(p.stream_index));
        law_packet(mid, between, p);
        let now = between.insert(p.stream_index, between[p.stream_index].push(p.data));
        assert forall|k: u32| #[trigger] m.writers.contains_key(k) implies (now[k] == content[k]
            + sent_to(packets, k) && run(m, packets).writers[k].serial
            == m.writers[k].serial) by {
            assert(mid.writers.contains_key(k));
            if k == p.stream_index {
                assert((content[k] + sent_to(front, k)).push(p.data) =~= content[k] + sent_to(
                    packets,
                    k,
                ));
            }
        }
        now
    }
}

/// Whatever packets are written to whichever streams, and with or without a
/// Skeleton, the finished physical stream reads back as its pages, and the
/// pages of each logical bitstream follow each other and carry exactly its
/// header packets and then its packets, each of them whole and in its order.
pub proof fn law_mux_round_trip(
    position: u64,
    streams: Seq<StreamInfoView>,
    skeleton: Option<SkeletonView>,
    config: Option<AutoIndexConfig>,
    packets: Seq<PacketView>,
)
    requires
        sound_setup(streams, skeleton, config),
        muxer::initial(position, streams, skeleton, config).headers_fit(),
        forall|i: int|
            0 <= i < packets.len() ==> exists|j: int|
                0 <= j < streams.len() && (#[trigger] streams[j]).index == (
                #[trigger] packets[i]).stream_index,
    ensures
        ({
            let m = muxer::initial(position, streams, skeleton, config);
            let pages = run(m.with_headers(), packets).ended().wire.pages;
            &&& framing::pages_of(framing::bytes_of(pages)) == Ok::<Seq<PageView>, Error>(pages)
            &&& forall|i: int|
                0 <= i < streams.len() ==> {
                    let index = (#[trigger] streams[i]).index;
                    let serial = serials::assigned(Set::empty(), streams)[i];
                    &&& stream_laws::unbroken(of_serial(pages, serial))
                    &&& framing::stream_packets(of_serial(pages, serial)) matches Ok((found, state))
                        && found == sent_headers(m, i) + sent_to(packets, index)
                }
        }),
{
    let m = muxer::initial(position, streams, skeleton, config);
    let content = law_headers(position, streams, skeleton, config);
    let headed = m.with_headers();
    assert forall|i: int| 0 <= i < packets.len() implies headed.writers.contains_key(
        (#[trigger] packets[i]).stream_index,
    ) by {
        let j = choose|j: int|
            0 <= j < streams.len() && (#[trigger] streams[j]).index == packets[i].stream_index;
        assert(headed.writers.contains_key(streams[j].index));
    }
    let now = lemma_run(headed, content, packets);
    let ran = run(headed, packets);
    assert(all_there(ran)) by {
        assert forall|i: int| 0 <= i < ran.streams.len() implies ran.writers.contains_key(
            (#[trigger] ran.streams[i]).index,
        ) by {
            assert(headed.writers.contains_key(streams[i].index));
        }
    }
    let n = streams.len() as int;
    lemma_closed_off(ran, now, n);
    let closed = ran.closed_off(n);
    let pages = ran.ended().wire.pages;
    assert(pages == closed.wire.pages);
    framing::law_pages_of_bytes_of(pages);
    assert forall|i: int| 0 <= i < streams.len() implies ({
        let index = (#[trigger] streams[i]).index;
        let serial = serials::assigned(Set::empty(), streams)[i];
        &&& stream_laws::unbroken(of_serial(pages, serial))
        &&& framing::stream_packets(of_serial(pages, serial)) matches Ok((found, state)) && found
            == sent_headers(m, i) + sent_to(packets, index)
    }) by {
        let index = streams[i].index;
        assert(closed.streams[i] == streams[i]);
        assert(headed.writers.contains_key(index));
        assert(ran.writers.contains_key(index));
        assert(closed.writers.contains_key(index));
        assert(lane_holds(closed, now, index));
        assert(closed.writers[closed.streams[i].index].pending is None);
        lemma_drained(closed, now, index);
    }
}

/// A page that takes the place of an index is as long as the page whose place
/// it takes.
pub proof fn law_index_patch_fits(a: AutoIndexView, serial: u32, seq_no: u32)
    requires
        a.wf(),
    ensures
        muxer::skeleton_page(serial, seq_no, 0, a.packet()).encoded().len()
            == muxer::skeleton_page(serial, seq_no, 0, a.vacant().packet()).encoded().len(),
{
    crate::mux::auto_index::law_index_fits(a);
    crate::mux::auto_index::law_index_fits(a.vacant());
    page::law_laced(a.packet().len());
    let p = muxer::skeleton_page(serial, seq_no, 0, a.packet());
    let q = muxer::skeleton_page(serial, seq_no, 0, a.vacant().packet());
    page::law_parse_encoded(p, Seq::empty());
    page::law_parse_encoded(q, Seq::empty());
}

/// A page that takes the place of the `fishead` is as long as that page, and
/// changes nothing but a length and an offset that were not known.
pub proof fn law_head_patch_fits(m: MuxView)
    requires
        m.skeleton matches Some(s) && (s.emitted_head matches Some(h) && h.extended() && h.utc.len()
            == 20),
    ensures
        ({
            let s = m.skeleton->Some_0;
            let head = s.emitted_head->Some_0;
            let measured = m.measured_head();
            &&& muxer::skeleton_page(s.serial, 0, 2, measured.encoded()).encoded().len()
                == muxer::skeleton_page(s.serial, 0, 2, head.encoded()).encoded().len()
            &&& measured.version == head.version
            &&& measured.presentation_time == head.presentation_time
            &&& measured.basetime == head.basetime
            &&& measured.utc == head.utc
            &&& !muxer::unknown(head.segment_length) ==> measured.segment_length
                == head.segment_length
            &&& !muxer::unknown(head.content_byte_offset) ==> measured.content_byte_offset
                == head.content_byte_offset
        }),
{
    let s = m.skeleton->Some_0;
    let head = s.emitted_head->Some_0;
    let measured = m.measured_head();
    assert(measured.encoded().len() == head.encoded().len());
    page::law_laced(head.encoded().len());
    page::law_parse_encoded(muxer::skeleton_page(s.serial, 0, 2, measured.encoded()), Seq::empty());
    page::law_parse_encoded(muxer::skeleton_page(s.serial, 0, 2, head.encoded()), Seq::empty());
}

/// A `fishead` without such fields, or with nothing left open in them, is never
/// written anew.
pub proof fn law_head_untouched(m: MuxView)
    requires
        m.skeleton matches Some(s) && (s.emitted_head matches Some(h) && (!h.extended() || (
        !muxer::unknown(h.segment_length) && !muxer::unknown(h.content_byte_offset)))),
    ensures
        m.head_patches().len() == 0,
{
}

} // verus!
