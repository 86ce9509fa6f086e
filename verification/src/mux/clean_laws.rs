//! What the validator says of what a muxer writes.
use crate::codec_id;
use crate::framing;
use crate::mux::auto_index::AutoIndexConfig;
use crate::mux::chain_laws;
use crate::mux::chain_laws::Link;
use crate::mux::codec_headers;
use crate::mux::link_laws;
use crate::mux::mux_laws;
use crate::mux::muxer;
use crate::mux::muxer::MuxView;
use crate::mux::serials;
use crate::mux::tidy;
use crate::mux::tidy::Front;
use crate::page;
use crate::page::{flags, PageView};
use crate::skeleton::state::SkeletonView;
use crate::stream::{PacketView, StreamInfoView};
use crate::validate;
use crate::validate_group;
use crate::validate_laws;
use vstd::prelude::*;

verus! {

/// The pages that are written for the headers, the packets and the end.
pub open spec fn pages_written(
    position: u64,
    streams: Seq<StreamInfoView>,
    skeleton: Option<SkeletonView>,
    config: Option<AutoIndexConfig>,
    packets: Seq<PacketView>,
) -> Seq<PageView> {
    mux_laws::run(
        muxer::initial(position, streams, skeleton, config).with_headers(),
        packets,
    ).ended().wire.pages
}

/// Streams and packets that make a complete physical stream: every stream is
/// opened with a header packet and holds something to end with, which is a
/// packet or, where no Skeleton separates the headers from the content, a
/// further header packet; and every packet is of one of the streams.
pub open spec fn complete(
    position: u64,
    streams: Seq<StreamInfoView>,
    skeleton: Option<SkeletonView>,
    config: Option<AutoIndexConfig>,
    packets: Seq<PacketView>,
) -> bool {
    let m = muxer::initial(position, streams, skeleton, config);
    &&& mux_laws::sound_setup(streams, skeleton, config)
    &&& m.headers_fit()
    &&& streams.len() > 0
    &&& forall|i: int|
        0 <= i < streams.len() ==> (#[trigger] m.headers(i)).len() > 0 && codec_id::header_count(
            streams[i].params.codec,
        ) > 0 && (mux_laws::sent_to(packets, streams[i].index).len() > 0 || (skeleton is None
            && m.headers(i).len() > 1))
    &&& link_laws::addressed(streams, packets)
}

/// No stream has more header packets than its codec.
pub open spec fn counted_headers(streams: Seq<StreamInfoView>) -> bool {
    forall|i: int|
        0 <= i < streams.len() ==> codec_headers::headers_of(
            (#[trigger] streams[i]).params.codec,
            streams[i].params.extradata,
        ).len() <= codec_id::header_count(streams[i].params.codec)
}

/// What stands before the streams are opened: nothing, or the page that begins
/// the Skeleton.
proof fn lemma_front(
    position: u64,
    streams: Seq<StreamInfoView>,
    skeleton: Option<SkeletonView>,
    config: Option<AutoIndexConfig>,
) -> (front: Front)
    ensures
        ({
            let start = mux_laws::begun(muxer::initial(position, streams, skeleton, config));
            &&& tidy::headed_by(start, front)
            &&& start.wire.pages.len() == front.heads
            &&& skeleton is Some ==> tidy::described_so_far(start, front, false)
        }),
{
    let m = muxer::initial(position, streams, skeleton, config);
    let start = mux_laws::begun(m);
    let pages = start.wire.pages;
    if skeleton is Some {
        let o = start.skeleton->Some_0;
        let b = MuxView { header_written: true, ..m };
        let packet = b.head_to_write().encoded();
        let p = muxer::skeleton_page(o.serial, 0, flags::FIRST_PAGE, packet);
        assert(pages =~= seq![p]);
        assert(pages.drop_last() =~= Seq::<PageView>::empty());
        assert(mux_laws::of_serial(pages.drop_last(), o.serial) =~= Seq::<PageView>::empty());
        assert(mux_laws::of_serial(pages, o.serial) =~= seq![p]);
        page::law_laced(packet.len());
        assert(tidy::describing(start, pages[0].serial));
        assert(pages.take(0) =~= Seq::<PageView>::empty());
        assert(tidy::described_lane(seq![p], o.serial, 1, false)) by {
            reveal(tidy::described_lane);
        }
        Front { heads: 1, described: seq![p] }
    } else {
        Front { heads: 0, described: Seq::empty() }
    }
}

/// What has been written when the headers have.
#[verifier::opaque]
spec fn headers_tidy(
    m: MuxView,
    own: Seq<u32>,
    bare: bool,
    now: Map<u32, Seq<Seq<u8>>>,
    front: Front,
    timed: bool,
) -> bool {
    &&& mux_laws::faithful(m, now)
    &&& mux_laws::all_there(m)
    &&& tidy::only_streams(m)
    &&& mux_laws::distinct_streams(m.streams)
    &&& tidy::tidy(m, front, tidy::zeros(), timed)
    &&& tidy::begun_all(m)
    &&& front.heads > 0
    &&& m.skeleton is Some ==> tidy::described_so_far(m, front, !bare)
    &&& bare ==> forall|i: int|
        0 <= i < m.streams.len() && (#[trigger] m.headers(i)).len() > 1 ==> tidy::held_back(
            m,
            m.streams[i].index,
        )
    &&& forall|i: int|
        0 <= i < m.streams.len() ==> m.writers[(#[trigger] m.streams[i]).index].serial == own[i]
}

/// The header packets of the streams leave everything tidy.
proof fn lemma_tidy_headed(
    start: MuxView,
    content: Map<u32, Seq<Seq<u8>>>,
    own: Seq<u32>,
    base: Front,
    timed: bool,
) -> (r: (Map<u32, Seq<Seq<u8>>>, Front))
    requires
        mux_laws::faithful(start, content),
        mux_laws::all_there(start),
        mux_laws::untouched(start, 0),
        start.headers_fit(),
        mux_laws::distinct_streams(start.streams),
        mux_laws::content_is(start, content, 0, |i: int| Seq::empty()),
        start.streams.len() > 0,
        start.writers == muxer::fresh_writers(start.streams, own),
        own.len() == start.streams.len(),
        tidy::headed_by(start, base),
        start.wire.pages.len() == base.heads,
        start.skeleton is Some ==> tidy::described_so_far(start, base, false),
        link_laws::opens_all(start.streams),
        timed ==> counted_headers(start.streams),
    ensures
        headers_tidy(start.headed(), own, true, r.0, r.1, timed),
        start.headed().streams == start.streams,
        start.headed().skeleton == start.skeleton,
        start.headed().secondary_fit(),
        r.1.heads == base.heads + start.streams.len(),
{
    reveal(headers_tidy);
    let streams = start.streams;
    let n = streams.len() as int;
    mux_laws::lemma_fresh_lanes(streams, own);
    assert(tidy::only_streams(start));
    assert(tidy::all_open(start, n)) by {
        assert forall|i: int| 0 <= i < n implies (#[trigger] start.headers(i)).len() > 0
            && codec_id::header_count(start.streams[i].params.codec) > 0 by {
            assert(streams[i] == start.streams[i]);
        }
    }
    tidy::lemma_tidy_opened(start, content, n, base, timed);
    let front = Front { heads: base.heads + n, ..base };
    let between = mux_laws::lemma_opened(start, content, n);
    let opened = start.opened(n);
    assert(tidy::begun_all(opened)) by {
        assert forall|k: u32| #[trigger] opened.writers.contains_key(k) implies tidy::own_pages(
            opened,
            k,
        ).len() > 0 by {
            assert(start.writers.contains_key(k));
            let i = choose|i: int|
                0 <= i < start.streams.len() && (#[trigger] start.streams[i]).index == k;
            assert(tidy::own_pages(opened, start.streams[i].index).len() > 0);
        }
    }
    if timed {
        assert forall|i: int| 0 <= i < opened.streams.len() implies muxer::behind_first(
            #[trigger] opened.headers(i),
        ).len() <= opened.writers[opened.streams[i].index].headers by {
            assert(start.streams[i] == streams[i]);
            assert(start.headers(i).len() > 0);
            assert(streams[i].params.codec == opened.streams[i].params.codec);
            assert(opened.writers[start.streams[i].index].headers == codec_id::header_count(
                start.streams[i].params.codec,
            ) - 1);
        }
    }
    tidy::lemma_tidy_continued(opened, between, n, front, timed);
    let what = |i: int| between[opened.streams[i].index];
    let now = mux_laws::lemma_continued(opened, between, n, what);
    let headed = start.headed();
    assert(headed == opened.continued(n));
    assert(tidy::only_streams(headed)) by {
        assert forall|k: u32| #[trigger] headed.writers.contains_key(k) implies exists|i: int|
            0 <= i < headed.streams.len() && (#[trigger] headed.streams[i]).index == k by {
            assert(start.writers.contains_key(k));
            let i = choose|i: int|
                0 <= i < start.streams.len() && (#[trigger] start.streams[i]).index == k;
            assert(headed.streams[i].index == k);
        }
    }
    assert forall|i: int| 0 <= i < headed.streams.len() && (
    #[trigger] headed.headers(i)).len() > 1 implies tidy::held_back(
        headed,
        headed.streams[i].index,
    ) by {
        assert(opened.headers(i) == headed.headers(i));
        assert(opened.headers(i).len() > 1);
    }
    assert forall|i: int| 0 <= i < headed.streams.len() implies headed.writers[(
    #[trigger] headed.streams[i]).index].serial == own[i] by {
        assert(start.streams[i] == headed.streams[i]);
        assert(start.writers.contains_key(start.streams[i].index));
        assert(start.writers[start.streams[i].index].serial == own[i]);
        assert(opened.writers.contains_key(streams[i].index));
    }
    assert(headed.secondary_fit()) by {
        if start.skeleton is Some {
            assert(headed.secondary_packets() =~= start.secondary_packets());
        }
    }
    (now, front)
}

/// The headers, those of a Skeleton included, leave everything tidy.
proof fn lemma_tidy_headers(
    position: u64,
    streams: Seq<StreamInfoView>,
    skeleton: Option<SkeletonView>,
    config: Option<AutoIndexConfig>,
    packets: Seq<PacketView>,
    timed: bool,
) -> (r: (Map<u32, Seq<Seq<u8>>>, Front))
    requires
        complete(position, streams, skeleton, config, packets),
        timed ==> counted_headers(streams),
    ensures
        headers_tidy(
            muxer::initial(position, streams, skeleton, config).with_headers(),
            serials::assigned(Set::empty(), streams),
            skeleton is None,
            r.0,
            r.1,
            timed,
        ),
        muxer::initial(position, streams, skeleton, config).with_headers().streams == streams,
        muxer::initial(position, streams, skeleton, config).with_headers().skeleton is Some
            == skeleton is Some,
{
    reveal(headers_tidy);
    let m = muxer::initial(position, streams, skeleton, config);
    let own = serials::assigned(Set::empty(), streams);
    let content = mux_laws::lemma_begun(position, streams, skeleton, config);
    let start = mux_laws::begun(m);
    let base = lemma_front(position, streams, skeleton, config);
    serials::law_assigned(Set::empty(), streams);
    assert(link_laws::opens_all(start.streams)) by {
        assert forall|i: int| 0 <= i < streams.len() implies codec_headers::headers_of(
            (#[trigger] streams[i]).params.codec,
            streams[i].params.extradata,
        ).len() > 0 && codec_id::header_count(streams[i].params.codec) > 0 by {
            assert(m.headers(i).len() > 0);
        }
    }
    let r = lemma_tidy_headed(start, content, own, base, timed);
    let n = streams.len() as int;
    mux_laws::lemma_kept_opened(start, n);
    mux_laws::lemma_kept_continued(start.opened(n), n);
    assert(start.opened(n).streams == start.streams) by {
        let x = mux_laws::lemma_opened(start, content, n);
    }
    let headed = start.headed();
    let after = m.with_headers();
    if skeleton is Some {
        let next = tidy::lemma_tidy_skeleton(headed, r.0, r.1, timed);
        mux_laws::lemma_with_skeleton(headed, r.0);
        assert(after == headed.with_skeleton());
        assert(mux_laws::all_there(after)) by {
            assert forall|i: int| 0 <= i < after.streams.len() implies after.writers.contains_key(
                (#[trigger] after.streams[i]).index,
            ) by {
                assert(headed.writers.contains_key(headed.streams[i].index));
            }
        }
        assert(tidy::only_streams(after)) by {
            assert forall|k: u32| #[trigger] after.writers.contains_key(k) implies exists|i: int|
                0 <= i < after.streams.len() && (#[trigger] after.streams[i]).index == k by {
                assert(headed.writers.contains_key(k));
                let i = choose|i: int|
                    0 <= i < headed.streams.len() && (#[trigger] headed.streams[i]).index == k;
                assert(after.streams[i].index == k);
            }
        }
        assert forall|i: int| 0 <= i < after.streams.len() implies after.writers[(
        #[trigger] after.streams[i]).index].serial == own[i] by {
            assert(headed.writers.contains_key(headed.streams[i].index));
        }
        (r.0, next)
    } else {
        r
    }
}

/// What has been written in the end.
#[verifier::opaque]
spec fn all_closed(
    after: MuxView,
    own: Seq<u32>,
    front: Front,
    timed: bool,
) -> bool {
    &&& tidy::headed_by(after, front)
    &&& front.heads > 0
    &&& forall|i: int|
        0 <= i < after.wire.pages.len() ==> (#[trigger] after.wire.pages[i]).wf()
    &&& after.skeleton is Some ==> tidy::described_so_far(after, front, true)
    &&& forall|k: u32| #[trigger]
        after.writers.contains_key(k) ==> tidy::closed_lane(after, k, timed) && own.contains(
            after.writers[k].serial,
        )
}

/// In the end every stream is closed.
proof fn lemma_all_closed(
    headed: MuxView,
    own: Seq<u32>,
    bare: bool,
    now: Map<u32, Seq<Seq<u8>>>,
    front: Front,
    packets: Seq<PacketView>,
    timed: bool,
)
    requires
        headers_tidy(headed, own, bare, now, front, timed),
        bare ==> headed.skeleton is None,
        own.len() == headed.streams.len(),
        link_laws::addressed(headed.streams, packets),
        forall|i: int|
            0 <= i < headed.streams.len() ==> mux_laws::sent_to(
                packets,
                (#[trigger] headed.streams[i]).index,
            ).len() > 0 || (bare && headed.headers(i).len() > 1),
        timed ==> tidy::timely(packets),
    ensures
        all_closed(mux_laws::run(headed, packets).ended(), own, front, timed),
{
    reveal(headers_tidy);
    reveal(all_closed);
    let n = headed.streams.len() as int;
    assert forall|i: int| 0 <= i < packets.len() implies headed.writers.contains_key(
        (#[trigger] packets[i]).stream_index,
    ) by {
        let j = choose|j: int|
            0 <= j < headed.streams.len() && (#[trigger] headed.streams[j]).index
                == packets[i].stream_index;
        assert(headed.writers.contains_key(headed.streams[j].index));
    }
    let g = tidy::lemma_tidy_run(headed, now, packets, front, timed);
    let content = mux_laws::lemma_run(headed, now, packets);
    let ran = mux_laws::run(headed, packets);
    assert(mux_laws::all_there(ran)) by {
        assert forall|i: int| 0 <= i < ran.streams.len() implies ran.writers.contains_key(
            (#[trigger] ran.streams[i]).index,
        ) by {
            assert(headed.writers.contains_key(headed.streams[i].index));
        }
    }
    assert forall|i: int| 0 <= i < ran.streams.len() implies tidy::held_back(
        ran,
        (#[trigger] ran.streams[i]).index,
    ) by {
        assert(headed.writers.contains_key(headed.streams[i].index));
    }
    tidy::lemma_tidy_closed(ran, content, n, front, g, timed);
    mux_laws::lemma_closed_off(ran, content, n);
    tidy::lemma_run_described(headed, packets);
    tidy::lemma_closed_described(ran, n);
    let closed = ran.closed_off(n);
    let after = ran.ended();
    assert forall|k: u32| #[trigger] after.writers.contains_key(k) implies tidy::closed_lane(
        after,
        k,
        timed,
    ) && own.contains(after.writers[k].serial) by {
        assert(closed.writers.contains_key(k));
        assert(ran.writers.contains_key(k));
        assert(headed.writers.contains_key(k));
        let i = choose|i: int|
            0 <= i < headed.streams.len() && (#[trigger] headed.streams[i]).index == k;
        assert(tidy::closed_lane(closed, ran.streams[i].index, timed));
        assert(headed.writers[headed.streams[i].index].serial == own[i]);
    }
    assert(tidy::headed_by(after, front)) by {
        assert forall|i: int| 0 <= i < after.wire.pages.len() implies tidy::in_use(
            after,
            (#[trigger] after.wire.pages[i]).serial,
        ) by {
            assert(tidy::in_use(closed, closed.wire.pages[i].serial));
            if tidy::streamed(closed, closed.wire.pages[i].serial) {
                let k = choose|k: u32| #[trigger]
                    closed.writers.contains_key(k) && closed.writers[k].serial
                        == closed.wire.pages[i].serial;
                assert(after.writers.contains_key(k));
            }
        }
    }
}

/// In the end every stream of a muxer is closed.
proof fn lemma_muxer_closed(
    position: u64,
    streams: Seq<StreamInfoView>,
    skeleton: Option<SkeletonView>,
    config: Option<AutoIndexConfig>,
    packets: Seq<PacketView>,
    timed: bool,
) -> (front: Front)
    requires
        complete(position, streams, skeleton, config, packets),
        timed ==> counted_headers(streams) && tidy::timely(packets),
    ensures
        all_closed(
            mux_laws::run(
                muxer::initial(position, streams, skeleton, config).with_headers(),
                packets,
            ).ended(),
            serials::assigned(Set::empty(), streams),
            front,
            timed,
        ),
{
    let m = muxer::initial(position, streams, skeleton, config);
    let own = serials::assigned(Set::empty(), streams);
    serials::law_assigned(Set::empty(), streams);
    let (now, front) = lemma_tidy_headers(position, streams, skeleton, config, packets, timed);
    let headed = m.with_headers();
    assert forall|i: int| 0 <= i < headed.streams.len() implies mux_laws::sent_to(
        packets,
        (#[trigger] headed.streams[i]).index,
    ).len() > 0 || (skeleton is None && headed.headers(i).len() > 1) by {
        assert(m.headers(i).len() > 0);
        assert(headed.headers(i) == m.headers(i));
    }
    lemma_all_closed(headed, own, skeleton is None, now, front, packets, timed);
    front
}

/// The pages of a whole Skeleton are one bitstream.
proof fn lemma_described_one_stream(own: Seq<PageView>, serial: u32, seq_no: u32)
    requires
        tidy::described_lane(own, serial, seq_no, true),
        own.len() <= u32::MAX,
        forall|i: int| 0 <= i < own.len() ==> (#[trigger] own[i]).wf(),
    ensures
        validate_laws::one_stream(serial, own),
{
    reveal(tidy::described_lane);
    tidy::lemma_one_stream(own, serial);
}

/// Closed streams whose granule positions rise are a group.
proof fn lemma_grouped(after: MuxView, own: Seq<u32>, front: Front, timed: bool)
    requires
        after.wire.pages.len() <= u32::MAX,
        all_closed(after, own, front, timed),
        timed || forall|i: int|
            0 <= i < own.len() ==> validate_laws::granules_rise(
                mux_laws::of_serial(after.wire.pages, #[trigger] own[i]),
            ),
    ensures
        validate_group::grouped(after.wire.pages, front.heads),
{
    reveal(all_closed);
    let pages = after.wire.pages;
    assert forall|serial: u32|
        mux_laws::of_serial(pages, serial).len() > 0 implies #[trigger] validate_laws::one_stream(
        serial,
        mux_laws::of_serial(pages, serial),
    ) by {
        tidy::lemma_of_serial_len(pages, serial);
        validate_group::lemma_found_of_serial(pages, serial);
        let i = choose|i: int| 0 <= i < pages.len() && (#[trigger] pages[i]).serial == serial;
        assert(tidy::in_use(after, after.wire.pages[i].serial));
        mux_laws::lemma_of_serial_among(pages, serial);
        if tidy::streamed(after, serial) {
            let k = choose|k: u32| #[trigger]
                after.writers.contains_key(k) && after.writers[k].serial == serial;
            assert(tidy::closed_lane(after, k, timed));
            let i = choose|i: int| 0 <= i < own.len() && own[i] == serial;
            assert(timed || validate_laws::granules_rise(mux_laws::of_serial(pages, own[i])));
            reveal(tidy::all_of_lane);
            tidy::lemma_one_stream(tidy::own_pages(after, k), serial);
        } else {
            let o = after.skeleton->Some_0;
            lemma_described_one_stream(front.described, serial, o.seq_no);
        }
    }
}

/// The granule positions of the bitstreams `own` rise.
pub open spec fn rising(pages: Seq<PageView>, own: Seq<u32>) -> bool {
    forall|i: int|
        0 <= i < own.len() ==> validate_laws::granules_rise(
            mux_laws::of_serial(pages, #[trigger] own[i]),
        )
}

/// The packets of each stream come in the order of their times and no stream has
/// more header packets than its codec, or else the granule positions of the
/// streams rise.
pub open spec fn in_time(
    position: u64,
    streams: Seq<StreamInfoView>,
    skeleton: Option<SkeletonView>,
    config: Option<AutoIndexConfig>,
    packets: Seq<PacketView>,
) -> bool {
    ||| counted_headers(streams) && tidy::timely(packets)
    ||| rising(
        pages_written(position, streams, skeleton, config, packets),
        serials::assigned(Set::empty(), streams),
    )
}

/// The pages of a complete physical stream are a group.
pub proof fn lemma_muxer_grouped(
    position: u64,
    streams: Seq<StreamInfoView>,
    skeleton: Option<SkeletonView>,
    config: Option<AutoIndexConfig>,
    packets: Seq<PacketView>,
) -> (heads: int)
    requires
        complete(position, streams, skeleton, config, packets),
        in_time(position, streams, skeleton, config, packets),
        pages_written(position, streams, skeleton, config, packets).len() <= u32::MAX,
    ensures
        validate_group::grouped(
            pages_written(position, streams, skeleton, config, packets),
            heads,
        ),
{
    let timed = counted_headers(streams) && tidy::timely(packets);
    let own = serials::assigned(Set::empty(), streams);
    let front = lemma_muxer_closed(position, streams, skeleton, config, packets, timed);
    serials::law_assigned(Set::empty(), streams);
    let after = mux_laws::run(
        muxer::initial(position, streams, skeleton, config).with_headers(),
        packets,
    ).ended();
    lemma_grouped(after, own, front, timed);
    front.heads
}

/// A complete physical stream that a muxer writes is clean, one link with
/// nothing between its pages, if its packets come in time.
pub proof fn law_muxer_clean(
    position: u64,
    streams: Seq<StreamInfoView>,
    skeleton: Option<SkeletonView>,
    config: Option<AutoIndexConfig>,
    packets: Seq<PacketView>,
)
    requires
        complete(position, streams, skeleton, config, packets),
        in_time(position, streams, skeleton, config, packets),
        pages_written(position, streams, skeleton, config, packets).len() <= u32::MAX,
    ensures
        ({
            let pages = pages_written(position, streams, skeleton, config, packets);
            let report = validate::validated(framing::bytes_of(pages));
            &&& report.clean()
            &&& report.pages == pages.len()
            &&& report.links == 1
            &&& report.junk_bytes == 0
        }),
{
    let heads = lemma_muxer_grouped(position, streams, skeleton, config, packets);
    validate_group::law_group_clean(
        pages_written(position, streams, skeleton, config, packets),
        heads,
    );
}

/// A link that can be written whole: every stream is opened with a header
/// packet, and a further header packet or a packet follows.
pub open spec fn whole_link(link: Link) -> bool {
    &&& link.streams.len() > 0
    &&& forall|i: int|
        0 <= i < link.streams.len() ==> {
            let s = #[trigger] link.streams[i];
            let headers = codec_headers::headers_of(s.params.codec, s.params.extradata);
            &&& headers.len() > 0
            &&& codec_id::header_count(s.params.codec) > 0
            &&& headers.len() > 1 || mux_laws::sent_to(link.packets, s.index).len() > 0
        }
}

/// The packets of a link come in the order of their times, and none of its
/// streams has more header packets than its codec.
pub open spec fn timely_link(link: Link) -> bool {
    counted_headers(link.streams) && tidy::timely(link.packets)
}

/// A link that a muxer writes is a group.
proof fn lemma_link_grouped(start: MuxView, own: Seq<u32>, packets: Seq<PacketView>)
    requires
        link_laws::unwritten(start, own),
        link_laws::addressed(start.streams, packets),
        whole_link(Link { streams: start.streams, packets }),
        mux_laws::run(start.headed(), packets).ended().wire.pages.len() <= u32::MAX,
        timely_link(Link { streams: start.streams, packets }) || rising(
            mux_laws::run(start.headed(), packets).ended().wire.pages,
            own,
        ),
    ensures
        ({
            let pages = mux_laws::run(start.headed(), packets).ended().wire.pages;
            &&& validate_group::grouped(pages, start.streams.len() as int)
            &&& pages.len() > start.streams.len()
        }),
{
    let link = Link { streams: start.streams, packets };
    let timed = timely_link(link);
    let content = link_laws::lemma_unwritten(start, own);
    let base = Front { heads: 0, described: Seq::empty() };
    assert(link_laws::opens_all(start.streams)) by {
        assert forall|i: int| 0 <= i < start.streams.len() implies codec_headers::headers_of(
            (#[trigger] start.streams[i]).params.codec,
            start.streams[i].params.extradata,
        ).len() > 0 && codec_id::header_count(start.streams[i].params.codec) > 0 by {
            assert(link.streams[i] == start.streams[i]);
        }
    }
    let (now, front) = lemma_tidy_headed(start, content, own, base, timed);
    let headed = start.headed();
    assert forall|i: int| 0 <= i < headed.streams.len() implies mux_laws::sent_to(
        packets,
        (#[trigger] headed.streams[i]).index,
    ).len() > 0 || (true && headed.headers(i).len() > 1) by {
        assert(link.streams[i] == start.streams[i]);
    }
    lemma_all_closed(headed, own, true, now, front, packets, timed);
    let after = mux_laws::run(headed, packets).ended();
    lemma_grouped(after, own, front, timed);
    tidy::lemma_run_described(headed, packets);
    let ran = mux_laws::run(headed, packets);
    tidy::lemma_closed_described(ran, ran.streams.len() as int);
    lemma_more_pages(after, own, front, timed);
}

/// Closed streams have more pages than those that begin them.
proof fn lemma_more_pages(after: MuxView, own: Seq<u32>, front: Front, timed: bool)
    requires
        all_closed(after, own, front, timed),
        after.skeleton is None,
    ensures
        after.wire.pages.len() > front.heads,
{
    reveal(all_closed);
    reveal(tidy::all_of_lane);
    let pages = after.wire.pages;
    let serial = pages[0].serial;
    assert(tidy::in_use(after, after.wire.pages[0].serial));
    let k = choose|k: u32| #[trigger]
        after.writers.contains_key(k) && after.writers[k].serial == serial;
    assert(tidy::closed_lane(after, k, timed));
    let i = tidy::lemma_second(pages, serial);
    assert(validate_group::rank(pages, i) == 0 <==> i < front.heads);
}

proof fn lemma_part_grouped(position: u64, links: Seq<Link>, n: int)
    requires
        chain_laws::sound_chain(links),
        0 <= n < links.len(),
        whole_link(links[n]),
        chain_laws::part(position, links, n).len() <= u32::MAX,
        timely_link(links[n]) || rising(
            chain_laws::part(position, links, n),
            chain_laws::serials_of(links, n),
        ),
    ensures
        validate_group::grouped(
            chain_laws::part(position, links, n),
            links[n].streams.len() as int,
        ),
        chain_laws::part(position, links, n).len() > links[n].streams.len(),
{
    chain_laws::lemma_link_unwritten(position, links, n);
    let link = links[n];
    let start = chain_laws::link_start(position, links, n);
    assert(link == Link { streams: start.streams, packets: link.packets });
    lemma_link_grouped(start, chain_laws::serials_of(links, n), link.packets);
}

/// A physical stream of whole links is clean, each link counted and nothing
/// between the pages, if in each link the packets come in the order of their
/// times and no stream has more header packets than its codec, or else the
/// granule positions of its streams rise.
pub proof fn law_chain_clean(position: u64, links: Seq<Link>)
    requires
        chain_laws::sound_chain(links),
        links.len() <= u32::MAX,
        forall|n: int| 0 <= n < links.len() ==> whole_link(#[trigger] links[n]),
        forall|n: int|
            0 <= n < links.len() ==> (#[trigger] chain_laws::part(position, links, n)).len()
                <= u32::MAX && (timely_link(links[n]) || rising(
                chain_laws::part(position, links, n),
                chain_laws::serials_of(links, n),
            )),
    ensures
        ({
            let pages = chain_laws::chain(position, links, links.len() as int).ended().wire.pages;
            let report = validate::validated(framing::bytes_of(pages));
            &&& report.clean()
            &&& report.pages == pages.len()
            &&& report.links == links.len()
            &&& report.junk_bytes == 0
        }),
{
    let groups = chain_laws::parts(position, links);
    let heads = Seq::new(links.len(), |n: int| links[n].streams.len() as int);
    chain_laws::law_chain_round_trip(position, links);
    chain_laws::lemma_parts_apart(position, links);
    assert forall|n: int| 0 <= n < groups.len() implies #[trigger] validate_group::grouped(
        groups[n],
        heads[n],
    ) && groups[n].len() > heads[n] by {
        assert(whole_link(links[n]));
        assert(groups[n] == chain_laws::part(position, links, n));
        lemma_part_grouped(position, links, n);
    }
    assert(validate_group::sound_links(groups, heads));
    validate_group::law_links_clean(groups, heads);
}

} // verus!
