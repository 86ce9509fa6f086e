//! Physical streams of several links.
use crate::error::Error;
use crate::framing;
use crate::mux::link_laws;
use crate::mux::mux_laws;
use crate::mux::muxer;
use crate::mux::muxer::MuxView;
use crate::mux::serials;
use crate::page::PageView;
use crate::stream;
use crate::stream::{PacketView, StreamInfoView};
use crate::validate_group;
use vstd::prelude::*;

verus! {

/// What one link is to hold.
pub struct Link {
    /// Its streams.
    pub streams: Seq<StreamInfoView>,
    /// Their packets.
    pub packets: Seq<PacketView>,
}

/// The muxer after the first `n` links, of which there is at least one.
pub open spec fn chain(position: u64, links: Seq<Link>, n: int) -> MuxView
    decreases n,
{
    if n <= 1 {
        mux_laws::run(
            muxer::initial(position, links[0].streams, None, None).with_headers(),
            links[0].packets,
        )
    } else {
        mux_laws::run(
            chain(position, links, n - 1).relinked(links[n - 1].streams),
            links[n - 1].packets,
        )
    }
}

/// The serials of the first `n` links.
pub open spec fn serials_before(links: Seq<Link>, n: int) -> Set<u32>
    decreases n,
{
    if n <= 0 {
        Set::empty()
    } else {
        let before = serials_before(links, n - 1);
        before + serials::assigned(before, links[n - 1].streams).to_set()
    }
}

/// The serials of link `n`.
pub open spec fn serials_of(links: Seq<Link>, n: int) -> Seq<u32> {
    serials::assigned(serials_before(links, n), links[n].streams)
}

/// Every link can be written: no two of its streams have one index, their first
/// header packets fit a page, every packet is of one of them, and there are
/// serials for them.
pub open spec fn sound_chain(links: Seq<Link>) -> bool {
    &&& links.len() > 0
    &&& forall|j: int|
        0 <= j < links.len() ==> {
            let link = #[trigger] links[j];
            &&& mux_laws::distinct_streams(link.streams)
            &&& muxer::streams_fit_pages(link.streams)
            &&& link_laws::addressed(link.streams, link.packets)
            &&& serials_before(links, j).len() + link.streams.len() <= serials::SERIAL_COUNT
        }
}

/// The muxer that is about to write link `n`, as if nothing stood before it.
pub open spec fn link_start(position: u64, links: Seq<Link>, n: int) -> MuxView {
    if n <= 0 {
        MuxView {
            header_written: true,
            ..muxer::initial(position, links[0].streams, None, None)
        }
    } else {
        link_laws::link_begun(chain(position, links, n), links[n].streams)
    }
}

/// The pages of link `n`.
pub open spec fn part(position: u64, links: Seq<Link>, n: int) -> Seq<PageView> {
    mux_laws::run(link_start(position, links, n).headed(), links[n].packets).ended().wire.pages
}

/// The pages of each link.
pub open spec fn parts(position: u64, links: Seq<Link>) -> Seq<Seq<PageView>> {
    Seq::new(links.len(), |n: int| part(position, links, n))
}

/// Of what a muxer knows, what writing to its streams leaves as it is.
spec fn same_rest(a: MuxView, b: MuxView) -> bool {
    &&& a.used == b.used
    &&& a.skeleton == b.skeleton
    &&& a.streams == b.streams
}

proof fn lemma_rest_packet(m: MuxView, p: PacketView)
    ensures
        same_rest(m.packet(p), m),
{
    mux_laws::lemma_emitted_pages(m, p.stream_index, m.writers[p.stream_index].written(p).ready);
}

proof fn lemma_rest_more(m: MuxView, k: u32, packets: Seq<Seq<u8>>)
    ensures
        same_rest(m.more_headers(k, packets), m),
    decreases packets.len(),
{
    if packets.len() > 0 {
        lemma_rest_more(m, k, packets.drop_last());
        lemma_rest_packet(
            m.more_headers(k, packets.drop_last()),
            stream::bare_packet(k, packets.last()),
        );
    }
}

proof fn lemma_rest_opened(m: MuxView, n: int)
    ensures
        same_rest(m.opened(n), m),
    decreases n,
{
    if n > 0 {
        lemma_rest_opened(m, n - 1);
        let mid = m.opened(n - 1);
        let k = m.streams[n - 1].index;
        mux_laws::lemma_emitted_pages(
            mid,
            k,
            mid.writers[k].opened(m.headers(n - 1)[0]).ready,
        );
    }
}

proof fn lemma_rest_continued(m: MuxView, n: int)
    ensures
        same_rest(m.continued(n), m),
    decreases n,
{
    if n > 0 {
        lemma_rest_continued(m, n - 1);
        lemma_rest_more(
            m.continued(n - 1),
            m.streams[n - 1].index,
            muxer::behind_first(m.headers(n - 1)),
        );
    }
}

proof fn lemma_rest_run(m: MuxView, packets: Seq<PacketView>)
    ensures
        same_rest(mux_laws::run(m, packets), m),
    decreases packets.len(),
{
    if packets.len() > 0 {
        lemma_rest_run(m, packets.drop_last());
        lemma_rest_packet(mux_laws::run(m, packets.drop_last()), packets.last());
    }
}

proof fn lemma_rest_link(m: MuxView, packets: Seq<PacketView>)
    ensures
        same_rest(mux_laws::run(m.headed(), packets), m),
{
    let n = m.streams.len() as int;
    lemma_rest_opened(m, n);
    lemma_rest_continued(m.opened(n), n);
    lemma_rest_run(m.headed(), packets);
}

/// The muxer has claimed the serials of the links so far.
proof fn lemma_chain_used(position: u64, links: Seq<Link>, n: int)
    requires
        sound_chain(links),
        1 <= n <= links.len(),
    ensures
        chain(position, links, n).used == serials_before(links, n),
        chain(position, links, n).skeleton is None,
        chain(position, links, n).streams == links[n - 1].streams,
    decreases n,
{
    reveal_with_fuel(chain, 2);
    reveal_with_fuel(serials_before, 2);
    if n == 1 {
        let m = link_start(position, links, 0);
        lemma_rest_link(m, links[0].packets);
        assert(m.used =~= serials_before(links, 1));
    } else {
        lemma_chain_used(position, links, n - 1);
        let m = chain(position, links, n - 1);
        link_laws::lemma_closed_rest(m, m.streams.len() as int);
        let c = m.closed_off(m.streams.len() as int);
        let streams = links[n - 1].streams;
        let b = link_laws::behind(link_laws::link_begun(m, streams), c.wire.pages);
        assert(b.wire.pages =~= c.wire.pages);
        assert(m.relinked(streams) == b.headed());
        lemma_rest_link(b, links[n - 1].packets);
    }
}

proof fn lemma_serials_finite(links: Seq<Link>, n: int)
    requires
        sound_chain(links),
        0 <= n <= links.len(),
    ensures
        serials_before(links, n).finite(),
    decreases n,
{
    if n > 0 {
        lemma_serials_finite(links, n - 1);
        let link = links[n - 1];
        serials::law_assigned(serials_before(links, n - 1), link.streams);
    }
}

/// Each link begins as a muxer that has written nothing.
pub proof fn lemma_link_unwritten(position: u64, links: Seq<Link>, n: int)
    requires
        sound_chain(links),
        0 <= n < links.len(),
    ensures
        link_laws::unwritten(link_start(position, links, n), serials_of(links, n)),
        link_start(position, links, n).streams == links[n].streams,
        forall|i: int|
            0 <= i < serials_of(links, n).len() ==> !serials_before(links, n).contains(
                #[trigger] serials_of(links, n)[i],
            ),
{
    let link = links[n];
    lemma_serials_finite(links, n);
    serials::law_assigned(serials_before(links, n), link.streams);
    if n > 0 {
        lemma_chain_used(position, links, n);
        let m = chain(position, links, n);
        link_laws::lemma_closed_rest(m, m.streams.len() as int);
    }
}

/// The serials of a link are among those of the links up to a later one.
proof fn lemma_serials_grow(links: Seq<Link>, a: int, n: int)
    requires
        0 <= a < n,
    ensures
        forall|s: u32| #[trigger]
            serials_of(links, a).contains(s) ==> serials_before(links, n).contains(s),
    decreases n - a,
{
    if a < n - 1 {
        lemma_serials_grow(links, a, n - 1);
    }
}

/// What has been written is the pages of the links, one behind the other.
proof fn lemma_chain_parts(position: u64, links: Seq<Link>, n: int)
    requires
        sound_chain(links),
        1 <= n <= links.len(),
    ensures
        chain(position, links, n).ended().wire.pages == validate_group::linked(
            parts(position, links).take(n),
        ),
    decreases n,
{
    let all = parts(position, links);
    assert(all.take(n).drop_last() =~= all.take(n - 1));
    assert(all.take(n).last() == part(position, links, n - 1));
    if n == 1 {
        assert(all.take(0) =~= Seq::empty());
        assert(validate_group::linked(all.take(0)) =~= Seq::empty());
        assert(validate_group::linked(all.take(1)) =~= part(position, links, 0));
    } else {
        lemma_chain_parts(position, links, n - 1);
        let m = chain(position, links, n - 1);
        link_laws::law_link_behind(m, links[n - 1].streams, links[n - 1].packets);
    }
}

/// Pages without a serial have none of it.
pub proof fn lemma_none_of_serial(pages: Seq<PageView>, serial: u32)
    requires
        forall|i: int| 0 <= i < pages.len() ==> (#[trigger] pages[i]).serial != serial,
    ensures
        mux_laws::of_serial(pages, serial) == Seq::<PageView>::empty(),
    decreases pages.len(),
{
    if pages.len() > 0 {
        let front = pages.drop_last();
        assert forall|i: int| 0 <= i < front.len() implies (#[trigger] front[i]).serial
            != serial by {
            assert(pages[i] == front[i]);
        }
        lemma_none_of_serial(front, serial);
        assert(pages[pages.len() - 1].serial != serial);
    }
}

/// The pages of one link's bitstream are all in that link.
proof fn lemma_apart(groups: Seq<Seq<PageView>>, j: int, serial: u32)
    requires
        0 <= j < groups.len(),
        forall|a: int, i: int|
            0 <= a < groups.len() && a != j && 0 <= i < groups[a].len() ==> (
            #[trigger] groups[a][i]).serial != serial,
    ensures
        mux_laws::of_serial(validate_group::linked(groups), serial) == mux_laws::of_serial(
            groups[j],
            serial,
        ),
    decreases groups.len(),
{
    let front = groups.drop_last();
    let n = groups.len() - 1;
    let none = Seq::<PageView>::empty();
    mux_laws::lemma_of_serial_concat(validate_group::linked(front), groups[n], serial);
    if j == n {
        lemma_nowhere(front, serial);
        assert(none + mux_laws::of_serial(groups[n], serial) =~= mux_laws::of_serial(
            groups[n],
            serial,
        ));
    } else {
        assert forall|a: int, i: int|
            0 <= a < front.len() && a != j && 0 <= i < front[a].len() implies (
        #[trigger] front[a][i]).serial != serial by {
            assert(groups[a][i].serial != serial);
        }
        lemma_apart(front, j, serial);
        assert forall|i: int| 0 <= i < groups[n].len() implies (#[trigger] groups[n][i]).serial
            != serial by {}
        lemma_none_of_serial(groups[n], serial);
        assert(mux_laws::of_serial(groups[j], serial) + none =~= mux_laws::of_serial(
            groups[j],
            serial,
        ));
    }
}

proof fn lemma_nowhere(groups: Seq<Seq<PageView>>, serial: u32)
    requires
        forall|a: int, i: int|
            0 <= a < groups.len() && 0 <= i < groups[a].len() ==> (#[trigger] groups[a][i]).serial
                != serial,
    ensures
        mux_laws::of_serial(validate_group::linked(groups), serial) == Seq::<PageView>::empty(),
    decreases groups.len(),
{
    if groups.len() > 0 {
        let front = groups.drop_last();
        let n = groups.len() - 1;
        assert forall|a: int, i: int| 0 <= a < front.len() && 0 <= i < front[a].len() implies (
        #[trigger] front[a][i]).serial != serial by {
            assert(groups[a][i].serial != serial);
        }
        lemma_nowhere(front, serial);
        assert forall|i: int| 0 <= i < groups[n].len() implies (#[trigger] groups[n][i]).serial
            != serial by {}
        lemma_none_of_serial(groups[n], serial);
        mux_laws::lemma_of_serial_concat(validate_group::linked(front), groups[n], serial);
        let none = Seq::<PageView>::empty();
        assert(none + none =~= none);
    }
}

/// The pages of a link have its serials.
pub proof fn lemma_part(position: u64, links: Seq<Link>, n: int)
    requires
        sound_chain(links),
        0 <= n < links.len(),
    ensures
        link_laws::holds_link(
            part(position, links, n),
            links[n].streams,
            serials_of(links, n),
            links[n].packets,
        ),
        forall|i: int|
            0 <= i < part(position, links, n).len() ==> (#[trigger] part(
                position,
                links,
                n,
            )[i]).wf() && serials_of(links, n).contains(part(position, links, n)[i].serial),
{
    lemma_link_unwritten(position, links, n);
    let link = links[n];
    link_laws::lemma_link(link_start(position, links, n), serials_of(links, n), link.packets);
}

/// No serial is used in two links.
pub proof fn law_serials_apart(links: Seq<Link>, a: int, b: int, i: int, j: int)
    requires
        sound_chain(links),
        0 <= a < links.len(),
        0 <= b < links.len(),
        0 <= i < serials_of(links, a).len(),
        0 <= j < serials_of(links, b).len(),
        a != b || i != j,
    ensures
        serials_of(links, a)[i] != serials_of(links, b)[j],
{
    lemma_link_unwritten(0, links, a);
    lemma_link_unwritten(0, links, b);
    assert(serials_of(links, a).contains(serials_of(links, a)[i]));
    assert(serials_of(links, b).contains(serials_of(links, b)[j]));
    if a < b {
        lemma_serials_grow(links, a, b);
    } else if b < a {
        lemma_serials_grow(links, b, a);
    }
}

pub proof fn lemma_parts_apart(position: u64, links: Seq<Link>)
    requires
        sound_chain(links),
    ensures
        validate_group::own_serials(parts(position, links)),
{
    let all = parts(position, links);
    assert forall|a: int, b: int, i: int, j: int|
        0 <= a < b < all.len() && 0 <= i < all[a].len() && 0 <= j < all[b].len() implies (
    #[trigger] all[a][i]).serial != (#[trigger] all[b][j]).serial by {
        lemma_part(position, links, a);
        lemma_part(position, links, b);
        assert(all[a][i] == part(position, links, a)[i]);
        assert(all[b][j] == part(position, links, b)[j]);
        let s = serials_of(links, a);
        let t = serials_of(links, b);
        let x = choose|x: int| 0 <= x < s.len() && s[x] == all[a][i].serial;
        let y = choose|y: int| 0 <= y < t.len() && t[y] == all[b][j].serial;
        law_serials_apart(links, a, b, x, y);
    }
}

/// Whatever packets are written to whichever streams of whichever links, the
/// finished physical stream is the links one behind the other and reads back as
/// its pages, and the pages of each logical bitstream of each link follow each
/// other and carry exactly its header packets and then its packets, each of them
/// whole and in its order.
pub proof fn law_chain_round_trip(position: u64, links: Seq<Link>)
    requires
        sound_chain(links),
    ensures
        ({
            let pages = chain(position, links, links.len() as int).ended().wire.pages;
            &&& pages == validate_group::linked(parts(position, links))
            &&& framing::pages_of(framing::bytes_of(pages)) == Ok::<Seq<PageView>, Error>(pages)
            &&& forall|j: int|
                0 <= j < links.len() ==> link_laws::holds_link(
                    pages,
                    (#[trigger] links[j]).streams,
                    serials_of(links, j),
                    links[j].packets,
                )
        }),
{
    let n = links.len() as int;
    let all = parts(position, links);
    let pages = chain(position, links, n).ended().wire.pages;
    lemma_chain_parts(position, links, n);
    assert(all.take(n) =~= all);
    lemma_pages_wf(position, links, n);
    framing::law_pages_of_bytes_of(pages);
    assert forall|j: int| 0 <= j < links.len() implies link_laws::holds_link(
        pages,
        (#[trigger] links[j]).streams,
        serials_of(links, j),
        links[j].packets,
    ) by {
        lemma_part(position, links, j);
        lemma_link_unwritten(position, links, j);
        let own = serials_of(links, j);
        assert forall|i: int| 0 <= i < own.len() implies mux_laws::of_serial(
            pages,
            #[trigger] own[i],
        ) == mux_laws::of_serial(part(position, links, j), own[i]) by {
            assert forall|a: int, l: int|
                0 <= a < all.len() && a != j && 0 <= l < all[a].len() implies (
            #[trigger] all[a][l]).serial != own[i] by {
                lemma_part(position, links, a);
                assert(all[a][l] == part(position, links, a)[l]);
                let t = serials_of(links, a);
                let y = choose|y: int| 0 <= y < t.len() && t[y] == all[a][l].serial;
                law_serials_apart(links, a, j, y, i);
            }
            lemma_apart(all, j, own[i]);
        }
        let streams = links[j].streams;
        assert forall|i: int| 0 <= i < streams.len() implies mux_laws::of_serial(
            pages,
            serials_of(links, j)[i],
        ) == mux_laws::of_serial(part(position, links, j), serials_of(links, j)[i]) && (
        #[trigger] streams[i]).index == streams[i].index by {
            assert(own[i] == serials_of(links, j)[i]);
        }
    }
}

proof fn lemma_pages_wf(position: u64, links: Seq<Link>, n: int)
    requires
        sound_chain(links),
        0 <= n <= links.len(),
    ensures
        ({
            let pages = validate_group::linked(parts(position, links).take(n));
            forall|i: int| 0 <= i < pages.len() ==> (#[trigger] pages[i]).wf()
        }),
    decreases n,
{
    if n > 0 {
        lemma_pages_wf(position, links, n - 1);
        lemma_part(position, links, n - 1);
        let all = parts(position, links);
        let last = part(position, links, n - 1);
        let before = validate_group::linked(all.take(n - 1));
        assert(all.take(n).drop_last() =~= all.take(n - 1));
        assert(all.take(n).last() == last);
        let pages = validate_group::linked(all.take(n));
        assert forall|i: int| 0 <= i < pages.len() implies (#[trigger] pages[i]).wf() by {
            if i < before.len() {
                assert(before[i].wf());
            } else {
                assert(pages[i] == last[i - before.len()]);
            }
        }
    }
}

} // verus!
