//! What a walk over a whole file leaves in the seek index.
use crate::bytes;
use crate::demux::demuxer;
use crate::demux::demuxer::DemuxView;
use crate::demux::index_build::{BuildStage, BuildView};
use crate::demux::page_scan;
use crate::demux::seek;
use crate::demux::seek::SeekStage;
use crate::demux::seek_index;
use crate::demux::seek_index::SeekEntry;
use crate::framing;
use crate::page;
use crate::page::{PageView, CAPTURE_PATTERN};
use crate::serial_map;
use crate::validate_chain;
use crate::validate_laws;
use vstd::prelude::*;

verus! {

/// Where page `i` begins.
pub open spec fn place(pages: Seq<PageView>, i: int) -> nat {
    framing::bytes_of(pages.take(i)).len()
}

/// What a file holds of the piece of `len` bytes at `offset`.
pub open spec fn served(data: Seq<u8>, offset: u64, len: nat) -> Seq<u8> {
    if offset + len <= data.len() {
        data.subrange(offset as int, offset + len)
    } else if offset <= data.len() {
        data.skip(offset as int)
    } else {
        Seq::empty()
    }
}

/// The walk and the demuxer after `n` pieces of the file, each of which the walk
/// has asked for, or after fewer where it asks for no more.
pub open spec fn walked(b: BuildView, d: DemuxView, data: Seq<u8>, n: nat) -> (
    BuildView,
    DemuxView,
)
    decreases n,
{
    if n == 0 {
        (b, d)
    } else {
        match b.asked() {
            None => (b, d),
            Some((offset, len)) => {
                let (next, taught) = b.after(d, served(data, offset, len));
                walked(next, taught, data, (n - 1) as nat)
            },
        }
    }
}

/// The index with the first `n` pages of a file.
pub open spec fn noted(index: Map<u32, Seq<SeekEntry>>, pages: Seq<PageView>, n: int) -> Map<
    u32,
    Seq<SeekEntry>,
>
    decreases n,
{
    if n <= 0 {
        index
    } else {
        let p = pages[n - 1];
        seek_index::recorded(
            noted(index, pages, n - 1),
            p.serial,
            p.granule_position,
            place(pages, n - 1) as u64,
        )
    }
}

/// Every page can be written, and the file is not too long to be addressed.
pub open spec fn intact(pages: Seq<PageView>) -> bool {
    &&& forall|i: int| 0 <= i < pages.len() ==> (#[trigger] pages[i]).wf()
    &&& framing::bytes_of(pages).len() <= u64::MAX
}

proof fn lemma_walked_on(b: BuildView, d: DemuxView, data: Seq<u8>, n: nat, m: nat)
    ensures
        ({
            let (c, e) = walked(b, d, data, n);
            walked(b, d, data, n + m) == walked(c, e, data, m)
        }),
    decreases n,
{
    if n > 0 {
        match b.asked() {
            None => {},
            Some((offset, len)) => {
                let (next, taught) = b.after(d, served(data, offset, len));
                lemma_walked_on(next, taught, data, (n - 1) as nat, m);
            },
        }
    }
}

/// The places of pages follow each other.
pub proof fn lemma_places(pages: Seq<PageView>, i: int)
    requires
        intact(pages),
        0 <= i < pages.len(),
    ensures
        place(pages, i + 1) == place(pages, i) + pages[i].encoded_len(),
        place(pages, i + 1) <= framing::bytes_of(pages).len(),
        place(pages, i + 1) == framing::bytes_of(pages).len() <==> i + 1 == pages.len(),
        ({
            let rest = framing::bytes_of(pages).skip(place(pages, i) as int);
            page::parsed(rest) == Ok::<(PageView, nat), crate::error::Error>(
                (pages[i], pages[i].encoded_len()),
            )
        }),
{
    let data = framing::bytes_of(pages);
    let pos = place(pages, i) as int;
    let p = pages[i];
    validate_laws::lemma_bytes_split(pages, i);
    let tail = data.skip(pos).skip(p.encoded().len() as int);
    assert(data.skip(pos) =~= p.encoded() + tail);
    page::law_parse_encoded(p, tail);
    assert(pages.take(i + 1).drop_last() =~= pages.take(i));
    if i + 1 == pages.len() {
        assert(pages.take(i + 1) =~= pages);
    } else {
        validate_laws::lemma_bytes_split(pages, i + 1);
        page::law_parse_encoded(pages[i + 1], Seq::empty());
    }
}

/// What the walk reads of a page.
pub proof fn lemma_read(pages: Seq<PageView>, i: int)
    requires
        intact(pages),
        0 <= i < pages.len(),
    ensures
        ({
            let data = framing::bytes_of(pages);
            let pos = place(pages, i) as int;
            let p = pages[i];
            let header = data.subrange(pos, pos + 27);
            let n = p.lacing.len();
            &&& pos + p.encoded_len() <= data.len()
            &&& p.encoded_len() == 27 + n + page::body_len(p.lacing)
            &&& header.take(4) == CAPTURE_PATTERN@
            &&& header[26] == n
            &&& header[5] == p.flags
            &&& bytes::le_i64(header.skip(6)) == p.granule_position
            &&& bytes::le_u32(header.skip(14)) == p.serial
            &&& data.subrange(pos + 27, pos + 27 + n) == p.lacing
        }),
{
    let data = framing::bytes_of(pages);
    let pos = place(pages, i) as int;
    let rest = data.skip(pos);
    lemma_places(pages, i);
    reveal(page::parsed);
    let p = pages[i];
    assert(page::page_in(rest) == p);
    assert(rest.len() >= page::declared_len(rest));
    let header = data.subrange(pos, pos + 27);
    assert(header.take(4) =~= rest.take(4));
    assert(header[26] == rest[26]);
    let n = rest[26] as int;
    assert(p.lacing.len() == n);
    assert(data.subrange(pos + 27, pos + 27 + n) =~= rest.subrange(27, 27 + n));
    assert(header.skip(6).take(8) =~= rest.skip(6).take(8));
    bytes::lemma_le_prefix(header.skip(6), rest.skip(6));
    assert(header.skip(14).take(4) =~= rest.skip(14).take(4));
    bytes::lemma_le_prefix(header.skip(14), rest.skip(14));
}

/// The walk reads a page and takes note of it.
proof fn lemma_walk_page(pages: Seq<PageView>, i: int, b: BuildView, d: DemuxView) -> (n: nat)
    requires
        intact(pages),
        0 <= i < pages.len(),
        b.stage == BuildStage::Chunk,
        b.cursor == place(pages, i),
        b.end == framing::bytes_of(pages).len(),
    ensures
        ({
            let p = pages[i];
            let (c, e) = walked(b, d, framing::bytes_of(pages), n);
            &&& c.end == b.end
            &&& e.index == seek_index::recorded(
                d.index,
                p.serial,
                p.granule_position,
                place(pages, i) as u64,
            )
            &&& e.index_built == d.index_built
            &&& if i + 1 == pages.len() {
                c.stage == (BuildStage::Done { complete: true })
            } else {
                c.stage == BuildStage::Chunk && c.cursor == place(pages, i + 1)
            }
        }),
{
    let data = framing::bytes_of(pages);
    let p = pages[i];
    let pos = place(pages, i) as int;
    lemma_read(pages, i);
    lemma_places(pages, i);
    let header = data.subrange(pos, pos + 27);
    // The piece in which the page begins.
    let (o1, l1) = b.asked()->Some_0;
    let g1 = served(data, o1, l1);
    assert(g1 =~= data.subrange(pos, pos + l1));
    assert(g1.subrange(0, 4) =~= header.take(4));
    assert(bytes::holds_at(g1, 0, CAPTURE_PATTERN@));
    assert(page_scan::capture_in(g1, 0) == Some(0int));
    let (b2, d2) = b.after(d, g1);
    assert(b2.stage == BuildStage::Header && b2.page_offset == pos && d2 == d);
    // Its header.
    let (o2, l2) = b2.asked()->Some_0;
    let g2 = served(data, o2, l2);
    assert(g2 =~= header);
    let (b3, d3) = b2.after(d2, g2);
    assert(b3.stage == BuildStage::Table && b3.header == header && d3 == d);
    // Its segment table.
    let (o3, l3) = b3.asked()->Some_0;
    let g3 = served(data, o3, l3);
    assert(g3 =~= p.lacing);
    let (b4, d4) = b3.after(d3, g3);
    let seen = b3.page(p.lacing, Seq::empty());
    assert(seen.serial == p.serial && seen.granule_position == p.granule_position);
    let r = d.indexed(seen, pos as u64);
    assert(walked(b4, d4, data, 0) == (b4, d4));
    assert(walked(b3, d3, data, 1) == walked(b4, d4, data, 0));
    assert(walked(b2, d2, data, 2) == walked(b3, d3, data, 1));
    assert(walked(b, d, data, 3) == walked(b2, d2, data, 2));
    if r.opens(seen) {
        assert(b4.stage == BuildStage::Body && d4 == r);
        let (o4, l4) = b4.asked()->Some_0;
        let g4 = served(data, o4, l4);
        assert(g4.len() == page::body_len(p.lacing));
        let (b5, d5) = b4.after(d4, g4);
        assert(walked(b5, d5, data, 0) == (b5, d5));
        assert(walked(b4, d4, data, 1) == walked(b5, d5, data, 0));
        assert(walked(b3, d3, data, 2) == walked(b4, d4, data, 1));
        assert(walked(b2, d2, data, 3) == walked(b3, d3, data, 2));
        assert(walked(b, d, data, 4) == walked(b2, d2, data, 3));
        4
    } else {
        3
    }
}

/// The walk comes to the end of an intact file and has taken note of every page.
pub proof fn law_walk_complete(pages: Seq<PageView>, d: DemuxView) -> (n: nat)
    requires
        intact(pages),
    ensures
        ({
            let data = framing::bytes_of(pages);
            let (c, e) = walked(BuildView::started(data.len() as u64), d, data, n);
            &&& c.stage == (BuildStage::Done { complete: true })
            &&& e.index == noted(d.index, pages, pages.len() as int)
        }),
{
    let data = framing::bytes_of(pages);
    let b = BuildView::started(data.len() as u64);
    if pages.len() == 0 {
        assert(walked(b, d, data, 0) == (b, d));
        0
    } else {
        assert(pages.take(0) =~= Seq::empty());
        lemma_places(pages, 0);
        assert(place(pages, 0) == 0);
        assert(walked(b, d, data, 0) == (b, d));
        lemma_walk_rest(pages, d, 0, 0)
    }
}

proof fn lemma_walk_rest(pages: Seq<PageView>, d: DemuxView, i: int, done: nat) -> (n: nat)
    requires
        intact(pages),
        0 <= i < pages.len(),
        ({
            let data = framing::bytes_of(pages);
            let (c, e) = walked(BuildView::started(data.len() as u64), d, data, done);
            &&& c.stage == BuildStage::Chunk
            &&& c.cursor == place(pages, i)
            &&& c.end == data.len()
            &&& e.index == noted(d.index, pages, i)
        }),
    ensures
        ({
            let data = framing::bytes_of(pages);
            let (c, e) = walked(BuildView::started(data.len() as u64), d, data, n);
            &&& c.stage == (BuildStage::Done { complete: true })
            &&& e.index == noted(d.index, pages, pages.len() as int)
        }),
    decreases pages.len() - i,
{
    let data = framing::bytes_of(pages);
    let b = BuildView::started(data.len() as u64);
    let (c, e) = walked(b, d, data, done);
    let m = lemma_walk_page(pages, i, c, e);
    lemma_walked_on(b, d, data, done, m);
    if i + 1 == pages.len() {
        done + m
    } else {
        lemma_walk_rest(pages, d, i + 1, done + m)
    }
}

/// An entry of the seek index is a page of the file that has a granule position.
pub open spec fn entry_of(pages: Seq<PageView>, serial: u32, e: SeekEntry) -> bool {
    0 <= e.0 && exists|i: int|
        0 <= i < pages.len() && (#[trigger] pages[i]).serial == serial && pages[i].granule_position
            == e.0 && place(pages, i) == e.1
}

/// The lists of an index ascend and hold nothing but pages of the file.
pub open spec fn true_index(index: Map<u32, Seq<SeekEntry>>, pages: Seq<PageView>) -> bool {
    forall|k: u32| #[trigger]
        index.contains_key(k) ==> seek_index::ascending(index[k]) && forall|i: int|
            0 <= i < index[k].len() ==> entry_of(pages, k, #[trigger] index[k][i])
}

/// Taking note of a page of the file keeps an index true.
pub proof fn law_index_true(index: Map<u32, Seq<SeekEntry>>, pages: Seq<PageView>, i: int)
    requires
        intact(pages),
        true_index(index, pages),
        0 <= i < pages.len(),
    ensures
        true_index(
            seek_index::recorded(
                index,
                pages[i].serial,
                pages[i].granule_position,
                place(pages, i) as u64,
            ),
            pages,
        ),
{
    let p = pages[i];
    let offset = place(pages, i) as u64;
    lemma_places(pages, i);
    seek_index::law_recorded(index, p.serial, p.granule_position, offset);
    let after = seek_index::recorded(index, p.serial, p.granule_position, offset);
    if p.granule_position >= 0 {
        let e = (p.granule_position, offset);
        let list = seek_index::list_of(index, p.serial);
        seek_index::lemma_inserted(list, e);
        assert(entry_of(pages, p.serial, e)) by {
            assert(pages[i].serial == p.serial);
        }
        assert forall|k: u32| #[trigger] after.contains_key(k) implies seek_index::ascending(
            after[k],
        ) && forall|j: int|
            0 <= j < after[k].len() ==> entry_of(pages, k, #[trigger] after[k][j]) by {
            assert forall|j: int| 0 <= j < after[k].len() implies entry_of(
                pages,
                k,
                #[trigger] after[k][j],
            ) by {
                if k == p.serial {
                    let x = after[k][j];
                    assert(seek_index::inserted(list, e).contains(x));
                    if x != e {
                        assert(list.contains(x));
                        let l = choose|l: int| 0 <= l < list.len() && list[l] == x;
                        assert(index.contains_key(k));
                        assert(entry_of(pages, k, index[k][l]));
                    }
                } else {
                    assert(index.contains_key(k));
                    assert(entry_of(pages, k, index[k][j]));
                }
            }
        }
    }
}

/// Taking waiting pages apart changes nothing of the index.
proof fn lemma_advanced_index(d: DemuxView)
    ensures
        d.absorbed().0.index == d.index,
        d.advanced().0.index == d.index,
    decreases d.pages.len(),
{
    if d.pages.len() > 0 {
        let (m, r) = d.without_page().processed(d.pages[0]);
        if r is Ok && m.pages.len() < d.pages.len() {
            lemma_advanced_index(m);
        }
    }
}

/// A demuxer begins with a true index. Reading a page of the file at its place,
/// taking pages in and apart, learning of a stream, and dropping what waits keep
/// it true.
pub proof fn law_index_kept(d: DemuxView, pages: Seq<PageView>, i: int, p: PageView)
    requires
        intact(pages),
        true_index(d.index, pages),
        0 <= i < pages.len(),
    ensures
        true_index(DemuxView::fresh().index, pages),
        true_index(d.indexed(pages[i], place(pages, i) as u64).index, pages),
        true_index((DemuxView { pages: d.pages.push(p), ..d }).index, pages),
        true_index(d.processed(p).0.index, pages),
        true_index(d.absorbed().0.index, pages),
        true_index(d.advanced().0.index, pages),
        true_index(d.flushed().index, pages),
        d.registered(p) is Ok ==> true_index(d.registered(p)->Ok_0.index, pages),
        d.states.contains_key(p.serial) ==> true_index(
            d.with_setup(d.states[p.serial]).with_comments(d.states[p.serial]).index,
            pages,
        ),
{
    law_index_true(d.index, pages, i);
    lemma_advanced_index(d);
}

/// The stream number `stream` belongs to the logical bitstream `k`.
pub open spec fn belongs(d: DemuxView, stream: u32, k: u32) -> bool {
    d.states.contains_key(k) && d.streams[d.states[k].public_index as int].index == stream
}

proof fn lemma_serial_among(d: DemuxView, keys: Seq<u32>, stream: u32)
    requires
        forall|k: u32| #[trigger] keys.contains(k) ==> d.states.contains_key(k),
    ensures
        match demuxer::serial_among(d, keys, stream) {
            Some(k) => belongs(d, stream, k),
            None => forall|k: u32| #[trigger] keys.contains(k) ==> !belongs(d, stream, k),
        },
    decreases keys.len(),
{
    if keys.len() > 0 {
        assert(keys.contains(keys[0]));
        let rest = keys.skip(1);
        assert forall|k: u32| #[trigger] rest.contains(k) implies d.states.contains_key(k) by {
            let i = choose|i: int| 0 <= i < rest.len() && rest[i] == k;
            assert(keys[i + 1] == k);
            assert(keys.contains(k));
        }
        lemma_serial_among(d, rest, stream);
        if demuxer::serial_among(d, keys, stream) is None {
            assert forall|k: u32| #[trigger] keys.contains(k) implies !belongs(d, stream, k) by {
                let i = choose|i: int| 0 <= i < keys.len() && keys[i] == k;
                if i > 0 {
                    assert(rest[i - 1] == k);
                    assert(rest.contains(k));
                }
            }
        }
    }
}

/// A seek is accepted exactly for a stream that there is, whose granule
/// positions are timestamps and that belongs to a logical bitstream, in a file
/// that is not empty; it looks for a bitstream that the stream belongs to.
pub proof fn law_seek_accepted(d: DemuxView, stream: u32, file_size: u64)
    ensures
        seek::seek_begun(d, stream, file_size) is Ok <==> {
            &&& stream < d.streams.len()
            &&& demuxer::seekable(d.streams[stream as int].params.codec)
            &&& exists|k: u32| #[trigger] belongs(d, stream, k)
            &&& file_size > 0
        },
        seek::seek_begun(d, stream, file_size) matches Ok(k) ==> belongs(d, stream, k),
{
    let keys = validate_chain::lemma_ascending(d.states.dom(), 0x1_0000_0000);
    assert forall|k: u32| #[trigger] keys.contains(k) == d.states.contains_key(k) by {
        if d.states.contains_key(k) {
            assert(k < 0x1_0000_0000int && d.states.dom().contains(k));
        }
    }
    serial_map::lemma_ordered_keys(d.states, keys);
    lemma_serial_among(d, keys, stream);
    if exists|k: u32| #[trigger] belongs(d, stream, k) {
        let k = choose|k: u32| #[trigger] belongs(d, stream, k);
        assert(keys.contains(k));
    }
}

/// The index holds the first `n` pages that have a granule position.
spec fn holds_first(
    index: Map<u32, Seq<SeekEntry>>,
    pages: Seq<PageView>,
    n: int,
) -> bool {
    forall|i: int|
        0 <= i < n && (#[trigger] pages[i]).granule_position >= 0 ==> seek_index::list_of(
            index,
            pages[i].serial,
        ).contains((pages[i].granule_position, place(pages, i) as u64))
}

proof fn lemma_noted(index: Map<u32, Seq<SeekEntry>>, pages: Seq<PageView>, n: int)
    requires
        intact(pages),
        true_index(index, pages),
        0 <= n <= pages.len(),
    ensures
        true_index(noted(index, pages, n), pages),
        holds_first(noted(index, pages, n), pages, n),
    decreases n,
{
    if n > 0 {
        lemma_noted(index, pages, n - 1);
        let before = noted(index, pages, n - 1);
        let after = noted(index, pages, n);
        let p = pages[n - 1];
        let offset = place(pages, n - 1) as u64;
        law_index_true(before, pages, n - 1);
        seek_index::law_recorded(before, p.serial, p.granule_position, offset);
        assert forall|i: int|
            0 <= i < n && (
            #[trigger] pages[i]).granule_position >= 0 implies seek_index::list_of(
            after,
            pages[i].serial,
        ).contains((pages[i].granule_position, place(pages, i) as u64)) by {
            if i < n - 1 && p.granule_position >= 0 && pages[i].serial == p.serial {
                let x = (pages[i].granule_position, place(pages, i) as u64);
                let list = seek_index::list_of(before, p.serial);
                assert(list.contains(x));
                seek_index::lemma_inserted_keeps(list, (p.granule_position, offset), x);
            }
        }
    }
}

/// Where a seek in an indexed file goes: to a page of the stream whose granule
/// position is the greatest of all that are not beyond the target, and nowhere
/// where all are.
pub open spec fn best_page(
    pages: Seq<PageView>,
    serial: u32,
    target: i64,
    found: Option<SeekEntry>,
) -> bool {
    match found {
        Some(e) => {
            &&& entry_of(pages, serial, e)
            &&& e.0 <= target
            &&& forall|i: int|
                0 <= i < pages.len() && (#[trigger] pages[i]).serial == serial && 0
                    <= pages[i].granule_position <= target ==> pages[i].granule_position <= e.0
        },
        None => forall|i: int|
            0 <= i < pages.len() && (#[trigger] pages[i]).serial == serial
                && pages[i].granule_position >= 0 ==> pages[i].granule_position > target,
    }
}

/// After a walk over an intact file, a seek finds of every stream the best page
/// for every target, and goes there without reading.
pub proof fn law_seek_indexed(
    pages: Seq<PageView>,
    d: DemuxView,
    stream: u32,
    target: i64,
) -> (n: nat)
    requires
        intact(pages),
        true_index(d.index, pages),
    ensures
        ({
            let data = framing::bytes_of(pages);
            let (c, e) = walked(BuildView::started(data.len() as u64), d, data, n);
            let built = DemuxView { index_built: true, ..e };
            &&& c.stage == (BuildStage::Done { complete: true })
            &&& seek::seek_begun(built, stream, data.len() as u64) is Ok <==> {
                &&& stream < built.streams.len()
                &&& demuxer::seekable(built.streams[stream as int].params.codec)
                &&& exists|k: u32| #[trigger] belongs(built, stream, k)
                &&& pages.len() > 0
            }
            &&& seek::seek_begun(built, stream, data.len() as u64) matches Ok(serial) ==> {
                let found = seek::known_page(built, serial, target);
                &&& belongs(built, stream, serial)
                &&& best_page(pages, serial, target, found)
                &&& found matches Some(x) ==> seek::seek_started(
                    built,
                    stream,
                    serial,
                    target,
                    data.len() as u64,
                ).stage == (SeekStage::Landed { offset: x.1, granule: x.0 })
            }
        }),
{
    let data = framing::bytes_of(pages);
    let n = law_walk_complete(pages, d);
    let (c, e) = walked(BuildView::started(data.len() as u64), d, data, n);
    let built = DemuxView { index_built: true, ..e };
    lemma_noted(d.index, pages, pages.len() as int);
    law_seek_accepted(built, stream, data.len() as u64);
    if pages.len() > 0 {
        lemma_places(pages, 0);
    }
    if let Ok(serial) = seek::seek_begun(built, stream, data.len() as u64) {
        lemma_best(e.index, pages, serial, target);
    }
    n
}

proof fn lemma_best(
    index: Map<u32, Seq<SeekEntry>>,
    pages: Seq<PageView>,
    serial: u32,
    target: i64,
)
    requires
        intact(pages),
        true_index(index, pages),
        holds_first(index, pages, pages.len() as int),
    ensures
        best_page(
            pages,
            serial,
            target,
            seek_index::floor_in(seek_index::list_of(index, serial), target),
        ),
{
    let list = seek_index::list_of(index, serial);
    let found = seek_index::floor_in(list, target);
    seek_index::law_floor(list, target);
    if let Some(x) = found {
        let l = choose|l: int| 0 <= l < list.len() && list[l] == x;
        assert(index.contains_key(serial));
        assert(entry_of(pages, serial, index[serial][l]));
    }
    assert forall|i: int|
        0 <= i < pages.len() && (#[trigger] pages[i]).serial == serial
            && pages[i].granule_position >= 0 implies (match found {
        Some(x) => pages[i].granule_position <= target ==> pages[i].granule_position <= x.0,
        None => pages[i].granule_position > target,
    }) by {
        let y = (pages[i].granule_position, place(pages, i) as u64);
        assert(list.contains(y));
        let l = choose|l: int| 0 <= l < list.len() && list[l] == y;
        assert(list[l].0 == y.0);
    }
}

} // verus!
