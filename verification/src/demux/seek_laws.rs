//! Where a seek in a file without an index lands.
use crate::bytes;
use crate::demux::bisect::Bisect;
use crate::demux::bisect_laws;
use crate::demux::page_scan;
use crate::demux::page_scan::{ScanStage, ScanView};
use crate::demux::seek;
use crate::demux::seek::{SeekStage, SeekView};
use crate::demux::walk_laws;
use crate::framing;
use crate::page;
use crate::page::{PageView, CAPTURE_PATTERN};
use vstd::prelude::*;

verus! {

// ---------------------------------------------------------------------------
// The next page
// ---------------------------------------------------------------------------
/// The capture pattern stands nowhere but where a page begins.
pub open spec fn marked(pages: Seq<PageView>) -> bool {
    forall|at: int| #[trigger]
        bytes::holds_at(framing::bytes_of(pages), at, CAPTURE_PATTERN@) ==> exists|i: int|
            0 <= i < pages.len() && #[trigger] walk_laws::place(pages, i) == at
}

/// Page `i` belongs to the logical bitstream `k` and bears a granule position.
pub open spec fn timed(pages: Seq<PageView>, i: int, k: u32) -> bool {
    pages[i].serial == k && pages[i].granule_position >= 0
}

proof fn lemma_places_rise(pages: Seq<PageView>, i: int, j: int)
    requires
        walk_laws::intact(pages),
        0 <= i < j <= pages.len(),
    ensures
        walk_laws::place(pages, i) + 27 <= walk_laws::place(pages, j),
    decreases j - i,
{
    walk_laws::lemma_places(pages, j - 1);
    if i < j - 1 {
        lemma_places_rise(pages, i, j - 1);
    }
}

/// The capture pattern stands where a page begins.
proof fn lemma_page_marked(pages: Seq<PageView>, i: int)
    requires
        walk_laws::intact(pages),
        0 <= i < pages.len(),
    ensures
        bytes::holds_at(
            framing::bytes_of(pages),
            walk_laws::place(pages, i) as int,
            CAPTURE_PATTERN@,
        ),
{
    let data = framing::bytes_of(pages);
    let pos = walk_laws::place(pages, i) as int;
    walk_laws::lemma_read(pages, i);
    assert(data.subrange(pos, pos + 4) =~= data.subrange(pos, pos + 27).take(4));
}

/// The capture pattern below a limit.
proof fn lemma_below(data: Seq<u8>, limit: int, at: int)
    requires
        0 <= limit <= data.len(),
        0 <= at,
    ensures
        bytes::holds_at(
            if limit < data.len() {
                data.take(limit)
            } else {
                data
            },
            at,
            CAPTURE_PATTERN@,
        ) == (at + 4 <= limit && bytes::holds_at(data, at, CAPTURE_PATTERN@)),
{
    if at + 4 <= limit {
        assert(data.take(limit).subrange(at, at + 4) =~= data.subrange(at, at + 4));
    }
}

/// The next page of a logical bitstream that is found is the first one at or
/// behind `from` that bears a granule position, if its beginning stands below the
/// limit.
pub proof fn law_next_page(pages: Seq<PageView>, from: int, limit: int, k: u32)
    requires
        walk_laws::intact(pages),
        marked(pages),
        0 <= from,
        limit <= framing::bytes_of(pages).len(),
    ensures
        match page_scan::next_page(framing::bytes_of(pages), from, limit, k) {
            Some((at, granule)) => from <= at && at + 4 <= limit && exists|i: int|
                0 <= i < pages.len() && #[trigger] walk_laws::place(pages, i) == at && timed(
                    pages,
                    i,
                    k,
                ) && pages[i].granule_position == granule && forall|j: int|
                    0 <= j < i && #[trigger] timed(pages, j, k) ==> walk_laws::place(pages, j)
                        < from,
            None => forall|i: int|
                0 <= i < pages.len() && #[trigger] timed(pages, i, k) ==> walk_laws::place(
                    pages,
                    i,
                ) < from || walk_laws::place(pages, i) + 4 > limit,
        },
    decreases limit - from,
{
    let data = framing::bytes_of(pages);
    if from < limit {
        let d = if limit < data.len() {
            data.take(limit)
        } else {
            data
        };
        page_scan::lemma_capture_found(d, from);
        match page_scan::capture_below(data, from, limit) {
            None => {
                assert forall|i: int|
                    0 <= i < pages.len() && #[trigger] timed(pages, i, k) implies walk_laws::place(
                    pages,
                    i,
                ) < from || walk_laws::place(pages, i) + 4 > limit by {
                    let at = walk_laws::place(pages, i) as int;
                    lemma_page_marked(pages, i);
                    lemma_below(data, limit, at);
                    if from <= at {
                        assert(!bytes::holds_at(d, at, CAPTURE_PATTERN@));
                    }
                }
            },
            Some(p) => {
                lemma_below(data, limit, p);
                let i = choose|i: int|
                    0 <= i < pages.len() && #[trigger] walk_laws::place(pages, i) == p;
                assert forall|j: int| 0 <= j < i implies #[trigger] walk_laws::place(pages, j)
                    < from by {
                    let at = walk_laws::place(pages, j) as int;
                    lemma_page_marked(pages, j);
                    lemma_below(data, limit, at);
                    lemma_places_rise(pages, j, i);
                    if from <= at {
                        assert(!bytes::holds_at(d, at, CAPTURE_PATTERN@));
                    }
                }
                walk_laws::lemma_read(pages, i);
                walk_laws::lemma_places(pages, i);
                let n = data[p + 26] as int;
                assert(data.subrange(p, p + 27)[26] == data[p + 26]);
                assert(n == pages[i].lacing.len());
                let next = walk_laws::place(pages, i + 1) as int;
                if timed(pages, i, k) {
                    assert forall|j: int|
                        0 <= j < i && #[trigger] timed(pages, j, k) implies walk_laws::place(
                        pages,
                        j,
                    ) < from by {
                        assert(walk_laws::place(pages, j) < from);
                    }
                } else {
                    if next < limit {
                        law_next_page(pages, next, limit, k);
                        assert forall|j: int|
                            0 <= j < pages.len() && #[trigger] timed(pages, j, k)
                                && walk_laws::place(pages, j) < next implies walk_laws::place(
                            pages,
                            j,
                        ) < from by {
                            if j > i {
                                if j > i + 1 {
                                    lemma_places_rise(pages, i + 1, j);
                                }
                            } else if j < i {
                                assert(walk_laws::place(pages, j) < from);
                            }
                        }
                        match page_scan::next_page(data, next, limit, k) {
                            Some((at, granule)) => {
                                let x = choose|x: int|
                                    0 <= x < pages.len() && #[trigger] walk_laws::place(pages, x)
                                        == at && timed(pages, x, k) && pages[x].granule_position
                                        == granule && forall|j: int|
                                        0 <= j < x && #[trigger] timed(pages, j, k)
                                            ==> walk_laws::place(pages, j) < next;
                                assert(walk_laws::place(pages, x) == at);
                                assert forall|j: int|
                                    0 <= j < x && #[trigger] timed(
                                        pages,
                                        j,
                                        k,
                                    ) implies walk_laws::place(pages, j) < from by {
                                    assert(walk_laws::place(pages, j) < next);
                                }
                            },
                            None => {
                                assert forall|j: int|
                                    0 <= j < pages.len() && #[trigger] timed(
                                        pages,
                                        j,
                                        k,
                                    ) implies walk_laws::place(pages, j) < from
                                    || walk_laws::place(pages, j) + 4 > limit by {
                                    if walk_laws::place(pages, j) < next {
                                        assert(walk_laws::place(pages, j) < from);
                                    }
                                }
                            },
                        }
                    } else {
                        assert forall|j: int|
                            0 <= j < pages.len() && #[trigger] timed(
                                pages,
                                j,
                                k,
                            ) implies walk_laws::place(pages, j) < from || walk_laws::place(
                            pages,
                            j,
                        ) + 4 > limit by {
                            if j < i {
                                assert(walk_laws::place(pages, j) < from);
                            } else if j > i + 1 {
                                lemma_places_rise(pages, i + 1, j);
                            }
                        }
                    }
                }
            },
        }
    } else {
        assert forall|j: int| 0 <= j < pages.len() && #[trigger] timed(pages, j, k) implies (
        walk_laws::place(pages, j) < from || walk_laws::place(pages, j) + 4 > limit) by {}
    }
}

// ---------------------------------------------------------------------------
// The pages of a stream
// ---------------------------------------------------------------------------
/// The pages of a logical bitstream that bear a granule position, among the first
/// `n`: where each begins and its granule position.
pub open spec fn track_of(pages: Seq<PageView>, n: int, k: u32) -> Seq<(u64, i64)>
    decreases n,
{
    if n <= 0 {
        Seq::empty()
    } else {
        let front = track_of(pages, n - 1, k);
        if timed(pages, n - 1, k) {
            front.push((walk_laws::place(pages, n - 1) as u64, pages[n - 1].granule_position))
        } else {
            front
        }
    }
}

/// Each entry of a track is a page.
proof fn lemma_track_page(pages: Seq<PageView>, n: int, k: u32, x: int) -> (i: int)
    requires
        0 <= n <= pages.len(),
        0 <= x < track_of(pages, n, k).len(),
    ensures
        0 <= i < n,
        timed(pages, i, k),
        track_of(pages, n, k)[x] == (
            walk_laws::place(pages, i) as u64,
            pages[i].granule_position,
        ),
    decreases n,
{
    if x < track_of(pages, n - 1, k).len() {
        lemma_track_page(pages, n - 1, k, x)
    } else {
        n - 1
    }
}

/// Each page that bears a granule position is an entry of its track.
proof fn lemma_page_track(pages: Seq<PageView>, n: int, k: u32, i: int) -> (x: int)
    requires
        0 <= i < n <= pages.len(),
        timed(pages, i, k),
    ensures
        0 <= x < track_of(pages, n, k).len(),
        track_of(pages, n, k)[x] == (
            walk_laws::place(pages, i) as u64,
            pages[i].granule_position,
        ),
    decreases n,
{
    if i < n - 1 {
        lemma_page_track(pages, n - 1, k, i)
    } else {
        track_of(pages, n, k).len() - 1
    }
}

/// What is found, as offset and granule position.
pub open spec fn as_found(r: Option<(int, i64)>) -> Option<(u64, i64)> {
    match r {
        Some((at, granule)) => Some((at as u64, granule)),
        None => None,
    }
}

/// The next page that is found is the next of the track.
proof fn lemma_next_of(pages: Seq<PageView>, start: u64, end: u64, k: u32)
    requires
        walk_laws::intact(pages),
        marked(pages),
        end <= framing::bytes_of(pages).len(),
    ensures
        bisect_laws::next_of(
            track_of(pages, pages.len() as int, k),
            start,
            end,
            as_found(
                page_scan::next_page(framing::bytes_of(pages), start as int, end as int, k),
            ),
            4,
        ),
{
    let n = pages.len() as int;
    let track = track_of(pages, n, k);
    let data = framing::bytes_of(pages);
    law_next_page(pages, start as int, end as int, k);
    match page_scan::next_page(data, start as int, end as int, k) {
        Some((at, granule)) => {
            let i = choose|i: int|
                0 <= i < pages.len() && #[trigger] walk_laws::place(pages, i) == at && timed(
                    pages,
                    i,
                    k,
                ) && pages[i].granule_position == granule && forall|j: int|
                    0 <= j < i && #[trigger] timed(pages, j, k) ==> walk_laws::place(pages, j)
                        < start;
            let x = lemma_first_track(pages, n, k, i, start);
            assert(track[x] == (at as u64, granule));
        },
        None => {
            assert forall|x: int| 0 <= x < track.len() implies (#[trigger] track[x]).0 < start
                || track[x].0 + 4 > end by {
                let j = lemma_track_page(pages, n, k, x);
                assert(timed(pages, j, k));
                walk_laws::lemma_places(pages, j);
            }
        },
    }
}

/// The entry of a page before which all others stand before `start`.
proof fn lemma_first_track(pages: Seq<PageView>, n: int, k: u32, i: int, start: u64) -> (x: int)
    requires
        walk_laws::intact(pages),
        0 <= i < n <= pages.len(),
        timed(pages, i, k),
        forall|j: int|
            0 <= j < i && #[trigger] timed(pages, j, k) ==> walk_laws::place(pages, j) < start,
    ensures
        0 <= x < track_of(pages, n, k).len(),
        track_of(pages, n, k)[x] == (
            walk_laws::place(pages, i) as u64,
            pages[i].granule_position,
        ),
        forall|y: int| 0 <= y < x ==> (#[trigger] track_of(pages, n, k)[y]).0 < start,
    decreases n,
{
    if i < n - 1 {
        let x = lemma_first_track(pages, n - 1, k, i, start);
        let (less, all) = (track_of(pages, n - 1, k), track_of(pages, n, k));
        assert forall|y: int| 0 <= y < x implies (#[trigger] all[y]).0 < start by {
            assert(less[y].0 < start);
            assert(all[y] == less[y]);
        }
        x
    } else {
        let all = track_of(pages, n, k);
        let x = all.len() - 1;
        assert forall|y: int| 0 <= y < x implies (#[trigger] all[y]).0 < start by {
            let less = track_of(pages, n - 1, k);
            assert(all[y] == less[y]);
            let j = lemma_track_page(pages, n - 1, k, y);
            assert(timed(pages, j, k));
            walk_laws::lemma_places(pages, j);
        }
        x
    }
}

// ---------------------------------------------------------------------------
// One look at a range
// ---------------------------------------------------------------------------
/// The look at a range after `n` pieces of the file, each of which it asked for.
spec fn scanned(data: Seq<u8>, s: ScanView, n: nat) -> ScanView
    decreases n,
{
    if n == 0 || s.asked() is None {
        s
    } else {
        scanned(data, s.after(page_scan::held(data, s)), (n - 1) as nat)
    }
}

/// A look at a range that is told what the file holds.
spec fn honest(data: Seq<u8>, s: ScanView) -> bool {
    &&& s.limit <= data.len() <= u64::MAX - 0x2_0000
    &&& s.segments <= 255
    &&& match s.stage {
        ScanStage::Chunk => s.cursor < s.limit,
        ScanStage::Header => s.cursor <= s.page_offset && s.page_offset + 4 <= s.limit
            && bytes::holds_at(data, s.page_offset as int, CAPTURE_PATTERN@) && s.cursor < s.limit,
        ScanStage::Table => s.cursor <= s.page_offset && s.page_offset + 27 <= data.len()
            && s.cursor < s.limit,
        _ => true,
    }
}

proof fn lemma_honest(data: Seq<u8>, s: ScanView)
    requires
        honest(data, s),
        s.asked() is Some,
    ensures
        ({
            let t = s.after(page_scan::held(data, s));
            &&& honest(data, t)
            &&& t.limit == s.limit
            &&& t.wanted == s.wanted
            &&& t.asked() is Some ==> t.limit - t.cursor >= 0
            &&& t.limit - t.cursor >= 0 ==> t.cursor > s.cursor || (t.cursor == s.cursor
                && page_scan::rank(t) < page_scan::rank(s))
            &&& t.limit - t.cursor >= 0
        }),
{
    let got = page_scan::held(data, s);
    match s.stage {
        ScanStage::Chunk => {
            let len = s.asked()->Some_0.1 as int;
            let c = s.cursor as int;
            assert(got =~= data.subrange(c, c + len));
            page_scan::lemma_capture_found(got, 0);
            if let Some(i) = page_scan::capture_in(got, 0) {
                page_scan::lemma_holds_inside(data, c, c + len, i);
            }
        },
        ScanStage::Header => {
            if got.len() == 27 {
                let o = s.page_offset as int;
                assert(got.take(4) =~= data.subrange(o, o + 4));
            }
        },
        ScanStage::Table => {
            page::lemma_body_len_bound(got);
        },
        _ => {},
    }
}

/// A look at a range comes to its end.
proof fn lemma_follow(data: Seq<u8>, s: ScanView) -> (n: nat)
    requires
        honest(data, s),
        s.cursor <= s.limit || s.asked() is None,
    ensures
        scanned(data, s, n).asked() is None,
        forall|m: nat| m < n ==> (#[trigger] scanned(data, s, m)).asked() is Some,
        s.asked() is Some ==> n > 0,
        seek::scan_result(scanned(data, s, n)) == as_found(page_scan::outcome(data, s)),
    decreases s.limit - s.cursor, page_scan::rank(s),
{
    if s.asked() is None {
        0
    } else {
        let t = s.after(page_scan::held(data, s));
        lemma_honest(data, s);
        let n = lemma_follow(data, t);
        assert forall|m: nat| m < n + 1 implies (#[trigger] scanned(data, s, m)).asked()
            is Some by {
            if m > 0 {
                assert(scanned(data, t, (m - 1) as nat).asked() is Some);
            }
        }
        assert(scanned(data, s, n + 1) == scanned(data, t, n));
        assert(page_scan::outcome(data, s) == page_scan::outcome(data, t));
        n + 1
    }
}

// ---------------------------------------------------------------------------
// The seek
// ---------------------------------------------------------------------------
/// The seek after `n` pieces of the file, each of which it asked for, or after
/// fewer where it asks for no more.
pub open spec fn sought(s: SeekView, data: Seq<u8>, n: nat) -> SeekView
    decreases n,
{
    if n == 0 {
        s
    } else {
        match s.asked() {
            None => s,
            Some((offset, len)) => sought(
                s.after(walk_laws::served(data, offset, len)),
                data,
                (n - 1) as nat,
            ),
        }
    }
}

proof fn lemma_sought_on(s: SeekView, data: Seq<u8>, n: nat, m: nat)
    ensures
        sought(s, data, n + m) == sought(sought(s, data, n), data, m),
    decreases n,
{
    if n > 0 {
        match s.asked() {
            None => {},
            Some((offset, len)) => {
                lemma_sought_on(
                    s.after(walk_laws::served(data, offset, len)),
                    data,
                    (n - 1) as nat,
                    m,
                );
            },
        }
    }
}

/// The look at a range is part of the seek.
proof fn lemma_sought_scan(data: Seq<u8>, s: SeekView, n: nat)
    requires
        s.stage == SeekStage::Reading,
        n > 0,
        s.scan.asked() is Some,
        scanned(data, s.scan, n).asked() is None,
        forall|m: nat| m < n ==> (#[trigger] scanned(data, s.scan, m)).asked() is Some,
    ensures
        sought(s, data, n) == (SeekView {
            scan: scanned(data, s.scan, n),
            search: s.search.after(seek::scan_result(scanned(data, s.scan, n))),
            ..s
        }).resumed(),
    decreases n,
{
    let (offset, len) = s.scan.asked()->Some_0;
    let got = walk_laws::served(data, offset, len);
    assert(got =~= page_scan::held(data, s.scan));
    let t = s.scan.after(got);
    let next = s.after(got);
    assert(scanned(data, s.scan, n) == scanned(data, t, (n - 1) as nat));
    if n == 1 {
        assert(scanned(data, t, 0) == t);
        assert(sought(s, data, 1) == sought(next, data, 0));
    } else {
        assert(scanned(data, s.scan, 1) == scanned(data, t, 0));
        assert(scanned(data, s.scan, 1).asked() is Some);
        assert(next == SeekView { scan: t, ..s });
        assert forall|m: nat| m < n - 1 implies (#[trigger] scanned(data, t, m)).asked()
            is Some by {
            assert(scanned(data, s.scan, m + 1) == scanned(data, t, m));
            assert(scanned(data, s.scan, m + 1).asked() is Some);
        }
        lemma_sought_scan(data, next, (n - 1) as nat);
    }
}

/// One question of the search is answered.
proof fn lemma_question(pages: Seq<PageView>, s: SeekView) -> (n: nat)
    requires
        walk_laws::intact(pages),
        marked(pages),
        framing::bytes_of(pages).len() <= u64::MAX - 0x2_0000,
        s.stage == SeekStage::Reading,
        s.search.asked() matches Some((start, end)) && end <= framing::bytes_of(pages).len()
            && s.scan == ScanView::started(start, end, s.serial),
    ensures
        ({
            let data = framing::bytes_of(pages);
            let (start, end) = s.search.asked()->Some_0;
            let t = sought(s, data, n);
            let found = as_found(
                page_scan::next_page(data, start as int, end as int, s.serial),
            );
            &&& t.search == s.search.after(found)
            &&& t.serial == s.serial
            &&& t.stream == s.stream
            &&& t == t.resumed()
        }),
{
    let data = framing::bytes_of(pages);
    let (start, end) = s.search.asked()->Some_0;
    let found = as_found(page_scan::next_page(data, start as int, end as int, s.serial));
    if start >= end {
        let got = walk_laws::served(data, s.scan.cursor, 0);
        assert(sought(s, data, 1) == sought(s.after(got), data, 0));
        1
    } else {
        page_scan::law_scan(data, s.scan);
        let n = lemma_follow(data, s.scan);
        lemma_sought_scan(data, s, n);
        n
    }
}

proof fn lemma_seek(
    pages: Seq<PageView>,
    s: SeekView,
    target: i64,
    states: Seq<Bisect>,
) -> (n: nat)
    requires
        walk_laws::intact(pages),
        marked(pages),
        framing::bytes_of(pages).len() <= u64::MAX - 0x2_0000,
        bisect_laws::sound_track(
            track_of(pages, pages.len() as int, s.serial),
            framing::bytes_of(pages).len() as u64,
            4,
        ),
        bisect_laws::is_search(
            track_of(pages, pages.len() as int, s.serial),
            target,
            framing::bytes_of(pages).len() as u64,
            states,
            4,
        ),
        s.search == states.last(),
        s == s.resumed(),
    ensures
        ({
            let data = framing::bytes_of(pages);
            let track = track_of(pages, pages.len() as int, s.serial);
            let e = sought(s, data, n);
            &&& e.asked() is None
            &&& arrived(track, target, e)
        }),
    decreases 0x2_0000 + 100 - states.len(),
{
    let data = framing::bytes_of(pages);
    let size = data.len() as u64;
    let track = track_of(pages, pages.len() as int, s.serial);
    bisect_laws::law_bisect_short(track, target, size, states, 4);
    if s.search.asked() is None {
        bisect_laws::law_bisect_lands(track, target, size, states, 4);
        assert(sought(s, data, 0) == s);
        0
    } else {
        bisect_laws::law_bisect_within(track, target, size, states, 4);
        let (start, end) = s.search.asked()->Some_0;
        let a = lemma_question(pages, s);
        let t = sought(s, data, a);
        lemma_next_of(pages, start, end, s.serial);
        let more = states.push(t.search);
        assert forall|i: int| 0 < i < more.len() implies #[trigger] bisect_laws::told_at(
            track,
            more,
            i,
            4,
        ) by {
            if i < states.len() {
                assert(bisect_laws::told_at(track, states, i, 4));
            } else {
                assert(bisect_laws::told(track, states.last(), t.search, 4));
            }
        }
        bisect_laws::law_bisect_short(track, target, size, more, 4);
        let b = lemma_seek(pages, t, target, more);
        lemma_sought_on(s, data, a, b);
        a + b
    }
}

/// What a seek has come to: a page where the search may land; or the first page,
/// where every page that is not beyond the target begins in the first 128 KiB; or
/// nowhere, where there is no page.
pub open spec fn arrived(track: Seq<(u64, i64)>, target: i64, e: SeekView) -> bool {
    match e.stage {
        SeekStage::Reading => false,
        SeekStage::Landed { offset, granule } => {
            ||| bisect_laws::lands_well(track, target, (offset, granule), 4)
            ||| track.len() > 0 && track[0] == (offset, granule) && forall|i: int|
                0 <= i < track.len() && (#[trigger] track[i]).1 <= target ==> track[i].0
                    < 0x2_0000
        },
        SeekStage::Nowhere => track.len() == 0,
    }
}

/// A seek in a file without an index that gets what the file holds wherever it
/// asks comes to an end, on the last page of its stream that is not beyond the
/// target. The capture pattern stands only where pages begin, granule positions
/// never fall, and the pages of the stream follow each other closely.
pub proof fn law_seek_lands(
    pages: Seq<PageView>,
    stream: u32,
    serial: u32,
    target: i64,
) -> (n: nat)
    requires
        walk_laws::intact(pages),
        marked(pages),
        framing::bytes_of(pages).len() <= u64::MAX - 0x2_0000,
        bisect_laws::sound_track(
            track_of(pages, pages.len() as int, serial),
            framing::bytes_of(pages).len() as u64,
            4,
        ),
    ensures
        ({
            let data = framing::bytes_of(pages);
            let e = sought(
                SeekView::started(stream, serial, target, data.len() as u64),
                data,
                n,
            );
            &&& e.asked() is None
            &&& arrived(track_of(pages, pages.len() as int, serial), target, e)
        }),
{
    let size = framing::bytes_of(pages).len() as u64;
    let s = SeekView::started(stream, serial, target, size);
    lemma_seek(pages, s, target, seq![Bisect::started(target, size)])
}

} // verus!
