//! What holds of how long streams, links and chains last.
use crate::bytes;
use crate::demux::durations;
use crate::demux::walk_laws;
use crate::framing;
use crate::page::{PageView, CAPTURE_PATTERN};
use vstd::prelude::*;

verus! {

/// The duration of all the links of `ends`, however long.
pub open spec fn whole_duration(ends: Seq<(u32, i64)>) -> int {
    durations::links_duration(ends, ends.len() as int)
}

/// `v`, and 0 where it is negative.
pub open spec fn at_least_zero(v: int) -> int {
    if v > 0 {
        v
    } else {
        0
    }
}

/// A link in which a stream is the longest lasts as long as that stream, and one
/// that has no stream lasts for no time.
proof fn lemma_link_longest(ends: Seq<(u32, i64)>, link: u32)
    ensures
        durations::link_duration(ends, link) >= 0,
        forall|j: int|
            0 <= j < ends.len() && (#[trigger] ends[j]).0 == link ==> ends[j].1
                <= durations::link_duration(ends, link),
        durations::link_duration(ends, link) == 0 || exists|j: int|
            0 <= j < ends.len() && (#[trigger] ends[j]).0 == link && ends[j].1
                == durations::link_duration(ends, link),
    decreases ends.len(),
{
    if ends.len() > 0 {
        let front = ends.drop_last();
        lemma_link_longest(front, link);
        assert forall|j: int|
            0 <= j < ends.len() && (#[trigger] ends[j]).0 == link implies ends[j].1
            <= durations::link_duration(ends, link) by {
            if j < front.len() {
                assert(front[j].0 == link);
            }
        }
        let lasts = durations::link_duration(ends, link);
        if lasts != 0 {
            if lasts == durations::link_duration(front, link) {
                let j = choose|j: int|
                    0 <= j < front.len() && (#[trigger] front[j]).0 == link && front[j].1 == lasts;
                assert(ends[j].0 == link && ends[j].1 == lasts);
            } else {
                assert(ends[ends.len() - 1].0 == link && ends[ends.len() - 1].1 == lasts);
            }
        }
    }
}

/// One more stream changes the sum by what it changes of its own link.
proof fn lemma_one_more(ends: Seq<(u32, i64)>, link: u32, d: i64, n: int)
    requires
        0 <= n <= ends.len(),
    ensures
        ({
            let more = ends.push((link, d));
            let gain = durations::link_duration(more, link) - durations::link_duration(ends, link);
            durations::links_duration(more, n) == durations::links_duration(ends, n) + if (
            exists|j: int| 0 <= j < n && (#[trigger] ends[j]).0 == link) {
                gain
            } else {
                0
            }
        }),
    decreases n,
{
    let more = ends.push((link, d));
    assert(more.drop_last() =~= ends);
    if n > 0 {
        lemma_one_more(ends, link, d, n - 1);
        let k = ends[n - 1].0;
        assert(more[n - 1] == ends[n - 1]);
        assert(more.take(n - 1) =~= ends.take(n - 1));
        let before = ends.take(n - 1);
        if durations::has_link(before, k) {
            let j = choose|j: int| 0 <= j < before.len() && (#[trigger] before[j]).0 == k;
            assert(ends[j].0 == k);
        }
        if exists|j: int| 0 <= j < n - 1 && (#[trigger] ends[j]).0 == link {
            let j = choose|j: int| 0 <= j < n - 1 && (#[trigger] ends[j]).0 == link;
            assert(before[j].0 == link);
            assert(ends[j].0 == link);
        }
        if exists|j: int| 0 <= j < n && (#[trigger] ends[j]).0 == link {
            let j = choose|j: int| 0 <= j < n && (#[trigger] ends[j]).0 == link;
            if j < n - 1 {
                assert(before[j].0 == link);
            }
        }
        if k == link && durations::has_link(before, k) {
            let j = choose|j: int| 0 <= j < before.len() && (#[trigger] before[j]).0 == k;
            assert(ends[j].0 == link);
        }
        assert(ends[n - 1].0 == k);
    }
}

/// A chain without streams lasts for no time.
pub proof fn law_no_streams()
    ensures
        whole_duration(Seq::empty()) == 0,
{
}

/// A stream of a link that does not occur yet makes the chain longer by exactly
/// its duration, whatever the number of the link.
pub proof fn law_new_link(ends: Seq<(u32, i64)>, link: u32, d: i64)
    requires
        forall|i: int| 0 <= i < ends.len() ==> (#[trigger] ends[i]).0 != link,
    ensures
        whole_duration(ends.push((link, d))) == whole_duration(ends) + at_least_zero(d as int),
{
    let more = ends.push((link, d));
    let n = ends.len() as int;
    lemma_one_more(ends, link, d, n);
    lemma_link_longest(ends, link);
    assert(more.drop_last() =~= ends);
    assert(more.take(n) =~= ends);
    assert(!durations::has_link(more.take(n), link));
}

/// A stream of a link that occurs makes the chain longer by as much as it
/// outlasts the longest stream of that link, and by nothing where it does not.
pub proof fn law_same_link(ends: Seq<(u32, i64)>, i: int, d: i64)
    requires
        0 <= i < ends.len(),
        forall|j: int|
            0 <= j < ends.len() && (#[trigger] ends[j]).0 == ends[i].0 ==> ends[j].1 <= ends[i].1,
    ensures
        whole_duration(ends.push((ends[i].0, d))) == whole_duration(ends) + at_least_zero(
            at_least_zero(d as int) - at_least_zero(ends[i].1 as int),
        ),
{
    let link = ends[i].0;
    let more = ends.push((link, d));
    let n = ends.len() as int;
    lemma_one_more(ends, link, d, n);
    lemma_link_longest(ends, link);
    assert(more.drop_last() =~= ends);
    assert(more.take(n) =~= ends);
    assert(ends[i].0 == link);
    assert(durations::has_link(more.take(n), link));
    let lasts = durations::link_duration(ends, link);
    assert(ends[i].1 <= lasts);
    if lasts != 0 {
        let j = choose|j: int|
            0 <= j < ends.len() && (#[trigger] ends[j]).0 == link && ends[j].1 == lasts;
        assert(ends[j].1 <= ends[i].1);
    }
}

/// The longest of durations is one of them, or 0.
pub proof fn law_longest_is_one(micros: Seq<i64>)
    ensures
        durations::longest_of(micros) == 0 || exists|i: int|
            0 <= i < micros.len() && #[trigger] micros[i] == durations::longest_of(micros),
    decreases micros.len(),
{
    if micros.len() > 0 {
        let front = micros.drop_last();
        law_longest_is_one(front);
        let best = durations::longest_of(micros);
        if best != 0 {
            if best == durations::longest_of(front) {
                let i = choose|i: int| 0 <= i < front.len() && #[trigger] front[i] == best;
                assert(micros[i] == best);
            } else {
                assert(micros[micros.len() - 1] == best);
            }
        }
    }
}

/// `g` is the granule position of the last page of the logical bitstream `k` that
/// bears one.
pub open spec fn last_of(pages: Seq<PageView>, k: u32, g: i64) -> bool {
    exists|i: int|
        0 <= i < pages.len() && (#[trigger] pages[i]).serial == k && pages[i].granule_position == g
            && g >= 0 && forall|j: int|
            i < j < pages.len() && (#[trigger] pages[j]).serial == k ==> pages[j].granule_position
                < 0
}

/// No page of the logical bitstream `k` bears a granule position.
pub open spec fn none_of(pages: Seq<PageView>, k: u32) -> bool {
    forall|i: int|
        0 <= i < pages.len() && (#[trigger] pages[i]).serial == k ==> pages[i].granule_position < 0
}

/// A page stands whole where it was written.
proof fn lemma_page_there(lead: Seq<u8>, pages: Seq<PageView>, i: int)
    requires
        walk_laws::intact(pages),
        0 <= i < pages.len(),
    ensures
        ({
            let buf = lead + framing::bytes_of(pages);
            let at = (lead.len() + walk_laws::place(pages, i)) as int;
            let p = pages[i];
            &&& at + p.encoded_len() <= buf.len()
            &&& p.encoded_len() >= 27
            &&& durations::whole_page(buf, at) == Some(p.encoded_len())
            &&& bytes::le_i64(buf.skip(at + 6)) == p.granule_position
            &&& bytes::le_u32(buf.skip(at + 14)) == p.serial
        }),
{
    let data = framing::bytes_of(pages);
    let buf = lead + data;
    let pos = walk_laws::place(pages, i) as int;
    let at = lead.len() + pos;
    let p = pages[i];
    let n = p.lacing.len() as int;
    walk_laws::lemma_read(pages, i);
    let header = data.subrange(pos, pos + 27);
    assert(buf.subrange(at, at + 4) =~= header.take(4));
    assert(buf[at + 26] == header[26]);
    assert(buf.subrange(at + 27, at + 27 + n) =~= data.subrange(pos + 27, pos + 27 + n));
    assert(header.skip(6).take(8) =~= buf.skip(at + 6).take(8));
    bytes::lemma_le_prefix(header.skip(6), buf.skip(at + 6));
    reveal(bytes::le_i64);
    assert(header.skip(14).take(4) =~= buf.skip(at + 14).take(4));
    bytes::lemma_le_prefix(header.skip(14), buf.skip(at + 14));
}

proof fn lemma_granules_from(
    lead: Seq<u8>,
    pages: Seq<PageView>,
    n: int,
    known: Map<u32, i64>,
    k: u32,
)
    requires
        walk_laws::intact(pages),
        0 <= n <= pages.len(),
    ensures
        ({
            let buf = lead + framing::bytes_of(pages);
            let at = lead.len() + walk_laws::place(pages, n);
            let found = durations::granules_from(buf, at as int, known);
            let rest = pages.skip(n);
            &&& none_of(rest, k) ==> found.contains_key(k) == known.contains_key(k) && (
            known.contains_key(k) ==> found[k] == known[k])
            &&& !none_of(rest, k) ==> found.contains_key(k) && last_of(rest, k, found[k])
        }),
    decreases pages.len() - n,
{
    let buf = lead + framing::bytes_of(pages);
    let at = (lead.len() + walk_laws::place(pages, n)) as int;
    let rest = pages.skip(n);
    if n == pages.len() {
        assert(pages.take(n) =~= pages);
    } else {
        let p = pages[n];
        walk_laws::lemma_places(pages, n);
        lemma_page_there(lead, pages, n);
        let next = if p.granule_position >= 0 {
            known.insert(p.serial, p.granule_position)
        } else {
            known
        };
        lemma_granules_from(lead, pages, n + 1, next, k);
        let less = pages.skip(n + 1);
        assert(less =~= rest.skip(1));
        assert(rest[0] == p);
        let found = durations::granules_from(buf, at, known);
        assert(found == durations::granules_from(buf, at + p.encoded_len() as int, next));
        assert forall|i: int| 0 <= i < less.len() implies less[i] == #[trigger] rest[i + 1] by {}
        if none_of(less, k) {
            assert forall|j: int|
                0 < j < rest.len() && (#[trigger] rest[j]).serial
                    == k implies rest[j].granule_position < 0 by {
                assert(less[j - 1].serial == k);
            }
            if p.serial == k && p.granule_position >= 0 {
                assert(last_of(rest, k, p.granule_position)) by {
                    assert(rest[0].serial == k);
                }
            } else {
                assert(none_of(rest, k));
            }
        } else {
            assert(!none_of(rest, k)) by {
                let i = choose|i: int|
                    0 <= i < less.len() && (#[trigger] less[i]).serial == k
                        && less[i].granule_position >= 0;
                assert(rest[i + 1].serial == k);
            }
            let g = found[k];
            let i = choose|i: int|
                0 <= i < less.len() && (#[trigger] less[i]).serial == k && less[i].granule_position
                    == g && g >= 0 && forall|j: int|
                    i < j < less.len() && (#[trigger] less[j]).serial == k
                        ==> less[j].granule_position < 0;
            assert(rest[i + 1].serial == k);
            assert forall|j: int|
                i + 1 < j < rest.len() && (#[trigger] rest[j]).serial
                    == k implies rest[j].granule_position < 0 by {
                assert(less[j - 1].serial == k);
            }
        }
    }
}

/// Of a piece of a file that ends with whole pages, behind the end of a page that
/// is cut off, the last granule position of each logical bitstream is that of its
/// last page that bears one; a bitstream without such a page has none.
pub proof fn law_last_granules(lead: Seq<u8>, pages: Seq<PageView>, k: u32)
    requires
        walk_laws::intact(pages),
        pages.len() > 0,
        forall|at: int|
            0 <= at < lead.len() ==> !#[trigger] bytes::holds_at(
                lead + framing::bytes_of(pages),
                at,
                CAPTURE_PATTERN@,
            ),
    ensures
        ({
            let found = durations::granules_from(
                lead + framing::bytes_of(pages),
                0,
                Map::empty(),
            );
            &&& none_of(pages, k) ==> !found.contains_key(k)
            &&& !none_of(pages, k) ==> found.contains_key(k) && last_of(pages, k, found[k])
        }),
{
    lemma_lead(lead, pages, 0);
    assert(pages.take(0) =~= Seq::<PageView>::empty());
    assert(pages.skip(0) =~= pages);
    lemma_granules_from(lead, pages, 0, Map::empty(), k);
}

proof fn lemma_lead(lead: Seq<u8>, pages: Seq<PageView>, at: int)
    requires
        walk_laws::intact(pages),
        pages.len() > 0,
        0 <= at <= lead.len(),
        forall|at: int|
            0 <= at < lead.len() ==> !#[trigger] bytes::holds_at(
                lead + framing::bytes_of(pages),
                at,
                CAPTURE_PATTERN@,
            ),
    ensures
        ({
            let buf = lead + framing::bytes_of(pages);
            durations::granules_from(buf, at, Map::empty()) == durations::granules_from(
                buf,
                lead.len() as int,
                Map::empty(),
            )
        }),
    decreases lead.len() - at,
{
    if at < lead.len() {
        let buf = lead + framing::bytes_of(pages);
        lemma_page_there(lead, pages, 0);
        assert(pages.take(0) =~= Seq::<PageView>::empty());
        assert(!bytes::holds_at(buf, at, CAPTURE_PATTERN@));
        assert(durations::whole_page(buf, at) is None);
        lemma_lead(lead, pages, at + 1);
    }
}

} // verus!
