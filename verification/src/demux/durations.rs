//! How long streams last.
use crate::bytes;
use crate::bytes::{matches_at, read_i64_le, read_u32_le};
use crate::page;
use crate::page::{lacing_sum, CAPTURE_PATTERN};
use crate::serial_map::SerialMap;
use vstd::prelude::*;

verus! {

/// The number of bytes of the page that stands whole at `at`, where one does.
pub open spec fn whole_page(buf: Seq<u8>, at: int) -> Option<nat> {
    let n = buf[at + 26] as int;
    let len = 27 + n + page::body_len(buf.subrange(at + 27, at + 27 + n));
    if at + 27 <= buf.len() && bytes::holds_at(buf, at, CAPTURE_PATTERN@) && at + 27 + n
        <= buf.len() && at + len <= buf.len() {
        Some(len as nat)
    } else {
        None
    }
}

/// The last granule position of each logical bitstream among the whole pages of
/// `buf` from `at` on, with `known` before them.
pub open spec fn granules_from(buf: Seq<u8>, at: int, known: Map<u32, i64>) -> Map<u32, i64>
    decreases buf.len() - at,
{
    if at + 27 > buf.len() {
        known
    } else {
        match whole_page(buf, at) {
            None => granules_from(buf, at + 1, known),
            Some(len) => {
                let granule = bytes::le_i64(buf.skip(at + 6));
                let serial = bytes::le_u32(buf.skip(at + 14));
                granules_from(
                    buf,
                    at + 27 + (len - 27),
                    if granule >= 0 {
                        known.insert(serial, granule)
                    } else {
                        known
                    },
                )
            },
        }
    }
}

fn measure_page(buf: &[u8], at: usize) -> (r: Option<usize>)
    requires
        at + 27 <= buf@.len(),
    ensures
        match r {
            Some(len) => whole_page(buf@, at as int) == Some(len as nat) && 27 <= len && at + len
                <= buf@.len(),
            None => whole_page(buf@, at as int) is None,
        },
{
    let total: usize = buf.len();
    if !matches_at(buf, at, &CAPTURE_PATTERN) {
        return None;
    }
    let n: usize = buf[at + 26] as usize;
    if n > total - at - 27 {
        return None;
    }
    let table = vstd::slice::slice_subrange(buf, at + 27, at + 27 + n);
    proof {
        page::lemma_body_len_bound(table@);
    }
    let body: usize = lacing_sum(table);
    if body > total - at - 27 - n {
        return None;
    }
    Some(27 + n + body)
}

/// The last granule position of each logical bitstream among the whole pages
/// of a piece of a file. Bytes between pages are passed over.
pub fn last_granules(buf: &[u8]) -> (found: SerialMap<i64>)
    ensures
        found.wf(),
        found@ == granules_from(buf@, 0, Map::empty()),
{
    let total: usize = buf.len();
    let mut found: SerialMap<i64> = SerialMap::new();
    let mut at: usize = 0;
    while total - at >= 27
        invariant
            total == buf@.len(),
            at <= total,
            found.wf(),
            granules_from(buf@, 0, Map::empty()) == granules_from(buf@, at as int, found@),
        decreases total - at,
    {
        match measure_page(buf, at) {
            None => {
                at += 1;
            },
            Some(len) => {
                let granule: i64 = read_i64_le(buf, at + 6);
                let serial: u32 = read_u32_le(buf, at + 14);
                if granule >= 0 {
                    found.insert(serial, granule);
                }
                at = at + len;
            },
        }
    }
    found
}

/// The most bytes at the end of a file in which the last pages are looked for.
pub const TAIL: u64 = 65536;

/// The last piece of a file that ends at `end`: where it begins and how long it
/// is.
pub fn tail_window(end: u64) -> (r: (u64, usize))
    ensures
        r.0 + r.1 == end,
        r.1 == if end < TAIL {
            end
        } else {
            TAIL
        },
{
    if end < TAIL {
        (0, end as usize)
    } else {
        (end - TAIL, 65536)
    }
}

/// The longest of durations, 0 where none is longer.
pub open spec fn longest_of(micros: Seq<i64>) -> i64
    decreases micros.len(),
{
    if micros.len() == 0 {
        0
    } else {
        let front = longest_of(micros.drop_last());
        if micros.last() > front {
            micros.last()
        } else {
            front
        }
    }
}

/// The longest of durations, 0 where none is longer.
pub fn longest(micros: &[i64]) -> (r: i64)
    ensures
        r == longest_of(micros@),
{
    let mut best: i64 = 0;
    let mut i: usize = 0;
    while i < micros.len()
        invariant
            i <= micros@.len(),
            best == longest_of(micros@.take(i as int)),
        decreases micros@.len() - i,
    {
        assert(micros@.take(i + 1).drop_last() =~= micros@.take(i as int));
        if micros[i] > best {
            best = micros[i];
        }
        i += 1;
    }
    assert(micros@.take(i as int) =~= micros@);
    best
}

/// The longest of durations is none shorter than any of them.
pub proof fn law_longest(micros: Seq<i64>, i: int)
    requires
        0 <= i < micros.len(),
    ensures
        micros[i] <= longest_of(micros),
        0 <= longest_of(micros),
    decreases micros.len(),
{
    let front = micros.drop_last();
    if i < front.len() {
        law_longest(front, i);
    } else if front.len() > 0 {
        law_longest(front, 0);
    }
}

/// The duration of a link: the longest of its streams.
pub open spec fn link_duration(ends: Seq<(u32, i64)>, link: u32) -> i64
    decreases ends.len(),
{
    if ends.len() == 0 {
        0
    } else {
        let front = link_duration(ends.drop_last(), link);
        if ends.last().0 == link && ends.last().1 > front {
            ends.last().1
        } else {
            front
        }
    }
}

/// Whether a link occurs among `ends`.
pub open spec fn has_link(ends: Seq<(u32, i64)>, link: u32) -> bool {
    exists|i: int| 0 <= i < ends.len() && (#[trigger] ends[i]).0 == link
}

/// The duration of links played one behind the other, those that occur among
/// the first `n` of `ends`.
pub open spec fn links_duration(ends: Seq<(u32, i64)>, n: int) -> int
    decreases n,
{
    if n <= 0 {
        0
    } else {
        let front = links_duration(ends, n - 1);
        if has_link(ends.take(n - 1), ends[n - 1].0) {
            front
        } else {
            front + link_duration(ends, ends[n - 1].0)
        }
    }
}

proof fn lemma_link_duration(ends: Seq<(u32, i64)>, link: u32)
    ensures
        link_duration(ends, link) >= 0,
    decreases ends.len(),
{
    if ends.len() > 0 {
        lemma_link_duration(ends.drop_last(), link);
    }
}

proof fn lemma_links_grow(ends: Seq<(u32, i64)>, n: int)
    ensures
        links_duration(ends, n) >= 0,
        n > 0 ==> links_duration(ends, n) >= links_duration(ends, n - 1),
    decreases n,
{
    if n > 0 {
        lemma_links_grow(ends, n - 1);
        lemma_link_duration(ends, ends[n - 1].0);
    }
}

/// The duration of a chain: its links are played one behind the other, and each
/// lasts as long as the longest of its streams. Of each stream, its link and
/// its duration are given. The sum is cut off at the end of the range.
pub fn total_duration(ends: &[(u32, i64)]) -> (r: i64)
    ensures
        r == (if links_duration(ends@, ends@.len() as int) > i64::MAX {
            i64::MAX as int
        } else {
            links_duration(ends@, ends@.len() as int)
        }),
{
    let n: usize = ends.len();
    let mut total: i64 = 0;
    let mut i: usize = 0;
    while i < n
        invariant
            n == ends@.len(),
            i <= n,
            0 <= total,
            total == (if links_duration(ends@, i as int) > i64::MAX {
                i64::MAX as int
            } else {
                links_duration(ends@, i as int)
            }),
        decreases n - i,
    {
        let link: u32 = ends[i].0;
        let mut seen: bool = false;
        let mut j: usize = 0;
        while j < i
            invariant
                n == ends@.len(),
                j <= i < n,
                link == ends@[i as int].0,
                seen == has_link(ends@.take(j as int), link),
            decreases i - j,
        {
            proof {
                let shorter = ends@.take(j as int);
                let longer = ends@.take(j + 1);
                assert(longer[j as int] == ends@[j as int]);
                if has_link(shorter, link) {
                    let x = choose|x: int| 0 <= x < shorter.len() && (#[trigger] shorter[x]).0
                        == link;
                    assert(longer[x].0 == link);
                }
                if has_link(longer, link) {
                    let x = choose|x: int| 0 <= x < longer.len() && (#[trigger] longer[x]).0
                        == link;
                    if x < j {
                        assert(shorter[x].0 == link);
                    }
                }
            }
            if ends[j].0 == link {
                seen = true;
            }
            j += 1;
        }
        proof {
            lemma_links_grow(ends@, i + 1);
            lemma_link_duration(ends@, link);
        }
        if !seen {
            let mut lasts: i64 = 0;
            let mut k: usize = 0;
            while k < n
                invariant
                    n == ends@.len(),
                    k <= n,
                    0 <= lasts,
                    lasts == link_duration(ends@.take(k as int), link),
                decreases n - k,
            {
                assert(ends@.take(k + 1).drop_last() =~= ends@.take(k as int));
                if ends[k].0 == link && ends[k].1 > lasts {
                    lasts = ends[k].1;
                }
                k += 1;
            }
            assert(ends@.take(k as int) =~= ends@);
            total = if total > i64::MAX - lasts {
                i64::MAX
            } else {
                total + lasts
            };
        }
        i += 1;
    }
    total
}

} // verus!
