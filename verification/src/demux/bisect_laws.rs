//! Where a search by halving lands.
use crate::demux::bisect;
use crate::demux::bisect::{Bisect, BisectStage};
use vstd::arithmetic::power2;
use vstd::prelude::*;

verus! {

/// The pages of a stream in a file: where each begins and its granule position.
/// Granule positions never fall, and no page begins more than a window behind the
/// one before it. A page is known by its first `mark` bytes.
pub open spec fn sound_track(track: Seq<(u64, i64)>, file_size: u64, mark: int) -> bool {
    &&& 1 <= mark
    &&& forall|i: int, j: int|
        0 <= i < j < track.len() ==> (#[trigger] track[i]).0 + mark <= (#[trigger] track[j]).0
            && track[i].1 <= track[j].1
    &&& forall|i: int| 0 <= i < track.len() ==> (#[trigger] track[i]).0 + mark <= file_size
    &&& track.len() > 0 ==> track[0].0 + mark <= 65536
    &&& forall|i: int| 0 < i < track.len() ==> #[trigger] near(track, i, mark)
}

/// A page begins near the one before it.
pub open spec fn near(track: Seq<(u64, i64)>, i: int, mark: int) -> bool {
    track[i].0 + mark - track[i - 1].0 <= 65537
}

/// The next page of the stream at or behind `start` whose first `mark` bytes stand
/// before `end`, or that there is none.
pub open spec fn next_of(
    track: Seq<(u64, i64)>,
    start: u64,
    end: u64,
    found: Option<(u64, i64)>,
    mark: int,
) -> bool {
    match found {
        Some(p) => start <= p.0 && p.0 + mark <= end && exists|i: int|
            0 <= i < track.len() && #[trigger] track[i] == p && forall|j: int|
                0 <= j < i ==> (#[trigger] track[j]).0 < start,
        None => forall|i: int|
            0 <= i < track.len() ==> (#[trigger] track[i]).0 < start || track[i].0 + mark > end,
    }
}

/// `t` is the search `s` after it was told the next page that it asked for.
pub open spec fn told(track: Seq<(u64, i64)>, s: Bisect, t: Bisect, mark: int) -> bool {
    s.asked() matches Some((start, end)) && exists|found: Option<(u64, i64)>|
        #[trigger] next_of(track, start, end, found, mark) && t == s.after(found)
}

/// The states of a search for `target`, from its beginning on.
pub open spec fn is_search(
    track: Seq<(u64, i64)>,
    target: i64,
    file_size: u64,
    states: Seq<Bisect>,
    mark: int,
) -> bool {
    &&& states.len() > 0
    &&& states[0] == Bisect::started(target, file_size)
    &&& forall|i: int| 0 < i < states.len() ==> #[trigger] told_at(track, states, i, mark)
}

/// State `i` follows the one before it.
pub open spec fn told_at(
    track: Seq<(u64, i64)>,
    states: Seq<Bisect>,
    i: int,
    mark: int,
) -> bool {
    told(track, states[i - 1], states[i], mark)
}

/// `p` is the last page of the stream whose granule position is not beyond
/// `target`.
pub open spec fn last_before(track: Seq<(u64, i64)>, target: i64, p: (u64, i64)) -> bool {
    &&& p.1 <= target
    &&& exists|i: int|
        0 <= i < track.len() && #[trigger] track[i] == p && forall|j: int|
            i < j < track.len() ==> (#[trigger] track[j]).1 > target
}

/// `p` is the last page but one, and the last one is not beyond `target`.
pub open spec fn last_but_one(track: Seq<(u64, i64)>, target: i64, p: (u64, i64)) -> bool {
    &&& track.len() > 1
    &&& p == track[track.len() - 2]
    &&& track[track.len() - 1].1 <= target
}

/// Where a search may land: on the last page that is not beyond the target. Where
/// more than one byte must be seen of a page, the very last page can be missed.
pub open spec fn lands_well(
    track: Seq<(u64, i64)>,
    target: i64,
    p: (u64, i64),
    mark: int,
) -> bool {
    last_before(track, target, p) || (mark > 1 && last_but_one(track, target, p))
}

/// A range ends with the file, with a page, or behind all pages.
spec fn edge(track: Seq<(u64, i64)>, file_size: u64, hi: int) -> bool {
    ||| hi == file_size
    ||| exists|i: int| 0 <= i < track.len() && (#[trigger] track[i]).0 == hi
    ||| forall|i: int| 0 <= i < track.len() ==> (#[trigger] track[i]).0 < hi
}

/// No page at or behind `hi` is good enough.
spec fn below(track: Seq<(u64, i64)>, target: i64, hi: int) -> bool {
    forall|i: int|
        0 <= i < track.len() && (#[trigger] track[i]).1 <= target ==> track[i].0 < hi
}

/// The range that is left is short enough for the probes that are left.
spec fn shrinks(s: Bisect) -> bool {
    s.hi - s.lo > 0x2_0000 ==> (s.hi - s.lo - 0x2_0000) * power2::pow2(s.probes as nat)
        < 0x1_0000_0000_0000_0000
}

/// What was landed on is a page of the stream that is not beyond the target, and
/// the range begins behind it.
spec fn landed_well(track: Seq<(u64, i64)>, s: Bisect) -> bool {
    match s.landed {
        Some(p) => track.contains(p) && p.1 <= s.target,
        None => true,
    }
}

spec fn range_well(track: Seq<(u64, i64)>, s: Bisect) -> bool {
    &&& landed_well(track, s)
    &&& below(track, s.target, s.hi as int)
    &&& edge(track, s.file_size, s.hi as int)
    &&& s.hi <= s.file_size
    &&& match s.landed {
        Some(p) => s.lo == p.0 + 1,
        None => s.lo == 0,
    }
}

/// What holds of a search as long as it goes on, and at its end.
spec fn holds(track: Seq<(u64, i64)>, s: Bisect, mark: int) -> bool {
    &&& s.wf()
    &&& if s.from_start {
        s.stage == BisectStage::Done && from_first(track, s)
    } else {
        &&& landed_well(track, s)
        &&& match s.stage {
            BisectStage::Halving => range_well(track, s) && shrinks(s),
            BisectStage::Tail { cursor, end } => s.landed is Some && cursor == s.landed->Some_0.0
                + 1 && cursor < end && end <= s.file_size && below(track, s.target, end as int)
                && edge(track, s.file_size, end as int),
            BisectStage::FromStart => s.landed is None && below(track, s.target, 0x2_0000),
            BisectStage::Done => s.landed is Some && lands_well(
                track,
                s.target,
                s.landed->Some_0,
                mark,
            ),
        }
    }
}

/// The search took the first page of all; pages that are not beyond the target
/// stand near the beginning.
pub open spec fn from_first(track: Seq<(u64, i64)>, s: Bisect) -> bool {
    &&& s.landed == (if track.len() > 0 {
        Some(track[0])
    } else {
        None
    })
    &&& forall|i: int|
        0 <= i < track.len() && (#[trigger] track[i]).1 <= s.target ==> track[i].0 < 0x2_0000
}

/// A page that nothing good follows is the last one not beyond the target.
proof fn lemma_last(
    track: Seq<(u64, i64)>,
    file_size: u64,
    target: i64,
    p: (u64, i64),
    mark: int,
)
    requires
        sound_track(track, file_size, mark),
        track.contains(p),
        p.1 <= target,
        below(track, target, p.0 + 1),
    ensures
        last_before(track, target, p),
{
    let i = choose|i: int| 0 <= i < track.len() && track[i] == p;
    assert forall|j: int| i < j < track.len() implies (#[trigger] track[j]).1 > target by {
        assert(track[i].0 < track[j].0);
    }
}

/// The first page at or behind `from`, where there is one: it is not far away.
proof fn lemma_first_at(
    track: Seq<(u64, i64)>,
    file_size: u64,
    from: int,
    k: int,
    mark: int,
) -> (i: int)
    requires
        sound_track(track, file_size, mark),
        0 <= from,
        0 <= k < track.len(),
        track[k].0 >= from,
    ensures
        0 <= i <= k,
        from <= track[i].0,
        track[i].0 + mark <= from + 65536,
        forall|j: int| 0 <= j < i ==> (#[trigger] track[j]).0 < from,
    decreases k,
{
    if k == 0 {
        0
    } else if track[k - 1].0 >= from {
        lemma_first_at(track, file_size, from, k - 1, mark)
    } else {
        assert forall|j: int| 0 <= j < k implies (#[trigger] track[j]).0 < from by {
            if j < k - 1 {
                assert(track[j].0 < track[k - 1].0);
            }
        }
        assert(near(track, k, mark));
        k
    }
}

/// The halving is over with a short range.
proof fn lemma_narrowed(track: Seq<(u64, i64)>, s: Bisect, mark: int)
    requires
        sound_track(track, s.file_size, mark),
        range_well(track, s),
        s.probes <= bisect::MAX_PROBES,
        !s.from_start,
        s.hi - s.lo <= 0x2_0000,
    ensures
        holds(track, s.narrowed(), mark),
{
    if let Some(p) = s.landed {
        let i = choose|i: int| 0 <= i < track.len() && track[i] == p;
        assert(track[i].0 + mark <= s.file_size);
        let t = s.narrowed();
        if t.stage == BisectStage::Done {
            lemma_last(track, s.file_size, s.target, p, mark);
        }
    }
}

proof fn lemma_halved(track: Seq<(u64, i64)>, s: Bisect, mark: int)
    requires
        sound_track(track, s.file_size, mark),
        range_well(track, s),
        s.probes <= bisect::MAX_PROBES,
        !s.from_start,
        shrinks(s),
    ensures
        holds(track, s.halved(), mark),
{
    if !(s.lo < s.hi && s.probes < bisect::MAX_PROBES) {
        power2::lemma2_to64_rest();
        let r = s.hi - s.lo - 0x2_0000;
        if r > 0 {
            assert(s.probes == 64);
            assert(power2::pow2(64) == 0x1_0000_0000_0000_0000);
            assert(r * 0x1_0000_0000_0000_0000 >= 0x1_0000_0000_0000_0000) by (nonlinear_arith)
                requires
                    r >= 1,
            ;
        }
        lemma_narrowed(track, s, mark);
    }
}

/// One more probe halves the range, but for a window.
proof fn lemma_shrinks(s: Bisect, t: Bisect)
    requires
        shrinks(s),
        s.lo < s.hi,
        t.probes == s.probes + 1,
        t.hi - t.lo <= (s.hi - s.lo) / 2 + 65536,
    ensures
        shrinks(t),
{
    let a = s.hi - s.lo - 0x2_0000;
    let b = t.hi - t.lo - 0x2_0000;
    if b > 0 {
        assert(2 * b <= a);
        let p = power2::pow2(s.probes as nat) as int;
        power2::lemma_pow2_unfold(t.probes as nat);
        power2::lemma_pow2_pos(s.probes as nat);
        assert(b * (2 * p) <= a * p) by (nonlinear_arith)
            requires
                2 * b <= a,
                p > 0,
        ;
    }
}

/// Every answer keeps what holds of a search.
proof fn lemma_told(track: Seq<(u64, i64)>, s: Bisect, t: Bisect, mark: int)
    requires
        sound_track(track, s.file_size, mark),
        holds(track, s, mark),
        told(track, s, t, mark),
    ensures
        holds(track, t, mark),
        t.target == s.target,
        t.file_size == s.file_size,
        bisect::questions_left(t) < bisect::questions_left(s),
        0 <= bisect::questions_left(t),
{
    let (start, end) = s.asked()->Some_0;
    let found = choose|found: Option<(u64, i64)>| #[trigger]
        next_of(track, start, end, found, mark) && t == s.after(found);
    bisect::law_bisect_ends(s, found);
    match s.stage {
        BisectStage::Halving => lemma_probe(track, s, found, mark),
        BisectStage::Tail { cursor, end } => {
            let p = s.landed->Some_0;
            match found {
                None => {
                    lemma_tail_over(track, s, p, end as int, mark);
                },
                Some(q) => {
                    let i = choose|i: int|
                        0 <= i < track.len() && #[trigger] track[i] == q && forall|j: int|
                            0 <= j < i ==> (#[trigger] track[j]).0 < start;
                    let k = choose|k: int| 0 <= k < track.len() && track[k] == p;
                    assert(k < i) by {
                        if i < k {
                            assert(track[i].0 < track[k].0);
                        }
                    }
                    assert(track[k].1 <= track[i].1);
                    assert(track[i].0 + mark <= s.file_size);
                    if q.1 > s.target {
                        assert forall|j: int|
                            0 <= j < track.len() && (#[trigger] track[j]).1
                                <= s.target implies track[j].0 < p.0 + 1 by {
                            if j > i {
                                assert(track[i].1 <= track[j].1);
                            }
                        }
                        lemma_last(track, s.file_size, s.target, p, mark);
                    } else {
                        assert(track.contains(q));
                        if !(q.0 + 1 < end) {
                            lemma_last(track, s.file_size, s.target, q, mark);
                        }
                    }
                },
            }
        },
        BisectStage::FromStart => {
            match found {
                None => {
                    if track.len() > 0 {
                        assert(track[0].0 + mark <= s.file_size);
                    }
                },
                Some(q) => {
                    let i = choose|i: int|
                        0 <= i < track.len() && #[trigger] track[i] == q && forall|j: int|
                            0 <= j < i ==> (#[trigger] track[j]).0 < start;
                    if i > 0 {
                        assert(track[0].0 < start);
                    }
                },
            }
        },
        BisectStage::Done => {},
    }
}

/// The end of a search page by page.
proof fn lemma_tail_over(
    track: Seq<(u64, i64)>,
    s: Bisect,
    p: (u64, i64),
    end: int,
    mark: int,
)
    requires
        sound_track(track, s.file_size, mark),
        track.contains(p),
        p.1 <= s.target,
        below(track, s.target, end),
        edge(track, s.file_size, end),
        forall|i: int|
            0 <= i < track.len() ==> (#[trigger] track[i]).0 < p.0 + 1 || track[i].0 + mark > end,
    ensures
        lands_well(track, s.target, p, mark),
{
    if below(track, s.target, p.0 + 1) {
        lemma_last(track, s.file_size, s.target, p, mark);
    } else {
        let n = track.len() as int;
        let j = choose|j: int|
            0 <= j < n && (#[trigger] track[j]).1 <= s.target && track[j].0 >= p.0 + 1;
        let k = choose|k: int| 0 <= k < n && track[k] == p;
        assert(track[j].0 < end);
        assert(track[j].0 + mark <= s.file_size);
        if exists|x: int| 0 <= x < n && (#[trigger] track[x]).0 == end {
            let x = choose|x: int| 0 <= x < n && (#[trigger] track[x]).0 == end;
            if x < j {
                assert(track[x].0 < track[j].0);
            }
            assert(j < x);
            assert(track[j].0 + mark <= track[x].0);
            assert(false);
        }
        assert(forall|i: int| 0 <= i < n ==> (#[trigger] track[i]).0 < end);
        if j < n - 1 {
            assert(track[j].0 + mark <= track[n - 1].0);
        }
        assert(j == n - 1);
        if k > j {
            assert(track[j].0 < track[k].0);
        }
        assert(k < j);
        if k < n - 2 {
            assert(track[k].0 + mark <= track[k + 1].0);
            assert(track[k + 1].0 + mark <= track[n - 1].0);
        }
    }
}

proof fn lemma_probe(
    track: Seq<(u64, i64)>,
    s: Bisect,
    found: Option<(u64, i64)>,
    mark: int,
)
    requires
        sound_track(track, s.file_size, mark),
        holds(track, s, mark),
        s.stage == BisectStage::Halving,
        next_of(track, s.asked()->Some_0.0, s.asked()->Some_0.1, found, mark),
    ensures
        holds(track, s.after(found), mark),
{
    let mid = s.middle();
    let n = Bisect { probes: (s.probes + 1) as u32, ..s };
    assert(s.lo <= mid < s.hi);
    match found {
        None => {
            let u = Bisect { hi: mid, ..n };
            assert forall|k: int| 0 <= k < track.len() implies (#[trigger] track[k]).0 < mid by {
                if track[k].0 >= mid {
                    let i = lemma_first_at(track, s.file_size, mid as int, k, mark);
                    assert(track[i].0 + mark <= s.file_size);
                    assert(track[i].0 < mid || track[i].0 + mark > s.asked()->Some_0.1);
                }
            }
            assert(edge(track, u.file_size, u.hi as int));
            lemma_shrinks(s, u);
            lemma_halved(track, u, mark);
        },
        Some(q) => {
            let i = choose|i: int|
                0 <= i < track.len() && #[trigger] track[i] == q && forall|j: int|
                    0 <= j < i ==> (#[trigger] track[j]).0 < mid;
            assert(track[i].0 + mark <= s.file_size);
            assert(track.contains(q));
            if q.1 <= s.target {
                if let Some(p) = s.landed {
                    let k = choose|k: int| 0 <= k < track.len() && track[k] == p;
                    assert(k < i) by {
                        if i < k {
                            assert(track[i].0 < track[k].0);
                        }
                    }
                    assert(track[k].1 <= track[i].1);
                }
                assert(q.0 < s.hi);
                let u = Bisect { lo: (q.0 + 1) as u64, landed: Some(q), ..n };
                assert(s.after(found) == if u.hi - u.lo < bisect::WINDOW {
                    u.narrowed()
                } else {
                    u.halved()
                });
                lemma_shrinks(s, u);
                if u.hi - u.lo < bisect::WINDOW {
                    lemma_narrowed(track, u, mark);
                } else {
                    lemma_halved(track, u, mark);
                }
            } else {
                let u = Bisect { hi: q.0, ..n };
                assert forall|j: int|
                    0 <= j < track.len() && (#[trigger] track[j]).1 <= s.target implies track[j].0
                    < q.0 by {
                    if j > i {
                        assert(track[i].1 <= track[j].1);
                    } else if j < i {
                        assert(track[j].0 < track[i].0);
                    }
                }
                let k = lemma_first_at(track, s.file_size, mid as int, i, mark);
                assert(k == i);
                assert(q.0 <= mid + 65536);
                assert(edge(track, u.file_size, u.hi as int)) by {
                    assert(track[i].0 == u.hi);
                }
                lemma_shrinks(s, u);
                if u.hi - u.lo < bisect::WINDOW {
                    lemma_narrowed(track, u, mark);
                } else {
                    lemma_halved(track, u, mark);
                }
            }
        },
    }
}

proof fn lemma_search(
    track: Seq<(u64, i64)>,
    target: i64,
    file_size: u64,
    states: Seq<Bisect>,
    mark: int,
)
    requires
        sound_track(track, file_size, mark),
        is_search(track, target, file_size, states, mark),
    ensures
        holds(track, states.last(), mark),
        states.last().target == target,
        states.last().file_size == file_size,
        states.len() - 1 + bisect::questions_left(states.last()) <= bisect::questions_left(
            states[0],
        ),
        bisect::questions_left(states.last()) >= 0,
    decreases states.len(),
{
    if states.len() == 1 {
        let s = Bisect {
            target,
            file_size,
            lo: 0,
            hi: file_size,
            landed: None,
            probes: 0,
            stage: BisectStage::Halving,
            from_start: false,
        };
        power2::lemma2_to64();
        assert((s.hi - s.lo - 0x2_0000) * 1 < 0x1_0000_0000_0000_0000) by (nonlinear_arith)
            requires
                s.hi - s.lo <= 0xFFFF_FFFF_FFFF_FFFF,
        ;
        lemma_halved(track, s, mark);
    } else {
        let front = states.drop_last();
        assert forall|i: int| 0 < i < front.len() implies #[trigger] told_at(
            track,
            front,
            i,
            mark,
        ) by {
            assert(told_at(track, states, i, mark));
        }
        lemma_search(track, target, file_size, front, mark);
        let n = states.len() - 1;
        assert(told_at(track, states, n, mark));
        assert(front.last() == states[n - 1]);
        lemma_told(track, front.last(), states.last(), mark);
    }
}

/// A search that asks for nothing more has landed on the last page of the stream
/// whose granule position is not beyond the target, wherever a page is known by
/// its first byte. Only where none of its probes met a page that is not beyond the
/// target has it taken the first page of all, and then every such page begins in
/// the first 128 KiB.
pub proof fn law_bisect_lands(
    track: Seq<(u64, i64)>,
    target: i64,
    file_size: u64,
    states: Seq<Bisect>,
    mark: int,
)
    requires
        sound_track(track, file_size, mark),
        is_search(track, target, file_size, states, mark),
        states.last().asked() is None,
    ensures
        ({
            let s = states.last();
            &&& s.target == target
            &&& if s.from_start {
                from_first(track, s)
            } else {
                s.landed matches Some(p) && lands_well(track, target, p, mark)
            }
        }),
{
    lemma_search(track, target, file_size, states, mark);
}

/// A page behind the first 128 KiB that is not beyond the target is never passed
/// over: the search lands on the last such page.
pub proof fn law_bisect_reaches(
    track: Seq<(u64, i64)>,
    target: i64,
    file_size: u64,
    states: Seq<Bisect>,
    mark: int,
    i: int,
)
    requires
        sound_track(track, file_size, mark),
        is_search(track, target, file_size, states, mark),
        states.last().asked() is None,
        0 <= i < track.len(),
        track[i].0 >= 0x2_0000,
        track[i].1 <= target,
    ensures
        states.last().landed matches Some(p) && lands_well(track, target, p, mark),
{
    law_bisect_lands(track, target, file_size, states, mark);
    lemma_search(track, target, file_size, states, mark);
    assert(track[i].1 <= states.last().target);
}

/// A search asks for nothing behind the end of the file.
pub proof fn law_bisect_within(
    track: Seq<(u64, i64)>,
    target: i64,
    file_size: u64,
    states: Seq<Bisect>,
    mark: int,
)
    requires
        sound_track(track, file_size, mark),
        is_search(track, target, file_size, states, mark),
    ensures
        states.last().asked() matches Some((start, end)) ==> end <= file_size,
{
    lemma_search(track, target, file_size, states, mark);
}

/// A search asks for at most 64 probes and the pages of one stretch of 128 KiB.
pub proof fn law_bisect_short(
    track: Seq<(u64, i64)>,
    target: i64,
    file_size: u64,
    states: Seq<Bisect>,
    mark: int,
)
    requires
        sound_track(track, file_size, mark),
        is_search(track, target, file_size, states, mark),
    ensures
        states.len() <= 64 + 0x2_0000 + 2,
{
    lemma_search(track, target, file_size, states, mark);
}

} // verus!
