//! Serials for the streams of a physical stream, none of them twice.
use crate::serial_map::SerialMap;
use crate::mux::stream_writer;
use crate::stream::StreamInfoView;
use vstd::prelude::*;

verus! {

/// Number of serials.
pub const SERIAL_COUNT: u64 = 0x1_0000_0000;

/// The first of `n` and the numbers behind it, around the circle, that is not
/// used, looking at `left` of them.
pub open spec fn free_within(used: Set<u32>, n: u32, left: nat) -> u32
    decreases left,
{
    if left == 0 || !used.contains(n) {
        n
    } else {
        free_within(used, stream_writer::successor(n), (left - 1) as nat)
    }
}

/// The first of `n` and the numbers behind it, around the circle, that is not
/// used.
pub open spec fn next_free(used: Set<u32>, n: u32) -> u32 {
    free_within(used, n, SERIAL_COUNT as nat)
}

/// The number `k` places behind `n` on the circle.
spec fn ahead(n: u32, k: int) -> u32 {
    ((n + k) % 0x1_0000_0000) as u32
}

proof fn lemma_all_used(used: Set<u32>, n: u32, left: nat)
    requires
        used.contains(free_within(used, n, left)),
    ensures
        forall|k: int| 0 <= k < left ==> used.contains(#[trigger] ahead(n, k)),
    decreases left,
{
    if left > 0 {
        if used.contains(n) {
            let m = stream_writer::successor(n);
            lemma_all_used(used, m, (left - 1) as nat);
            assert forall|k: int| 0 <= k < left implies used.contains(#[trigger] ahead(n, k)) by {
                if k == 0 {
                    assert(ahead(n, 0) == n);
                } else {
                    assert(ahead(n, k) == ahead(m, k - 1)) by {
                        if n == u32::MAX {
                            assert((n + k) % 0x1_0000_0000 == (k - 1) % 0x1_0000_0000);
                        }
                    }
                }
            }
        }
    }
}

/// Where any serial is free, the one that is found is.
pub proof fn law_next_free(used: Set<u32>, n: u32)
    requires
        used.finite(),
        used.len() < SERIAL_COUNT,
    ensures
        !used.contains(next_free(used, n)),
{
    if used.contains(next_free(used, n)) {
        lemma_all_used(used, n, SERIAL_COUNT as nat);
        assert forall|v: u32| used.contains(v) by {
            let k = if v >= n {
                v - n
            } else {
                v - n + 0x1_0000_0000
            };
            assert(ahead(n, k) == v) by {
                if v < n {
                    assert((v + 0x1_0000_0000) % 0x1_0000_0000 == v as int);
                }
            }
        }
        let range = vstd::set_lib::set_int_range(0, 0x1_0000_0000);
        vstd::set_lib::lemma_int_range(0, 0x1_0000_0000);
        let f = |i: int| i as u32;
        let image = range.map(f);
        assert(vstd::relations::injective_on(f, range)) by {
            assert forall|a: int, b: int|
                range.contains(a) && range.contains(b) && #[trigger] f(a) == #[trigger] f(
                    b,
                ) implies a == b by {}
        }
        vstd::set_lib::lemma_map_size(range, image, f);
        vstd::set_lib::lemma_len_subset(image, used);
    }
}

/// Finds the first serial from `n` on that is not used.
pub fn find_free(used: &SerialMap<()>, n: u32) -> (r: u32)
    requires
        used.wf(),
    ensures
        r == next_free(used@.dom(), n),
{
    let mut candidate: u32 = n;
    let mut left: u64 = SERIAL_COUNT;
    while left > 0 && used.contains(candidate)
        invariant
            used.wf(),
            left <= SERIAL_COUNT,
            next_free(used@.dom(), n) == free_within(used@.dom(), candidate, left as nat),
        decreases left,
    {
        candidate = candidate.wrapping_add(1);
        left = left - 1;
    }
    candidate
}

/// The serials that streams get, in their order: each its own index where that
/// is free, else the next free one.
pub open spec fn assigned(used: Set<u32>, streams: Seq<StreamInfoView>) -> Seq<u32>
    decreases streams.len(),
{
    if streams.len() == 0 {
        Seq::empty()
    } else {
        let front = assigned(used, streams.drop_last());
        front.push(next_free(used + front.to_set(), streams.last().index))
    }
}

/// As many streams as there are serials left get serials that were not used
/// before and are not used twice.
pub proof fn law_assigned(used: Set<u32>, streams: Seq<StreamInfoView>)
    requires
        used.finite(),
        used.len() + streams.len() <= SERIAL_COUNT,
    ensures
        assigned(used, streams).len() == streams.len(),
        assigned(used, streams).no_duplicates(),
        forall|i: int|
            0 <= i < streams.len() ==> !used.contains(#[trigger] assigned(used, streams)[i]),
        (used + assigned(used, streams).to_set()).finite(),
        (used + assigned(used, streams).to_set()).len() == used.len() + streams.len(),
    decreases streams.len(),
{
    let all = assigned(used, streams);
    if streams.len() == 0 {
        assert(used + all.to_set() =~= used);
    } else {
        let front = assigned(used, streams.drop_last());
        law_assigned(used, streams.drop_last());
        let taken = used + front.to_set();
        let serial = next_free(taken, streams.last().index);
        law_next_free(taken, streams.last().index);
        assert(all == front.push(serial));
        assert forall|i: int, j: int| 0 <= i < all.len() && 0 <= j < all.len() && i
            != j implies all[i] != all[j] by {
            if i == front.len() {
                assert(front.to_set().contains(front[j]));
            } else if j == front.len() {
                assert(front.to_set().contains(front[i]));
            }
        }
        assert forall|i: int| 0 <= i < streams.len() implies !used.contains(#[trigger] all[i]) by {
            if i < front.len() {
                assert(all[i] == front[i]);
            }
        }
        assert(used + all.to_set() =~= taken.insert(serial)) by {
            assert forall|v: u32| (used + all.to_set()).contains(v) == taken.insert(
                serial,
            ).contains(v) by {
                if front.contains(v) {
                    let i = choose|i: int| 0 <= i < front.len() && front[i] == v;
                    assert(all[i] == v);
                }
                if all.contains(v) {
                    let i = choose|i: int| 0 <= i < all.len() && all[i] == v;
                    if i < front.len() {
                        assert(front[i] == v);
                    }
                }
                assert(all[front.len() as int] == serial);
            }
        }
    }
}

/// Streams whose indexes are free and differ get their indexes for serials.
pub proof fn law_own_indexes(used: Set<u32>, streams: Seq<StreamInfoView>)
    requires
        forall|i: int| 0 <= i < streams.len() ==> !used.contains((#[trigger] streams[i]).index),
        forall|i: int, j: int|
            0 <= i < j < streams.len() ==> (#[trigger] streams[i]).index != (
            #[trigger] streams[j]).index,
    ensures
        assigned(used, streams).len() == streams.len(),
        forall|i: int|
            0 <= i < streams.len() ==> assigned(used, streams)[i] == (#[trigger] streams[i]).index,
    decreases streams.len(),
{
    if streams.len() > 0 {
        let front = streams.drop_last();
        let n = front.len() as int;
        assert forall|i: int| 0 <= i < front.len() implies !used.contains(
            (#[trigger] front[i]).index,
        ) by {
            assert(streams[i] == front[i]);
        }
        assert forall|i: int, j: int| 0 <= i < j < front.len() implies (
        #[trigger] front[i]).index != (#[trigger] front[j]).index by {
            assert(streams[i].index != streams[j].index);
        }
        law_own_indexes(used, front);
        let before = assigned(used, front);
        let index = streams.last().index;
        assert(!(used + before.to_set()).contains(index)) by {
            assert(!used.contains(streams[n].index));
            if before.to_set().contains(index) {
                let i = choose|i: int| 0 <= i < before.len() && before[i] == index;
                assert(front[i].index == before[i]);
                assert(streams[i].index != streams[n].index);
            }
        }
        assert forall|i: int| 0 <= i < streams.len() implies assigned(used, streams)[i] == (
        #[trigger] streams[i]).index by {
            if i < n {
                assert(front[i] == streams[i]);
            }
        }
    }
}

} // verus!
