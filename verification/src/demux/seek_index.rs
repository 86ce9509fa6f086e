//! Where pages stand, by logical bitstream and granule position.
use crate::serial_map;
use crate::serial_map::SerialMap;
use vstd::prelude::*;

verus! {

/// A granule position and the offset of the page that bears it.
pub type SeekEntry = (i64, u64);

/// Entries are ordered by granule position, and by offset where that is the
/// same.
pub open spec fn before(a: SeekEntry, b: SeekEntry) -> bool {
    a.0 < b.0 || (a.0 == b.0 && a.1 < b.1)
}

/// The entries ascend, and none stands twice.
pub open spec fn ascending(list: Seq<SeekEntry>) -> bool {
    forall|i: int, j: int| 0 <= i < j < list.len() ==> before(#[trigger] list[i], #[trigger] list[j])
}

/// The list with an entry in its place, where it does not hold it.
pub open spec fn inserted(list: Seq<SeekEntry>, e: SeekEntry) -> Seq<SeekEntry>
    decreases list.len(),
{
    if list.len() == 0 {
        seq![e]
    } else if list[0] == e {
        list
    } else if before(e, list[0]) {
        seq![e] + list
    } else {
        seq![list[0]] + inserted(list.skip(1), e)
    }
}

/// The last entry whose granule position is not beyond `target`.
pub open spec fn floor_in(list: Seq<SeekEntry>, target: i64) -> Option<SeekEntry>
    decreases list.len(),
{
    if list.len() == 0 {
        None
    } else if list.last().0 <= target {
        Some(list.last())
    } else {
        floor_in(list.drop_last(), target)
    }
}

/// The entries of the logical bitstream `serial`.
pub open spec fn list_of(index: Map<u32, Seq<SeekEntry>>, serial: u32) -> Seq<SeekEntry> {
    if index.contains_key(serial) {
        index[serial]
    } else {
        Seq::empty()
    }
}

/// The index with one more page. A page without a granule position changes
/// nothing.
pub open spec fn recorded(
    index: Map<u32, Seq<SeekEntry>>,
    serial: u32,
    granule: i64,
    offset: u64,
) -> Map<u32, Seq<SeekEntry>> {
    if granule < 0 {
        index
    } else {
        index.insert(serial, inserted(list_of(index, serial), (granule, offset)))
    }
}

/// Pages of logical bitstreams, ordered by granule position.
pub struct SeekIndex {
    lists: SerialMap<Vec<SeekEntry>>,
}

impl View for SeekIndex {
    type V = Map<u32, Seq<SeekEntry>>;

    closed spec fn view(&self) -> Map<u32, Seq<SeekEntry>> {
        Map::new(|k: u32| self.lists@.contains_key(k), |k: u32| self.lists@[k]@)
    }
}

proof fn lemma_inserted_at(list: Seq<SeekEntry>, e: SeekEntry, at: int)
    requires
        ascending(list),
        0 <= at <= list.len(),
        forall|i: int| 0 <= i < at ==> before(#[trigger] list[i], e),
        forall|i: int| at <= i < list.len() ==> before(e, #[trigger] list[i]),
    ensures
        inserted(list, e) == list.insert(at, e),
    decreases list.len(),
{
    if list.len() == 0 {
        assert(list.insert(at, e) =~= seq![e]);
    } else if at == 0 {
        assert(before(e, list[0]));
        assert(list.insert(0, e) =~= seq![e] + list);
    } else {
        assert(before(list[0], e));
        lemma_inserted_at(list.skip(1), e, at - 1);
        assert(seq![list[0]] + list.skip(1).insert(at - 1, e) =~= list.insert(at, e));
    }
}

proof fn lemma_inserted_there(list: Seq<SeekEntry>, e: SeekEntry, at: int)
    requires
        ascending(list),
        0 <= at < list.len(),
        list[at] == e,
    ensures
        inserted(list, e) == list,
    decreases list.len(),
{
    if at > 0 {
        assert(before(list[0], list[at]));
        lemma_inserted_there(list.skip(1), e, at - 1);
        assert(seq![list[0]] + list.skip(1) =~= list);
    }
}

pub proof fn lemma_inserted(list: Seq<SeekEntry>, e: SeekEntry)
    requires
        ascending(list),
    ensures
        ascending(inserted(list, e)),
        inserted(list, e).contains(e),
        forall|x: SeekEntry| #[trigger]
            inserted(list, e).contains(x) ==> x == e || list.contains(x),
    decreases list.len(),
{
    if list.len() == 0 {
        assert(seq![e][0] == e);
    } else if list[0] == e {
    } else if before(e, list[0]) {
        let after = seq![e] + list;
        assert(after[0] == e);
        assert forall|i: int, j: int| 0 <= i < j < after.len() implies before(
            #[trigger] after[i],
            #[trigger] after[j],
        ) by {
            if i == 0 {
                if j > 1 {
                    assert(before(list[0], list[j - 1]));
                }
            } else {
                assert(before(list[i - 1], list[j - 1]));
            }
        }
        assert forall|x: SeekEntry| #[trigger] after.contains(x) implies x == e || list.contains(
            x,
        ) by {
            let i = choose|i: int| 0 <= i < after.len() && after[i] == x;
            if i > 0 {
                assert(list[i - 1] == x);
            }
        }
    } else {
        let tail = list.skip(1);
        assert forall|i: int, j: int| 0 <= i < j < tail.len() implies before(
            #[trigger] tail[i],
            #[trigger] tail[j],
        ) by {
            assert(before(list[i + 1], list[j + 1]));
        }
        lemma_inserted(tail, e);
        let rest = inserted(tail, e);
        let after = seq![list[0]] + rest;
        assert forall|i: int, j: int| 0 <= i < j < after.len() implies before(
            #[trigger] after[i],
            #[trigger] after[j],
        ) by {
            if i == 0 {
                let x = rest[j - 1];
                assert(rest.contains(x));
                if tail.contains(x) {
                    let k = choose|k: int| 0 <= k < tail.len() && tail[k] == x;
                    assert(before(list[0], list[k + 1]));
                }
            } else {
                assert(before(rest[i - 1], rest[j - 1]));
            }
        }
        let k = choose|k: int| 0 <= k < rest.len() && rest[k] == e;
        assert(after[k + 1] == e);
        assert forall|x: SeekEntry| #[trigger] after.contains(x) implies x == e || list.contains(
            x,
        ) by {
            let i = choose|i: int| 0 <= i < after.len() && after[i] == x;
            if i == 0 {
                assert(list[0] == x);
            } else {
                assert(rest[i - 1] == x);
                assert(rest.contains(x));
                if tail.contains(x) {
                    let m = choose|m: int| 0 <= m < tail.len() && tail[m] == x;
                    assert(list[m + 1] == x);
                }
            }
        }
    }
}

/// Inserting an entry loses none.
pub proof fn lemma_inserted_keeps(list: Seq<SeekEntry>, e: SeekEntry, x: SeekEntry)
    requires
        list.contains(x),
    ensures
        inserted(list, e).contains(x),
    decreases list.len(),
{
    let i = choose|i: int| 0 <= i < list.len() && list[i] == x;
    let after = inserted(list, e);
    if list[0] == e {
    } else if before(e, list[0]) {
        assert(after[i + 1] == x);
    } else if i == 0 {
        assert(after[0] == x);
    } else {
        assert(list.skip(1)[i - 1] == x);
        lemma_inserted_keeps(list.skip(1), e, x);
        let rest = inserted(list.skip(1), e);
        let j = choose|j: int| 0 <= j < rest.len() && rest[j] == x;
        assert(after[j + 1] == x);
    }
}

/// Recording a page keeps every list ascending, and recording it again changes
/// nothing.
pub proof fn law_recorded(
    index: Map<u32, Seq<SeekEntry>>,
    serial: u32,
    granule: i64,
    offset: u64,
)
    requires
        forall|k: u32| #[trigger] index.contains_key(k) ==> ascending(index[k]),
    ensures
        ({
            let after = recorded(index, serial, granule, offset);
            &&& forall|k: u32| #[trigger] after.contains_key(k) ==> ascending(after[k])
            &&& recorded(after, serial, granule, offset) == after
            &&& granule >= 0 ==> after[serial].contains((granule, offset))
        }),
{
    if granule >= 0 {
        let list = list_of(index, serial);
        let e = (granule, offset);
        lemma_inserted(list, e);
        let after = recorded(index, serial, granule, offset);
        let grown = inserted(list, e);
        let at = choose|i: int| 0 <= i < grown.len() && grown[i] == e;
        lemma_inserted_there(grown, e, at);
        assert(recorded(after, serial, granule, offset) =~= after);
    }
}

/// What is found is in the list and not beyond the target, and everything in
/// the list that is not beyond the target comes no later.
pub proof fn law_floor(list: Seq<SeekEntry>, target: i64)
    requires
        ascending(list),
    ensures
        match floor_in(list, target) {
            Some(e) => list.contains(e) && e.0 <= target && forall|i: int|
                0 <= i < list.len() && (#[trigger] list[i]).0 <= target ==> list[i] == e || before(
                    list[i],
                    e,
                ),
            None => forall|i: int| 0 <= i < list.len() ==> (#[trigger] list[i]).0 > target,
        },
    decreases list.len(),
{
    if list.len() > 0 {
        let n = list.len() - 1;
        if list.last().0 <= target {
            assert(list[n] == list.last());
            assert forall|i: int| 0 <= i < list.len() && (
            #[trigger] list[i]).0 <= target implies list[i] == list.last() || before(
                list[i],
                list.last(),
            ) by {
                if i < n {
                    assert(before(list[i], list[n]));
                }
            }
        } else {
            let front = list.drop_last();
            law_floor(front, target);
            assert forall|i: int| 0 <= i < list.len() && (
            #[trigger] list[i]).0 <= target implies i < n && front[i] == list[i] by {}
            match floor_in(front, target) {
                Some(e) => {
                    let i = choose|i: int| 0 <= i < front.len() && front[i] == e;
                    assert(list[i] == e);
                    assert forall|i: int| 0 <= i < list.len() && (
                    #[trigger] list[i]).0 <= target implies list[i] == e || before(list[i], e) by {
                        assert(front[i] == list[i]);
                    }
                },
                None => {
                    assert forall|i: int| 0 <= i < list.len() implies (#[trigger] list[i]).0
                        > target by {
                        if i < n {
                            assert(front[i] == list[i]);
                        }
                    }
                },
            }
        }
    }
}

proof fn lemma_floor_at(list: Seq<SeekEntry>, target: i64, at: int)
    requires
        0 <= at <= list.len(),
        forall|i: int| 0 <= i < at ==> (#[trigger] list[i]).0 <= target,
        forall|i: int| at <= i < list.len() ==> (#[trigger] list[i]).0 > target,
    ensures
        floor_in(list, target) == (if at > 0 {
            Some(list[at - 1])
        } else {
            None
        }),
    decreases list.len(),
{
    if list.len() > at {
        let front = list.drop_last();
        assert(list[list.len() - 1].0 > target);
        assert forall|i: int| at <= i < front.len() implies (#[trigger] front[i]).0 > target by {
            assert(list[i] == front[i]);
        }
        lemma_floor_at(front, target, at);
    }
}

fn place(list: &Vec<SeekEntry>, e: SeekEntry) -> (r: Result<usize, usize>)
    requires
        ascending(list@),
    ensures
        match r {
            Ok(i) => i < list@.len() && list@[i as int] == e,
            Err(at) => {
                &&& at <= list@.len()
                &&& forall|i: int| 0 <= i < at ==> before(#[trigger] list@[i], e)
                &&& forall|i: int| at <= i < list@.len() ==> before(e, #[trigger] list@[i])
            },
        },
{
    let mut lo: usize = 0;
    let mut hi: usize = list.len();
    while lo < hi
        invariant
            lo <= hi <= list@.len(),
            ascending(list@),
            forall|i: int| 0 <= i < lo ==> before(#[trigger] list@[i], e),
            forall|i: int| hi <= i < list@.len() ==> before(e, #[trigger] list@[i]),
        decreases hi - lo,
    {
        let mid: usize = lo + (hi - lo) / 2;
        let m = list[mid];
        if m.0 == e.0 && m.1 == e.1 {
            return Ok(mid);
        }
        if m.0 < e.0 || (m.0 == e.0 && m.1 < e.1) {
            assert forall|i: int| 0 <= i < mid + 1 implies before(#[trigger] list@[i], e) by {
                if i < mid {
                    assert(before(list@[i], list@[mid as int]));
                }
            }
            lo = mid + 1;
        } else {
            assert forall|i: int| mid <= i < list@.len() implies before(e, #[trigger] list@[i]) by {
                if i > mid {
                    assert(before(list@[mid as int], list@[i]));
                }
            }
            hi = mid;
        }
    }
    Err(lo)
}

/// The lists of an index in the order of their serials.
pub open spec fn lists_of(index: Map<u32, Seq<SeekEntry>>) -> Seq<Seq<SeekEntry>> {
    serial_map::ordered_keys(index).map_values(|k: u32| index[k])
}

/// Number of entries in an index, cut off at the end of the range.
pub open spec fn size_of(index: Map<u32, Seq<SeekEntry>>) -> nat {
    let n = total_len(lists_of(index));
    if n > usize::MAX {
        usize::MAX as nat
    } else {
        n
    }
}

/// Number of entries in lists.
pub open spec fn total_len(lists: Seq<Seq<SeekEntry>>) -> nat
    decreases lists.len(),
{
    if lists.len() == 0 {
        0
    } else {
        total_len(lists.drop_last()) + lists.last().len()
    }
}

impl SeekIndex {
    /// Every list ascends.
    pub closed spec fn wf(&self) -> bool {
        &&& self.lists.wf()
        &&& forall|k: u32| #[trigger] self@.contains_key(k) ==> ascending(self@[k])
    }

    /// An empty index.
    pub fn new() -> (x: Self)
        ensures
            x.wf(),
            x@ == Map::<u32, Seq<SeekEntry>>::empty(),
    {
        let x = SeekIndex { lists: SerialMap::new() };
        assert(x@ =~= Map::<u32, Seq<SeekEntry>>::empty());
        x
    }

    /// Takes note of a page. One without a granule position is passed over, and
    /// one that is known already changes nothing.
    pub fn record(&mut self, serial: u32, granule: i64, offset: u64)
        requires
            old(self).wf(),
        ensures
            final(self).wf(),
            final(self)@ == recorded(old(self)@, serial, granule, offset),
    {
        if granule < 0 {
            return;
        }
        let ghost index = self@;
        let ghost lists = self.lists@;
        let e: SeekEntry = (granule, offset);
        let mut list: Vec<SeekEntry> = match self.lists.remove(serial) {
            Some(l) => {
                assert(index.contains_key(serial));
                l
            },
            None => {
                assert(!index.contains_key(serial));
                Vec::new()
            },
        };
        assert(list@ =~= list_of(index, serial));
        assert(ascending(list@));
        match place(&list, e) {
            Ok(i) => {
                proof {
                    lemma_inserted_there(list@, e, i as int);
                }
            },
            Err(at) => {
                proof {
                    lemma_inserted_at(list@, e, at as int);
                }
                list.insert(at, e);
            },
        }
        self.lists.insert(serial, list);
        proof {
            law_recorded(index, serial, granule, offset);
            assert(self@ =~= recorded(index, serial, granule, offset));
        }
    }

    /// The last page of the logical bitstream `serial` whose granule position is
    /// not beyond `target`.
    pub fn floor(&self, serial: u32, target: i64) -> (r: Option<SeekEntry>)
        requires
            self.wf(),
        ensures
            r == floor_in(list_of(self@, serial), target),
    {
        match self.lists.get(serial) {
            None => {
                assert(!self@.contains_key(serial));
                None
            },
            Some(list) => {
                assert(self@.contains_key(serial));
                let mut lo: usize = 0;
                let mut hi: usize = list.len();
                while lo < hi
                    invariant
                        lo <= hi <= list@.len(),
                        ascending(list@),
                        forall|i: int| 0 <= i < lo ==> (#[trigger] list@[i]).0 <= target,
                        forall|i: int|
                            hi <= i < list@.len() ==> (#[trigger] list@[i]).0 > target,
                    decreases hi - lo,
                {
                    let mid: usize = lo + (hi - lo) / 2;
                    if list[mid].0 <= target {
                        assert forall|i: int| 0 <= i < mid + 1 implies (#[trigger] list@[i]).0
                            <= target by {
                            if i < mid {
                                assert(before(list@[i], list@[mid as int]));
                            }
                        }
                        lo = mid + 1;
                    } else {
                        assert forall|i: int| mid <= i < list@.len() implies (
                        #[trigger] list@[i]).0 > target by {
                            if i > mid {
                                assert(before(list@[mid as int], list@[i]));
                            }
                        }
                        hi = mid;
                    }
                }
                proof {
                    lemma_floor_at(list@, target, lo as int);
                }
                if lo > 0 {
                    Some(list[lo - 1])
                } else {
                    None
                }
            },
        }
    }

    /// Number of pages in the index, cut off at the end of the range.
    pub fn len(&self) -> (n: usize)
        requires
            self.wf(),
        ensures
            n == size_of(self@),
    {
        let ghost all = lists_of(self@);
        let ghost keys = self.lists.keys();
        proof {
            self.lists.lemma_ordered();
            assert forall|k: u32| #[trigger] keys.contains(k) == self@.contains_key(k) by {
                assert(self.lists@.contains_key(k) == self@.contains_key(k));
            }
            serial_map::lemma_ordered_keys(self@, keys);
        }
        let mut total: usize = 0;
        let mut i: usize = 0;
        while i < self.lists.len()
            invariant
                self.wf(),
                keys == self.lists.keys(),
                keys == serial_map::ordered_keys(self@),
                i <= keys.len(),
                all == lists_of(self@),
                total == (if total_len(all.take(i as int)) > usize::MAX {
                    usize::MAX as nat
                } else {
                    total_len(all.take(i as int))
                }),
            decreases keys.len() - i,
        {
            let (k, list) = self.lists.at(i);
            assert(self@.contains_key(k));
            assert(all[i as int] == list@);
            assert(all.take(i + 1).drop_last() =~= all.take(i as int));
            assert(all.take(i + 1).last() == all[i as int]);
            total = total.saturating_add(list.len());
            i += 1;
        }
        assert(all.take(i as int) =~= all);
        total
    }

    /// The last page of the logical bitstream `serial`.
    pub fn last_of(&self, serial: u32) -> (r: Option<SeekEntry>)
        requires
            self.wf(),
        ensures
            r == (if list_of(self@, serial).len() > 0 {
                Some(list_of(self@, serial).last())
            } else {
                None
            }),
    {
        match self.lists.get(serial) {
            None => {
                assert(!self@.contains_key(serial));
                None
            },
            Some(list) => {
                assert(self@.contains_key(serial));
                if list.len() > 0 {
                    Some(list[list.len() - 1])
                } else {
                    None
                }
            },
        }
    }
}

} // verus!
