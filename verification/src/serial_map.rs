//! A map keyed by stream serial numbers, walked in ascending serial order.
use vstd::prelude::*;

verus! {

/// A map from serial numbers to values.
pub struct SerialMap<V> {
    entries: Vec<(u32, V)>,
}

/// Whether the keys of `entries` ascend.
pub open spec fn ascending<V>(entries: Seq<(u32, V)>) -> bool {
    forall|i: int, j: int| 0 <= i < j < entries.len() ==> entries[i].0 < entries[j].0
}

/// The index of `key` in `entries`, where it has one.
pub open spec fn has_key<V>(entries: Seq<(u32, V)>, key: u32) -> bool {
    exists|i: int| 0 <= i < entries.len() && (#[trigger] entries[i]).0 == key
}

pub open spec fn index_of_key<V>(entries: Seq<(u32, V)>, key: u32) -> int {
    choose|i: int| 0 <= i < entries.len() && (#[trigger] entries[i]).0 == key
}

/// The map that a list of entries stands for.
pub open spec fn as_map<V>(entries: Seq<(u32, V)>) -> Map<u32, V> {
    Map::new(|k: u32| has_key(entries, k), |k: u32| entries[index_of_key(entries, k)].1)
}

impl<V> View for SerialMap<V> {
    type V = Map<u32, V>;

    closed spec fn view(&self) -> Map<u32, V> {
        as_map(self.entries@)
    }
}

proof fn lemma_entry<V>(entries: Seq<(u32, V)>, i: int)
    requires
        ascending(entries),
        0 <= i < entries.len(),
    ensures
        as_map(entries).contains_key(entries[i].0),
        as_map(entries)[entries[i].0] == entries[i].1,
{
    let k = entries[i].0;
    assert(has_key(entries, k));
    let j = index_of_key(entries, k);
    assert(0 <= j < entries.len() && entries[j].0 == k);
    assert(i == j);
}

impl<V> SerialMap<V> {
    /// The entries are kept in ascending order of their serials.
    pub closed spec fn wf(&self) -> bool {
        ascending(self.entries@)
    }

    /// The serials in the map, in ascending order.
    pub closed spec fn keys(&self) -> Seq<u32> {
        self.entries@.map_values(|e: (u32, V)| e.0)
    }

    /// The keys are those of the map, each once, in ascending order.
    pub proof fn lemma_keys(&self)
        requires
            self.wf(),
        ensures
            forall|i: int, j: int| 0 <= i < j < self.keys().len() ==> self.keys()[i] < self.keys()[j],
            forall|i: int|
                0 <= i < self.keys().len() ==> self@.contains_key(#[trigger] self.keys()[i]),
            forall|k: u32| #[trigger] self@.contains_key(k) ==> self.keys().contains(k),
            self@.dom() == self.keys().to_set(),
            self@.dom().finite(),
            self@.len() == self.keys().len(),
    {
        assert forall|i: int| 0 <= i < self.keys().len() implies self@.contains_key(
            #[trigger] self.keys()[i],
        ) by {
            lemma_entry(self.entries@, i);
        }
        assert forall|k: u32| #[trigger] self@.contains_key(k) implies self.keys().contains(k) by {
            let i = index_of_key(self.entries@, k);
            assert(has_key(self.entries@, k));
            assert(self.keys()[i] == k);
        }
        assert(self@.dom() =~= self.keys().to_set());
        assert(self.keys().no_duplicates());
        self.keys().unique_seq_to_set();
    }

    /// An empty map.
    pub fn new() -> (m: Self)
        ensures
            m.wf(),
            m@ == Map::<u32, V>::empty(),
    {
        let m = SerialMap { entries: Vec::new() };
        assert(m@ =~= Map::<u32, V>::empty());
        m
    }

    /// Number of entries.
    pub fn len(&self) -> (n: usize)
        ensures
            n == self.keys().len(),
    {
        self.entries.len()
    }

    /// The entry at position `i` of the ascending order.
    pub fn at(&self, i: usize) -> (r: (u32, &V))
        requires
            self.wf(),
            i < self.keys().len(),
        ensures
            r.0 == self.keys()[i as int],
            self@.contains_key(r.0),
            *r.1 == self@[r.0],
    {
        proof {
            lemma_entry(self.entries@, i as int);
        }
        (self.entries[i].0, &self.entries[i].1)
    }

    /// Where `key` stands, or where it would have to be put in.
    fn position(&self, key: u32) -> (r: Result<usize, usize>)
        requires
            self.wf(),
        ensures
            match r {
                Ok(i) => i < self.entries@.len() && self.entries@[i as int].0 == key,
                Err(i) => {
                    &&& i <= self.entries@.len()
                    &&& forall|k: int| 0 <= k < i ==> (#[trigger] self.entries@[k]).0 < key
                    &&& forall|k: int|
                        i <= k < self.entries@.len() ==> (#[trigger] self.entries@[k]).0 > key
                },
            },
    {
        let mut lo: usize = 0;
        let mut hi: usize = self.entries.len();
        while lo < hi
            invariant
                self.wf(),
                lo <= hi <= self.entries@.len(),
                forall|k: int| 0 <= k < lo ==> (#[trigger] self.entries@[k]).0 < key,
                forall|k: int| hi <= k < self.entries@.len() ==> (#[trigger] self.entries@[k]).0 > key,
            decreases hi - lo,
        {
            let mid: usize = lo + (hi - lo) / 2;
            let here: u32 = self.entries[mid].0;
            if here == key {
                return Ok(mid);
            } else if here < key {
                lo = mid + 1;
            } else {
                hi = mid;
            }
        }
        Err(lo)
    }

    /// Whether `key` is in the map.
    pub fn contains(&self, key: u32) -> (r: bool)
        requires
            self.wf(),
        ensures
            r == self@.contains_key(key),
    {
        match self.position(key) {
            Ok(i) => {
                proof {
                    lemma_entry(self.entries@, i as int);
                }
                true
            },
            Err(_) => false,
        }
    }

    /// The value of `key`.
    pub fn get(&self, key: u32) -> (r: Option<&V>)
        requires
            self.wf(),
        ensures
            match r {
                Some(v) => self@.contains_key(key) && *v == self@[key],
                None => !self@.contains_key(key),
            },
    {
        match self.position(key) {
            Ok(i) => {
                proof {
                    lemma_entry(self.entries@, i as int);
                }
                Some(&self.entries[i].1)
            },
            Err(_) => None,
        }
    }

    /// Puts `value` in under `key`, in place of what stood there.
    pub fn insert(&mut self, key: u32, value: V)
        requires
            old(self).wf(),
        ensures
            final(self).wf(),
            final(self)@ == old(self)@.insert(key, value),
    {
        let ghost before = self.entries@;
        match self.position(key) {
            Ok(i) => {
                self.entries.set(i, (key, value));
                proof {
                    let after = self.entries@;
                    assert(after =~= before.update(i as int, (key, value)));
                    lemma_insert(before, after, key, value, i as int);
                }
            },
            Err(i) => {
                self.entries.insert(i, (key, value));
                proof {
                    let after = self.entries@;
                    assert(after =~= before.insert(i as int, (key, value)));
                    lemma_insert(before, after, key, value, i as int);
                }
            },
        }
    }

    /// Takes the entry of `key` out of the map.
    pub fn remove(&mut self, key: u32) -> (r: Option<V>)
        requires
            old(self).wf(),
        ensures
            final(self).wf(),
            final(self)@ == old(self)@.remove(key),
            match r {
                Some(v) => old(self)@.contains_key(key) && v == old(self)@[key],
                None => !old(self)@.contains_key(key),
            },
    {
        let ghost before = self.entries@;
        match self.position(key) {
            Ok(i) => {
                let e = self.entries.remove(i);
                proof {
                    let after = self.entries@;
                    lemma_entry(before, i as int);
                    assert(after =~= before.remove(i as int));
                    assert forall|k: u32| #[trigger]
                        as_map(after).contains_key(k) == as_map(before).remove(
                            key,
                        ).contains_key(k) by {
                        if as_map(after).contains_key(k) {
                            let j = index_of_key(after, k);
                            if j < i {
                                lemma_entry(before, j);
                            } else {
                                lemma_entry(before, j + 1);
                            }
                        }
                        if as_map(before).remove(key).contains_key(k) {
                            let j = index_of_key(before, k);
                            if j < i {
                                assert(after[j].0 == k);
                            } else {
                                assert(after[j - 1].0 == k);
                            }
                        }
                    }
                    assert forall|k: u32| #[trigger] as_map(after).contains_key(k) implies as_map(
                        after,
                    )[k] == as_map(before).remove(key)[k] by {
                        let j = index_of_key(after, k);
                        if j < i {
                            lemma_entry(before, j);
                        } else {
                            lemma_entry(before, j + 1);
                        }
                    }
                    assert(self@ =~= as_map(before).remove(key));
                }
                Some(e.1)
            },
            Err(_) => {
                proof {
                    assert(self@ =~= self@.remove(key));
                }
                None
            },
        }
    }

    /// Empties the map.
    pub fn clear(&mut self)
        ensures
            final(self).wf(),
            final(self)@ == Map::<u32, V>::empty(),
    {
        self.entries.clear();
        assert(self@ =~= Map::<u32, V>::empty());
    }
}

/// A list with one entry put in or replaced stands for the map with that entry.
proof fn lemma_insert<V>(
    before: Seq<(u32, V)>,
    after: Seq<(u32, V)>,
    key: u32,
    value: V,
    i: int,
)
    requires
        ascending(before),
        ascending(after),
        ({
            ||| 0 <= i < before.len() && before[i].0 == key && after == before.update(
                i,
                (key, value),
            )
            ||| 0 <= i <= before.len() && after == before.insert(i, (key, value))
        }),
    ensures
        as_map(after) == as_map(before).insert(key, value),
{
    lemma_entry(after, i);
    assert forall|k: u32| #[trigger]
        as_map(after).contains_key(k) == as_map(before).insert(key, value).contains_key(k) by {
        if as_map(after).contains_key(k) && k != key {
            let j = index_of_key(after, k);
            if after.len() == before.len() || j < i {
                lemma_entry(before, j);
            } else {
                lemma_entry(before, j - 1);
            }
        }
        if as_map(before).contains_key(k) && k != key {
            let j = index_of_key(before, k);
            if after.len() == before.len() || j < i {
                lemma_entry(after, j);
            } else {
                lemma_entry(after, j + 1);
            }
        }
    }
    assert forall|k: u32| #[trigger] as_map(after).contains_key(k) implies as_map(after)[k]
        == as_map(before).insert(key, value)[k] by {
        if k != key {
            let j = index_of_key(after, k);
            if after.len() == before.len() || j < i {
                lemma_entry(before, j);
            } else {
                lemma_entry(before, j - 1);
            }
        }
    }
    assert(as_map(after) =~= as_map(before).insert(key, value));
}

/// Whether keys ascend.
pub open spec fn keys_ascend(keys: Seq<u32>) -> bool {
    forall|i: int, j: int| 0 <= i < j < keys.len() ==> #[trigger] keys[i] < #[trigger] keys[j]
}

/// The keys of a map in ascending order.
pub open spec fn ordered_keys<V>(m: Map<u32, V>) -> Seq<u32> {
    choose|keys: Seq<u32>|
        keys_ascend(keys) && forall|k: u32| #[trigger] keys.contains(k) == m.contains_key(k)
}

/// Ascending keys are fixed by which keys they are.
proof fn lemma_same_keys(a: Seq<u32>, b: Seq<u32>)
    requires
        keys_ascend(a),
        keys_ascend(b),
        forall|k: u32| #[trigger] a.contains(k) == b.contains(k),
    ensures
        a == b,
    decreases a.len(),
{
    if a.len() == 0 {
        if b.len() > 0 {
            assert(b.contains(b[0]));
            assert(a.contains(b[0]));
        }
        assert(a =~= b);
    } else {
        assert(a.contains(a.last()));
        assert(b.contains(a.last()));
        assert(b.contains(b.last()));
        assert(a.contains(b.last()));
        let i = choose|i: int| 0 <= i < b.len() && b[i] == a.last();
        let j = choose|j: int| 0 <= j < a.len() && a[j] == b.last();
        if i < b.len() - 1 {
            assert(b[i] < b[b.len() - 1]);
        }
        if j < a.len() - 1 {
            assert(a[j] < a[a.len() - 1]);
        }
        assert(a.last() == b.last());
        let p = a.drop_last();
        let q = b.drop_last();
        assert forall|k: u32| #[trigger] p.contains(k) == q.contains(k) by {
            if p.contains(k) {
                let x = choose|x: int| 0 <= x < p.len() && p[x] == k;
                assert(a[x] == k);
                assert(a[x] < a[a.len() - 1]);
                assert(a.contains(k));
                let y = choose|y: int| 0 <= y < b.len() && b[y] == k;
                assert(q[y] == k);
            }
            if q.contains(k) {
                let x = choose|x: int| 0 <= x < q.len() && q[x] == k;
                assert(b[x] == k);
                assert(b[x] < b[b.len() - 1]);
                assert(b.contains(k));
                assert(a.contains(k) == b.contains(k));
                let y = choose|y: int| 0 <= y < a.len() && a[y] == k;
                assert(p[y] == k);
            }
        }
        lemma_same_keys(p, q);
        assert(a =~= p.push(a.last()));
        assert(b =~= q.push(b.last()));
    }
}

/// Ascending keys that are those of a map are its keys in ascending order.
pub proof fn lemma_ordered_keys<V>(m: Map<u32, V>, keys: Seq<u32>)
    requires
        keys_ascend(keys),
        forall|k: u32| #[trigger] keys.contains(k) == m.contains_key(k),
    ensures
        ordered_keys(m) == keys,
{
    assert(exists|s: Seq<u32>|
        keys_ascend(s) && forall|k: u32| #[trigger] s.contains(k) == m.contains_key(k));
    lemma_same_keys(keys, ordered_keys(m));
}

impl<V> SerialMap<V> {
    /// The keys are those of the map in ascending order.
    pub proof fn lemma_ordered(&self)
        requires
            self.wf(),
        ensures
            self.keys() == ordered_keys(self@),
            keys_ascend(self.keys()),
            forall|k: u32| #[trigger] self.keys().contains(k) == self@.contains_key(k),
    {
        self.lemma_keys();
        let keys = self.keys();
        assert forall|k: u32| #[trigger] keys.contains(k) == self@.contains_key(k) by {
            if keys.contains(k) {
                let i = choose|i: int| 0 <= i < keys.len() && keys[i] == k;
                assert(self@.contains_key(keys[i]));
            }
        }
        lemma_ordered_keys(self@, keys);
    }

    /// Puts a value in the place of the one at position `i` of the ascending
    /// order.
    pub fn replace_at(&mut self, i: usize, value: V) -> (r: V)
        requires
            old(self).wf(),
            i < old(self).keys().len(),
        ensures
            final(self).wf(),
            final(self).keys() == old(self).keys(),
            r == old(self)@[old(self).keys()[i as int]],
            final(self)@ == old(self)@.insert(old(self).keys()[i as int], value),
    {
        let ghost before = self.entries@;
        let ghost key = before[i as int].0;
        let ghost given = value;
        let mut value = value;
        proof {
            lemma_entry(before, i as int);
        }
        std::mem::swap(&mut value, &mut self.entries[i].1);
        proof {
            let after = self.entries@;
            assert(after =~= before.update(i as int, (key, given)));
            assert(self.keys() =~= old(self).keys());
            lemma_insert(before, after, key, given, i as int);
        }
        value
    }
}

} // verus!
