//! A map held as a vector of entries in key order.
use vstd::prelude::*;

verus! {

/// A key with a total order, given by a number that no other key shares.
pub trait OrderedKey: Copy {
    /// The place of the key in the order.
    spec fn rank(&self) -> nat;

    /// No two keys share a rank.
    proof fn rank_is_injective(a: Self, b: Self)
        requires
            a.rank() == b.rank(),
        ensures
            a == b,
    ;

    /// Whether this key stands before `other`.
    fn precedes(&self, other: &Self) -> (r: bool)
        ensures
            r == (self.rank() < other.rank()),
    ;
}

/// A map whose entries stand in ascending key order, each key once.
#[derive(Debug, PartialEq, Eq)]
pub struct SortedMap<K, V> {
    entries: Vec<(K, V)>,
}

/// Whether the keys of `entries` ascend strictly.
pub open spec fn keys_ascend<K: OrderedKey, V>(entries: Seq<(K, V)>) -> bool {
    forall|i: int, j: int|
        0 <= i < j < entries.len() ==> (#[trigger] entries[i]).0.rank() < (
        #[trigger] entries[j]).0.rank()
}

/// A rule on which entries of a map are kept.
pub trait Rule<K, V> {
    spec fn keeps(&self, key: K, value: V) -> bool;

    fn keep(&self, key: &K, value: &V) -> (r: bool)
        ensures
            r == self.keeps(*key, *value),
    ;
}

/// The entries that the rule keeps.
pub open spec fn ruled<K, V, R: Rule<K, V>>(map: Map<K, V>, rule: R) -> Map<K, V> {
    Map::new(|k: K| map.dom().contains(k) && rule.keeps(k, map[k]), |k: K| map[k])
}

/// Whether some entry has the key `key`.
pub open spec fn has_key<K, V>(entries: Seq<(K, V)>, key: K) -> bool {
    exists|i: int| 0 <= i < entries.len() && (#[trigger] entries[i]).0 == key
}

/// The place of the entry with the key `key`.
pub open spec fn place_of<K, V>(entries: Seq<(K, V)>, key: K) -> int {
    choose|i: int| 0 <= i < entries.len() && (#[trigger] entries[i]).0 == key
}

/// The map that `entries` list.
pub open spec fn map_of<K, V>(entries: Seq<(K, V)>) -> Map<K, V> {
    Map::new(|k: K| has_key(entries, k), |k: K| entries[place_of(entries, k)].1)
}

/// The entry at `i` is what the map holds for its key.
pub proof fn lemma_entry<K: OrderedKey, V>(entries: Seq<(K, V)>, i: int)
    requires
        keys_ascend(entries),
        0 <= i < entries.len(),
    ensures
        place_of(entries, entries[i].0) == i,
        map_of(entries).dom().contains(entries[i].0),
        map_of(entries)[entries[i].0] == entries[i].1,
{
    let k = entries[i].0;
    assert(has_key(entries, k));
    let p = place_of(entries, k);
    assert(0 <= p < entries.len() && entries[p].0 == k);
    if p < i {
        assert(entries[p].0.rank() < entries[i].0.rank());
    }
    if i < p {
        assert(entries[i].0.rank() < entries[p].0.rank());
    }
}

impl<K: OrderedKey, V> View for SortedMap<K, V> {
    type V = Map<K, V>;

    closed spec fn view(&self) -> Map<K, V> {
        map_of(self.entries@)
    }
}

impl<K: OrderedKey, V> SortedMap<K, V> {
    /// The entries in key order.
    pub closed spec fn listed(&self) -> Seq<(K, V)> {
        self.entries@
    }

    /// Every key stands once, in ascending order.
    pub closed spec fn wf(&self) -> bool {
        keys_ascend(self.entries@)
    }

    /// What the entries in key order have to do with the map.
    pub proof fn lemma_listed(&self)
        requires
            self.wf(),
        ensures
            keys_ascend(self.listed()),
            self@ == map_of(self.listed()),
            forall|i: int|
                0 <= i < self.listed().len() ==> self@.dom().contains(
                    (#[trigger] self.listed()[i]).0,
                ) && self@[self.listed()[i].0] == self.listed()[i].1,
            forall|k: K| #[trigger] self@.dom().contains(k) ==> has_key(self.listed(), k),
    {
        assert forall|i: int| 0 <= i < self.listed().len() implies self@.dom().contains(
            (#[trigger] self.listed()[i]).0,
        ) && self@[self.listed()[i].0] == self.listed()[i].1 by {
            lemma_entry(self.entries@, i);
        }
    }

    /// A map lists as many entries as it has keys.
    pub proof fn lemma_length(&self)
        requires
            self.wf(),
        ensures
            self@.dom().finite(),
            self@.dom().len() == self.listed().len(),
    {
        self.lemma_listed();
        let keys = Seq::new(self.listed().len(), |i: int| self.listed()[i].0);
        assert forall|i: int, j: int| 0 <= i < keys.len() && 0 <= j < keys.len() && i != j implies keys[i]
            != keys[j] by {
            if i < j {
                assert(self.listed()[i].0.rank() < self.listed()[j].0.rank());
            } else {
                assert(self.listed()[j].0.rank() < self.listed()[i].0.rank());
            }
        }
        keys.unique_seq_to_set();
        assert(self@.dom() =~= keys.to_set()) by {
            assert forall|k: K| self@.dom().contains(k) == keys.to_set().contains(k) by {
                if self@.dom().contains(k) {
                    assert(has_key(self.listed(), k));
                    let i = choose|i: int| 0 <= i < self.listed().len() && (#[trigger] self.listed()[i]).0 == k;
                    assert(keys[i] == k);
                }
                if keys.contains(k) {
                    let i = choose|i: int| 0 <= i < keys.len() && keys[i] == k;
                    assert(self@.dom().contains(self.listed()[i].0));
                }
            }
        }
        vstd::seq_lib::seq_to_set_is_finite(keys);
    }

    /// A map whose keys all have a rank below a bound has no more entries than that.
    pub proof fn lemma_length_bound(&self, bound: nat)
        requires
            self.wf(),
            forall|k: K| #[trigger] self@.dom().contains(k) ==> k.rank() < bound,
        ensures
            self.listed().len() <= bound,
    {
        self.lemma_listed();
        let n = self.listed().len() as int;
        if n > 0 {
            Self::lemma_ranks_ascend(self.listed(), n - 1);
            assert(self@.dom().contains(self.listed()[n - 1].0));
        }
    }

    proof fn lemma_ranks_ascend(entries: Seq<(K, V)>, i: int)
        requires
            keys_ascend(entries),
            0 <= i < entries.len(),
        ensures
            entries[i].0.rank() >= i,
        decreases i,
    {
        if i > 0 {
            Self::lemma_ranks_ascend(entries, i - 1);
            assert(entries[i - 1].0.rank() < entries[i].0.rank());
        }
    }

    pub fn new() -> (r: Self)
        ensures
            r.wf(),
            r@ == Map::<K, V>::empty(),
            r.listed() == Seq::<(K, V)>::empty(),
    {
        let r = SortedMap { entries: Vec::new() };
        assert(r@ =~= Map::<K, V>::empty());
        r
    }

    pub fn len(&self) -> (r: usize)
        ensures
            r == self.listed().len(),
    {
        self.entries.len()
    }

    /// The first place whose key does not stand before `key`.
    fn lower_bound(&self, key: &K) -> (r: usize)
        requires
            self.wf(),
        ensures
            r <= self.entries@.len(),
            forall|i: int| 0 <= i < r ==> (#[trigger] self.entries@[i]).0.rank() < key.rank(),
            forall|i: int|
                r <= i < self.entries@.len() ==> (#[trigger] self.entries@[i]).0.rank()
                    >= key.rank(),
    {
        let mut low: usize = 0;
        let mut high: usize = self.entries.len();
        while low < high
            invariant
                self.wf(),
                low <= high <= self.entries@.len(),
                forall|i: int| 0 <= i < low ==> (#[trigger] self.entries@[i]).0.rank() < key.rank(),
                forall|i: int|
                    high <= i < self.entries@.len() ==> (#[trigger] self.entries@[i]).0.rank()
                        >= key.rank(),
            decreases high - low,
        {
            let middle: usize = low + (high - low) / 2;
            if self.entries[middle].0.precedes(key) {
                low = middle + 1;
            } else {
                high = middle;
            }
        }
        low
    }

    /// The place of `key`, if the map has it.
    pub fn find(&self, key: &K) -> (r: Option<usize>)
        requires
            self.wf(),
        ensures
            r.is_some() == self@.dom().contains(*key),
            r matches Some(i) ==> i < self.listed().len() && self.listed()[i as int].0 == *key
                && self@[*key] == self.listed()[i as int].1,
    {
        let i: usize = self.lower_bound(key);
        if i < self.entries.len() && !key.precedes(&self.entries[i].0) {
            proof {
                K::rank_is_injective(self.entries@[i as int].0, *key);
                lemma_entry(self.entries@, i as int);
            }
            Some(i)
        } else {
            proof {
                if self@.dom().contains(*key) {
                    let p = place_of(self.entries@, *key);
                    assert(self.entries@[p].0 == *key);
                }
            }
            None
        }
    }

    pub fn contains_key(&self, key: &K) -> (r: bool)
        requires
            self.wf(),
        ensures
            r == self@.dom().contains(*key),
    {
        self.find(key).is_some()
    }

    pub fn get(&self, key: &K) -> (r: Option<&V>)
        requires
            self.wf(),
        ensures
            r.is_some() == self@.dom().contains(*key),
            r matches Some(v) ==> *v == self@[*key],
    {
        match self.find(key) {
            Some(i) => Some(&self.entries[i].1),
            None => None,
        }
    }

    /// The entry at place `i` in key order.
    pub fn entry(&self, i: usize) -> (r: &(K, V))
        requires
            i < self.listed().len(),
        ensures
            *r == self.listed()[i as int],
    {
        &self.entries[i]
    }

    /// Puts `value` under `key`, in place of what stood there.
    pub fn insert(&mut self, key: K, value: V)
        requires
            old(self).wf(),
        ensures
            final(self).wf(),
            final(self)@ == old(self)@.insert(key, value),
    {
        let i: usize = self.lower_bound(&key);
        let ghost before = self.entries@;
        if i < self.entries.len() && !key.precedes(&self.entries[i].0) {
            proof {
                K::rank_is_injective(self.entries@[i as int].0, key);
            }
            self.entries.set(i, (key, value));
            proof {
                let after = self.entries@;
                assert(after =~= before.update(i as int, (key, value)));
                assert forall|x: int, y: int| 0 <= x < y < after.len() implies (
                #[trigger] after[x]).0.rank() < (#[trigger] after[y]).0.rank() by {
                    assert(before[x].0.rank() < before[y].0.rank());
                }
                lemma_same_keys_update(before, i as int, value);
            }
        } else {
            self.entries.insert(i, (key, value));
            proof {
                lemma_insert_at(before, i as int, key, value);
            }
        }
    }

    /// Takes `key` out of the map and returns what stood under it.
    pub fn remove(&mut self, key: &K) -> (r: Option<V>)
        requires
            old(self).wf(),
        ensures
            final(self).wf(),
            final(self)@ == old(self)@.remove(*key),
            r.is_some() == old(self)@.dom().contains(*key),
            r matches Some(v) ==> v == old(self)@[*key],
    {
        let ghost before = self.entries@;
        match self.find(key) {
            Some(i) => {
                let taken = self.entries.remove(i);
                proof {
                    lemma_remove_at(before, i as int);
                }
                Some(taken.1)
            },
            None => {
                assert(self@ =~= self@.remove(*key));
                None
            },
        }
    }

    /// The value at place `i`, for update in place.
    pub fn value_mut(&mut self, i: usize) -> (r: &mut V)
        requires
            old(self).wf(),
            i < old(self).listed().len(),
        ensures
            *r == old(self).listed()[i as int].1,
            final(self).wf(),
            final(self).listed() == old(self).listed().update(
                i as int,
                (old(self).listed()[i as int].0, *final(r)),
            ),
            final(self)@ == old(self)@.insert(old(self).listed()[i as int].0, *final(r)),
    {
        let ghost before = self.entries@;
        let r = &mut self.entries[i].1;
        proof {
            lemma_update_ascends(before, i as int, *final(r));
            lemma_same_keys_update(before, i as int, *final(r));
        }
        r
    }

    /// Adds an entry whose key stands behind all others.
    pub fn push(&mut self, key: K, value: V)
        requires
            old(self).wf(),
            forall|i: int|
                0 <= i < old(self).listed().len() ==> (#[trigger] old(self).listed()[i]).0.rank()
                    < key.rank(),
        ensures
            final(self).wf(),
            final(self).listed() == old(self).listed().push((key, value)),
            final(self)@ == old(self)@.insert(key, value),
    {
        let ghost before = self.entries@;
        proof {
            assert forall|i: int| 0 <= i < before.len() implies (#[trigger] before[i]).0.rank()
                < key.rank() by {
                assert(self.listed()[i] == before[i]);
            }
        }
        self.entries.push((key, value));
        proof {
            assert(self.entries@ =~= before.insert(before.len() as int, (key, value)));
            lemma_insert_at(before, before.len() as int, key, value);
        }
    }

    /// Keeps the entries for which `rule` holds and drops the others.
    pub fn retain<R: Rule<K, V>>(&mut self, rule: &R)
        requires
            old(self).wf(),
        ensures
            final(self).wf(),
            final(self)@ == ruled(old(self)@, *rule),
    {
        let ghost all = self.entries@;
        let ghost mut flags: Seq<bool> = Seq::empty();
        let mut before: Vec<(K, V)> = Vec::new();
        core::mem::swap(&mut before, &mut self.entries);
        for entry in it: before
            invariant
                it.seq() == all,
                flags.len() == it.index(),
                forall|i: int|
                    0 <= i < flags.len() ==> #[trigger] flags[i] == rule.keeps(all[i].0, all[i].1),
                self.entries@ == kept(all.take(it.index() as int), flags),
        {
            let ghost n = flags.len() as int;
            let flag: bool = rule.keep(&entry.0, &entry.1);
            proof {
                let flags0 = flags;
                flags = flags.push(flag);
                assert(flags.take(n) =~= flags0);
                assert(all.take(n + 1).drop_last() =~= all.take(n));
            }
            if flag {
                self.entries.push(entry);
            }
        }
        proof {
            assert(all.take(all.len() as int) =~= all);
            lemma_kept(all, flags);
            lemma_kept_map(all, flags);
            let whole = map_of(all);
            assert forall|k: K| self@.dom().contains(k) implies whole.dom().contains(k) && self@[k] == whole[k]
                && rule.keeps(k, whole[k]) by {
                let p = place_of(all, k);
                assert(flags[p]);
            }
            assert forall|k: K| whole.dom().contains(k) && rule.keeps(k, whole[k]) implies self@.dom().contains(
                k,
            ) by {
                let p = place_of(all, k);
                assert(all[p].0 == k);
                lemma_entry(all, p);
                assert(flags[p] == rule.keeps(all[p].0, all[p].1));
            }
            assert(self@ =~= ruled(whole, *rule));
        }
    }

    /// Moves every entry of `other` into this map, in place of what stood under its key.
    pub fn append(&mut self, other: &mut SortedMap<K, V>)
        requires
            old(self).wf(),
            old(other).wf(),
        ensures
            final(self).wf(),
            final(self)@ == old(self)@.union_prefer_right(old(other)@),
            final(other).wf(),
            final(other)@ == Map::<K, V>::empty(),
    {
        let ghost target = self@.union_prefer_right(other@);
        let mut a: Vec<(K, V)> = Vec::new();
        let mut b: Vec<(K, V)> = Vec::new();
        core::mem::swap(&mut a, &mut self.entries);
        core::mem::swap(&mut b, &mut other.entries);
        let mut out: Vec<(K, V)> = Vec::new();
        while a.len() > 0 || b.len() > 0
            invariant
                keys_ascend(a@),
                keys_ascend(b@),
                keys_ascend(out@.reverse()),
                all_before(a@, out@.reverse()),
                all_before(b@, out@.reverse()),
                target == map_of(a@).union_prefer_right(map_of(b@)).union_prefer_right(
                    map_of(out@.reverse()),
                ),
                other.entries@.len() == 0,
            decreases a@.len() + b@.len(),
        {
            let ghost a0 = a@;
            let ghost b0 = b@;
            let ghost out0 = out@.reverse();
            let take_b: bool = if a.len() == 0 {
                true
            } else if b.len() == 0 {
                false
            } else {
                !b[b.len() - 1].0.precedes(&a[a.len() - 1].0)
            };
            if take_b {
                if a.len() > 0 && !a[a.len() - 1].0.precedes(&b[b.len() - 1].0) {
                    proof {
                        K::rank_is_injective(a0.last().0, b0.last().0);
                        lemma_drop_last(a0);
                    }
                    a.pop();
                    assert(map_of(a@).union_prefer_right(map_of(b0)) =~= map_of(
                        a0,
                    ).union_prefer_right(map_of(b0))) by {
                        lemma_entry(b0, b0.len() - 1);
                    }
                }
                let ghost a1 = a@;
                let entry = b.pop().unwrap();
                out.push(entry);
                proof {
                    assert(out@.reverse() =~= out0.insert(0, entry));
                    lemma_move_last(a1, b0, out0, true);
                }
            } else {
                let entry = a.pop().unwrap();
                out.push(entry);
                proof {
                    assert(out@.reverse() =~= out0.insert(0, entry));
                    lemma_move_last(b0, a0, out0, false);
                }
            }
        }
        let ghost listed = out@.reverse();
        assert(map_of(a@) =~= Map::<K, V>::empty());
        assert(map_of(b@) =~= Map::<K, V>::empty());
        assert(target =~= map_of(listed));
        let mut result: Vec<(K, V)> = Vec::new();
        while out.len() > 0
            invariant
                out@.len() <= listed.len(),
                out@ =~= listed.reverse().take(out@.len() as int),
                result@ =~= listed.take(listed.len() - out@.len()),
            decreases out@.len(),
        {
            let entry = out.pop().unwrap();
            result.push(entry);
        }
        assert(result@ =~= listed);
        self.entries = result;
        assert(other@ =~= Map::<K, V>::empty());
    }

    /// Empties the map.
    pub fn clear(&mut self)
        ensures
            final(self).wf(),
            final(self)@ == Map::<K, V>::empty(),
            final(self).listed() == Seq::<(K, V)>::empty(),
    {
        self.entries.clear();
        assert(self@ =~= Map::<K, V>::empty());
    }
}

/// The entries whose flag is set.
pub open spec fn kept<K, V>(entries: Seq<(K, V)>, flags: Seq<bool>) -> Seq<(K, V)>
    decreases entries.len(),
{
    if entries.len() == 0 {
        Seq::empty()
    } else {
        let before = kept(entries.drop_last(), flags.take(entries.len() - 1));
        if flags[entries.len() - 1] {
            before.push(entries.last())
        } else {
            before
        }
    }
}

/// Whether `entry` is one of the entries whose flag is set.
spec fn flagged<K, V>(entries: Seq<(K, V)>, flags: Seq<bool>, entry: (K, V)) -> bool {
    exists|i: int| 0 <= i < entries.len() && flags[i] && #[trigger] entries[i] == entry
}

proof fn lemma_kept<K: OrderedKey, V>(entries: Seq<(K, V)>, flags: Seq<bool>)
    requires
        keys_ascend(entries),
        flags.len() == entries.len(),
    ensures
        keys_ascend(kept(entries, flags)),
        forall|i: int|
            0 <= i < entries.len() && flags[i] ==> kept(entries, flags).contains(
                #[trigger] entries[i],
            ),
        forall|j: int|
            0 <= j < kept(entries, flags).len() ==> flagged(
                entries,
                flags,
                #[trigger] kept(entries, flags)[j],
            ),
    decreases entries.len(),
{
    if entries.len() > 0 {
        let shorter = entries.drop_last();
        let fewer = flags.take(entries.len() - 1);
        let n = entries.len() - 1;
        lemma_kept(shorter, fewer);
        let before = kept(shorter, fewer);
        let after = kept(entries, flags);
        assert forall|x: int, y: int| 0 <= x < y < after.len() implies (
        #[trigger] after[x]).0.rank() < (#[trigger] after[y]).0.rank() by {
            if y == before.len() {
                assert(flagged(shorter, fewer, before[x]));
                let i = choose|i: int|
                    0 <= i < shorter.len() && fewer[i] && #[trigger] shorter[i] == before[x];
                assert(entries[i].0.rank() < entries[n].0.rank());
            } else {
                assert(before[x].0.rank() < before[y].0.rank());
            }
        }
        assert forall|i: int| 0 <= i < entries.len() && flags[i] implies after.contains(
            #[trigger] entries[i],
        ) by {
            if i == n {
                assert(after[before.len() as int] == entries[n]);
            } else {
                assert(before.contains(shorter[i]));
                let j = choose|j: int| 0 <= j < before.len() && before[j] == shorter[i];
                assert(after[j] == entries[i]);
            }
        }
        assert forall|j: int| 0 <= j < after.len() implies flagged(
            entries,
            flags,
            #[trigger] after[j],
        ) by {
            if j == before.len() {
                assert(entries[n] == after[j] && flags[n]);
            } else {
                assert(flagged(shorter, fewer, before[j]));
                let i = choose|i: int|
                    0 <= i < shorter.len() && fewer[i] && #[trigger] shorter[i] == before[j];
                assert(entries[i] == after[j] && flags[i]);
            }
        }
    }
}

proof fn lemma_kept_map<K: OrderedKey, V>(entries: Seq<(K, V)>, flags: Seq<bool>)
    requires
        keys_ascend(entries),
        flags.len() == entries.len(),
    ensures
        forall|k: K| #[trigger]
            map_of(kept(entries, flags)).dom().contains(k) ==> map_of(entries).dom().contains(k)
                && map_of(kept(entries, flags))[k] == map_of(entries)[k] && flags[place_of(
                entries,
                k,
            )] && 0 <= place_of(entries, k) < entries.len() && entries[place_of(entries, k)] == (
                k,
                map_of(entries)[k],
            ),
        forall|i: int|
            0 <= i < entries.len() && flags[i] ==> map_of(kept(entries, flags)).dom().contains(
                (#[trigger] entries[i]).0,
            ),
{
    lemma_kept(entries, flags);
    let after = kept(entries, flags);
    assert forall|k: K| #[trigger] map_of(after).dom().contains(k) implies map_of(
        entries,
    ).dom().contains(k) && map_of(after)[k] == map_of(entries)[k] && flags[place_of(entries, k)]
        && 0 <= place_of(entries, k) < entries.len() && entries[place_of(entries, k)] == (
        k,
        map_of(entries)[k],
    ) by {
        let j = place_of(after, k);
        assert(after[j].0 == k);
        assert(flagged(entries, flags, after[j]));
        let i = choose|i: int|
            0 <= i < entries.len() && flags[i] && #[trigger] entries[i] == after[j];
        lemma_entry(entries, i);
        lemma_entry(after, j);
    }
    assert forall|i: int| 0 <= i < entries.len() && flags[i] implies map_of(
        after,
    ).dom().contains((#[trigger] entries[i]).0) by {
        assert(after.contains(entries[i]));
        let j = choose|j: int| 0 <= j < after.len() && after[j] == entries[i];
        lemma_entry(after, j);
    }
}

/// Whether every key of `a` stands before every key of `b`.
spec fn all_before<K: OrderedKey, V>(a: Seq<(K, V)>, b: Seq<(K, V)>) -> bool {
    forall|i: int, j: int|
        0 <= i < a.len() && 0 <= j < b.len() ==> (#[trigger] a[i]).0.rank() < (
        #[trigger] b[j]).0.rank()
}

proof fn lemma_drop_last<K: OrderedKey, V>(entries: Seq<(K, V)>)
    requires
        keys_ascend(entries),
        entries.len() > 0,
    ensures
        keys_ascend(entries.drop_last()),
        map_of(entries.drop_last()) == map_of(entries).remove(entries.last().0),
{
    assert(entries.drop_last() =~= entries.remove(entries.len() - 1));
    lemma_remove_at(entries, entries.len() - 1);
}

/// The last entry of `from`, whose key stands behind those of `others`, moves to the front of `out`.
proof fn lemma_move_last<K: OrderedKey, V>(
    others: Seq<(K, V)>,
    from: Seq<(K, V)>,
    out: Seq<(K, V)>,
    from_is_right: bool,
)
    requires
        keys_ascend(others),
        keys_ascend(from),
        keys_ascend(out),
        from.len() > 0,
        all_before(others, out),
        all_before(from, out),
        others.len() > 0 ==> others.last().0.rank() < from.last().0.rank(),
    ensures
        keys_ascend(from.drop_last()),
        keys_ascend(out.insert(0, from.last())),
        all_before(others, out.insert(0, from.last())),
        all_before(from.drop_last(), out.insert(0, from.last())),
        from_is_right ==> map_of(others).union_prefer_right(map_of(from)).union_prefer_right(
            map_of(out),
        ) == map_of(others).union_prefer_right(map_of(from.drop_last())).union_prefer_right(
            map_of(out.insert(0, from.last())),
        ),
        !from_is_right ==> map_of(from).union_prefer_right(map_of(others)).union_prefer_right(
            map_of(out),
        ) == map_of(from.drop_last()).union_prefer_right(map_of(others)).union_prefer_right(
            map_of(out.insert(0, from.last())),
        ),
{
    let entry = from.last();
    let n = from.len() - 1;
    assert(entry == from[n]);
    lemma_drop_last(from);
    lemma_insert_at(out, 0, entry.0, entry.1);
    let grown = out.insert(0, entry);
    let shorter = from.drop_last();
    assert forall|i: int, j: int| 0 <= i < others.len() && 0 <= j < grown.len() implies (
    #[trigger] others[i]).0.rank() < (#[trigger] grown[j]).0.rank() by {
        if j == 0 {
            if i < others.len() - 1 {
                assert(others[i].0.rank() < others[others.len() - 1].0.rank());
            }
        } else {
            assert(others[i].0.rank() < out[j - 1].0.rank());
        }
    }
    assert forall|i: int, j: int| 0 <= i < shorter.len() && 0 <= j < grown.len() implies (
    #[trigger] shorter[i]).0.rank() < (#[trigger] grown[j]).0.rank() by {
        if j == 0 {
            assert(from[i].0.rank() < from[n].0.rank());
        } else {
            assert(from[i].0.rank() < out[j - 1].0.rank());
        }
    }
    lemma_entry(from, n);
    assert(!has_key(others, entry.0)) by {
        if has_key(others, entry.0) {
            let p = place_of(others, entry.0);
            assert(others[p].0 == entry.0);
            if p < others.len() - 1 {
                assert(others[p].0.rank() < others[others.len() - 1].0.rank());
            }
        }
    }
    if from_is_right {
        assert(map_of(others).union_prefer_right(map_of(from)).union_prefer_right(map_of(out))
            =~= map_of(others).union_prefer_right(map_of(shorter)).union_prefer_right(
            map_of(grown),
        ));
    } else {
        assert(map_of(from).union_prefer_right(map_of(others)).union_prefer_right(map_of(out))
            =~= map_of(shorter).union_prefer_right(map_of(others)).union_prefer_right(
            map_of(grown),
        ));
    }
}

proof fn lemma_update_ascends<K: OrderedKey, V>(entries: Seq<(K, V)>, at: int, value: V)
    requires
        keys_ascend(entries),
        0 <= at < entries.len(),
    ensures
        keys_ascend(entries.update(at, (entries[at].0, value))),
{
    let after = entries.update(at, (entries[at].0, value));
    assert forall|x: int, y: int| 0 <= x < y < after.len() implies (#[trigger] after[x]).0.rank()
        < (#[trigger] after[y]).0.rank() by {
        assert(entries[x].0.rank() < entries[y].0.rank());
    }
}

proof fn lemma_same_keys_update<K: OrderedKey, V>(entries: Seq<(K, V)>, at: int, value: V)
    requires
        keys_ascend(entries),
        0 <= at < entries.len(),
        keys_ascend(entries.update(at, (entries[at].0, value))),
    ensures
        map_of(entries.update(at, (entries[at].0, value))) == map_of(entries).insert(
            entries[at].0,
            value,
        ),
{
    let key = entries[at].0;
    let after = entries.update(at, (key, value));
    let left = map_of(after);
    let right = map_of(entries).insert(key, value);
    assert forall|k: K| left.dom().contains(k) <==> right.dom().contains(k) by {
        if has_key(after, k) {
            let p = place_of(after, k);
            assert(entries[p].0 == k);
        }
        if has_key(entries, k) {
            let p = place_of(entries, k);
            assert(after[p].0 == k);
        }
        if k == key {
            assert(after[at].0 == k);
        }
    }
    assert forall|k: K| left.dom().contains(k) implies left[k] == right[k] by {
        let p = place_of(after, k);
        assert(after[p].0 == k);
        lemma_entry(after, p);
        lemma_entry(entries, p);
        lemma_entry(after, at);
        assert(entries[p].0 == k);
    }
    assert(left =~= right);
}

proof fn lemma_insert_at<K: OrderedKey, V>(entries: Seq<(K, V)>, at: int, key: K, value: V)
    requires
        keys_ascend(entries),
        0 <= at <= entries.len(),
        forall|i: int| 0 <= i < at ==> (#[trigger] entries[i]).0.rank() < key.rank(),
        forall|i: int| at <= i < entries.len() ==> (#[trigger] entries[i]).0.rank() > key.rank(),
    ensures
        keys_ascend(entries.insert(at, (key, value))),
        map_of(entries.insert(at, (key, value))) == map_of(entries).insert(key, value),
{
    let after = entries.insert(at, (key, value));
    assert forall|x: int, y: int| 0 <= x < y < after.len() implies (#[trigger] after[x]).0.rank()
        < (#[trigger] after[y]).0.rank() by {
        if x < at && y < at {
            assert(entries[x].0.rank() < entries[y].0.rank());
        } else if x < at && y > at {
            assert(entries[x].0.rank() < entries[y - 1].0.rank());
        } else if x > at {
            assert(entries[x - 1].0.rank() < entries[y - 1].0.rank());
        }
    }
    let left = map_of(after);
    let right = map_of(entries).insert(key, value);
    assert forall|k: K| left.dom().contains(k) <==> right.dom().contains(k) by {
        if has_key(after, k) {
            let p = place_of(after, k);
            if p < at {
                assert(entries[p].0 == k);
            } else if p > at {
                assert(entries[p - 1].0 == k);
            }
        }
        if has_key(entries, k) {
            let p = place_of(entries, k);
            if p < at {
                assert(after[p].0 == k);
            } else {
                assert(after[p + 1].0 == k);
            }
        }
        if k == key {
            assert(after[at].0 == k);
        }
    }
    assert forall|k: K| left.dom().contains(k) implies left[k] == right[k] by {
        let p = place_of(after, k);
        assert(after[p].0 == k);
        lemma_entry(after, p);
        if p < at {
            lemma_entry(entries, p);
        } else if p > at {
            lemma_entry(entries, p - 1);
        }
    }
    assert(left =~= right);
}

proof fn lemma_remove_at<K: OrderedKey, V>(entries: Seq<(K, V)>, at: int)
    requires
        keys_ascend(entries),
        0 <= at < entries.len(),
    ensures
        keys_ascend(entries.remove(at)),
        map_of(entries.remove(at)) == map_of(entries).remove(entries[at].0),
{
    let after = entries.remove(at);
    let key = entries[at].0;
    assert forall|x: int, y: int| 0 <= x < y < after.len() implies (#[trigger] after[x]).0.rank()
        < (#[trigger] after[y]).0.rank() by {
        let from_x = if x < at { x } else { x + 1 };
        let from_y = if y < at { y } else { y + 1 };
        assert(entries[from_x].0.rank() < entries[from_y].0.rank());
    }
    let left = map_of(after);
    let right = map_of(entries).remove(key);
    assert forall|k: K| left.dom().contains(k) <==> right.dom().contains(k) by {
        if has_key(after, k) {
            let p = place_of(after, k);
            let from = if p < at { p } else { p + 1 };
            assert(entries[from].0 == k);
            lemma_entry(entries, from);
            lemma_entry(entries, at);
        }
        if has_key(entries, k) && k != key {
            let p = place_of(entries, k);
            let to = if p < at { p } else { p - 1 };
            assert(after[to].0 == k);
        }
    }
    assert forall|k: K| left.dom().contains(k) implies left[k] == right[k] by {
        let p = place_of(after, k);
        assert(after[p].0 == k);
        lemma_entry(after, p);
        let from = if p < at { p } else { p + 1 };
        lemma_entry(entries, from);
    }
    assert(left =~= right);
}

} // verus!
