//! A map from target identifiers to values, kept as a list sorted by target.

use vstd::prelude::*;

verus! {

/// The targets of the entries are strictly increasing.
pub open spec fn sorted_by_target<V>(entries: Seq<(usize, V)>) -> bool {
    forall|i: int, j: int| 0 <= i < j < entries.len() ==> entries[i].0 < entries[j].0
}

/// Some entry is for `target`.
pub open spec fn has_target<V>(entries: Seq<(usize, V)>, target: usize) -> bool {
    exists|i: int| 0 <= i < entries.len() && entries[i].0 == target
}

/// The position of the entry for `target`, where there is one.
pub open spec fn slot_of<V>(entries: Seq<(usize, V)>, target: usize) -> int {
    choose|i: int| 0 <= i < entries.len() && entries[i].0 == target
}

/// The map that a list of entries stands for.
pub open spec fn map_of<V>(entries: Seq<(usize, V)>) -> Map<usize, V> {
    Map::new(
        |target: usize| has_target(entries, target),
        |target: usize| entries[slot_of(entries, target)].1,
    )
}

/// `at` is where an entry for `target` belongs in a sorted list: every entry before
/// it has a smaller target, every entry from it on a greater one.
pub open spec fn is_gap<V>(entries: Seq<(usize, V)>, target: usize, at: int) -> bool {
    &&& 0 <= at <= entries.len()
    &&& forall|i: int| 0 <= i < at ==> (#[trigger] entries[i]).0 < target
    &&& forall|i: int| at <= i < entries.len() ==> (#[trigger] entries[i]).0 > target
}

/// In a sorted list the entry at position `i` is the one that `map_of` finds for
/// its target.
pub proof fn lemma_slot<V>(entries: Seq<(usize, V)>, i: int)
    requires
        sorted_by_target(entries),
        0 <= i < entries.len(),
    ensures
        has_target(entries, entries[i].0),
        slot_of(entries, entries[i].0) == i,
        map_of(entries).contains_key(entries[i].0),
        map_of(entries)[entries[i].0] == entries[i].1,
{
    let j = slot_of(entries, entries[i].0);
    if j < i {
        assert(entries[j].0 < entries[i].0);
    } else if i < j {
        assert(entries[i].0 < entries[j].0);
    }
}

/// Putting a new target into its gap keeps the list sorted and inserts the pair
/// into the map.
pub proof fn lemma_insert<V>(entries: Seq<(usize, V)>, at: int, target: usize, value: V)
    requires
        sorted_by_target(entries),
        is_gap(entries, target, at),
    ensures
        sorted_by_target(entries.insert(at, (target, value))),
        map_of(entries.insert(at, (target, value))) == map_of(entries).insert(target, value),
        !map_of(entries).contains_key(target),
{
    let after = entries.insert(at, (target, value));
    assert forall|i: int, j: int| 0 <= i < j < after.len() implies after[i].0 < after[j].0 by {
        let a = if i < at { i } else { i - 1 };
        let b = if j < at { j } else { j - 1 };
        if i != at && j != at {
            assert(after[i] == entries[a]);
            assert(after[j] == entries[b]);
        } else if i == at {
            assert(after[j] == entries[b]);
        } else {
            assert(after[i] == entries[a]);
        }
    }
    assert(after[at] == (target, value));
    lemma_slot(after, at);
    assert forall|k: usize| #[trigger] has_target(after, k) <==> (has_target(entries, k) || k == target) by {
        if has_target(entries, k) {
            let i = slot_of(entries, k);
            let moved = if i < at { i } else { i + 1 };
            assert(after[moved] == entries[i]);
        }
        if has_target(after, k) && k != target {
            let i = slot_of(after, k);
            let from = if i < at { i } else { i - 1 };
            assert(after[i] == entries[from]);
        }
    }
    assert forall|k: usize| has_target(entries, k) implies #[trigger] map_of(after)[k] == map_of(entries)[k] by {
        let i = slot_of(entries, k);
        let moved = if i < at { i } else { i + 1 };
        assert(after[moved] == entries[i]);
        lemma_slot(after, moved);
    }
    assert(map_of(after) =~= map_of(entries).insert(target, value));
}

/// Putting another value at position `i` keeps the targets and replaces the value
/// in the map.
pub proof fn lemma_update<V>(entries: Seq<(usize, V)>, i: int, value: V)
    requires
        sorted_by_target(entries),
        0 <= i < entries.len(),
    ensures
        sorted_by_target(entries.update(i, (entries[i].0, value))),
        map_of(entries.update(i, (entries[i].0, value))) == map_of(entries).insert(
            entries[i].0,
            value,
        ),
{
    let after = entries.update(i, (entries[i].0, value));
    assert forall|a: int, b: int| 0 <= a < b < after.len() implies after[a].0 < after[b].0 by {
        assert(after[a].0 == entries[a].0);
        assert(after[b].0 == entries[b].0);
    }
    assert forall|k: usize| #[trigger] has_target(after, k) <==> has_target(entries, k) by {
        if has_target(entries, k) {
            let s = slot_of(entries, k);
            assert(after[s].0 == k);
        }
        if has_target(after, k) {
            let s = slot_of(after, k);
            assert(entries[s].0 == k);
        }
    }
    lemma_slot(entries, i);
    assert forall|k: usize| has_target(after, k) implies #[trigger] map_of(after)[k] == map_of(
        entries,
    ).insert(entries[i].0, value)[k] by {
        let s = slot_of(entries, k);
        lemma_slot(entries, s);
        lemma_slot(after, s);
    }
    assert(map_of(after) =~= map_of(entries).insert(entries[i].0, value));
}

/// A map from target identifiers to values of type `V`, held as a list of pairs
/// with strictly increasing targets.
pub struct TargetMap<V> {
    entries: Vec<(usize, V)>,
}

impl<V> TargetMap<V> {
    #[verifier::type_invariant]
    spec fn well_formed(self) -> bool {
        sorted_by_target(self.entries@)
    }

    /// The pairs of the map, by increasing target.
    pub closed spec fn entries(&self) -> Seq<(usize, V)> {
        self.entries@
    }

    /// The map itself.
    pub open spec fn view(&self) -> Map<usize, V> {
        map_of(self.entries())
    }

    /// The empty map.
    pub fn new() -> (m: Self)
        ensures
            m.entries() == Seq::<(usize, V)>::empty(),
            m@ == Map::<usize, V>::empty(),
    {
        let m = TargetMap { entries: Vec::new() };
        assert(m@ =~= Map::<usize, V>::empty());
        m
    }

    /// The number of targets in the map.
    pub fn len(&self) -> (n: usize)
        ensures
            n == self.entries().len(),
            sorted_by_target(self.entries()),
    {
        proof {
            use_type_invariant(self);
        }
        self.entries.len()
    }

    /// The target of the entry at position `i`.
    pub fn target(&self, i: usize) -> (t: usize)
        requires
            i < self.entries().len(),
        ensures
            t == self.entries()[i as int].0,
            self@.contains_key(t),
    {
        proof {
            use_type_invariant(self);
            lemma_slot(self.entries@, i as int);
        }
        self.entries[i].0
    }

    /// The value of the entry at position `i`.
    pub fn value(&self, i: usize) -> (v: &V)
        requires
            i < self.entries().len(),
        ensures
            *v == self.entries()[i as int].1,
            *v == self@[self.entries()[i as int].0],
    {
        proof {
            use_type_invariant(self);
            lemma_slot(self.entries@, i as int);
        }
        &self.entries[i].1
    }

    /// Looks a target up: `Ok` with the position of its entry, or `Err` with the
    /// gap where an entry for it belongs.
    pub fn find(&self, target: usize) -> (r: Result<usize, usize>)
        ensures
            sorted_by_target(self.entries()),
            r is Ok <==> self@.contains_key(target),
            r matches Ok(i) ==> i < self.entries().len() && self.entries()[i as int].0 == target,
            r matches Err(at) ==> is_gap(self.entries(), target, at as int),
    {
        proof {
            use_type_invariant(self);
        }
        // Every entry before `lo` has a smaller target, every entry from `hi` on a
        // greater one.
        let mut lo: usize = 0;
        let mut hi: usize = self.entries.len();
        while lo < hi
            invariant
                0 <= lo <= hi <= self.entries.len(),
                sorted_by_target(self.entries@),
                forall|i: int| 0 <= i < lo ==> (#[trigger] self.entries@[i]).0 < target,
                forall|i: int| hi <= i < self.entries.len() ==> (#[trigger] self.entries@[i]).0 > target,
            decreases hi - lo,
        {
            let mid = lo + (hi - lo) / 2;
            let here = self.entries[mid].0;
            if here == target {
                proof {
                    lemma_slot(self.entries@, mid as int);
                }
                return Ok(mid);
            } else if here < target {
                lo = mid + 1;
            } else {
                hi = mid;
            }
        }
        assert(!has_target(self.entries@, target));
        Err(lo)
    }

    /// Puts a new target with its value into the gap where it belongs.
    pub fn insert_at(&mut self, at: usize, target: usize, value: V)
        requires
            is_gap(old(self).entries(), target, at as int),
        ensures
            final(self).entries() == old(self).entries().insert(at as int, (target, value)),
            final(self)@ == old(self)@.insert(target, value),
            !old(self)@.contains_key(target),
    {
        proof {
            use_type_invariant(&*self);
            lemma_insert(self.entries@, at as int, target, value);
        }
        let mut taken = TargetMap { entries: Vec::new() };
        core::mem::swap(self, &mut taken);
        let mut entries = taken.entries;
        entries.insert(at, (target, value));
        *self = TargetMap { entries };
    }

    /// Puts another value at position `i` and hands the previous one back.
    pub fn replace(&mut self, i: usize, value: V) -> (previous: V)
        requires
            i < old(self).entries().len(),
        ensures
            previous == old(self).entries()[i as int].1,
            final(self).entries() == old(self).entries().update(
                i as int,
                (old(self).entries()[i as int].0, value),
            ),
            final(self)@ == old(self)@.insert(old(self).entries()[i as int].0, value),
    {
        proof {
            use_type_invariant(&*self);
            lemma_update(self.entries@, i as int, value);
        }
        let mut taken = TargetMap { entries: Vec::new() };
        core::mem::swap(self, &mut taken);
        let mut entries = taken.entries;
        let mut entry = (entries[i].0, value);
        entries.set_and_swap(i, &mut entry);
        *self = TargetMap { entries };
        entry.1
    }
}

} // verus!
