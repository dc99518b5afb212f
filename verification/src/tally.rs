//! The accumulator of one query: for each target that was hit, the scores that
//! add up to its total.

use crate::hits::{addends_upto, Hit};
use crate::target_map::{slot_of, TargetMap};
use vstd::prelude::*;

verus! {

/// What a map of addends holds for `target`: its list, or nothing.
pub open spec fn addends_in(totals: Map<usize, Seq<u32>>, target: usize) -> Seq<u32> {
    if totals.contains_key(target) {
        totals[target]
    } else {
        Seq::empty()
    }
}

/// Every target of the map has at least one addend.
pub open spec fn populated(totals: Map<usize, Seq<u32>>) -> bool {
    forall|t: usize| totals.contains_key(t) ==> (#[trigger] totals[t]).len() > 0
}

/// One line of output: a query, a target it hit, and the scores whose sum is the
/// total of the pair. Both identifiers count from 1.
#[derive(Clone, Debug, PartialEq, Eq)]
pub struct ResultRecord {
    pub query_id: usize,
    pub target_id: usize,
    pub addends: Vec<u32>,
}

/// The accumulator of one query.
///
/// It keeps the addends of each total and not their sum: the scores are
/// floating-point numbers, and adding them is the caller's part. The addends of a
/// target stand in the order in which they were merged, so the caller can add them
/// in that order.
pub struct Tally {
    query: usize,
    lists: TargetMap<Vec<u32>>,
}

impl Tally {
    #[verifier::type_invariant]
    spec fn well_formed(self) -> bool {
        &&& self.query < usize::MAX
        &&& forall|i: int|
            0 <= i < self.lists.entries().len() ==> {
                &&& (#[trigger] self.lists.entries()[i]).0 < usize::MAX
                &&& self.lists.entries()[i].1@.len() > 0
            }
    }

    /// The query that the accumulator is for, counted from 0.
    pub closed spec fn query(&self) -> usize {
        self.query
    }

    /// The targets that were hit, by increasing identifier, counted from 0.
    pub closed spec fn targets(&self) -> Seq<usize> {
        Seq::new(self.lists.entries().len(), |i: int| self.lists.entries()[i].0)
    }

    /// The addends of each target that was hit.
    pub closed spec fn view(&self) -> Map<usize, Seq<u32>> {
        Map::new(|t: usize| self.lists@.contains_key(t), |t: usize| self.lists@[t]@)
    }

    /// An accumulator for `query` that holds nothing yet.
    pub fn new(query: usize) -> (tally: Tally)
        requires
            query < usize::MAX,
        ensures
            tally.query() == query,
            tally@ == Map::<usize, Seq<u32>>::empty(),
    {
        let tally = Tally { query, lists: TargetMap::new() };
        assert(tally@ =~= Map::<usize, Seq<u32>>::empty());
        tally
    }

    /// Merges one score into the total of `target`: it is added to the target's
    /// addends, or becomes the first of them.
    pub fn merge(&mut self, target: usize, score: u32)
        requires
            target < usize::MAX,
        ensures
            final(self).query() == old(self).query(),
            final(self)@ == old(self)@.insert(target, addends_in(old(self)@, target).push(score)),
            populated(final(self)@),
    {
        proof {
            use_type_invariant(&*self);
        }
        let mut taken = Tally { query: self.query, lists: TargetMap::new() };
        core::mem::swap(self, &mut taken);
        let query = taken.query;
        let mut lists = taken.lists;
        let ghost before = lists;
        match lists.find(target) {
            Ok(i) => {
                let mut list = lists.replace(i, Vec::new());
                list.push(score);
                lists.replace(i, list);
                assert(lists.entries() =~= before.entries().update(i as int, (target, list)));
            },
            Err(at) => {
                let mut list = Vec::new();
                list.push(score);
                lists.insert_at(at, target, list);
                assert(list@ =~= Seq::<u32>::empty().push(score));
                assert forall|i: int| 0 <= i < lists.entries().len() implies {
                    &&& (#[trigger] lists.entries()[i]).0 < usize::MAX
                    &&& lists.entries()[i].1@.len() > 0
                } by {
                    if i < at {
                        assert(lists.entries()[i] == before.entries()[i]);
                    } else if i > at {
                        assert(lists.entries()[i] == before.entries()[i - 1]);
                    }
                }
            },
        }
        *self = Tally { query, lists };
        assert(self@ =~= old(self)@.insert(target, addends_in(old(self)@, target).push(score)));
        proof {
            self.lemma_populated();
        }
    }

    /// No target of a well-formed accumulator is without addends.
    proof fn lemma_populated(self)
        requires
            self.well_formed(),
        ensures
            populated(self@),
    {
        let entries = self.lists.entries();
        assert forall|t: usize| self@.contains_key(t) implies (#[trigger] self@[t]).len() > 0 by {
            assert(self@[t] == entries[slot_of(entries, t)].1@);
        }
    }

    /// Merges a list of hits, one after the other.
    pub fn merge_all(&mut self, hits: &Vec<Hit>)
        requires
            forall|i: int| 0 <= i < hits.len() ==> (#[trigger] hits[i]).target < usize::MAX,
        ensures
            final(self).query() == old(self).query(),
            forall|t: usize| #[trigger]
                addends_in(final(self)@, t) == addends_in(old(self)@, t) + addends_upto(
                    hits@,
                    t,
                    hits.len() as nat,
                ),
            populated(final(self)@),
    {
        let ghost before = self@;
        proof {
            use_type_invariant(&*self);
            self.lemma_populated();
        }
        let mut k: usize = 0;
        assert forall|t: usize| #[trigger]
            addends_in(self@, t) == addends_in(before, t) + addends_upto(hits@, t, 0) by {
            assert(addends_in(before, t) + Seq::<u32>::empty() =~= addends_in(before, t));
        }
        while k < hits.len()
            invariant
                0 <= k <= hits.len(),
                self.query() == old(self).query(),
                before == old(self)@,
                populated(self@),
                forall|i: int| 0 <= i < hits.len() ==> (#[trigger] hits[i]).target < usize::MAX,
                forall|t: usize| #[trigger]
                    addends_in(self@, t) == addends_in(before, t) + addends_upto(hits@, t, k as nat),
            decreases hits.len() - k,
        {
            let hit = hits[k];
            let ghost held = self@;
            self.merge(hit.target, hit.score);
            proof {
                assert forall|t: usize| #[trigger]
                    addends_in(self@, t) == addends_in(before, t) + addends_upto(
                        hits@,
                        t,
                        (k + 1) as nat,
                    ) by {
                    assert(addends_in(held, t) == addends_in(before, t) + addends_upto(
                        hits@,
                        t,
                        k as nat,
                    ));
                    if t == hit.target {
                        assert((addends_in(before, t) + addends_upto(hits@, t, k as nat)).push(
                            hit.score,
                        ) =~= addends_in(before, t) + addends_upto(hits@, t, k as nat).push(
                            hit.score,
                        ));
                    }
                }
            }
            k += 1;
        }
    }

    /// The number of targets that were hit.
    pub fn len(&self) -> (n: usize)
        ensures
            n == self.targets().len(),
            forall|i: int, j: int| 0 <= i < j < n ==> self.targets()[i] < self.targets()[j],
            forall|t: usize| self@.contains_key(t) <==> self.targets().contains(t),
            populated(self@),
    {
        let n = self.lists.len();
        proof {
            use_type_invariant(self);
            self.lemma_populated();
            let entries = self.lists.entries();
            assert forall|t: usize| self@.contains_key(t) <==> self.targets().contains(t) by {
                if self@.contains_key(t) {
                    let i = choose|i: int| 0 <= i < entries.len() && entries[i].0 == t;
                    assert(self.targets()[i] == t);
                }
                if self.targets().contains(t) {
                    let i = choose|i: int| 0 <= i < self.targets().len() && self.targets()[i] == t;
                    assert(entries[i].0 == t);
                }
            }
        }
        n
    }

    /// The query that the accumulator is for, counted from 1.
    pub fn query_id(&self) -> (id: usize)
        ensures
            id == self.query() + 1,
    {
        proof {
            use_type_invariant(self);
        }
        self.query + 1
    }

    /// The `i`-th target that was hit, counted from 1.
    pub fn target_id(&self, i: usize) -> (id: usize)
        requires
            i < self.targets().len(),
        ensures
            id == self.targets()[i as int] + 1,
    {
        proof {
            use_type_invariant(self);
        }
        self.lists.target(i) + 1
    }

    /// The addends of the `i`-th target that was hit, in the order in which they
    /// were merged.
    pub fn addends(&self, i: usize) -> (list: &Vec<u32>)
        requires
            i < self.targets().len(),
        ensures
            self@.contains_key(self.targets()[i as int]),
            list@ == self@[self.targets()[i as int]],
    {
        proof {
            use_type_invariant(self);
        }
        let ghost target = self.lists.entries()[i as int].0;
        let list = self.lists.value(i);
        assert(self@.contains_key(target)) by {
            assert(self.lists.entries()[i as int].0 == target);
        }
        list
    }

    /// One record for each target that was hit, by increasing target.
    pub fn records(&self) -> (out: Vec<ResultRecord>)
        ensures
            out.len() == self.targets().len(),
            forall|i: int|
                0 <= i < out.len() ==> {
                    &&& (#[trigger] out[i]).query_id == self.query() + 1
                    &&& out[i].target_id == self.targets()[i] + 1
                    &&& self@.contains_key(self.targets()[i])
                    &&& out[i].addends@ == self@[self.targets()[i]]
                },
    {
        let n = self.len();
        let mut out: Vec<ResultRecord> = Vec::new();
        let mut i: usize = 0;
        while i < n
            invariant
                0 <= i <= n,
                n == self.targets().len(),
                out.len() == i,
                forall|j: int|
                    0 <= j < i ==> {
                        &&& (#[trigger] out[j]).query_id == self.query() + 1
                        &&& out[j].target_id == self.targets()[j] + 1
                        &&& self@.contains_key(self.targets()[j])
                        &&& out[j].addends@ == self@[self.targets()[j]]
                    },
            decreases n - i,
        {
            let list = self.addends(i);
            let copy = list.clone();
            assert(copy@ =~= list@);
            out.push(ResultRecord { query_id: self.query_id(), target_id: self.target_id(i), addends: copy });
            i += 1;
        }
        out
    }
}

} // verus!
