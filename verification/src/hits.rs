//! Resolved hits, what a row of them adds to each target, and the row-wise
//! removal of duplicates.

use crate::score::{is_nan, rank, score_is_nan, score_rank};
use crate::target_map::{has_target, lemma_slot, sorted_by_target, TargetMap};
use vstd::prelude::*;

verus! {

/// One hit after resolution: the target it fell into and the bits of its score.
#[derive(Clone, Copy, Debug, PartialEq, Eq, Structural)]
pub struct Hit {
    pub target: usize,
    pub score: u32,
}

/// The scores of the first `n` hits that fell into `target`, in the order of the
/// hits.
pub open spec fn addends_upto(hits: Seq<Hit>, target: usize, n: nat) -> Seq<u32>
    decreases n,
{
    if n == 0 {
        Seq::empty()
    } else {
        let before = addends_upto(hits, target, (n - 1) as nat);
        if hits[n - 1].target == target {
            before.push(hits[n - 1].score)
        } else {
            before
        }
    }
}

/// The scores of all hits that fell into `target`, in the order of the hits.
pub open spec fn addends(hits: Seq<Hit>, target: usize) -> Seq<u32> {
    addends_upto(hits, target, hits.len())
}

/// Among the first `n` hits, the position of the best one on `target`: the first
/// of those with the greatest rank. It is -1 where none of them is on `target`.
pub open spec fn best_upto(row: Seq<Hit>, target: usize, n: nat) -> int
    decreases n,
{
    if n == 0 {
        -1
    } else {
        let before = best_upto(row, target, (n - 1) as nat);
        if row[n - 1].target != target {
            before
        } else if before < 0 || rank(row[before].score) < rank(row[n - 1].score) {
            n - 1
        } else {
            before
        }
    }
}

/// The position of the row's best hit on `target`, or -1.
pub open spec fn best_col(row: Seq<Hit>, target: usize) -> int {
    best_upto(row, target, row.len())
}

/// Among the first `n` hits two are on one target and one of the two has a score
/// that is not a number, so the better of them cannot be told.
pub open spec fn unordered_upto(row: Seq<Hit>, n: int) -> bool {
    exists|a: int, b: int|
        0 <= a < n && 0 <= b < n && a != b && (#[trigger] row[a]).target == (#[trigger] row[b]).target
            && is_nan(row[a].score)
}

/// The row holds two hits on one target that cannot be ordered.
pub open spec fn unordered(row: Seq<Hit>) -> bool {
    unordered_upto(row, row.len() as int)
}

/// What one row adds to `target`. Without removal of duplicates: the score of
/// every hit on it, in column order. With it: the score of the best hit alone.
pub open spec fn row_addends(row: Seq<Hit>, target: usize, dedup: bool) -> Seq<u32> {
    if !dedup {
        addends(row, target)
    } else if best_col(row, target) >= 0 {
        seq![row[best_col(row, target)].score]
    } else {
        Seq::empty()
    }
}

/// One of the hits is on `target`.
pub open spec fn hits_target(hits: Seq<Hit>, target: usize) -> bool {
    exists|i: int| 0 <= i < hits.len() && (#[trigger] hits[i]).target == target
}

/// `kept` is `row` without its duplicates: one hit for each target of the row, the
/// best one, by increasing target.
pub open spec fn is_dedup_of(row: Seq<Hit>, kept: Seq<Hit>) -> bool {
    &&& forall|i: int, j: int| 0 <= i < j < kept.len() ==> kept[i].target < kept[j].target
    &&& forall|i: int|
        0 <= i < kept.len() ==> {
            let best = best_col(row, (#[trigger] kept[i]).target);
            0 <= best < row.len() && kept[i] == row[best]
        }
    &&& forall|c: int| 0 <= c < row.len() ==> hits_target(kept, (#[trigger] row[c]).target)
}

/// The best hit on a target is on that target, no hit on the target outranks it,
/// and every earlier hit on the target ranks strictly below it. There is a best
/// hit exactly where there is a hit.
pub proof fn lemma_best_upto(row: Seq<Hit>, target: usize, n: nat)
    requires
        n <= row.len(),
    ensures
        -1 <= best_upto(row, target, n) < n,
        best_upto(row, target, n) >= 0 ==> row[best_upto(row, target, n)].target == target,
        forall|c: int|
            0 <= c < n && (#[trigger] row[c]).target == target ==> {
                let best = best_upto(row, target, n);
                &&& best >= 0
                &&& rank(row[c].score) <= rank(row[best].score)
                &&& c < best ==> rank(row[c].score) < rank(row[best].score)
            },
    decreases n,
{
    if n > 0 {
        lemma_best_upto(row, target, (n - 1) as nat);
    }
}

/// With removal of duplicates, of two hits of a row on one target only the one
/// with the greater score counts, and the first of them where the scores are
/// equal. Without it both count, in their order.
pub proof fn lemma_two_hits_on_one_target(first: Hit, second: Hit)
    requires
        first.target == second.target,
    ensures
        row_addends(seq![first, second], first.target, false) == seq![first.score, second.score],
        row_addends(seq![first, second], first.target, true) == if rank(first.score) < rank(
            second.score,
        ) {
            seq![second.score]
        } else {
            seq![first.score]
        },
{
    let row = seq![first, second];
    let t = first.target;
    reveal_with_fuel(addends_upto, 3);
    reveal_with_fuel(best_upto, 3);
    assert(addends_upto(row, t, 0) == Seq::<u32>::empty());
    assert(addends_upto(row, t, 1) == Seq::<u32>::empty().push(first.score));
    assert(addends_upto(row, t, 2) == Seq::<u32>::empty().push(first.score).push(second.score));
    assert(row_addends(row, t, false) =~= seq![first.score, second.score]);
    assert(best_upto(row, t, 1) == 0);
}

/// Something is added to a target exactly where a hit is on it, and no hit on it
/// is left out: there are as many addends as hits.
pub proof fn lemma_addends_count(hits: Seq<Hit>, target: usize, n: nat)
    requires
        n <= hits.len(),
    ensures
        addends_upto(hits, target, n).len() <= n,
        addends_upto(hits, target, n).len() > 0 <==> exists|i: int|
            0 <= i < n && (#[trigger] hits[i]).target == target,
        forall|i: int|
            0 <= i < n && (#[trigger] hits[i]).target == target ==> addends_upto(
                hits,
                target,
                n,
            ).contains(hits[i].score),
    decreases n,
{
    if n > 0 {
        let before = addends_upto(hits, target, (n - 1) as nat);
        lemma_addends_count(hits, target, (n - 1) as nat);
        if hits[n - 1].target == target {
            let after = before.push(hits[n - 1].score);
            assert(after[before.len() as int] == hits[n - 1].score);
            assert forall|i: int| 0 <= i < n && (#[trigger] hits[i]).target == target implies after.contains(
                hits[i].score,
            ) by {
                if i < n - 1 {
                    let at = choose|at: int| 0 <= at < before.len() && before[at] == hits[i].score;
                    assert(after[at] == hits[i].score);
                }
            }
        }
    }
}

/// A row adds something to a target exactly where one of its hits is on the
/// target, whether duplicates are removed or not.
pub proof fn lemma_row_adds_iff_hit(row: Seq<Hit>, target: usize, dedup: bool)
    ensures
        row_addends(row, target, dedup).len() > 0 <==> hits_target(row, target),
{
    lemma_addends_count(row, target, row.len());
    lemma_best_upto(row, target, row.len());
    if hits_target(row, target) {
        let i = choose|i: int| 0 <= i < row.len() && (#[trigger] row[i]).target == target;
        assert(row[i].target == target);
    }
}

/// In a list with strictly increasing targets every target has at most one hit, so
/// its addends are that hit's score or nothing.
pub proof fn lemma_addends_of_distinct(kept: Seq<Hit>, target: usize, n: nat)
    requires
        n <= kept.len(),
        forall|i: int, j: int| 0 <= i < j < kept.len() ==> kept[i].target < kept[j].target,
    ensures
        (forall|i: int| 0 <= i < n ==> (#[trigger] kept[i]).target != target) ==> addends_upto(
            kept,
            target,
            n,
        ) == Seq::<u32>::empty(),
        forall|i: int|
            0 <= i < n && (#[trigger] kept[i]).target == target ==> addends_upto(kept, target, n)
                == seq![kept[i].score],
    decreases n,
{
    if n > 0 {
        lemma_addends_of_distinct(kept, target, (n - 1) as nat);
        if kept[n - 1].target == target {
            assert forall|i: int| 0 <= i < n - 1 implies (#[trigger] kept[i]).target != target by {
                assert(kept[i].target < kept[n - 1].target);
            }
            assert(Seq::<u32>::empty().push(kept[n - 1].score) =~= seq![kept[n - 1].score]);
        }
    }
}

/// A row without its duplicates adds to each target what the row adds to it when
/// duplicates are removed.
pub proof fn lemma_dedup_addends(row: Seq<Hit>, kept: Seq<Hit>, target: usize)
    requires
        is_dedup_of(row, kept),
    ensures
        addends(kept, target) == row_addends(row, target, true),
{
    lemma_addends_of_distinct(kept, target, kept.len());
    lemma_best_upto(row, target, row.len());
    let best = best_col(row, target);
    if best >= 0 {
        assert(hits_target(kept, row[best].target));
        let i = choose|i: int| 0 <= i < kept.len() && (#[trigger] kept[i]).target == target;
        assert(kept[i].target == target);
    } else {
        assert forall|i: int| 0 <= i < kept.len() implies (#[trigger] kept[i]).target != target by {
            if kept[i].target == target {
                assert(best_col(row, kept[i].target) >= 0);
            }
        }
    }
}

/// Removes the duplicates of a row: of the hits on one target it keeps the best,
/// and it hands the kept hits back by increasing target. It gives `None` where two
/// hits on one target cannot be ordered.
pub fn dedup_row(row: &Vec<Hit>) -> (r: Option<Vec<Hit>>)
    ensures
        r is Some <==> !unordered(row@),
        r matches Some(kept) ==> is_dedup_of(row@, kept@),
{
    let mut best: TargetMap<u32> = TargetMap::new();
    let mut c: usize = 0;
    while c < row.len()
        invariant
            0 <= c <= row.len(),
            !unordered_upto(row@, c as int),
            forall|t: usize| #[trigger] best@.contains_key(t) <==> best_upto(row@, t, c as nat) >= 0,
            forall|t: usize| #[trigger]
                best@.contains_key(t) ==> best@[t] == row@[best_upto(row@, t, c as nat)].score,
        decreases row.len() - c,
    {
        let hit = row[c];
        let ghost before = best@;
        let ghost held = best_upto(row@, hit.target, c as nat);
        proof {
            lemma_best_upto(row@, hit.target, c as nat);
        }
        match best.find(hit.target) {
            Ok(i) => {
                let current = *best.value(i);
                if score_is_nan(hit.score) || score_is_nan(current) {
                    proof {
                        assert(row@[held].target == row@[c as int].target);
                        assert(unordered_upto(row@, row@.len() as int));
                    }
                    return None;
                }
                if score_rank(current) < score_rank(hit.score) {
                    best.replace(i, hit.score);
                }
            },
            Err(at) => {
                best.insert_at(at, hit.target, hit.score);
            },
        }
        proof {
            assert forall|t: usize| #[trigger]
                best@.contains_key(t) <==> best_upto(row@, t, (c + 1) as nat) >= 0 by {
                assert(before.contains_key(t) <==> best_upto(row@, t, c as nat) >= 0);
            }
            assert forall|t: usize| #[trigger] best@.contains_key(t) implies best@[t] == row@[best_upto(
                row@,
                t,
                (c + 1) as nat,
            )].score by {
                assert(before.contains_key(t) <==> best_upto(row@, t, c as nat) >= 0);
                if before.contains_key(t) {
                    assert(before[t] == row@[best_upto(row@, t, c as nat)].score);
                }
            }
            assert forall|a: int, b: int|
                0 <= a < c + 1 && 0 <= b < c + 1 && a != b && (#[trigger] row@[a]).target == (
                #[trigger] row@[b]).target implies !is_nan(row@[a].score) by {
                if a < c && b < c {
                    assert(!unordered_upto(row@, c as int));
                } else {
                    let other = if a < c { a } else { b };
                    assert(row@[other].target == hit.target);
                    assert(held >= 0);
                    if other != held {
                        assert(row@[other].target == row@[held].target);
                        assert(!unordered_upto(row@, c as int));
                    }
                }
            }
        }
        c += 1;
    }
    let mut kept: Vec<Hit> = Vec::new();
    let n = best.len();
    let mut i: usize = 0;
    while i < n
        invariant
            0 <= i <= n,
            n == best.entries().len(),
            kept.len() == i,
            c == row.len(),
            sorted_by_target(best.entries()),
            forall|t: usize| #[trigger] best@.contains_key(t) <==> best_upto(row@, t, c as nat) >= 0,
            forall|t: usize| #[trigger]
                best@.contains_key(t) ==> best@[t] == row@[best_upto(row@, t, c as nat)].score,
            forall|j: int|
                0 <= j < i ==> (#[trigger] kept@[j]) == (Hit {
                    target: best.entries()[j].0,
                    score: best.entries()[j].1,
                }),
        decreases n - i,
    {
        kept.push(Hit { target: best.target(i), score: *best.value(i) });
        i += 1;
    }
    proof {
        let entries = best.entries();
        assert forall|i: int, j: int| 0 <= i < j < kept.len() implies kept@[i].target
            < kept@[j].target by {
            assert(entries[i].0 < entries[j].0);
        }
        assert forall|i: int| 0 <= i < kept.len() implies {
            let at = best_col(row@, (#[trigger] kept@[i]).target);
            0 <= at < row@.len() && kept@[i] == row@[at]
        } by {
            let t = kept@[i].target;
            lemma_slot(entries, i);
            lemma_best_upto(row@, t, row@.len());
            assert(best@.contains_key(t));
            assert(best@[t] == kept@[i].score);
        }
        assert forall|col: int| 0 <= col < row@.len() implies hits_target(
            kept@,
            (#[trigger] row@[col]).target,
        ) by {
            let t = row@[col].target;
            lemma_best_upto(row@, t, row@.len());
            assert(best@.contains_key(t));
            assert(has_target(entries, t));
            let i = choose|i: int| 0 <= i < entries.len() && entries[i].0 == t;
            assert(kept@[i].target == t);
        }
    }
    Some(kept)
}

} // verus!
