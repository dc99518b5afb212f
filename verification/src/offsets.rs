//! Offset tables: which target a raw index belongs to, and which rows a query owns.

use crate::error::{InputError, QueryError};
use crate::grid::{offset_at, offset_seq, offsets_len};
use ndarray::ArrayRef1;
use vstd::prelude::*;

verus! {

/// Every entry is smaller than every later one.
pub open spec fn strictly_increasing(s: Seq<i64>) -> bool {
    forall|i: int, j: int| 0 <= i < j < s.len() ==> s[i] < s[j]
}

/// What a table of target starts has to be: not empty, not negative, strictly
/// increasing.
pub open spec fn valid_starts(s: Seq<i64>) -> bool {
    &&& s.len() > 0
    &&& s[0] >= 0
    &&& strictly_increasing(s)
}

/// What is wrong with a table of target starts, if anything.
pub open spec fn starts_fault(s: Seq<i64>) -> Option<InputError> {
    if s.len() == 0 {
        Some(InputError::NoTargets)
    } else if s[0] < 0 {
        Some(InputError::NegativeOffset)
    } else if !strictly_increasing(s) {
        Some(InputError::UnorderedTargets)
    } else {
        None
    }
}

/// Target `j` owns the raw index `v`: its start is at or below `v`, and the next
/// target, if there is one, starts above `v`. The last target is open-ended.
pub open spec fn is_bucket(starts: Seq<i64>, v: int, j: int) -> bool {
    &&& 0 <= j < starts.len()
    &&& starts[j] <= v
    &&& (j == starts.len() - 1 || v < starts[j + 1])
}

/// The target that owns the raw index `v`, where there is one.
pub open spec fn bucket_of(starts: Seq<i64>, v: int) -> int {
    choose|j: int| is_bucket(starts, v, j)
}

/// No raw index has two owners.
pub proof fn lemma_bucket_unique(starts: Seq<i64>, v: int, j: int, k: int)
    requires
        strictly_increasing(starts),
        is_bucket(starts, v, j),
        is_bucket(starts, v, k),
    ensures
        j == k,
{
    if j < k {
        assert(starts[j + 1] <= starts[k]);
    } else if k < j {
        assert(starts[k + 1] <= starts[j]);
    }
}

/// Every raw index at or above the first start has an owner, and `bucket_of` is it.
pub proof fn lemma_bucket_exists(starts: Seq<i64>, v: int)
    requires
        starts.len() > 0,
        starts[0] <= v,
    ensures
        is_bucket(starts, v, bucket_of(starts, v)),
    decreases starts.len(),
{
    let last = starts.len() - 1;
    if starts[last] <= v {
        assert(is_bucket(starts, v, last));
    } else {
        let shorter = starts.drop_last();
        lemma_bucket_exists(shorter, v);
        let j = bucket_of(shorter, v);
        assert(is_bucket(starts, v, j));
    }
}

/// Any raw index at or above the last start belongs to the last target, however
/// far above it lies.
pub proof fn lemma_last_bucket_open(starts: Seq<i64>, v: int)
    requires
        strictly_increasing(starts),
        starts.len() > 0,
        starts.last() <= v,
    ensures
        bucket_of(starts, v) == starts.len() - 1,
{
    assert(is_bucket(starts, v, starts.len() - 1));
    lemma_bucket_unique(starts, v, bucket_of(starts, v), starts.len() - 1);
}

/// The ordered table of target starts.
pub struct TargetOffsets {
    starts: Vec<i64>,
}

impl TargetOffsets {
    #[verifier::type_invariant]
    spec fn well_formed(self) -> bool {
        valid_starts(self.starts@)
    }

    /// The starts, first target first.
    pub closed spec fn view(&self) -> Seq<i64> {
        self.starts@
    }

    /// Copies a table of starts, after checking that it is one.
    pub fn new(raw: &ArrayRef1<i64>) -> (r: Result<TargetOffsets, InputError>)
        ensures
            r is Ok <==> valid_starts(offset_seq(raw)),
            match starts_fault(offset_seq(raw)) {
                Some(e) => r matches Err(x) && x == e,
                None => r matches Ok(t) && t@ == offset_seq(raw),
            },
    {
        let n = offsets_len(raw);
        if n == 0 {
            return Err(InputError::NoTargets);
        }
        let first = offset_at(raw, 0);
        if first < 0 {
            return Err(InputError::NegativeOffset);
        }
        let mut starts: Vec<i64> = Vec::new();
        starts.push(first);
        let mut i: usize = 1;
        while i < n
            invariant
                n == offset_seq(raw).len(),
                1 <= i <= n,
                offset_seq(raw)[0] >= 0,
                starts@ == offset_seq(raw).take(i as int),
                strictly_increasing(starts@),
            decreases n - i,
        {
            let next = offset_at(raw, i);
            if next <= starts[i - 1] {
                assert(offset_seq(raw)[i - 1] >= offset_seq(raw)[i as int]);
                return Err(InputError::UnorderedTargets);
            }
            starts.push(next);
            assert(starts@ == offset_seq(raw).take(i + 1));
            i += 1;
        }
        assert(starts@ == offset_seq(raw));
        Ok(TargetOffsets { starts })
    }

    /// The number of targets.
    pub fn len(&self) -> (n: usize)
        ensures
            n == self@.len(),
            valid_starts(self@),
    {
        proof {
            use_type_invariant(self);
        }
        self.starts.len()
    }

    /// The target that owns a raw index, or `None` for one below the first start.
    pub fn resolve(&self, raw: i64) -> (r: Option<usize>)
        ensures
            valid_starts(self@),
            r is Some <==> self@[0] <= raw,
            r matches Some(j) ==> is_bucket(self@, raw as int, j as int) && j == bucket_of(
                self@,
                raw as int,
            ) && j < usize::MAX,
            self@.last() <= raw ==> r == Some((self@.len() - 1) as usize),
    {
        proof {
            use_type_invariant(self);
        }
        if raw < self.starts[0] {
            return None;
        }
        // `lo` is a target that starts at or below `raw`; every target from `hi` on
        // starts above it.
        let mut lo: usize = 0;
        let mut hi: usize = self.starts.len();
        while hi - lo > 1
            invariant
                0 <= lo < hi <= self.starts.len(),
                strictly_increasing(self.starts@),
                self.starts@[lo as int] <= raw,
                hi < self.starts.len() ==> raw < self.starts@[hi as int],
            decreases hi - lo,
        {
            let mid = lo + (hi - lo) / 2;
            if self.starts[mid] <= raw {
                lo = mid;
            } else {
                hi = mid;
            }
        }
        proof {
            assert(is_bucket(self@, raw as int, lo as int));
            lemma_bucket_unique(self@, raw as int, lo as int, bucket_of(self@, raw as int));
            if self@.last() <= raw {
                lemma_last_bucket_open(self@, raw as int);
            }
        }
        Some(lo)
    }
}

/// Where the rows of query `q` end: at the next query's first row, or, for the last
/// query, at the end of the matrices.
pub open spec fn range_end(offsets: Seq<i64>, total_rows: int, q: int) -> int {
    if q + 1 < offsets.len() {
        offsets[q + 1] as int
    } else {
        total_rows
    }
}

/// The rows of query `q` lie inside the matrices.
pub open spec fn range_valid(offsets: Seq<i64>, total_rows: int, q: int) -> bool {
    0 <= offsets[q] <= range_end(offsets, total_rows, q) <= total_rows
}

/// No entry is greater than a later one.
pub open spec fn non_decreasing(s: Seq<i64>) -> bool {
    forall|i: int, j: int| 0 <= i <= j < s.len() ==> s[i] <= s[j]
}

/// Row `r` is one of the rows of query `q`.
pub open spec fn owns_row(offsets: Seq<i64>, total_rows: int, q: int, r: int) -> bool {
    0 <= q < offsets.len() && offsets[q] <= r < range_end(offsets, total_rows, q)
}

/// Where the offsets do not decrease, the queries part the rows among them: every
/// row from the first offset on belongs to one query and to no other.
pub proof fn lemma_rows_parted(offsets: Seq<i64>, total_rows: int, r: int)
    requires
        offsets.len() > 0,
        non_decreasing(offsets),
        offsets[0] <= r < total_rows,
    ensures
        exists|q: int| owns_row(offsets, total_rows, q, r),
        forall|p: int, q: int|
            owns_row(offsets, total_rows, p, r) && owns_row(offsets, total_rows, q, r) ==> p == q,
    decreases offsets.len(),
{
    let last = offsets.len() - 1;
    if offsets[last] <= r {
        assert(owns_row(offsets, total_rows, last, r));
    } else {
        let shorter = offsets.drop_last();
        let top = r + 1;
        lemma_rows_parted(shorter, top, r);
        let q = choose|q: int| owns_row(shorter, top, q, r);
        assert(owns_row(offsets, total_rows, q, r));
    }
    assert forall|p: int, q: int|
        owns_row(offsets, total_rows, p, r) && owns_row(offsets, total_rows, q, r) implies p == q by {
        if p < q {
            assert(offsets[p + 1] <= offsets[q]);
        } else if q < p {
            assert(offsets[q + 1] <= offsets[p]);
        }
    }
}

/// The half-open range of rows that belong to one query.
pub fn row_range(offsets: &ArrayRef1<i64>, total_rows: usize, query: usize) -> (r: Result<
    (usize, usize),
    QueryError,
>)
    requires
        query < offset_seq(offsets).len(),
    ensures
        r is Ok <==> range_valid(offset_seq(offsets), total_rows as int, query as int),
        r matches Ok((start, end)) ==> start == offset_seq(offsets)[query as int] && end
            == range_end(offset_seq(offsets), total_rows as int, query as int),
        r matches Err(e) ==> e == QueryError::RowRange,
{
    let n = offsets_len(offsets);
    let first = offset_at(offsets, query);
    if first < 0 || first as u64 > total_rows as u64 {
        return Err(QueryError::RowRange);
    }
    let start = first as usize;
    if query + 1 < n {
        let next = offset_at(offsets, query + 1);
        if next < first || next as u64 > total_rows as u64 {
            return Err(QueryError::RowRange);
        }
        Ok((start, next as usize))
    } else {
        Ok((start, total_rows))
    }
}

} // verus!
