//! The inputs of a run, checked once, and the aggregation of one query.

use crate::error::{InputError, QueryError};
use crate::grid::{
    index_at, index_ncols, index_nrows, index_rows, index_width, offset_seq, offsets_len, score_at,
    score_ncols, score_nrows, score_rows, score_width,
};
use crate::hits::{
    dedup_row, hits_target, lemma_dedup_addends, lemma_row_adds_iff_hit, row_addends, unordered,
    Hit,
};
use crate::offsets::{
    bucket_of, range_end, range_valid, row_range, starts_fault, TargetOffsets,
};
use crate::tally::{addends_in, populated, Tally};
use ndarray::{ArrayRef1, ArrayRef2};
use vstd::prelude::*;

verus! {

/// What a table of hits holds, as plain sequences.
pub struct TableView {
    /// The score bits, row by row.
    pub scores: Seq<Seq<u32>>,
    /// The raw target indices, row by row.
    pub indices: Seq<Seq<i64>>,
    /// The first row of each query.
    pub query_offsets: Seq<i64>,
    /// The first raw index of each target.
    pub starts: Seq<i64>,
}

/// The hits of one row after resolution: each raw index replaced by the target
/// that owns it, beside its score.
pub open spec fn resolved_row(starts: Seq<i64>, indices: Seq<i64>, scores: Seq<u32>) -> Seq<Hit> {
    Seq::new(
        indices.len(),
        |c: int| Hit { target: bucket_of(starts, indices[c] as int) as usize, score: scores[c] },
    )
}

/// Some raw index of the row lies below the first target, so nothing owns it.
pub open spec fn no_bucket_in(starts: Seq<i64>, indices: Seq<i64>) -> bool {
    exists|c: int| 0 <= c < indices.len() && #[trigger] indices[c] < starts[0]
}

impl TableView {
    /// The hits of row `r` after resolution.
    pub open spec fn row(self, r: int) -> Seq<Hit> {
        resolved_row(self.starts, self.indices[r], self.scores[r])
    }

    /// What is wrong with row `r`, if anything: an index without a target, or, where
    /// duplicates are to be removed, two hits on one target that cannot be ordered.
    pub open spec fn row_fault(self, r: int, dedup: bool) -> Option<QueryError> {
        if no_bucket_in(self.starts, self.indices[r]) {
            Some(QueryError::NoBucket)
        } else if dedup && unordered(self.row(r)) {
            Some(QueryError::UnorderedScores)
        } else {
            None
        }
    }

    /// The fault of the first faulty row among the rows from `start` up to `end`.
    pub open spec fn first_fault(self, start: int, end: int, dedup: bool) -> Option<QueryError>
        decreases end - start,
    {
        if end <= start {
            None
        } else {
            match self.first_fault(start, end - 1, dedup) {
                Some(e) => Some(e),
                None => self.row_fault(end - 1, dedup),
            }
        }
    }

    /// The scores that the rows from `start` up to `end` add to `target`, row after
    /// row.
    pub open spec fn addends(self, start: int, end: int, target: usize, dedup: bool) -> Seq<u32>
        decreases end - start,
    {
        if end <= start {
            Seq::empty()
        } else {
            self.addends(start, end - 1, target, dedup) + row_addends(
                self.row(end - 1),
                target,
                dedup,
            )
        }
    }

    /// For every target that the rows from `start` up to `end` hit, its addends.
    pub open spec fn totals(self, start: int, end: int, dedup: bool) -> Map<usize, Seq<u32>> {
        Map::new(
            |t: usize| self.addends(start, end, t, dedup).len() > 0,
            |t: usize| self.addends(start, end, t, dedup),
        )
    }

    /// What the aggregation of query `q` comes to: the totals of its rows, or the
    /// first thing that is wrong with them.
    pub open spec fn outcome(self, q: int, dedup: bool) -> Result<Map<usize, Seq<u32>>, QueryError> {
        let total_rows = self.scores.len() as int;
        let start = self.query_offsets[q] as int;
        let end = range_end(self.query_offsets, total_rows, q);
        if !range_valid(self.query_offsets, total_rows, q) {
            Err(QueryError::RowRange)
        } else {
            match self.first_fault(start, end, dedup) {
                Some(e) => Err(e),
                None => Ok(self.totals(start, end, dedup)),
            }
        }
    }
}

/// A fault of one row is the fault of every range that holds the row and no
/// faulty row before it.
pub proof fn lemma_first_fault(view: TableView, start: int, r: int, end: int, dedup: bool)
    requires
        start <= r < end,
        view.first_fault(start, r, dedup) is None,
        view.row_fault(r, dedup) is Some,
    ensures
        view.first_fault(start, end, dedup) == view.row_fault(r, dedup),
    decreases end - r,
{
    if end > r + 1 {
        lemma_first_fault(view, start, r, end - 1, dedup);
    }
}

/// A target has a total exactly where a hit of one of the rows fell into it.
pub proof fn lemma_total_iff_hit(view: TableView, start: int, end: int, target: usize, dedup: bool)
    ensures
        view.totals(start, end, dedup).contains_key(target) <==> exists|r: int|
            start <= r < end && hits_target(#[trigger] view.row(r), target),
    decreases end - start,
{
    if start < end {
        lemma_total_iff_hit(view, start, end - 1, target, dedup);
        lemma_row_adds_iff_hit(view.row(end - 1), target, dedup);
        if hits_target(view.row(end - 1), target) {
            assert(start <= end - 1 < end && hits_target(view.row(end - 1), target));
        }
    }
}

/// The faults and the totals of a range of rows depend on those rows and on the
/// target starts, and on nothing else.
pub proof fn lemma_rows_decide(a: TableView, b: TableView, start: int, end: int, dedup: bool)
    requires
        a.starts == b.starts,
        forall|r: int| start <= r < end ==> a.indices[r] == b.indices[r] && a.scores[r] == b.scores[r],
    ensures
        a.first_fault(start, end, dedup) == b.first_fault(start, end, dedup),
        a.totals(start, end, dedup) == b.totals(start, end, dedup),
    decreases end - start,
{
    if start < end {
        lemma_rows_decide(a, b, start, end - 1, dedup);
    }
    assert forall|t: usize| a.addends(start, end, t, dedup) == b.addends(start, end, t, dedup) by {
        lemma_rows_decide_addends(a, b, start, end, t, dedup);
    }
    assert(a.totals(start, end, dedup) =~= b.totals(start, end, dedup));
}

proof fn lemma_rows_decide_addends(
    a: TableView,
    b: TableView,
    start: int,
    end: int,
    target: usize,
    dedup: bool,
)
    requires
        a.starts == b.starts,
        forall|r: int| start <= r < end ==> a.indices[r] == b.indices[r] && a.scores[r] == b.scores[r],
    ensures
        a.addends(start, end, target, dedup) == b.addends(start, end, target, dedup),
    decreases end - start,
{
    if start < end {
        lemma_rows_decide_addends(a, b, start, end - 1, target, dedup);
    }
}

/// Queries are independent: the outcome of a query depends on its own rows, on
/// the offsets and on the target starts. What the rows of other queries hold, and
/// when or where those are aggregated, makes no difference to it.
pub proof fn lemma_queries_independent(a: TableView, b: TableView, q: int, dedup: bool)
    requires
        0 <= q < a.query_offsets.len(),
        a.starts == b.starts,
        a.query_offsets == b.query_offsets,
        a.scores.len() == b.scores.len(),
        forall|r: int|
            a.query_offsets[q] <= r < range_end(a.query_offsets, a.scores.len() as int, q) ==> a.indices[r]
                == b.indices[r] && a.scores[r] == b.scores[r],
    ensures
        a.outcome(q, dedup) == b.outcome(q, dedup),
{
    let start = a.query_offsets[q] as int;
    let end = range_end(a.query_offsets, a.scores.len() as int, q);
    lemma_rows_decide(a, b, start, end, dedup);
}

/// What is wrong with the inputs as a whole, if anything: with the target starts
/// first, then with the shapes of the two matrices.
pub open spec fn input_fault(
    starts: Seq<i64>,
    score_rows: nat,
    score_cols: nat,
    index_rows: nat,
    index_cols: nat,
) -> Option<InputError> {
    if starts_fault(starts) is Some {
        starts_fault(starts)
    } else if score_rows != index_rows || score_cols != index_cols {
        Some(InputError::ShapeMismatch)
    } else {
        None
    }
}

/// The inputs of a run: score bits and raw indices of every hit, the rows of every
/// query, the raw indices of every target.
pub struct HitTable<'a> {
    scores: &'a ArrayRef2<u32>,
    indices: &'a ArrayRef2<i64>,
    query_offsets: &'a ArrayRef1<i64>,
    targets: TargetOffsets,
    queries: usize,
    rows: usize,
    cols: usize,
}

impl<'a> HitTable<'a> {
    #[verifier::type_invariant]
    spec fn well_formed(self) -> bool {
        &&& offset_seq(self.query_offsets).len() == self.queries
        &&& score_rows(self.scores).len() == self.rows
        &&& index_rows(self.indices).len() == self.rows
        &&& score_width(self.scores) == self.cols
        &&& index_width(self.indices) == self.cols
        &&& forall|r: int| 0 <= r < self.rows ==> (#[trigger] score_rows(self.scores)[r]).len() == self.cols
        &&& forall|r: int| 0 <= r < self.rows ==> (#[trigger] index_rows(self.indices)[r]).len() == self.cols
    }

    /// What the table holds.
    pub closed spec fn view(&self) -> TableView {
        TableView {
            scores: score_rows(self.scores),
            indices: index_rows(self.indices),
            query_offsets: offset_seq(self.query_offsets),
            starts: self.targets@,
        }
    }

    /// Checks the inputs and puts them together. The scores come as the bits of
    /// single-precision numbers.
    pub fn new(
        scores: &'a ArrayRef2<u32>,
        indices: &'a ArrayRef2<i64>,
        query_offsets: &'a ArrayRef1<i64>,
        target_offsets: &ArrayRef1<i64>,
    ) -> (r: Result<HitTable<'a>, InputError>)
        ensures
            match input_fault(
                offset_seq(target_offsets),
                score_rows(scores).len(),
                score_width(scores),
                index_rows(indices).len(),
                index_width(indices),
            ) {
                Some(e) => r == Err::<HitTable<'a>, InputError>(e),
                None => r matches Ok(table) && table@ == (TableView {
                    scores: score_rows(scores),
                    indices: index_rows(indices),
                    query_offsets: offset_seq(query_offsets),
                    starts: offset_seq(target_offsets),
                }),
            },
    {
        let targets = match TargetOffsets::new(target_offsets) {
            Ok(targets) => targets,
            Err(e) => {
                return Err(e);
            },
        };
        let rows = score_nrows(scores);
        let cols = score_ncols(scores);
        if index_nrows(indices) != rows || index_ncols(indices) != cols {
            return Err(InputError::ShapeMismatch);
        }
        let queries = offsets_len(query_offsets);
        Ok(HitTable { scores, indices, query_offsets, targets, queries, rows, cols })
    }

    /// The number of queries.
    pub fn num_queries(&self) -> (n: usize)
        ensures
            n == self@.query_offsets.len(),
    {
        proof {
            use_type_invariant(self);
        }
        self.queries
    }

    /// Resolves the hits of one row, or gives `None` where a raw index lies below
    /// the first target.
    fn resolve_row(&self, r: usize) -> (out: Option<Vec<Hit>>)
        requires
            r < self@.scores.len(),
        ensures
            out is None <==> no_bucket_in(self@.starts, self@.indices[r as int]),
            out matches Some(row) ==> row@ == self@.row(r as int)
                && forall|c: int| 0 <= c < row.len() ==> (#[trigger] row[c]).target < usize::MAX,
    {
        proof {
            use_type_invariant(self);
        }
        let ghost starts = self@.starts;
        let ghost raw = self@.indices[r as int];
        let ghost bits = self@.scores[r as int];
        let mut row: Vec<Hit> = Vec::new();
        let mut c: usize = 0;
        while c < self.cols
            invariant
                0 <= c <= self.cols,
                r < self.rows,
                self.well_formed(),
                starts == self.targets@,
                raw == index_rows(self.indices)[r as int],
                bits == score_rows(self.scores)[r as int],
                raw.len() == self.cols,
                bits.len() == self.cols,
                row.len() == c,
                forall|k: int| 0 <= k < c ==> starts[0] <= #[trigger] raw[k],
                forall|k: int|
                    0 <= k < c ==> (#[trigger] row[k]) == (Hit {
                        target: bucket_of(starts, raw[k] as int) as usize,
                        score: bits[k],
                    }) && row[k].target < usize::MAX,
            decreases self.cols - c,
        {
            let index = index_at(self.indices, r, c);
            let score = score_at(self.scores, r, c);
            match self.targets.resolve(index) {
                Some(target) => {
                    row.push(Hit { target, score });
                },
                None => {
                    assert(raw[c as int] < starts[0]);
                    return None;
                },
            }
            c += 1;
        }
        assert(row@ =~= self@.row(r as int));
        Some(row)
    }

    /// Aggregates one query: resolves the hits of its rows, removes the duplicates
    /// of each row where `dedup` asks for it, and merges what is left into the
    /// totals of the query.
    pub fn aggregate(&self, query: usize, dedup: bool) -> (r: Result<Tally, QueryError>)
        requires
            query < self@.query_offsets.len(),
        ensures
            match self@.outcome(query as int, dedup) {
                Ok(totals) => r matches Ok(tally) && tally@ == totals && tally.query() == query,
                Err(e) => r matches Err(x) && x == e,
            },
    {
        proof {
            use_type_invariant(self);
        }
        let (start, end) = match row_range(self.query_offsets, self.rows, query) {
            Ok(range) => range,
            Err(e) => {
                return Err(e);
            },
        };
        let ghost view = self@;
        let mut tally = Tally::new(query);
        let mut r: usize = start;
        while r < end
            invariant
                start <= r <= end <= self.rows,
                self.well_formed(),
                view == self@,
                query < view.query_offsets.len(),
                range_valid(view.query_offsets, view.scores.len() as int, query as int),
                start == view.query_offsets[query as int],
                end == range_end(view.query_offsets, view.scores.len() as int, query as int),
                tally.query() == query,
                populated(tally@),
                view.first_fault(start as int, r as int, dedup) is None,
                forall|t: usize| #[trigger]
                    addends_in(tally@, t) == view.addends(start as int, r as int, t, dedup),
            decreases end - r,
        {
            let ghost held = tally@;
            let row = match self.resolve_row(r) {
                Some(row) => row,
                None => {
                    proof {
                        lemma_first_fault(view, start as int, r as int, end as int, dedup);
                    }
                    return Err(QueryError::NoBucket);
                },
            };
            if dedup {
                let kept = match dedup_row(&row) {
                    Some(kept) => kept,
                    None => {
                        proof {
                            lemma_first_fault(view, start as int, r as int, end as int, dedup);
                        }
                        return Err(QueryError::UnorderedScores);
                    },
                };
                tally.merge_all(&kept);
                proof {
                    assert forall|t: usize| #[trigger]
                        addends_in(tally@, t) == view.addends(start as int, r + 1, t, dedup) by {
                        lemma_dedup_addends(row@, kept@, t);
                        assert(addends_in(held, t) == view.addends(start as int, r as int, t, dedup));
                    }
                }
            } else {
                tally.merge_all(&row);
                proof {
                    assert forall|t: usize| #[trigger]
                        addends_in(tally@, t) == view.addends(start as int, r + 1, t, dedup) by {
                        assert(addends_in(held, t) == view.addends(start as int, r as int, t, dedup));
                    }
                }
            }
            r += 1;
        }
        proof {
            let totals = view.totals(start as int, end as int, dedup);
            assert forall|t: usize|
                #![trigger tally@.contains_key(t)]
                #![trigger totals.contains_key(t)]
                tally@.contains_key(t) == totals.contains_key(t) && (tally@.contains_key(t)
                    ==> tally@[t] == totals[t]) by {
                assert(addends_in(tally@, t) == view.addends(start as int, end as int, t, dedup));
            }
            assert(tally@ =~= totals);
        }
        Ok(tally)
    }
}

} // verus!
