//! Splitting a table on a feature: choosing the feature whose score is
//! greatest, and cutting the table into one part per value of a feature.

use crate::column::{
    ascending, distinct_values, indices_of, lemma_distinct_values, lemma_indices_of,
    matching_indices, pick, positions, unique_values,
};
use crate::error::Id3Error;
use crate::stats::{
    count_table, counts_over, joint_count_table, joint_counts, lemma_counts_over_cover, sum,
};
use crate::table::{texts, Table, TableView};
use crate::value::{cells, lemma_precedes_asymmetric, TableType, Value};
use vstd::prelude::*;

verus! {

/// Scores as mathematical integers.
pub open spec fn integers(scores: Seq<i64>) -> Seq<int> {
    Seq::new(scores.len(), |i: int| scores[i] as int)
}

/// Whether `best` is the position of the greatest of `scores`, and the first
/// such position where several scores are greatest.
pub open spec fn is_first_maximum(scores: Seq<int>, best: int) -> bool {
    &&& 0 <= best < scores.len()
    &&& forall|j: int| 0 <= j < scores.len() ==> scores[j] <= scores[best]
    &&& forall|j: int| 0 <= j < best ==> scores[j] < scores[best]
}

/// At most one position is that of the first maximum.
pub proof fn lemma_first_maximum_unique(scores: Seq<int>, a: int, b: int)
    requires
        is_first_maximum(scores, a),
        is_first_maximum(scores, b),
    ensures
        a == b,
{
    if a < b {
        assert(scores[a] < scores[b]);
        assert(scores[b] <= scores[a]);
    }
    if b < a {
        assert(scores[b] < scores[a]);
        assert(scores[a] <= scores[b]);
    }
}

/// The position of the first maximum of `scores`.
pub open spec fn first_maximum_of(scores: Seq<int>) -> int {
    choose|best: int| is_first_maximum(scores, best)
}

/// Where there is a score, there is a first maximum.
pub proof fn lemma_first_maximum_exists(scores: Seq<int>)
    requires
        scores.len() > 0,
    ensures
        is_first_maximum(scores, first_maximum_of(scores)),
    decreases scores.len(),
{
    if scores.len() == 1 {
        assert(is_first_maximum(scores, 0));
    } else {
        let front = scores.drop_last();
        lemma_first_maximum_exists(front);
        let p = first_maximum_of(front);
        if scores.last() > front[p] {
            assert forall|j: int| 0 <= j < scores.len() implies scores[j] <= scores.last() by {
                if j < front.len() {
                    assert(front[j] <= front[p]);
                }
            }
            assert forall|j: int| 0 <= j < scores.len() - 1 implies scores[j] < scores.last() by {
                assert(front[j] <= front[p]);
            }
            assert(is_first_maximum(scores, scores.len() - 1));
        } else {
            assert forall|j: int| 0 <= j < scores.len() implies scores[j] <= scores[p] by {
                if j < front.len() {
                    assert(front[j] <= front[p]);
                }
            }
            assert forall|j: int| 0 <= j < p implies scores[j] < scores[p] by {
                assert(front[j] < front[p]);
            }
            assert(is_first_maximum(scores, p));
        }
    }
}

/// The position of the greatest score, the first one where several are
/// greatest; none where there is no score.
pub fn first_maximum(scores: &Vec<i64>) -> (found: Option<usize>)
    ensures
        match found {
            Some(best) => is_first_maximum(integers(scores@), best as int),
            None => scores@.len() == 0,
        },
{
    if scores.len() == 0 {
        return None;
    }
    let mut best: usize = 0;
    let mut i: usize = 1;
    while i < scores.len()
        invariant
            1 <= i <= scores.len(),
            best < i,
            forall|j: int| 0 <= j < i ==> scores@[j] <= scores@[best as int],
            forall|j: int| 0 <= j < best ==> scores@[j] < scores@[best as int],
        decreases scores.len() - i,
    {
        if scores[i] > scores[best] {
            best = i;
        }
        i += 1;
    }
    Some(best)
}

/// Whether `s` is a score that `score` may give to the table of counts
/// `counts`.
pub open spec fn scores_with<F: Fn(&Vec<Vec<usize>>) -> i64>(
    score: &F,
    counts: Seq<Seq<nat>>,
    s: int,
) -> bool {
    exists|t: Vec<Vec<usize>>, r: i64|
        count_table(t@) == counts && r == s && #[trigger] call_ensures(*score, (&t,), r)
}

/// Whether `score` can be called on every table of counts.
pub open spec fn scores_all<F: Fn(&Vec<Vec<usize>>) -> i64>(score: &F) -> bool {
    forall|t: &Vec<Vec<usize>>| #[trigger] call_requires(*score, (t,))
}

/// The scores that `score` may give, as a relation between a table of
/// counts and a score.
pub open spec fn scoring<F: Fn(&Vec<Vec<usize>>) -> i64>(score: &F) -> spec_fn(
    Seq<Seq<nat>>,
    int,
) -> bool {
    |counts: Seq<Seq<nat>>, s: int| scores_with(score, counts, s)
}

/// Whether the candidate at position `best` is the one to split on: each
/// candidate column has a score for how the target is distributed within
/// its values, and `best` is the first maximum of those scores.
pub open spec fn is_choice(
    table: TableView,
    candidates: Seq<int>,
    target: int,
    scoring: spec_fn(Seq<Seq<nat>>, int) -> bool,
    best: int,
) -> bool {
    exists|scores: Seq<int>|
        {
            &&& scores.len() == candidates.len()
            &&& forall|i: int|
                0 <= i < candidates.len() ==> scoring(
                    joint_counts(table.columns[candidates[i]], table.columns[target]),
                    #[trigger] scores[i],
                )
            &&& is_first_maximum(scores, best)
        }
}

/// The positions of the rows of the parts in the table they were cut from,
/// the parts laid end to end: first the rows that hold the first of
/// `values`, then those that hold the second, and so on.
pub open spec fn row_origins(column: Seq<Value>, values: Seq<Value>) -> Seq<int>
    decreases values.len(),
{
    if values.len() == 0 {
        Seq::empty()
    } else {
        row_origins(column, values.drop_last()) + indices_of(column, values.last())
    }
}

proof fn lemma_row_origins(column: Seq<Value>, values: Seq<Value>)
    requires
        ascending(values),
    ensures
        row_origins(column, values).len() == sum(counts_over(column, values)),
        row_origins(column, values).no_duplicates(),
        forall|x: int|
            row_origins(column, values).contains(x) <==> (0 <= x < column.len() && values.contains(
                column[x],
            )),
    decreases values.len(),
{
    let all = row_origins(column, values);
    if values.len() > 0 {
        let front = values.drop_last();
        let last = values.last();
        let a = row_origins(column, front);
        let b = indices_of(column, last);
        assert forall|i: int, j: int| 0 <= i < j < front.len() implies #[trigger] front[i].precedes(
            #[trigger] front[j],
        ) by {
            assert(values[i].precedes(values[j]));
        }
        lemma_row_origins(column, front);
        lemma_indices_of(column, last);
        assert(counts_over(column, values).drop_last() =~= counts_over(column, front));
        assert forall|x: int| all.contains(x) <==> (0 <= x < column.len() && values.contains(
            column[x],
        )) by {
            if all.contains(x) {
                let k = choose|k: int| 0 <= k < all.len() && all[k] == x;
                if k < a.len() {
                    assert(a[k] == x);
                    assert(a.contains(x));
                    let m = choose|m: int| 0 <= m < front.len() && front[m] == column[x];
                    assert(values[m] == column[x]);
                } else {
                    assert(b[k - a.len()] == x);
                    assert(values[values.len() - 1] == column[x]);
                }
            }
            if 0 <= x < column.len() && values.contains(column[x]) {
                let m = choose|m: int| 0 <= m < values.len() && values[m] == column[x];
                if m < front.len() {
                    assert(front[m] == column[x]);
                    assert(a.contains(x));
                    let k = choose|k: int| 0 <= k < a.len() && a[k] == x;
                    assert(all[k] == x);
                } else {
                    assert(b.contains(x));
                    let k = choose|k: int| 0 <= k < b.len() && b[k] == x;
                    assert(all[a.len() + k] == x);
                }
            }
        }
        assert forall|i: int, j: int| 0 <= i < a.len() && 0 <= j < b.len() implies a[i] != b[j] by {
            if a[i] == b[j] {
                assert(a.contains(a[i]));
                let m = choose|m: int| 0 <= m < front.len() && front[m] == column[a[i]];
                assert(values[m].precedes(values[values.len() - 1]));
                lemma_precedes_asymmetric(values[m], last);
            }
        }
        vstd::seq_lib::lemma_no_dup_in_concat(a, b);
    }
}

/// Cutting a table on a column puts every row into exactly one part: the
/// positions that the rows of the parts had in the table are all the
/// positions of the table, each once.
pub proof fn lemma_partition_covers(column: Seq<Value>)
    ensures
        row_origins(column, distinct_values(column)).len() == column.len(),
        row_origins(column, distinct_values(column)).no_duplicates(),
        forall|x: int|
            row_origins(column, distinct_values(column)).contains(x) <==> 0 <= x < column.len(),
{
    let values = distinct_values(column);
    lemma_distinct_values(column);
    lemma_row_origins(column, values);
    lemma_counts_over_cover(column, values);
}

/// What column `d` holds in the parts of `table` on column `c`, the parts of
/// `values` laid end to end.
pub open spec fn column_over_parts(table: TableView, c: int, d: int, values: Seq<Value>) -> Seq<
    Value,
>
    decreases values.len(),
{
    if values.len() == 0 {
        Seq::empty()
    } else {
        column_over_parts(table, c, d, values.drop_last()) + table.part(c, values.last()).columns[d]
    }
}

proof fn lemma_column_over_parts(table: TableView, c: int, d: int, values: Seq<Value>)
    requires
        0 <= d < table.columns.len(),
    ensures
        column_over_parts(table, c, d, values) == pick(
            table.columns[d],
            row_origins(table.columns[c], values),
        ),
    decreases values.len(),
{
    if values.len() > 0 {
        lemma_column_over_parts(table, c, d, values.drop_last());
    }
    assert(column_over_parts(table, c, d, values) =~= pick(
        table.columns[d],
        row_origins(table.columns[c], values),
    ));
}

/// The parts of a table hold its rows, each once. What a column holds in
/// the parts, laid end to end, is what it holds in the table, in another
/// order: as many cells, every cell of the table among them, and no cell
/// that the table lacks. Where the column tells the rows of the table
/// apart, as a column of identifiers does, it tells the rows of the parts
/// apart.
pub proof fn lemma_parts_hold_every_row(table: TableView, c: int, d: int)
    requires
        table.well_formed(),
        0 <= c < table.columns.len(),
        0 <= d < table.columns.len(),
    ensures
        column_over_parts(table, c, d, distinct_values(table.columns[c])) == pick(
            table.columns[d],
            row_origins(table.columns[c], distinct_values(table.columns[c])),
        ),
        column_over_parts(table, c, d, distinct_values(table.columns[c])).len() == table.rows(),
        forall|x: int|
            0 <= x < table.rows() ==> column_over_parts(
                table,
                c,
                d,
                distinct_values(table.columns[c]),
            ).contains(#[trigger] table.columns[d][x]),
        forall|k: int|
            0 <= k < table.rows() ==> table.columns[d].contains(
                #[trigger] column_over_parts(table, c, d, distinct_values(table.columns[c]))[k],
            ),
        table.columns[d].no_duplicates() ==> column_over_parts(
            table,
            c,
            d,
            distinct_values(table.columns[c]),
        ).no_duplicates(),
{
    let split = table.columns[c];
    let column = table.columns[d];
    let origins = row_origins(split, distinct_values(split));
    let over = column_over_parts(table, c, d, distinct_values(split));
    assert(split.len() == table.rows());
    assert(column.len() == table.rows());
    lemma_partition_covers(split);
    lemma_column_over_parts(table, c, d, distinct_values(split));
    assert forall|x: int| 0 <= x < table.rows() implies over.contains(#[trigger] column[x]) by {
        assert(origins.contains(x));
        let k = choose|k: int| 0 <= k < origins.len() && origins[k] == x;
        assert(over[k] == column[x]);
    }
    assert forall|k: int| 0 <= k < table.rows() implies column.contains(#[trigger] over[k]) by {
        assert(origins.contains(origins[k]));
        assert(column[origins[k]] == over[k]);
    }
    if column.no_duplicates() {
        assert forall|i: int, j: int| 0 <= i < over.len() && 0 <= j < over.len() && i != j implies over[i]
            != over[j] by {
            assert(origins.contains(origins[i]));
            assert(origins.contains(origins[j]));
        }
    }
}

/// A row is in the part of a value exactly if it holds that value, so no
/// row is in two parts.
pub proof fn lemma_parts_disjoint(column: Seq<Value>, v: Value, w: Value, x: int)
    requires
        indices_of(column, v).contains(x),
        indices_of(column, w).contains(x),
    ensures
        v == w,
        0 <= x < column.len(),
        column[x] == v,
{
    lemma_indices_of(column, v);
    lemma_indices_of(column, w);
}

impl Table {
    /// Among the candidate columns, the position in `candidates` of the one
    /// to split on: the first whose score is greatest.
    pub(crate) fn best_split<F: Fn(&Vec<Vec<usize>>) -> i64>(
        &self,
        candidates: &Vec<usize>,
        target: usize,
        score: &F,
    ) -> (best: usize)
        requires
            candidates@.len() > 0,
            target < self@.columns.len(),
            forall|i: int|
                0 <= i < candidates@.len() ==> #[trigger] candidates@[i] < self@.columns.len(),
            scores_all(score),
        ensures
            best < candidates@.len(),
            is_choice(self@, positions(candidates@), target as int, scoring(score), best as int),
    {
        let labels = self.column_at(target);
        let mut scores: Vec<i64> = Vec::new();
        let mut i: usize = 0;
        while i < candidates.len()
            invariant
                i <= candidates.len(),
                target < self@.columns.len(),
                forall|j: int|
                    0 <= j < candidates@.len() ==> #[trigger] candidates@[j] < self@.columns.len(),
                scores_all(score),
                cells(labels@) == self@.columns[target as int],
                labels@.len() == self@.rows(),
                scores@.len() == i,
                forall|j: int|
                    0 <= j < i ==> scores_with(
                        score,
                        joint_counts(
                            self@.columns[positions(candidates@)[j]],
                            self@.columns[target as int],
                        ),
                        #[trigger] integers(scores@)[j],
                    ),
            decreases candidates.len() - i,
        {
            let counts = joint_count_table(self.column_at(candidates[i]), labels);
            let s = score(&counts);
            proof {
                assert(call_ensures(*score, (&counts,), s));
                assert(scores_with(
                    score,
                    joint_counts(
                        self@.columns[positions(candidates@)[i as int]],
                        self@.columns[target as int],
                    ),
                    s as int,
                ));
            }
            let ghost before = integers(scores@);
            scores.push(s);
            proof {
                assert forall|j: int| 0 <= j < i + 1 implies scores_with(
                    score,
                    joint_counts(
                        self@.columns[positions(candidates@)[j]],
                        self@.columns[target as int],
                    ),
                    #[trigger] integers(scores@)[j],
                ) by {
                    if j < i {
                        assert(integers(scores@)[j] == before[j]);
                    }
                }
            }
            i += 1;
        }
        match first_maximum(&scores) {
            Some(best) => {
                proof {
                    let witness = integers(scores@);
                    assert(witness.len() == positions(candidates@).len());
                    assert(is_first_maximum(witness, best as int));
                    assert forall|i: int| 0 <= i < positions(candidates@).len() implies scoring(
                        score,
                    )(
                        joint_counts(
                            self@.columns[positions(candidates@)[i]],
                            self@.columns[target as int],
                        ),
                        #[trigger] witness[i],
                    ) by {}
                }
                best
            },
            None => 0,
        }
    }

    /// The name of the candidate feature to split on: each candidate is
    /// scored by how the target is distributed within its values, and the
    /// first candidate whose score is greatest is chosen.
    pub fn select_best_feature<F: Fn(&Vec<Vec<usize>>) -> i64>(
        &self,
        candidates: &Vec<String>,
        target: &str,
        score: &F,
    ) -> (r: Result<String, Id3Error>)
        requires
            scores_all(score),
        ensures
            match r {
                Ok(name) => {
                    &&& self@.has_column(target@)
                    &&& self@.has_columns(texts(candidates@))
                    &&& exists|best: int|
                        {
                            &&& is_choice(
                                self@,
                                self@.positions_of(texts(candidates@)),
                                self@.names.index_of(target@),
                                scoring(score),
                                best,
                            )
                            &&& 0 <= best < candidates@.len()
                            &&& name@ == #[trigger] texts(candidates@)[best]
                        }
                },
                Err(e) => if !self@.has_column(target@) || !self@.has_columns(texts(candidates@)) {
                    e == Id3Error::InvalidColumn
                } else {
                    e == Id3Error::EmptyCandidateSet && candidates@.len() == 0
                },
            },
    {
        let t = match self.column_index(target) {
            Some(t) => t,
            None => {
                return Err(Id3Error::InvalidColumn);
            },
        };
        let at = match self.column_indices(candidates) {
            Some(at) => at,
            None => {
                return Err(Id3Error::InvalidColumn);
            },
        };
        proof {
            assert(positions(at@).len() == texts(candidates@).len());
        }
        if at.len() == 0 {
            return Err(Id3Error::EmptyCandidateSet);
        }
        let best = self.best_split(&at, t, score);
        proof {
            assert(texts(candidates@)[best as int] == candidates@[best as int]@);
        }
        Ok(candidates[best].clone())
    }

    /// The parts of the table on the column at position `c`: for each
    /// distinct value of the column, in ascending order, the value and the
    /// rows that hold it.
    pub(crate) fn partition_at(&self, c: usize) -> (parts: Vec<(TableType, Table)>)
        requires
            c < self@.columns.len(),
        ensures
            parts@.len() == distinct_values(self@.columns[c as int]).len(),
            forall|k: int|
                0 <= k < parts@.len() ==> {
                    &&& (#[trigger] parts@[k]).0@ == distinct_values(self@.columns[c as int])[k]
                    &&& parts@[k].1@ == self@.part(
                        c as int,
                        distinct_values(self@.columns[c as int])[k],
                    )
                },
    {
        let column = self.column_at(c);
        let values = unique_values(column);
        let ghost want = distinct_values(self@.columns[c as int]);
        let mut parts: Vec<(TableType, Table)> = Vec::new();
        let mut k: usize = 0;
        while k < values.len()
            invariant
                k <= values.len(),
                c < self@.columns.len(),
                cells(column@) == self@.columns[c as int],
                column@.len() == self@.rows(),
                cells(values@) == want,
                parts@.len() == k,
                forall|j: int|
                    0 <= j < k ==> {
                        &&& (#[trigger] parts@[j]).0@ == want[j]
                        &&& parts@[j].1@ == self@.part(c as int, want[j])
                    },
            decreases values.len() - k,
        {
            let rows = matching_indices(column, &values[k]);
            proof {
                lemma_indices_of(cells(column@), values@[k as int]@);
                assert(cells(values@)[k as int] == values@[k as int]@);
                assert forall|j: int| 0 <= j < rows@.len() implies rows@[j] < self@.rows() by {
                    assert(positions(rows@)[j] == rows@[j]);
                }
            }
            let part = self.select_in_range(&rows);
            parts.push((values[k].clone(), part));
            k += 1;
        }
        parts
    }

    /// The parts of the table on the column `feature`: for each distinct
    /// value of the column, in ascending order, the value and the table of
    /// the rows that hold it, with all columns.
    pub fn partition_table(&self, feature: &str) -> (r: Result<Vec<(TableType, Table)>, Id3Error>)
        ensures
            match r {
                Ok(parts) => {
                    &&& self@.has_column(feature@)
                    &&& parts@.len() == distinct_values(self@.column(feature@)).len()
                    &&& forall|k: int|
                        0 <= k < parts@.len() ==> {
                            &&& (#[trigger] parts@[k]).0@ == distinct_values(
                                self@.column(feature@),
                            )[k]
                            &&& parts@[k].1@ == self@.part(
                                self@.names.index_of(feature@),
                                distinct_values(self@.column(feature@))[k],
                            )
                        }
                },
                Err(e) => e == Id3Error::InvalidColumn && !self@.has_column(feature@),
            },
    {
        match self.column_index(feature) {
            Some(c) => Ok(self.partition_at(c)),
            None => Err(Id3Error::InvalidColumn),
        }
    }
}

} // verus!
