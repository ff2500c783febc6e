//! Counting statistics of a table: how often a value occurs in a column,
//! how the values of a column are distributed, and how the values of one
//! column are distributed within each value of another. All of them are
//! exact counts; a probability is a count over a row count.

use crate::column::{
    ascending, count_matching, count_of, distinct_values, indices_of, lemma_distinct_values,
    lemma_indices_of, matching_indices, pick, positions, unique_values,
};
use crate::error::Id3Error;
use crate::table::Table;
use crate::value::{cells, lemma_precedes_asymmetric, TableType, Value};
use vstd::prelude::*;

verus! {

/// The fraction of rows that hold a value: `count` rows out of `total`.
#[derive(Debug, Clone, Copy, PartialEq, Eq, Structural)]
pub struct Probability {
    pub count: usize,
    pub total: usize,
}

/// The sum of a sequence of counts.
pub open spec fn sum(counts: Seq<nat>) -> nat
    decreases counts.len(),
{
    if counts.len() == 0 {
        0
    } else {
        sum(counts.drop_last()) + counts.last()
    }
}

/// For each value of `values`, how many cells of `column` hold it.
pub open spec fn counts_over(column: Seq<Value>, values: Seq<Value>) -> Seq<nat> {
    Seq::new(values.len(), |k: int| count_of(column, values[k]))
}

/// How the values of `column` are distributed: for each distinct value, in
/// ascending order, the number of cells that hold it.
pub open spec fn counts_of(column: Seq<Value>) -> Seq<nat> {
    counts_over(column, distinct_values(column))
}

/// How the values of `target` are distributed within each value of
/// `feature`: row `i` belongs to the `i`-th distinct value of `feature`, and
/// its `j`-th entry counts, among the rows that hold that value, those whose
/// `target` cell holds the `j`-th distinct value of `target`.
pub open spec fn joint_counts(feature: Seq<Value>, target: Seq<Value>) -> Seq<Seq<nat>> {
    Seq::new(
        distinct_values(feature).len(),
        |i: int|
            counts_over(
                pick(target, indices_of(feature, distinct_values(feature)[i])),
                distinct_values(target),
            ),
    )
}

/// Counts as natural numbers.
pub open spec fn naturals(counts: Seq<usize>) -> Seq<nat> {
    Seq::new(counts.len(), |k: int| counts[k] as nat)
}

/// A table of counts as natural numbers.
pub open spec fn count_table(counts: Seq<Vec<usize>>) -> Seq<Seq<nat>> {
    Seq::new(counts.len(), |i: int| naturals(counts[i]@))
}

proof fn lemma_count_in_ascending(u: Seq<Value>, x: Value)
    requires
        ascending(u),
    ensures
        count_of(u, x) == if u.contains(x) {
            1nat
        } else {
            0nat
        },
    decreases u.len(),
{
    if u.len() > 0 {
        let front = u.drop_last();
        assert forall|i: int, j: int| 0 <= i < j < front.len() implies #[trigger] front[i].precedes(
            #[trigger] front[j],
        ) by {
            assert(u[i].precedes(u[j]));
        }
        lemma_count_in_ascending(front, x);
        if u.last() == x {
            if front.contains(x) {
                let k = choose|k: int| 0 <= k < front.len() && front[k] == x;
                assert(u[k].precedes(u[u.len() - 1]));
                lemma_precedes_asymmetric(u[k], u.last());
            }
            assert(u[u.len() - 1] == x);
        } else {
            if front.contains(x) {
                let k = choose|k: int| 0 <= k < front.len() && front[k] == x;
                assert(u[k] == x);
            }
            if u.contains(x) {
                let k = choose|k: int| 0 <= k < u.len() && u[k] == x;
                assert(front[k] == x);
            }
        }
    }
}

proof fn lemma_counts_over_empty(values: Seq<Value>)
    ensures
        sum(counts_over(Seq::empty(), values)) == 0,
    decreases values.len(),
{
    if values.len() > 0 {
        lemma_counts_over_empty(values.drop_last());
        assert(counts_over(Seq::empty(), values).drop_last() =~= counts_over(
            Seq::empty(),
            values.drop_last(),
        ));
    }
}

proof fn lemma_counts_over_push(column: Seq<Value>, x: Value, values: Seq<Value>)
    ensures
        sum(counts_over(column.push(x), values)) == sum(counts_over(column, values)) + count_of(
            values,
            x,
        ),
    decreases values.len(),
{
    if values.len() > 0 {
        let front = values.drop_last();
        lemma_counts_over_push(column, x, front);
        assert(counts_over(column.push(x), values).drop_last() =~= counts_over(
            column.push(x),
            front,
        ));
        assert(counts_over(column, values).drop_last() =~= counts_over(column, front));
        assert(column.push(x).drop_last() =~= column);
    }
}

/// Over an ascending list that holds every value of the column, the counts
/// add up to the length of the column.
pub(crate) proof fn lemma_counts_over_cover(column: Seq<Value>, values: Seq<Value>)
    requires
        ascending(values),
        forall|i: int| 0 <= i < column.len() ==> values.contains(#[trigger] column[i]),
    ensures
        sum(counts_over(column, values)) == column.len(),
    decreases column.len(),
{
    if column.len() == 0 {
        assert(column =~= Seq::empty());
        lemma_counts_over_empty(values);
    } else {
        let front = column.drop_last();
        assert forall|i: int| 0 <= i < front.len() implies values.contains(#[trigger] front[i]) by {
            assert(values.contains(column[i]));
        }
        lemma_counts_over_cover(front, values);
        lemma_counts_over_push(front, column.last(), values);
        assert(front.push(column.last()) =~= column);
        lemma_count_in_ascending(values, column.last());
        assert(values.contains(column[column.len() - 1]));
    }
}

/// The counts of the distinct values of a column add up to the number of
/// its cells: the probabilities of the values of a column add up to one.
pub proof fn lemma_counts_sum_to_rows(column: Seq<Value>)
    ensures
        sum(counts_of(column)) == column.len(),
{
    lemma_distinct_values(column);
    lemma_counts_over_cover(column, distinct_values(column));
}

/// Each distinct value of a column occurs in it: none of the counts is zero.
pub proof fn lemma_counts_positive(column: Seq<Value>)
    ensures
        counts_of(column).len() == distinct_values(column).len(),
        forall|k: int| 0 <= k < counts_of(column).len() ==> #[trigger] counts_of(column)[k] >= 1,
{
    let values = distinct_values(column);
    lemma_distinct_values(column);
    assert forall|k: int| 0 <= k < counts_of(column).len() implies #[trigger] counts_of(column)[k]
        >= 1 by {
        assert(column.contains(values[k]));
        let i = choose|i: int| 0 <= i < column.len() && column[i] == values[k];
        lemma_indices_of(column, values[k]);
        assert(indices_of(column, values[k]).contains(i));
    }
}

/// Each row of the joint counts adds up to the number of cells that hold
/// its value of the feature, and all rows together to the number of cells.
pub proof fn lemma_joint_counts_rows(feature: Seq<Value>, target: Seq<Value>)
    requires
        feature.len() == target.len(),
    ensures
        joint_counts(feature, target).len() == distinct_values(feature).len(),
        forall|i: int|
            0 <= i < joint_counts(feature, target).len() ==> sum(
                #[trigger] joint_counts(feature, target)[i],
            ) == count_of(feature, distinct_values(feature)[i]),
        sum(counts_of(feature)) == feature.len(),
{
    let labels = distinct_values(target);
    lemma_distinct_values(target);
    lemma_counts_sum_to_rows(feature);
    assert forall|i: int| 0 <= i < joint_counts(feature, target).len() implies sum(
        #[trigger] joint_counts(feature, target)[i],
    ) == count_of(feature, distinct_values(feature)[i]) by {
        let rows = indices_of(feature, distinct_values(feature)[i]);
        let picked = pick(target, rows);
        lemma_indices_of(feature, distinct_values(feature)[i]);
        assert forall|k: int| 0 <= k < picked.len() implies labels.contains(
            #[trigger] picked[k],
        ) by {
            assert(labels.contains(target[rows[k]]));
        }
        lemma_counts_over_cover(picked, labels);
    }
}

proof fn lemma_count_all(column: Seq<Value>, v: Value)
    ensures
        count_of(column, v) == column.len() <==> forall|i: int|
            0 <= i < column.len() ==> column[i] == v,
    decreases column.len(),
{
    if column.len() > 0 {
        let front = column.drop_last();
        lemma_count_all(front, v);
        lemma_indices_of(front, v);
        if count_of(column, v) == column.len() {
            assert forall|i: int| 0 <= i < column.len() implies column[i] == v by {
                if i < front.len() {
                    assert(front[i] == v);
                }
            }
        }
        if forall|i: int| 0 <= i < column.len() ==> column[i] == v {
            assert forall|i: int| 0 <= i < front.len() implies front[i] == v by {
                assert(column[i] == v);
            }
        }
    }
}

/// A column with cells holds a single value exactly if the value of its
/// first cell is held by all of its cells, that is, with probability one.
pub proof fn lemma_single_value(column: Seq<Value>)
    requires
        column.len() > 0,
    ensures
        distinct_values(column).len() == 1 <==> count_of(column, column[0]) == column.len(),
{
    let values = distinct_values(column);
    lemma_distinct_values(column);
    lemma_count_all(column, column[0]);
    assert(values.contains(column[0]));
    if values.len() == 1 {
        assert forall|i: int| 0 <= i < column.len() implies #[trigger] column[i] == column[0] by {
            assert(values.contains(column[i]));
        }
    }
    if count_of(column, column[0]) == column.len() {
        if values.len() > 1 {
            assert(column.contains(values[0]));
            assert(column.contains(values[1]));
            assert(values[0].precedes(values[1]));
            lemma_precedes_asymmetric(values[0], values[1]);
        }
    }
}

/// For each of `values`, counts the cells of `column` that hold it.
pub fn count_each(column: &Vec<TableType>, values: &Vec<TableType>) -> (counts: Vec<usize>)
    ensures
        naturals(counts@) == counts_over(cells(column@), cells(values@)),
{
    let mut counts: Vec<usize> = Vec::new();
    let mut k: usize = 0;
    while k < values.len()
        invariant
            k <= values.len(),
            counts@.len() == k,
            forall|j: int|
                0 <= j < k ==> (#[trigger] counts@[j]) as nat == count_of(
                    cells(column@),
                    cells(values@)[j],
                ),
        decreases values.len() - k,
    {
        counts.push(count_matching(column, &values[k]));
        k += 1;
    }
    proof {
        assert(naturals(counts@) =~= counts_over(cells(column@), cells(values@)));
    }
    counts
}

fn count_among(column: &Vec<TableType>, rows: &Vec<usize>, value: &TableType) -> (count: usize)
    requires
        forall|k: int| 0 <= k < rows@.len() ==> rows@[k] < column@.len(),
    ensures
        count == count_of(pick(cells(column@), positions(rows@)), value@),
{
    let ghost picked = pick(cells(column@), positions(rows@));
    let mut count: usize = 0;
    let mut k: usize = 0;
    while k < rows.len()
        invariant
            k <= rows.len(),
            count <= k,
            picked == pick(cells(column@), positions(rows@)),
            forall|j: int| 0 <= j < rows@.len() ==> rows@[j] < column@.len(),
            count == count_of(picked.take(k as int), value@),
        decreases rows.len() - k,
    {
        proof {
            assert(picked.take(k as int + 1).drop_last() =~= picked.take(k as int));
        }
        if column[rows[k]] == *value {
            count += 1;
        }
        k += 1;
    }
    proof {
        assert(picked.take(k as int) =~= picked);
    }
    count
}

/// Counts, for each distinct value of `feature` and each distinct value of
/// `target`, the rows that hold both.
pub(crate) fn joint_count_table(feature: &Vec<TableType>, target: &Vec<TableType>) -> (table: Vec<
    Vec<usize>,
>)
    requires
        feature@.len() == target@.len(),
    ensures
        count_table(table@) == joint_counts(cells(feature@), cells(target@)),
{
    let splits = unique_values(feature);
    let labels = unique_values(target);
    let ghost want = joint_counts(cells(feature@), cells(target@));
    let mut table: Vec<Vec<usize>> = Vec::new();
    let mut i: usize = 0;
    while i < splits.len()
        invariant
            i <= splits.len(),
            feature@.len() == target@.len(),
            cells(splits@) == distinct_values(cells(feature@)),
            cells(labels@) == distinct_values(cells(target@)),
            want == joint_counts(cells(feature@), cells(target@)),
            table@.len() == i,
            forall|h: int| 0 <= h < i ==> naturals(#[trigger] table@[h]@) == want[h],
        decreases splits.len() - i,
    {
        let rows = matching_indices(feature, &splits[i]);
        proof {
            lemma_indices_of(cells(feature@), splits@[i as int]@);
            assert forall|k: int| 0 <= k < rows@.len() implies rows@[k] < target@.len() by {
                assert(positions(rows@)[k] == rows@[k]);
            }
            assert(cells(splits@)[i as int] == splits@[i as int]@);
        }
        let mut line: Vec<usize> = Vec::new();
        let mut j: usize = 0;
        while j < labels.len()
            invariant
                j <= labels.len(),
                forall|k: int| 0 <= k < rows@.len() ==> rows@[k] < target@.len(),
                line@.len() == j,
                forall|h: int|
                    0 <= h < j ==> (#[trigger] line@[h]) as nat == count_of(
                        pick(cells(target@), positions(rows@)),
                        cells(labels@)[h],
                    ),
            decreases labels.len() - j,
        {
            line.push(count_among(target, &rows, &labels[j]));
            j += 1;
        }
        proof {
            assert(naturals(line@) =~= want[i as int]);
        }
        table.push(line);
        i += 1;
    }
    proof {
        assert(count_table(table@) =~= want);
    }
    table
}

impl Table {
    /// The fraction of the rows whose cell in `column` holds `value`, as the
    /// number of such rows and the number of all rows.
    pub fn calculate_probability(&self, column: &str, value: &TableType) -> (r: Result<
        Probability,
        Id3Error,
    >)
        ensures
            match r {
                Ok(p) => {
                    &&& self@.has_column(column@)
                    &&& p.count == count_of(self@.column(column@), value@)
                    &&& p.total == self@.rows()
                    &&& p.count <= p.total
                },
                Err(e) => e == Id3Error::InvalidColumn && !self@.has_column(column@),
            },
    {
        match self.column_index(column) {
            Some(c) => {
                let cells_of = self.column_at(c);
                proof {
                    lemma_indices_of(cells(cells_of@), value@);
                }
                Ok(Probability { count: count_matching(cells_of, value), total: self.row_count() })
            },
            None => Err(Id3Error::InvalidColumn),
        }
    }

    /// How the values of `column` are distributed: for each distinct value,
    /// in ascending order, the number of rows that hold it.
    pub fn value_counts(&self, column: &str) -> (r: Result<Vec<usize>, Id3Error>)
        ensures
            match r {
                Ok(counts) => {
                    &&& self@.has_column(column@)
                    &&& naturals(counts@) == counts_of(self@.column(column@))
                    &&& sum(naturals(counts@)) == self@.rows()
                    &&& forall|k: int| 0 <= k < counts@.len() ==> #[trigger] counts@[k] >= 1
                },
                Err(e) => e == Id3Error::InvalidColumn && !self@.has_column(column@),
            },
    {
        match self.column_index(column) {
            Some(c) => {
                let cells_of = self.column_at(c);
                let values = unique_values(cells_of);
                let counts = count_each(cells_of, &values);
                proof {
                    lemma_counts_sum_to_rows(cells(cells_of@));
                    lemma_counts_positive(cells(cells_of@));
                    assert forall|k: int| 0 <= k < counts@.len() implies #[trigger] counts@[k]
                        >= 1 by {
                        assert(naturals(counts@)[k] == counts@[k]);
                    }
                }
                Ok(counts)
            },
            None => Err(Id3Error::InvalidColumn),
        }
    }

    /// How the values of `target` are distributed within each value of
    /// `column`.
    pub fn contingency(&self, column: &str, target: &str) -> (r: Result<
        Vec<Vec<usize>>,
        Id3Error,
    >)
        ensures
            match r {
                Ok(table) => {
                    &&& self@.has_column(column@)
                    &&& self@.has_column(target@)
                    &&& count_table(table@) == joint_counts(
                        self@.column(column@),
                        self@.column(target@),
                    )
                },
                Err(e) => e == Id3Error::InvalidColumn && !(self@.has_column(column@)
                    && self@.has_column(target@)),
            },
    {
        match (self.column_index(column), self.column_index(target)) {
            (Some(c), Some(t)) => Ok(joint_count_table(self.column_at(c), self.column_at(t))),
            _ => Err(Id3Error::InvalidColumn),
        }
    }
}

} // verus!
