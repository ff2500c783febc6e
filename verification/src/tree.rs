//! Decision trees and their induction: a table is split on the candidate
//! feature whose score is greatest, and each part is split again on the
//! candidates that are left, until a part is pure or no candidate is left.

use crate::column::{
    count_matching, count_of, distinct_values, indices_of, lemma_distinct_values,
    lemma_indices_of, pick, positions, unique_values,
};
use crate::error::Id3Error;
use crate::partition::{
    first_maximum_of, is_choice, is_first_maximum, lemma_first_maximum_exists,
    lemma_first_maximum_unique, scores_all, scoring,
};
use crate::table::{lemma_select, texts, Table, TableView};
use crate::value::{cells, TableType, Value};
use vstd::prelude::*;

verus! {

/// A decision tree. A leaf predicts a value of the target. A node splits on
/// a feature: `values` holds the distinct values of the feature in
/// ascending order, `children` holds for each of them, in the same order,
/// the tree of the rows that hold it, and `value` is the first of `values`.
#[derive(Debug, PartialEq, Eq)]
pub enum DecisionTree {
    Leaf(TableType),
    Node { feature: String, value: TableType, values: Vec<TableType>, children: Vec<DecisionTree> },
}

impl DecisionTree {
    /// Whether the tree is a single leaf that predicts `v`.
    pub open spec fn predicts(self, v: Value) -> bool {
        self matches DecisionTree::Leaf(x) && x@ == v
    }

    /// Whether every leaf of the tree predicts one of `labels`.
    pub open spec fn leaves_among(self, labels: Seq<Value>) -> bool
        decreases self,
    {
        match self {
            DecisionTree::Leaf(v) => labels.contains(v@),
            DecisionTree::Node { children, .. } => forall|k: int|
                0 <= k < children@.len() ==> (#[trigger] children@[k]).leaves_among(labels),
        }
    }

    /// Whether no path from the root to a leaf passes more than `limit`
    /// nodes.
    pub open spec fn within_height(self, limit: nat) -> bool
        decreases self,
    {
        match self {
            DecisionTree::Leaf(_) => true,
            DecisionTree::Node { children, .. } => limit > 0 && forall|k: int|
                0 <= k < children@.len() ==> (#[trigger] children@[k]).within_height(
                    (limit - 1) as nat,
                ),
        }
    }
}

/// For each cell of `labels`, how many cells of `labels` hold its value.
pub open spec fn row_counts(labels: Seq<Value>) -> Seq<int> {
    Seq::new(labels.len(), |i: int| count_of(labels, labels[i]) as int)
}

/// The value that most cells of `labels` hold; where several values are
/// held by equally many, the one among them that occurs first.
pub open spec fn majority_of(labels: Seq<Value>) -> Value {
    labels[first_maximum_of(row_counts(labels))]
}

/// The majority value of a column with cells occurs in it, no value occurs
/// more often, and every value met before it occurs less often.
pub proof fn lemma_majority(labels: Seq<Value>)
    requires
        labels.len() > 0,
    ensures
        forall|v: Value| #[trigger] count_of(labels, v) <= count_of(labels, majority_of(labels)),
        exists|i: int|
            {
                &&& 0 <= i < labels.len()
                &&& #[trigger] labels[i] == majority_of(labels)
                &&& forall|j: int|
                    0 <= j < i ==> count_of(labels, #[trigger] labels[j]) < count_of(
                        labels,
                        majority_of(labels),
                    )
            },
{
    let counts = row_counts(labels);
    let best = first_maximum_of(counts);
    lemma_first_maximum_exists(counts);
    assert forall|v: Value| #[trigger] count_of(labels, v) <= count_of(
        labels,
        majority_of(labels),
    ) by {
        lemma_indices_of(labels, v);
        if count_of(labels, v) > 0 {
            let j = indices_of(labels, v)[0];
            assert(counts[j] <= counts[best]);
        }
    }
    assert forall|j: int| 0 <= j < best implies count_of(labels, #[trigger] labels[j]) < count_of(
        labels,
        majority_of(labels),
    ) by {
        assert(counts[j] < counts[best]);
    }
    assert(labels[best] == majority_of(labels));
}

/// Whether `tree` is the tree of `table` for the target column at position
/// `target`, the candidate columns at the positions `candidates`, and the
/// scores that `score` admits.
///
/// A table without rows has a leaf with `fallback`. A table whose target
/// holds one value has a leaf with that value. Without candidates the tree
/// is a leaf with the majority value of the target. Otherwise it is a node
/// on the chosen candidate, with one child per distinct value of that
/// column: the tree of the rows that hold the value, for the candidates
/// without the chosen one, with the majority value of this table as its
/// fallback.
pub open spec fn grown(
    table: TableView,
    candidates: Seq<int>,
    target: int,
    score: spec_fn(Seq<Seq<nat>>, int) -> bool,
    fallback: Value,
    tree: DecisionTree,
) -> bool
    decreases candidates.len(),
{
    let labels = table.columns[target];
    if table.rows() == 0 {
        tree.predicts(fallback)
    } else if distinct_values(labels).len() == 1 {
        tree.predicts(labels[0])
    } else if candidates.len() == 0 {
        tree.predicts(majority_of(labels))
    } else {
        exists|best: int|
            {
                &&& 0 <= best < candidates.len()
                &&& #[trigger] is_choice(table, candidates, target, score, best)
                &&& tree matches DecisionTree::Node { feature, value, values, children }
                &&& feature@ == table.names[candidates[best]]
                &&& cells(values@) == distinct_values(table.columns[candidates[best]])
                &&& value@ == distinct_values(table.columns[candidates[best]])[0]
                &&& children@.len() == values@.len()
                &&& forall|k: int|
                    0 <= k < children@.len() ==> grown(
                        table.part(candidates[best], cells(values@)[k]),
                        candidates.remove(best),
                        target,
                        score,
                        majority_of(labels),
                        #[trigger] children@[k],
                    )
            }
    }
}

/// The value that most cells of `labels` hold, the one that occurs first
/// where several are held by equally many; none where there is no cell.
pub fn most_common(labels: &Vec<TableType>) -> (found: Option<TableType>)
    ensures
        match found {
            Some(v) => labels@.len() > 0 && v@ == majority_of(cells(labels@)),
            None => labels@.len() == 0,
        },
{
    if labels.len() == 0 {
        return None;
    }
    let ghost counts = row_counts(cells(labels@));
    let mut best: usize = 0;
    let mut most: usize = count_matching(labels, &labels[0]);
    let mut i: usize = 1;
    while i < labels.len()
        invariant
            1 <= i <= labels.len(),
            best < i,
            counts == row_counts(cells(labels@)),
            most == counts[best as int],
            forall|j: int| 0 <= j < i ==> counts[j] <= counts[best as int],
            forall|j: int| 0 <= j < best ==> counts[j] < counts[best as int],
        decreases labels.len() - i,
    {
        let count = count_matching(labels, &labels[i]);
        if count > most {
            best = i;
            most = count;
        }
        i += 1;
    }
    proof {
        assert(is_first_maximum(counts, best as int));
        lemma_first_maximum_unique(counts, best as int, first_maximum_of(counts));
    }
    Some(labels[best].clone())
}

fn without(list: &Vec<usize>, at: usize) -> (rest: Vec<usize>)
    requires
        at < list@.len(),
    ensures
        rest@ == list@.remove(at as int),
{
    let mut rest: Vec<usize> = Vec::new();
    let mut i: usize = 0;
    while i < list.len()
        invariant
            i <= list.len(),
            at < list@.len(),
            rest@.len() == if i <= at {
                i as int
            } else {
                i - 1
            },
            forall|j: int| 0 <= j < rest@.len() && j < at ==> rest@[j] == list@[j],
            forall|j: int| at <= j < rest@.len() ==> rest@[j] == list@[j + 1],
        decreases list.len() - i,
    {
        if i != at {
            rest.push(list[i]);
        }
        i += 1;
    }
    proof {
        assert(rest@ =~= list@.remove(at as int));
    }
    rest
}

fn grow<F: Fn(&Vec<Vec<usize>>) -> i64>(
    table: &Table,
    candidates: &Vec<usize>,
    target: usize,
    score: &F,
    fallback: &TableType,
) -> (tree: DecisionTree)
    requires
        target < table@.columns.len(),
        forall|i: int|
            0 <= i < candidates@.len() ==> #[trigger] candidates@[i] < table@.columns.len(),
        scores_all(score),
    ensures
        grown(table@, positions(candidates@), target as int, scoring(score), fallback@, tree),
    decreases candidates@.len(),
{
    if table.row_count() == 0 {
        return DecisionTree::Leaf(fallback.clone());
    }
    let labels = table.column_at(target);
    let classes = unique_values(labels);
    if classes.len() == 1 {
        proof {
            assert(cells(classes@).contains(cells(labels@)[0]));
        }
        return DecisionTree::Leaf(classes[0].clone());
    }
    let majority = match most_common(labels) {
        Some(v) => v,
        None => fallback.clone(),
    };
    if candidates.len() == 0 {
        return DecisionTree::Leaf(majority);
    }
    let best = table.best_split(candidates, target, score);
    let c = candidates[best];
    let rest = without(candidates, best);
    let parts = table.partition_at(c);
    let ghost want = distinct_values(table@.columns[c as int]);
    proof {
        assert(positions(rest@) =~= positions(candidates@).remove(best as int));
        lemma_distinct_values(table@.columns[c as int]);
        use_type_invariant(table);
        assert(table@.columns[c as int].len() == table@.rows());
        assert(want.contains(table@.columns[c as int][0]));
    }
    let mut values: Vec<TableType> = Vec::new();
    let mut children: Vec<DecisionTree> = Vec::new();
    let mut k: usize = 0;
    while k < parts.len()
        invariant
            k <= parts.len(),
            target < table@.columns.len(),
            c < table@.columns.len(),
            scores_all(score),
            rest@.len() < candidates@.len(),
            forall|i: int| 0 <= i < rest@.len() ==> #[trigger] rest@[i] < table@.columns.len(),
            want == distinct_values(table@.columns[c as int]),
            parts@.len() == want.len(),
            forall|j: int|
                0 <= j < parts@.len() ==> {
                    &&& (#[trigger] parts@[j]).0@ == want[j]
                    &&& parts@[j].1@ == table@.part(c as int, want[j])
                },
            values@.len() == k,
            children@.len() == k,
            forall|j: int| 0 <= j < k ==> (#[trigger] values@[j])@ == want[j],
            forall|j: int|
                0 <= j < k ==> grown(
                    table@.part(c as int, want[j]),
                    positions(rest@),
                    target as int,
                    scoring(score),
                    majority@,
                    #[trigger] children@[j],
                ),
        decreases parts.len() - k,
    {
        let part = &parts[k];
        let child = grow(&part.1, &rest, target, score, &majority);
        values.push(part.0.clone());
        children.push(child);
        k += 1;
    }
    let value = values[0].clone();
    let feature = table.name_at(c).clone();
    proof {
        assert(cells(values@) =~= want);
        assert(positions(candidates@)[best as int] == c);
    }
    DecisionTree::Node { feature, value, values, children }
}

impl Table {
    /// Builds the tree of this table as the child of a table whose majority
    /// value is `fallback`: a table without rows gives a leaf with
    /// `fallback`.
    pub fn build_subtree<F: Fn(&Vec<Vec<usize>>) -> i64>(
        &self,
        candidates: &Vec<String>,
        target: &str,
        score: &F,
        fallback: &TableType,
    ) -> (r: Result<DecisionTree, Id3Error>)
        requires
            scores_all(score),
        ensures
            match r {
                Ok(tree) => {
                    &&& self@.has_column(target@)
                    &&& self@.has_columns(texts(candidates@))
                    &&& grown(
                        self@,
                        self@.positions_of(texts(candidates@)),
                        self@.names.index_of(target@),
                        scoring(score),
                        fallback@,
                        tree,
                    )
                    &&& tree.within_height(candidates@.len() as nat)
                    &&& self@.rows() == 0 ==> tree.predicts(fallback@)
                    &&& self@.rows() > 0 ==> tree.leaves_among(self@.column(target@))
                },
                Err(e) => e == Id3Error::InvalidColumn && !(self@.has_column(target@)
                    && self@.has_columns(texts(candidates@))),
            },
    {
        let t = match self.column_index(target) {
            Some(t) => t,
            None => {
                return Err(Id3Error::InvalidColumn);
            },
        };
        let at = match self.column_indices(candidates) {
            Some(at) => at,
            None => {
                return Err(Id3Error::InvalidColumn);
            },
        };
        let tree = grow(self, &at, t, score, fallback);
        proof {
            use_type_invariant(self);
            lemma_height_within_candidates(
                self@,
                positions(at@),
                t as int,
                scoring(score),
                fallback@,
                tree,
            );
            if self@.rows() > 0 {
                lemma_leaves_are_labels(
                    self@,
                    positions(at@),
                    t as int,
                    scoring(score),
                    fallback@,
                    tree,
                );
            }
        }
        Ok(tree)
    }

    /// Builds the decision tree of this table for the target column
    /// `target`, splitting on the candidate features `candidates`, each
    /// scored by `score` from how the target is distributed within its
    /// values.
    pub fn build_tree<F: Fn(&Vec<Vec<usize>>) -> i64>(
        &self,
        candidates: &Vec<String>,
        target: &str,
        score: &F,
    ) -> (r: Result<DecisionTree, Id3Error>)
        requires
            scores_all(score),
        ensures
            match r {
                Ok(tree) => {
                    &&& self@.has_column(target@)
                    &&& self@.has_columns(texts(candidates@))
                    &&& self@.rows() > 0
                    &&& grown(
                        self@,
                        self@.positions_of(texts(candidates@)),
                        self@.names.index_of(target@),
                        scoring(score),
                        majority_of(self@.column(target@)),
                        tree,
                    )
                    &&& tree.within_height(candidates@.len() as nat)
                    &&& tree.leaves_among(self@.column(target@))
                },
                Err(e) => if !(self@.has_column(target@) && self@.has_columns(
                    texts(candidates@),
                )) {
                    e == Id3Error::InvalidColumn
                } else {
                    e == Id3Error::EmptyDataset && self@.rows() == 0
                },
            },
            self@.has_column(target@) && self@.has_columns(texts(candidates@)) && distinct_values(
                self@.column(target@),
            ).len() == 1 ==> (r matches Ok(tree) && tree.predicts(self@.column(target@)[0])),
    {
        let t = match self.column_index(target) {
            Some(t) => t,
            None => {
                return Err(Id3Error::InvalidColumn);
            },
        };
        let at = match self.column_indices(candidates) {
            Some(at) => at,
            None => {
                return Err(Id3Error::InvalidColumn);
            },
        };
        match most_common(self.column_at(t)) {
            Some(majority) => {
                let tree = grow(self, &at, t, score, &majority);
                proof {
                    use_type_invariant(self);
                    lemma_height_within_candidates(
                        self@,
                        positions(at@),
                        t as int,
                        scoring(score),
                        majority@,
                        tree,
                    );
                    lemma_leaves_are_labels(
                        self@,
                        positions(at@),
                        t as int,
                        scoring(score),
                        majority@,
                        tree,
                    );
                }
                Ok(tree)
            },
            None => Err(Id3Error::EmptyDataset),
        }
    }
}

/// A table with rows whose target holds one value has a leaf with that
/// value for its tree, whatever the candidates and the scores are.
pub proof fn lemma_pure_target_gives_leaf(
    table: TableView,
    candidates: Seq<int>,
    target: int,
    score: spec_fn(Seq<Seq<nat>>, int) -> bool,
    fallback: Value,
    tree: DecisionTree,
)
    requires
        grown(table, candidates, target, score, fallback, tree),
        table.rows() > 0,
        distinct_values(table.columns[target]).len() == 1,
    ensures
        tree.predicts(table.columns[target][0]),
        forall|i: int|
            0 <= i < table.columns[target].len() ==> tree.predicts(
                #[trigger] table.columns[target][i],
            ),
{
    let labels = table.columns[target];
    lemma_distinct_values(labels);
    assert forall|i: int| 0 <= i < labels.len() implies tree.predicts(#[trigger] labels[i]) by {
        assert(distinct_values(labels).contains(labels[i]));
        assert(distinct_values(labels).contains(labels[0]));
    }
}

proof fn lemma_leaves_among_more(tree: DecisionTree, fewer: Seq<Value>, more: Seq<Value>)
    requires
        tree.leaves_among(fewer),
        forall|i: int| 0 <= i < fewer.len() ==> more.contains(#[trigger] fewer[i]),
    ensures
        tree.leaves_among(more),
    decreases tree,
{
    match tree {
        DecisionTree::Leaf(v) => {
            let i = choose|i: int| 0 <= i < fewer.len() && fewer[i] == v@;
            assert(more.contains(fewer[i]));
        },
        DecisionTree::Node { children, .. } => {
            assert forall|k: int| 0 <= k < children@.len() implies (
            #[trigger] children@[k]).leaves_among(more) by {
                lemma_leaves_among_more(children@[k], fewer, more);
            }
        },
    }
}

/// Every leaf of the tree of a table with rows predicts a value that the
/// target column holds.
pub proof fn lemma_leaves_are_labels(
    table: TableView,
    candidates: Seq<int>,
    target: int,
    score: spec_fn(Seq<Seq<nat>>, int) -> bool,
    fallback: Value,
    tree: DecisionTree,
)
    requires
        table.well_formed(),
        0 <= target < table.columns.len(),
        forall|i: int|
            0 <= i < candidates.len() ==> 0 <= #[trigger] candidates[i] < table.columns.len(),
        table.rows() > 0,
        grown(table, candidates, target, score, fallback, tree),
    ensures
        tree.leaves_among(table.columns[target]),
    decreases candidates.len(),
{
    let labels = table.columns[target];
    assert(labels.len() == table.rows());
    if distinct_values(labels).len() == 1 {
        assert(labels.contains(labels[0]));
    } else if candidates.len() == 0 {
        lemma_first_maximum_exists(row_counts(labels));
        assert(labels.contains(labels[first_maximum_of(row_counts(labels))]));
    } else {
        let best = choose|best: int|
            {
                &&& 0 <= best < candidates.len()
                &&& #[trigger] is_choice(table, candidates, target, score, best)
                &&& tree matches DecisionTree::Node { feature, value, values, children }
                &&& feature@ == table.names[candidates[best]]
                &&& cells(values@) == distinct_values(table.columns[candidates[best]])
                &&& value@ == distinct_values(table.columns[candidates[best]])[0]
                &&& children@.len() == values@.len()
                &&& forall|k: int|
                    0 <= k < children@.len() ==> grown(
                        table.part(candidates[best], cells(values@)[k]),
                        candidates.remove(best),
                        target,
                        score,
                        majority_of(labels),
                        #[trigger] children@[k],
                    )
            };
        let c = candidates[best];
        let column = table.columns[c];
        let rest = candidates.remove(best);
        assert(column.len() == table.rows());
        lemma_distinct_values(column);
        match tree {
            DecisionTree::Leaf(_) => {},
            DecisionTree::Node { feature, value, values, children } => {
                assert forall|k: int| 0 <= k < children@.len() implies (
                #[trigger] children@[k]).leaves_among(labels) by {
                    let v = cells(values@)[k];
                    let rows = indices_of(column, v);
                    let part = table.part(c, v);
                    lemma_indices_of(column, v);
                    assert(column.contains(distinct_values(column)[k]));
                    let i = choose|i: int| 0 <= i < column.len() && column[i] == v;
                    assert(rows.contains(i));
                    lemma_select(table, rows);
                    assert(part.columns[target] == pick(labels, rows));
                    lemma_leaves_are_labels(
                        part,
                        rest,
                        target,
                        score,
                        majority_of(labels),
                        children@[k],
                    );
                    assert forall|j: int| 0 <= j < pick(labels, rows).len() implies labels.contains(
                        #[trigger] pick(labels, rows)[j],
                    ) by {
                        assert(labels[rows[j]] == pick(labels, rows)[j]);
                    }
                    lemma_leaves_among_more(children@[k], pick(labels, rows), labels);
                }
            },
        }
    }
}

/// No path of a tree passes more nodes than there were candidates: each
/// node uses one up.
pub proof fn lemma_height_within_candidates(
    table: TableView,
    candidates: Seq<int>,
    target: int,
    score: spec_fn(Seq<Seq<nat>>, int) -> bool,
    fallback: Value,
    tree: DecisionTree,
)
    requires
        grown(table, candidates, target, score, fallback, tree),
    ensures
        tree.within_height(candidates.len()),
    decreases candidates.len(),
{
    let labels = table.columns[target];
    match tree {
        DecisionTree::Leaf(_) => {},
        DecisionTree::Node { feature, value, values, children } => {
            let best = choose|best: int|
                {
                    &&& 0 <= best < candidates.len()
                    &&& #[trigger] is_choice(table, candidates, target, score, best)
                    &&& forall|k: int|
                        0 <= k < children@.len() ==> grown(
                            table.part(candidates[best], cells(values@)[k]),
                            candidates.remove(best),
                            target,
                            score,
                            majority_of(labels),
                            #[trigger] children@[k],
                        )
                };
            assert forall|k: int| 0 <= k < children@.len() implies (
            #[trigger] children@[k]).within_height((candidates.len() - 1) as nat) by {
                lemma_height_within_candidates(
                    table.part(candidates[best], cells(values@)[k]),
                    candidates.remove(best),
                    target,
                    score,
                    majority_of(labels),
                    children@[k],
                );
            }
        },
    }
}

} // verus!
