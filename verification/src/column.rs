//! A column as a sequence of values: how often a value occurs, where it
//! occurs, and which values occur at all.

use crate::value::{
    cells, lemma_precedes_asymmetric, lemma_precedes_irreflexive, lemma_precedes_total,
    lemma_precedes_transitive, TableType, Value,
};
use vstd::prelude::*;

verus! {

/// How many cells of `column` hold `v`.
pub open spec fn count_of(column: Seq<Value>, v: Value) -> nat
    decreases column.len(),
{
    if column.len() == 0 {
        0
    } else {
        count_of(column.drop_last(), v) + if column.last() == v {
            1nat
        } else {
            0nat
        }
    }
}

/// The positions of the cells of `column` that hold `v`, in ascending order.
pub open spec fn indices_of(column: Seq<Value>, v: Value) -> Seq<int>
    decreases column.len(),
{
    if column.len() == 0 {
        Seq::empty()
    } else if column.last() == v {
        indices_of(column.drop_last(), v).push(column.len() - 1)
    } else {
        indices_of(column.drop_last(), v)
    }
}

/// The cells of `column` at the positions `rows`, in the order of `rows`.
pub open spec fn pick(column: Seq<Value>, rows: Seq<int>) -> Seq<Value> {
    Seq::new(rows.len(), |k: int| column[rows[k]])
}

/// Positions as mathematical integers.
pub open spec fn positions(rows: Seq<usize>) -> Seq<int> {
    Seq::new(rows.len(), |k: int| rows[k] as int)
}

/// `indices_of` lists exactly the positions that hold `v`, each once and in
/// ascending order, so there are `count_of` of them.
pub proof fn lemma_indices_of(column: Seq<Value>, v: Value)
    ensures
        indices_of(column, v).len() == count_of(column, v),
        count_of(column, v) <= column.len(),
        forall|k: int|
            0 <= k < indices_of(column, v).len() ==> {
                &&& 0 <= #[trigger] indices_of(column, v)[k] < column.len()
                &&& column[indices_of(column, v)[k]] == v
            },
        forall|j: int, k: int|
            0 <= j < k < indices_of(column, v).len() ==> indices_of(column, v)[j] < indices_of(
                column,
                v,
            )[k],
        forall|i: int|
            0 <= i < column.len() && column[i] == v ==> indices_of(column, v).contains(i),
    decreases column.len(),
{
    if column.len() > 0 {
        let front = column.drop_last();
        lemma_indices_of(front, v);
        let before = indices_of(front, v);
        let all = indices_of(column, v);
        assert forall|i: int| 0 <= i < column.len() && column[i] == v implies all.contains(i) by {
            if i < front.len() {
                assert(front[i] == v);
                let k = choose|k: int| 0 <= k < before.len() && before[k] == i;
                assert(all[k] == i);
            } else {
                assert(all[all.len() - 1] == i);
            }
        }
    }
}

/// Counts the cells of `column` that hold `value`.
pub fn count_matching(column: &Vec<TableType>, value: &TableType) -> (count: usize)
    ensures
        count == count_of(cells(column@), value@),
{
    let mut count: usize = 0;
    let mut i: usize = 0;
    while i < column.len()
        invariant
            i <= column.len(),
            count <= i,
            count == count_of(cells(column@).take(i as int), value@),
        decreases column.len() - i,
    {
        proof {
            assert(cells(column@).take(i as int + 1).drop_last() =~= cells(column@).take(i as int));
        }
        if column[i] == *value {
            count += 1;
        }
        i += 1;
    }
    proof {
        assert(cells(column@).take(i as int) =~= cells(column@));
    }
    count
}

/// Lists, in ascending order, the positions of the cells of `column` that
/// hold `value`.
pub fn matching_indices(column: &Vec<TableType>, value: &TableType) -> (rows: Vec<usize>)
    ensures
        positions(rows@) == indices_of(cells(column@), value@),
{
    let mut rows: Vec<usize> = Vec::new();
    let mut i: usize = 0;
    while i < column.len()
        invariant
            i <= column.len(),
            positions(rows@) == indices_of(cells(column@).take(i as int), value@),
        decreases column.len() - i,
    {
        proof {
            assert(cells(column@).take(i as int + 1).drop_last() =~= cells(column@).take(i as int));
        }
        if column[i] == *value {
            rows.push(i);
        }
        i += 1;
    }
    proof {
        assert(cells(column@).take(i as int) =~= cells(column@));
    }
    rows
}

/// Whether the values of `u` ascend strictly.
pub open spec fn ascending(u: Seq<Value>) -> bool {
    forall|i: int, j: int| 0 <= i < j < u.len() ==> #[trigger] u[i].precedes(#[trigger] u[j])
}

/// Whether `u` lists the values that occur in `column`, each once and in
/// ascending order.
pub open spec fn lists_values(u: Seq<Value>, column: Seq<Value>) -> bool {
    &&& ascending(u)
    &&& forall|k: int| 0 <= k < u.len() ==> column.contains(#[trigger] u[k])
    &&& forall|i: int| 0 <= i < column.len() ==> u.contains(#[trigger] column[i])
}

/// How many values of `u` come before `x`.
pub open spec fn rank(u: Seq<Value>, x: Value) -> int
    decreases u.len(),
{
    if u.len() == 0 {
        0
    } else {
        rank(u.drop_last(), x) + if u.last().precedes(x) {
            1int
        } else {
            0int
        }
    }
}

/// `u` with `x` put in at its rank, unless `u` holds `x` already.
pub open spec fn with_value(u: Seq<Value>, x: Value) -> Seq<Value> {
    if u.contains(x) {
        u
    } else {
        u.insert(rank(u, x), x)
    }
}

/// The values that occur in `column`, each once and in ascending order.
pub open spec fn distinct_values(column: Seq<Value>) -> Seq<Value>
    decreases column.len(),
{
    if column.len() == 0 {
        Seq::empty()
    } else {
        with_value(distinct_values(column.drop_last()), column.last())
    }
}

proof fn lemma_rank_ascending(u: Seq<Value>, x: Value)
    requires
        ascending(u),
    ensures
        0 <= rank(u, x) <= u.len(),
        forall|i: int| 0 <= i < u.len() ==> (#[trigger] u[i].precedes(x) <==> i < rank(u, x)),
    decreases u.len(),
{
    if u.len() > 0 {
        let front = u.drop_last();
        assert forall|i: int, j: int| 0 <= i < j < front.len() implies #[trigger] front[i].precedes(
            #[trigger] front[j],
        ) by {
            assert(u[i].precedes(u[j]));
        }
        lemma_rank_ascending(front, x);
        assert forall|i: int| 0 <= i < u.len() implies (#[trigger] u[i].precedes(x) <==> i < rank(
            u,
            x,
        )) by {
            if i < front.len() {
                assert(front[i] == u[i]);
                if u.last().precedes(x) {
                    assert(u[i].precedes(u[u.len() - 1]));
                    lemma_precedes_transitive(u[i], u.last(), x);
                }
                if u[i].precedes(x) && !(i < rank(front, x)) {
                    assert(front[i].precedes(x));
                }
            } else {
                if u.last().precedes(x) && rank(front, x) < front.len() {
                    let r = rank(front, x);
                    assert(!front[r].precedes(x));
                    assert(u[r].precedes(u[u.len() - 1]));
                    lemma_precedes_transitive(u[r], u.last(), x);
                }
            }
        }
    }
}

proof fn lemma_with_value(u: Seq<Value>, x: Value)
    requires
        ascending(u),
    ensures
        ascending(with_value(u, x)),
        forall|y: Value| with_value(u, x).contains(y) <==> (u.contains(y) || y == x),
{
    let w = with_value(u, x);
    if u.contains(x) {
    } else {
        let r = rank(u, x);
        lemma_rank_ascending(u, x);
        assert forall|i: int, j: int| 0 <= i < j < w.len() implies #[trigger] w[i].precedes(
            #[trigger] w[j],
        ) by {
            if j < r {
                assert(u[i].precedes(u[j]));
            } else if j == r {
                assert(u[i].precedes(x));
            } else if i < r {
                assert(u[i].precedes(u[j - 1]));
            } else if i == r {
                assert(u[j - 1] != x);
                assert(!u[j - 1].precedes(x));
                lemma_precedes_total(u[j - 1], x);
            } else {
                assert(u[i - 1].precedes(u[j - 1]));
            }
        }
        assert forall|y: Value| w.contains(y) <==> (u.contains(y) || y == x) by {
            if w.contains(y) {
                let k = choose|k: int| 0 <= k < w.len() && w[k] == y;
                if k < r {
                    assert(u[k] == y);
                } else if k > r {
                    assert(u[k - 1] == y);
                }
            }
            if u.contains(y) {
                let k = choose|k: int| 0 <= k < u.len() && u[k] == y;
                if k < r {
                    assert(w[k] == y);
                } else {
                    assert(w[k + 1] == y);
                }
            }
            if y == x {
                assert(w[r] == y);
            }
        }
    }
}

/// `distinct_values` lists the values that occur in the column, each once
/// and in ascending order.
pub proof fn lemma_distinct_values(column: Seq<Value>)
    ensures
        lists_values(distinct_values(column), column),
    decreases column.len(),
{
    if column.len() > 0 {
        let front = column.drop_last();
        let before = distinct_values(front);
        let u = distinct_values(column);
        lemma_distinct_values(front);
        lemma_with_value(before, column.last());
        assert forall|k: int| 0 <= k < u.len() implies column.contains(#[trigger] u[k]) by {
            assert(u.contains(u[k]));
            if before.contains(u[k]) {
                let j = choose|j: int| 0 <= j < before.len() && before[j] == u[k];
                assert(front.contains(before[j]));
                let i = choose|i: int| 0 <= i < front.len() && front[i] == u[k];
                assert(column[i] == u[k]);
            } else {
                assert(column[column.len() - 1] == u[k]);
            }
        }
        assert forall|i: int| 0 <= i < column.len() implies u.contains(#[trigger] column[i]) by {
            if i < front.len() {
                assert(before.contains(front[i]));
            }
        }
    }
}

/// Only one list holds the values of a column each once and in ascending
/// order.
pub proof fn lemma_lists_values_unique(u: Seq<Value>, w: Seq<Value>, column: Seq<Value>)
    requires
        lists_values(u, column),
        lists_values(w, column),
    ensures
        u == w,
{
    lemma_same_members_same_list(u, w);
}

proof fn lemma_same_members_same_list(u: Seq<Value>, w: Seq<Value>)
    requires
        ascending(u),
        ascending(w),
        forall|y: Value| u.contains(y) <==> w.contains(y),
    ensures
        u == w,
    decreases u.len(),
{
    if u.len() == 0 {
        if w.len() > 0 {
            assert(w.contains(w[0]));
        }
        assert(u =~= w);
    } else if w.len() == 0 {
        assert(u.contains(u[0]));
    } else {
        let a = u.last();
        let b = w.last();
        assert(u.contains(a));
        assert(w.contains(b));
        let i = choose|i: int| 0 <= i < w.len() && w[i] == a;
        let j = choose|j: int| 0 <= j < u.len() && u[j] == b;
        if a != b {
            assert(w[i].precedes(w[w.len() - 1]));
            assert(u[j].precedes(u[u.len() - 1]));
            lemma_precedes_asymmetric(a, b);
        }
        let uf = u.drop_last();
        let wf = w.drop_last();
        assert forall|y: Value| uf.contains(y) <==> wf.contains(y) by {
            lemma_precedes_irreflexive(a);
            if uf.contains(y) {
                let k = choose|k: int| 0 <= k < uf.len() && uf[k] == y;
                assert(u[k].precedes(u[u.len() - 1]));
                assert(u.contains(y));
                let m = choose|m: int| 0 <= m < w.len() && w[m] == y;
                assert(wf[m] == y);
            }
            if wf.contains(y) {
                let k = choose|k: int| 0 <= k < wf.len() && wf[k] == y;
                assert(w[k].precedes(w[w.len() - 1]));
                assert(w.contains(y));
                let m = choose|m: int| 0 <= m < u.len() && u[m] == y;
                assert(uf[m] == y);
            }
        }
        assert(ascending(uf)) by {
            assert forall|i: int, j: int| 0 <= i < j < uf.len() implies #[trigger] uf[i].precedes(
                #[trigger] uf[j],
            ) by {
                assert(u[i].precedes(u[j]));
            }
        }
        assert(ascending(wf)) by {
            assert forall|i: int, j: int| 0 <= i < j < wf.len() implies #[trigger] wf[i].precedes(
                #[trigger] wf[j],
            ) by {
                assert(w[i].precedes(w[j]));
            }
        }
        lemma_same_members_same_list(uf, wf);
        assert(u =~= uf.push(a));
        assert(w =~= wf.push(b));
    }
}

fn insertion_point(sorted: &Vec<TableType>, value: &TableType) -> (p: usize)
    requires
        ascending(cells(sorted@)),
    ensures
        p == rank(cells(sorted@), value@),
{
    let mut p: usize = 0;
    while p < sorted.len() && sorted[p].precedes(value)
        invariant
            p <= sorted.len(),
            forall|k: int| 0 <= k < p ==> (#[trigger] cells(sorted@)[k]).precedes(value@),
        decreases sorted.len() - p,
    {
        p += 1;
    }
    proof {
        lemma_rank_ascending(cells(sorted@), value@);
        if p < sorted.len() {
            assert(!cells(sorted@)[p as int].precedes(value@));
        }
        if p > 0 {
            assert(cells(sorted@)[p as int - 1].precedes(value@));
        }
    }
    p
}

/// Lists the values that occur in `column`, each once and in ascending
/// order.
pub fn unique_values(column: &Vec<TableType>) -> (unique: Vec<TableType>)
    ensures
        cells(unique@) == distinct_values(cells(column@)),
        lists_values(cells(unique@), cells(column@)),
{
    let mut unique: Vec<TableType> = Vec::new();
    let mut i: usize = 0;
    proof {
        assert(cells(unique@) =~= distinct_values(cells(column@).take(0)));
    }
    while i < column.len()
        invariant
            i <= column.len(),
            cells(unique@) == distinct_values(cells(column@).take(i as int)),
        decreases column.len() - i,
    {
        let ghost front = cells(column@).take(i as int);
        let ghost before = cells(unique@);
        let ghost x = column@[i as int]@;
        proof {
            assert(cells(column@).take(i as int + 1).drop_last() =~= front);
            lemma_distinct_values(front);
            lemma_rank_ascending(before, x);
        }
        let p = insertion_point(&unique, &column[i]);
        if p < unique.len() && unique[p] == column[i] {
            proof {
                assert(before[p as int] == x);
            }
        } else {
            proof {
                if before.contains(x) {
                    let j = choose|j: int| 0 <= j < before.len() && before[j] == x;
                    lemma_precedes_irreflexive(x);
                    if p < j {
                        assert(before[p as int].precedes(before[j]));
                    }
                }
            }
            unique.insert(p, column[i].clone());
            proof {
                assert(cells(unique@) =~= before.insert(p as int, x));
            }
        }
        i += 1;
    }
    proof {
        assert(cells(column@).take(i as int) =~= cells(column@));
        lemma_distinct_values(cells(column@));
    }
    unique
}

} // verus!
