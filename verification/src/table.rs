//! Tables: named columns of equal length, each holding cells of one kind.

use crate::column::{
    distinct_values, indices_of, lists_values, matching_indices, pick, positions, unique_values,
};
use crate::error::Id3Error;
use crate::value::{cells, TableType, Value};
use vstd::prelude::*;

verus! {

/// The mathematical content of a table: the names of its columns and, in
/// the same order, what each column holds.
pub struct TableView {
    pub names: Seq<Seq<char>>,
    pub columns: Seq<Seq<Value>>,
}

impl TableView {
    /// The number of rows.
    pub open spec fn rows(self) -> nat {
        if self.columns.len() == 0 {
            0
        } else {
            self.columns[0].len()
        }
    }

    /// Whether a column has this name.
    pub open spec fn has_column(self, name: Seq<char>) -> bool {
        self.names.contains(name)
    }

    /// What the column of this name holds.
    pub open spec fn column(self, name: Seq<char>) -> Seq<Value> {
        self.columns[self.names.index_of(name)]
    }

    /// Every column has a name of its own, all columns are of one length,
    /// and the cells of a column are of one kind.
    pub open spec fn well_formed(self) -> bool {
        &&& self.names.len() == self.columns.len()
        &&& self.names.no_duplicates()
        &&& forall|c: int|
            0 <= c < self.columns.len() ==> (#[trigger] self.columns[c]).len() == self.rows()
        &&& forall|c: int, i: int|
            0 <= c < self.columns.len() && 0 <= i < self.columns[c].len()
                ==> (#[trigger] self.columns[c][i]).same_kind(self.columns[c][0])
    }

    /// The table made of the rows at the positions `rows`, in that order.
    pub open spec fn select(self, rows: Seq<int>) -> TableView {
        TableView {
            names: self.names,
            columns: Seq::new(self.columns.len(), |c: int| pick(self.columns[c], rows)),
        }
    }

    /// The table made of the rows whose cell in column `c` holds `value`.
    pub open spec fn part(self, c: int, value: Value) -> TableView {
        self.select(indices_of(self.columns[c], value))
    }

    /// The positions of the columns of these names.
    pub open spec fn positions_of(self, names: Seq<Seq<char>>) -> Seq<int> {
        Seq::new(names.len(), |i: int| self.names.index_of(names[i]))
    }

    /// Whether a column has each of these names.
    pub open spec fn has_columns(self, names: Seq<Seq<char>>) -> bool {
        forall|i: int| 0 <= i < names.len() ==> self.has_column(#[trigger] names[i])
    }
}

/// The contents of a list of names.
pub open spec fn texts(names: Seq<String>) -> Seq<Seq<char>> {
    Seq::new(names.len(), |i: int| names[i]@)
}

/// The rows selected from a well-formed table form a well-formed table with
/// the same columns and one row for each position.
pub proof fn lemma_select(table: TableView, rows: Seq<int>)
    requires
        table.well_formed(),
        forall|k: int| 0 <= k < rows.len() ==> 0 <= #[trigger] rows[k] < table.rows(),
    ensures
        table.select(rows).well_formed(),
        table.select(rows).names == table.names,
        table.select(rows).columns.len() == table.columns.len(),
        table.columns.len() > 0 ==> table.select(rows).rows() == rows.len(),
{
    let part = table.select(rows);
    assert forall|c: int, i: int|
        0 <= c < part.columns.len() && 0 <= i < part.columns[c].len() implies (
    #[trigger] part.columns[c][i]).same_kind(part.columns[c][0]) by {
        let column = table.columns[c];
        assert(column.len() == table.rows());
        assert(column[rows[i]].same_kind(column[0]));
        assert(column[rows[0]].same_kind(column[0]));
    }
}

/// The content of a table with these column names and these columns.
pub open spec fn table_of(names: Seq<String>, columns: Seq<Vec<TableType>>) -> TableView {
    TableView {
        names: texts(names),
        columns: Seq::new(columns.len(), |c: int| cells(columns[c]@)),
    }
}

/// A table of named columns. It is well formed by construction and never
/// changes.
#[derive(Debug)]
pub struct Table {
    names: Vec<String>,
    columns: Vec<Vec<TableType>>,
}

impl View for Table {
    type V = TableView;

    closed spec fn view(&self) -> TableView {
        table_of(self.names@, self.columns@)
    }
}

fn distinct_names(names: &Vec<String>) -> (r: bool)
    ensures
        r == Seq::new(names@.len(), |c: int| names@[c]@).no_duplicates(),
{
    let ghost views = Seq::new(names@.len(), |c: int| names@[c]@);
    let mut i: usize = 0;
    while i < names.len()
        invariant
            i <= names.len(),
            views == Seq::new(names@.len(), |c: int| names@[c]@),
            forall|a: int, b: int| 0 <= a < b < i ==> views[a] != views[b],
        decreases names.len() - i,
    {
        let mut j: usize = 0;
        while j < i
            invariant
                j <= i < names.len(),
                views == Seq::new(names@.len(), |c: int| names@[c]@),
                forall|a: int| 0 <= a < j ==> views[a] != views[i as int],
            decreases i - j,
        {
            if names[j] == names[i] {
                proof {
                    assert(views[j as int] == views[i as int]);
                }
                return false;
            }
            j += 1;
        }
        i += 1;
    }
    true
}

fn one_kind(column: &Vec<TableType>) -> (r: bool)
    ensures
        r == (forall|i: int|
            0 <= i < column@.len() ==> (#[trigger] cells(column@)[i]).same_kind(cells(column@)[0])),
{
    let mut i: usize = 1;
    while i < column.len()
        invariant
            1 <= i,
            forall|k: int|
                1 <= k < i && k < column@.len() ==> (#[trigger] cells(column@)[k]).same_kind(
                    cells(column@)[0],
                ),
        decreases column.len() - i,
    {
        if !column[i].same_kind(&column[0]) {
            proof {
                assert(!cells(column@)[i as int].same_kind(cells(column@)[0]));
            }
            return false;
        }
        i += 1;
    }
    true
}

fn columns_fit(columns: &Vec<Vec<TableType>>) -> (r: bool)
    ensures
        r == (forall|c: int|
            0 <= c < columns@.len() ==> {
                &&& (#[trigger] columns@[c])@.len() == columns@[0]@.len()
                &&& forall|i: int|
                    0 <= i < columns@[c]@.len() ==> (#[trigger] cells(columns@[c]@)[i]).same_kind(
                        cells(columns@[c]@)[0],
                    )
            }),
{
    let mut c: usize = 0;
    while c < columns.len()
        invariant
            c <= columns.len(),
            forall|d: int|
                0 <= d < c ==> {
                    &&& (#[trigger] columns@[d])@.len() == columns@[0]@.len()
                    &&& forall|i: int|
                        0 <= i < columns@[d]@.len() ==> (#[trigger] cells(
                            columns@[d]@,
                        )[i]).same_kind(cells(columns@[d]@)[0])
                },
        decreases columns.len() - c,
    {
        if columns[c].len() != columns[0].len() || !one_kind(&columns[c]) {
            return false;
        }
        c += 1;
    }
    true
}

fn pick_cells(column: &Vec<TableType>, rows: &Vec<usize>) -> (picked: Vec<TableType>)
    requires
        forall|k: int| 0 <= k < rows@.len() ==> rows@[k] < column@.len(),
    ensures
        cells(picked@) == pick(cells(column@), positions(rows@)),
{
    let mut picked: Vec<TableType> = Vec::new();
    let mut k: usize = 0;
    while k < rows.len()
        invariant
            k <= rows.len(),
            forall|j: int| 0 <= j < rows@.len() ==> rows@[j] < column@.len(),
            picked@.len() == k,
            forall|j: int| 0 <= j < k ==> (#[trigger] picked@[j])@ == column@[rows@[j] as int]@,
        decreases rows.len() - k,
    {
        picked.push(column[rows[k]].clone());
        k += 1;
    }
    proof {
        assert(cells(picked@) =~= pick(cells(column@), positions(rows@)));
    }
    picked
}

impl Table {
    /// What every table satisfies.
    #[verifier::type_invariant]
    pub open spec fn inv(&self) -> bool {
        self@.well_formed()
    }

    /// Makes a table of the given columns under the given names, if they
    /// form one: as many names as columns, no name twice, all columns of
    /// one length, and in each column cells of one kind.
    pub fn new(names: Vec<String>, columns: Vec<Vec<TableType>>) -> (table: Option<Table>)
        ensures
            match table {
                Some(t) => t@ == table_of(names@, columns@) && t@.well_formed(),
                None => !table_of(names@, columns@).well_formed(),
            },
    {
        let ghost view = table_of(names@, columns@);
        if names.len() != columns.len() {
            return None;
        }
        if !distinct_names(&names) {
            return None;
        }
        if !columns_fit(&columns) {
            proof {
                if view.well_formed() {
                    assert forall|c: int| 0 <= c < columns@.len() implies {
                        &&& (#[trigger] columns@[c])@.len() == columns@[0]@.len()
                        &&& forall|i: int|
                            0 <= i < columns@[c]@.len() ==> (#[trigger] cells(
                                columns@[c]@,
                            )[i]).same_kind(cells(columns@[c]@)[0])
                    } by {
                        assert(view.columns[c].len() == view.rows());
                        assert forall|i: int| 0 <= i < columns@[c]@.len() implies (#[trigger] cells(
                            columns@[c]@,
                        )[i]).same_kind(cells(columns@[c]@)[0]) by {
                            assert(view.columns[c][i].same_kind(view.columns[c][0]));
                        }
                    }
                }
            }
            return None;
        }
        proof {
            assert forall|c: int| 0 <= c < view.columns.len() implies (
            #[trigger] view.columns[c]).len() == view.rows() by {
                assert(columns@[c]@.len() == columns@[0]@.len());
            }
            assert forall|c: int, i: int|
                0 <= c < view.columns.len() && 0 <= i < view.columns[c].len() implies (
            #[trigger] view.columns[c][i]).same_kind(view.columns[c][0]) by {
                assert(columns@[c]@.len() == columns@[0]@.len());
                assert(cells(columns@[c]@)[i].same_kind(cells(columns@[c]@)[0]));
            }
        }
        Some(Table { names, columns })
    }

    /// The number of rows.
    pub fn row_count(&self) -> (n: usize)
        ensures
            n == self@.rows(),
    {
        if self.columns.len() == 0 {
            0
        } else {
            self.columns[0].len()
        }
    }

    /// The number of columns.
    pub fn column_count(&self) -> (n: usize)
        ensures
            n == self@.columns.len(),
            n == self@.names.len(),
    {
        proof {
            use_type_invariant(self);
        }
        self.columns.len()
    }

    /// The position of the column of this name, if there is one.
    pub fn column_index(&self, name: &str) -> (found: Option<usize>)
        ensures
            match found {
                Some(c) => {
                    &&& c < self@.names.len()
                    &&& c < self@.columns.len()
                    &&& self@.names[c as int] == name@
                    &&& c == self@.names.index_of(name@)
                },
                None => !self@.has_column(name@),
            },
    {
        proof {
            use_type_invariant(self);
        }
        let key: String = name.to_owned();
        let mut c: usize = 0;
        while c < self.names.len()
            invariant
                c <= self.names.len(),
                key@ == name@,
                forall|d: int| 0 <= d < c ==> self@.names[d] != name@,
            decreases self.names.len() - c,
        {
            if self.names[c] == key {
                proof {
                    use_type_invariant(self);
                    assert(self@.names[c as int] == name@);
                    let d = self@.names.index_of(name@);
                    assert(0 <= d < self@.names.len() && self@.names[d] == name@);
                }
                return Some(c);
            }
            c += 1;
        }
        None
    }

    /// The positions of the columns of these names, if a column has each of
    /// them.
    pub fn column_indices(&self, names: &Vec<String>) -> (found: Option<Vec<usize>>)
        ensures
            match found {
                Some(at) => {
                    &&& self@.has_columns(texts(names@))
                    &&& positions(at@) == self@.positions_of(texts(names@))
                    &&& forall|i: int|
                        0 <= i < at@.len() ==> #[trigger] at@[i] < self@.columns.len()
                },
                None => !self@.has_columns(texts(names@)),
            },
    {
        let mut at: Vec<usize> = Vec::new();
        let mut i: usize = 0;
        while i < names.len()
            invariant
                i <= names.len(),
                at@.len() == i,
                forall|j: int| 0 <= j < i ==> self@.has_column(#[trigger] texts(names@)[j]),
                forall|j: int|
                    0 <= j < i ==> (#[trigger] at@[j]) as int == self@.names.index_of(
                        texts(names@)[j],
                    ),
                forall|j: int| 0 <= j < i ==> #[trigger] at@[j] < self@.columns.len(),
            decreases names.len() - i,
        {
            match self.column_index(names[i].as_str()) {
                Some(c) => {
                    at.push(c);
                },
                None => {
                    proof {
                        assert(!self@.has_column(texts(names@)[i as int]));
                    }
                    return None;
                },
            }
            i += 1;
        }
        proof {
            assert(positions(at@) =~= self@.positions_of(texts(names@)));
        }
        Some(at)
    }

    /// The name of the column at position `c`.
    pub(crate) fn name_at(&self, c: usize) -> (name: &String)
        requires
            c < self@.names.len(),
        ensures
            name@ == self@.names[c as int],
    {
        proof {
            use_type_invariant(self);
        }
        &self.names[c]
    }

    /// The column at position `c`.
    pub(crate) fn column_at(&self, c: usize) -> (column: &Vec<TableType>)
        requires
            c < self@.columns.len(),
        ensures
            cells(column@) == self@.columns[c as int],
            column@.len() == self@.rows(),
    {
        proof {
            use_type_invariant(self);
            assert(self@.columns[c as int].len() == self@.rows());
        }
        &self.columns[c]
    }

    /// The column of this name.
    pub fn get_column(&self, column: &str) -> (r: Result<&Vec<TableType>, Id3Error>)
        ensures
            match r {
                Ok(found) => self@.has_column(column@) && cells(found@) == self@.column(column@),
                Err(e) => e == Id3Error::InvalidColumn && !self@.has_column(column@),
            },
    {
        match self.column_index(column) {
            Some(c) => {
                proof {
                    use_type_invariant(self);
                }
                Ok(self.column_at(c))
            },
            None => Err(Id3Error::InvalidColumn),
        }
    }

    /// The values that occur in the column of this name, each once and in
    /// ascending order.
    pub fn get_unique(&self, column: &str) -> (r: Result<Vec<TableType>, Id3Error>)
        ensures
            match r {
                Ok(unique) => {
                    &&& self@.has_column(column@)
                    &&& cells(unique@) == distinct_values(self@.column(column@))
                    &&& lists_values(cells(unique@), self@.column(column@))
                },
                Err(e) => e == Id3Error::InvalidColumn && !self@.has_column(column@),
            },
    {
        match self.get_column(column) {
            Ok(found) => Ok(unique_values(found)),
            Err(e) => Err(e),
        }
    }

    /// The positions, in ascending order, of the rows whose cell in the
    /// column `feature` holds `value`.
    pub fn get_indices(&self, feature: &str, value: &TableType) -> (r: Result<
        Vec<usize>,
        Id3Error,
    >)
        ensures
            match r {
                Ok(rows) => {
                    &&& self@.has_column(feature@)
                    &&& positions(rows@) == indices_of(self@.column(feature@), value@)
                },
                Err(e) => e == Id3Error::InvalidColumn && !self@.has_column(feature@),
            },
    {
        match self.get_column(feature) {
            Ok(found) => Ok(matching_indices(found, value)),
            Err(e) => Err(e),
        }
    }
    /// The table made of the rows at the given positions, in the given
    /// order, if every position is that of a row.
    pub fn select_rows(&self, rows: &Vec<usize>) -> (r: Option<Table>)
        ensures
            match r {
                Some(t) => {
                    &&& forall|k: int| 0 <= k < rows@.len() ==> rows@[k] < self@.rows()
                    &&& t@ == self@.select(positions(rows@))
                },
                None => exists|k: int| 0 <= k < rows@.len() && rows@[k] >= self@.rows(),
            },
    {
        let n = self.row_count();
        let mut k: usize = 0;
        while k < rows.len()
            invariant
                k <= rows.len(),
                n == self@.rows(),
                forall|j: int| 0 <= j < k ==> rows@[j] < n,
            decreases rows.len() - k,
        {
            if rows[k] >= n {
                return None;
            }
            k += 1;
        }
        Some(self.select_in_range(rows))
    }

    /// The table made of the rows at the given positions, in the given
    /// order.
    pub(crate) fn select_in_range(&self, rows: &Vec<usize>) -> (t: Table)
        requires
            forall|k: int| 0 <= k < rows@.len() ==> rows@[k] < self@.rows(),
        ensures
            t@ == self@.select(positions(rows@)),
    {
        proof {
            use_type_invariant(self);
        }
        let ghost want = self@.select(positions(rows@));
        let mut columns: Vec<Vec<TableType>> = Vec::new();
        let mut c: usize = 0;
        while c < self.columns.len()
            invariant
                c <= self.columns.len(),
                self@.well_formed(),
                want == self@.select(positions(rows@)),
                forall|k: int| 0 <= k < rows@.len() ==> rows@[k] < self@.rows(),
                columns@.len() == c,
                forall|d: int| 0 <= d < c ==> cells(#[trigger] columns@[d]@) == want.columns[d],
            decreases self.columns.len() - c,
        {
            proof {
                assert(self@.columns[c as int].len() == self@.rows());
            }
            columns.push(pick_cells(&self.columns[c], rows));
            c += 1;
        }
        let names = self.names.clone();
        proof {
            let got = table_of(names@, columns@);
            assert(got.names =~= want.names);
            assert(got.columns =~= want.columns);
            assert forall|d: int, i: int|
                0 <= d < want.columns.len() && 0 <= i < want.columns[d].len() implies (
            #[trigger] want.columns[d][i]).same_kind(want.columns[d][0]) by {
                let col = self@.columns[d];
                assert(col[positions(rows@)[i]].same_kind(col[0]));
                assert(col[positions(rows@)[0]].same_kind(col[0]));
            }
            assert(want.well_formed());
        }
        Table { names, columns }
    }
}

} // verus!
