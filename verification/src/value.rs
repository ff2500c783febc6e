//! Cell values: integers, text labels and booleans, with equality and a
//! total order that makes a list of distinct values deterministic.

use vstd::prelude::*;
use vstd::std_specs::cmp::PartialEqSpecImpl;
use vstd::std_specs::convert::FromSpecImpl;
use vstd::utf8::{encode_utf8, encode_utf8_decode_utf8};

verus! {

/// The mathematical content of a cell.
pub enum Value {
    Int(int),
    Str(Seq<char>),
    Bool(bool),
}

/// A cell of a table: an integer, a text label or a boolean.
#[derive(Debug, PartialOrd, Ord)]
pub enum TableType {
    Int(i32),
    Str(String),
    Bool(bool),
}

impl View for TableType {
    type V = Value;

    open spec fn view(&self) -> Value {
        match self {
            TableType::Int(i) => Value::Int(*i as int),
            TableType::Str(s) => Value::Str(s@),
            TableType::Bool(b) => Value::Bool(*b),
        }
    }
}

/// The contents of a run of cells.
pub open spec fn cells(column: Seq<TableType>) -> Seq<Value> {
    Seq::new(column.len(), |i: int| column[i]@)
}

/// Strict lexicographic order on byte strings: a proper prefix comes first,
/// otherwise the first differing byte decides.
pub open spec fn bytes_lt(a: Seq<u8>, b: Seq<u8>) -> bool
    decreases a.len(),
{
    if b.len() == 0 {
        false
    } else if a.len() == 0 {
        true
    } else if a[0] != b[0] {
        a[0] < b[0]
    } else {
        bytes_lt(a.drop_first(), b.drop_first())
    }
}

impl Value {
    /// The strict total order on values: every integer comes before every
    /// text, every text before every boolean; integers are ordered by size,
    /// texts bytewise by their UTF-8 encoding, and `false` before `true`.
    pub open spec fn precedes(self, other: Value) -> bool {
        match (self, other) {
            (Value::Int(x), Value::Int(y)) => x < y,
            (Value::Int(_), _) => true,
            (Value::Str(_), Value::Int(_)) => false,
            (Value::Str(x), Value::Str(y)) => bytes_lt(encode_utf8(x), encode_utf8(y)),
            (Value::Str(_), Value::Bool(_)) => true,
            (Value::Bool(x), Value::Bool(y)) => !x && y,
            (Value::Bool(_), _) => false,
        }
    }

    /// Whether two values are of the same kind.
    pub open spec fn same_kind(self, other: Value) -> bool {
        match (self, other) {
            (Value::Int(_), Value::Int(_)) => true,
            (Value::Str(_), Value::Str(_)) => true,
            (Value::Bool(_), Value::Bool(_)) => true,
            _ => false,
        }
    }
}

proof fn lemma_bytes_lt_irreflexive(a: Seq<u8>)
    ensures
        !bytes_lt(a, a),
    decreases a.len(),
{
    if a.len() > 0 {
        lemma_bytes_lt_irreflexive(a.drop_first());
    }
}

proof fn lemma_bytes_lt_transitive(a: Seq<u8>, b: Seq<u8>, c: Seq<u8>)
    requires
        bytes_lt(a, b),
        bytes_lt(b, c),
    ensures
        bytes_lt(a, c),
    decreases a.len(),
{
    if a.len() > 0 && a[0] == b[0] && b[0] == c[0] {
        lemma_bytes_lt_transitive(a.drop_first(), b.drop_first(), c.drop_first());
    }
}

proof fn lemma_bytes_lt_total(a: Seq<u8>, b: Seq<u8>)
    requires
        a != b,
    ensures
        bytes_lt(a, b) || bytes_lt(b, a),
    decreases a.len(),
{
    if a.len() > 0 && b.len() > 0 && a[0] == b[0] {
        if a.drop_first() == b.drop_first() {
            assert(a =~= seq![a[0]] + a.drop_first());
            assert(b =~= seq![b[0]] + b.drop_first());
        }
        lemma_bytes_lt_total(a.drop_first(), b.drop_first());
    } else if a.len() == 0 && b.len() == 0 {
        assert(a =~= b);
    }
}

/// No value comes before itself.
pub proof fn lemma_precedes_irreflexive(a: Value)
    ensures
        !a.precedes(a),
{
    if let Value::Str(x) = a {
        lemma_bytes_lt_irreflexive(encode_utf8(x));
    }
}

/// The order is transitive.
pub proof fn lemma_precedes_transitive(a: Value, b: Value, c: Value)
    requires
        a.precedes(b),
        b.precedes(c),
    ensures
        a.precedes(c),
{
    if let (Value::Str(x), Value::Str(y), Value::Str(z)) = (a, b, c) {
        lemma_bytes_lt_transitive(encode_utf8(x), encode_utf8(y), encode_utf8(z));
    }
}

/// Of two different values one comes before the other.
pub proof fn lemma_precedes_total(a: Value, b: Value)
    requires
        a != b,
    ensures
        a.precedes(b) || b.precedes(a),
{
    if let (Value::Str(x), Value::Str(y)) = (a, b) {
        if encode_utf8(x) == encode_utf8(y) {
            encode_utf8_decode_utf8(x);
            encode_utf8_decode_utf8(y);
        }
        lemma_bytes_lt_total(encode_utf8(x), encode_utf8(y));
    }
}

/// Two values are never each before the other.
pub proof fn lemma_precedes_asymmetric(a: Value, b: Value)
    requires
        a.precedes(b),
    ensures
        !b.precedes(a),
        a != b,
{
    lemma_precedes_irreflexive(a);
    if b.precedes(a) {
        lemma_precedes_transitive(a, b, a);
    }
}

fn bytes_before(a: &[u8], b: &[u8]) -> (r: bool)
    ensures
        r == bytes_lt(a@, b@),
{
    let mut i: usize = 0;
    proof {
        assert(a@.skip(0) =~= a@);
        assert(b@.skip(0) =~= b@);
    }
    while i < a.len() && i < b.len()
        invariant
            i <= a.len(),
            i <= b.len(),
            bytes_lt(a@, b@) == bytes_lt(a@.skip(i as int), b@.skip(i as int)),
        decreases a.len() - i,
    {
        if a[i] != b[i] {
            return a[i] < b[i];
        }
        proof {
            assert(a@.skip(i as int).drop_first() =~= a@.skip(i as int + 1));
            assert(b@.skip(i as int).drop_first() =~= b@.skip(i as int + 1));
        }
        i += 1;
    }
    a.len() < b.len()
}

impl TableType {
    /// Whether `self` comes before `other` in the order on values.
    pub fn precedes(&self, other: &TableType) -> (r: bool)
        ensures
            r == self@.precedes(other@),
    {
        match (self, other) {
            (TableType::Int(x), TableType::Int(y)) => *x < *y,
            (TableType::Int(_), _) => true,
            (TableType::Str(_), TableType::Int(_)) => false,
            (TableType::Str(x), TableType::Str(y)) => bytes_before(
                x.as_str().as_bytes(),
                y.as_str().as_bytes(),
            ),
            (TableType::Str(_), TableType::Bool(_)) => true,
            (TableType::Bool(x), TableType::Bool(y)) => !*x && *y,
            (TableType::Bool(_), _) => false,
        }
    }

    /// Whether `self` and `other` are of the same kind.
    pub fn same_kind(&self, other: &TableType) -> (r: bool)
        ensures
            r == self@.same_kind(other@),
    {
        match (self, other) {
            (TableType::Int(_), TableType::Int(_)) => true,
            (TableType::Str(_), TableType::Str(_)) => true,
            (TableType::Bool(_), TableType::Bool(_)) => true,
            _ => false,
        }
    }
}

impl Clone for TableType {
    fn clone(&self) -> (r: Self)
        ensures
            r == *self,
    {
        match self {
            TableType::Int(i) => TableType::Int(*i),
            TableType::Str(s) => TableType::Str(s.clone()),
            TableType::Bool(b) => TableType::Bool(*b),
        }
    }
}

impl PartialEq for TableType {
    fn eq(&self, other: &Self) -> (r: bool) {
        match (self, other) {
            (TableType::Int(x), TableType::Int(y)) => *x == *y,
            (TableType::Str(x), TableType::Str(y)) => *x == *y,
            (TableType::Bool(x), TableType::Bool(y)) => *x == *y,
            _ => false,
        }
    }
}

impl PartialEqSpecImpl for TableType {
    open spec fn obeys_eq_spec() -> bool {
        true
    }

    open spec fn eq_spec(&self, other: &Self) -> bool {
        self@ == other@
    }
}

impl Eq for TableType {

}

impl From<i32> for TableType {
    fn from(value: i32) -> (r: Self) {
        TableType::Int(value)
    }
}

impl FromSpecImpl<i32> for TableType {
    open spec fn obeys_from_spec() -> bool {
        true
    }

    open spec fn from_spec(value: i32) -> Self {
        TableType::Int(value)
    }
}

impl From<bool> for TableType {
    fn from(value: bool) -> (r: Self) {
        TableType::Bool(value)
    }
}

impl FromSpecImpl<bool> for TableType {
    open spec fn obeys_from_spec() -> bool {
        true
    }

    open spec fn from_spec(value: bool) -> Self {
        TableType::Bool(value)
    }
}

impl<'a> From<&'a str> for TableType {
    fn from(value: &'a str) -> (r: Self)
        ensures
            r@ == Value::Str(value@),
    {
        TableType::Str(value.to_owned())
    }
}

impl<'a> FromSpecImpl<&'a str> for TableType {
    open spec fn obeys_from_spec() -> bool {
        false
    }

    open spec fn from_spec(value: &'a str) -> Self {
        arbitrary()
    }
}

} // verus!
