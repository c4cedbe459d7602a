//! Tables: a generated identity, a fixed ordered column schema, and an
//! append-only sequence of rows, together with the row validator.

use vstd::prelude::*;
use crate::error::{SpecStoreError, StoreError};
use crate::value::{ColumnKind, SpecValue, Value, entries_view, kind_compatible};

verus! {

/// A declared column: a name and the kind its values must have.
#[derive(Debug, PartialEq, Eq)]
pub struct Column {
    pub name: String,
    pub kind: ColumnKind,
}

/// The mathematical model of a [`Column`].
pub struct SpecColumn {
    pub name: Seq<char>,
    pub kind: ColumnKind,
}

impl View for Column {
    type V = SpecColumn;

    open spec fn view(&self) -> SpecColumn {
        SpecColumn { name: self.name@, kind: self.kind }
    }
}

impl Clone for Column {
    /// Clones preserve the column exactly.
    fn clone(&self) -> (r: Self)
        ensures
            r@ == self@,
    {
        Column { name: self.name.clone(), kind: self.kind }
    }
}

/// The model of an ordered column schema.
pub open spec fn columns_view(columns: Seq<Column>) -> Seq<SpecColumn> {
    Seq::new(columns.len(), |i: int| columns[i]@)
}

/// A copy of a column list whose model is the same schema.
#[verifier::loop_isolation(false)]
pub fn clone_columns(columns: &Vec<Column>) -> (r: Vec<Column>)
    ensures
        columns_view(r@) == columns_view(columns@),
{
    let mut out: Vec<Column> = Vec::new();
    let n = columns.len();
    for i in 0..n
        invariant
            out@.len() == i,
            forall|j: int| 0 <= j < i ==> out@[j]@ == columns@[j]@,
    {
        out.push(columns[i].clone());
    }
    proof {
        assert(columns_view(out@) =~= columns_view(columns@));
    }
    out
}

/// A row: a mapping from column name to value, kept as the sequence of
/// entries in which it arrived. Keys beyond the declared schema are allowed
/// and preserved verbatim.
#[derive(Debug, PartialEq, Eq)]
pub struct Row {
    pub entries: Vec<(String, Value)>,
}

impl View for Row {
    type V = Seq<(Seq<char>, SpecValue)>;

    open spec fn view(&self) -> Seq<(Seq<char>, SpecValue)> {
        entries_view(self.entries@)
    }
}

impl Clone for Row {
    /// Clones preserve the row's model exactly.
    #[verifier::loop_isolation(false)]
    fn clone(&self) -> (r: Self)
        ensures
            r@ == self@,
    {
        let mut out: Vec<(String, Value)> = Vec::new();
        let n = self.entries.len();
        for i in 0..n
            invariant
                out@.len() == i,
                forall|j: int|
                    0 <= j < i ==> out@[j].0@ == self.entries@[j].0@ && out@[j].1@
                        == self.entries@[j].1@,
        {
            out.push((self.entries[i].0.clone(), self.entries[i].1.clone()));
        }
        proof {
            assert(entries_view(out@) =~= entries_view(self.entries@));
        }
        Row { entries: out }
    }
}

/// The value under the first entry whose key is `name`, if any.
pub open spec fn spec_lookup(entries: Seq<(Seq<char>, SpecValue)>, name: Seq<char>) -> Option<
    SpecValue,
>
    decreases entries.len(),
{
    if entries.len() == 0 {
        None
    } else if entries[0].0 == name {
        Some(entries[0].1)
    } else {
        spec_lookup(entries.drop_first(), name)
    }
}

impl Row {
    /// A reference to the value under the first entry named `name`, if any.
    pub fn get<'a>(&'a self, name: &String) -> (r: Option<&'a Value>)
        ensures
            match r {
                Some(v) => spec_lookup(self@, name@) == Some(v@),
                None => spec_lookup(self@, name@) is None,
            },
    {
        let n = self.entries.len();
        proof {
            assert(self@.skip(0) =~= self@);
        }
        for i in 0..n
            invariant
                n == self.entries.len(),
                spec_lookup(self@, name@) == spec_lookup(self@.skip(i as int), name@),
        {
            proof {
                assert(self@.skip(i as int)[0] == self@[i as int]);
                assert(self@.skip(i as int).drop_first() =~= self@.skip(i + 1));
            }
            if self.entries[i].0 == *name {
                return Some(&self.entries[i].1);
            }
        }
        proof {
            assert(self@.skip(n as int) =~= Seq::<(Seq<char>, SpecValue)>::empty());
        }
        None
    }
}

/// The model of a sequence of rows.
pub open spec fn rows_view(rows: Seq<Row>) -> Seq<Seq<(Seq<char>, SpecValue)>> {
    Seq::new(rows.len(), |i: int| rows[i]@)
}

/// A copy of a row list whose model is the same sequence of rows.
#[verifier::loop_isolation(false)]
pub fn clone_rows(rows: &Vec<Row>) -> (r: Vec<Row>)
    ensures
        rows_view(r@) == rows_view(rows@),
{
    let mut out: Vec<Row> = Vec::new();
    let n = rows.len();
    for i in 0..n
        invariant
            out@.len() == i,
            forall|j: int| 0 <= j < i ==> out@[j]@ == rows@[j]@,
    {
        out.push(rows[i].clone());
    }
    proof {
        assert(rows_view(out@) =~= rows_view(rows@));
    }
    out
}

/// The mathematical model of a [`Table`].
pub struct SpecTable {
    pub id: Seq<char>,
    pub name: Seq<char>,
    pub columns: Seq<SpecColumn>,
    pub rows: Seq<Seq<(Seq<char>, SpecValue)>>,
}

/// A named table: a generated identity, the fixed ordered schema, and the
/// append-only sequence of accepted rows.
#[derive(Debug, PartialEq, Eq)]
pub struct Table {
    pub id: String,
    pub name: String,
    pub columns: Vec<Column>,
    pub rows: Vec<Row>,
}

impl View for Table {
    type V = SpecTable;

    open spec fn view(&self) -> SpecTable {
        SpecTable {
            id: self.id@,
            name: self.name@,
            columns: columns_view(self.columns@),
            rows: rows_view(self.rows@),
        }
    }
}

/// What validating a row against an ordered schema yields: the first column
/// in declaration order that is absent reports `MissingColumn`, the first
/// whose value has an incompatible kind reports `TypeMismatch`, and a row
/// satisfying every declared column is accepted. Keys not declared in the
/// schema are never examined.
pub open spec fn spec_validate_row(
    columns: Seq<SpecColumn>,
    row: Seq<(Seq<char>, SpecValue)>,
) -> Result<(), SpecStoreError>
    decreases columns.len(),
{
    if columns.len() == 0 {
        Ok(())
    } else {
        match spec_lookup(row, columns[0].name) {
            None => Err(SpecStoreError::MissingColumn(columns[0].name)),
            Some(v) => if !kind_compatible(columns[0].kind, v) {
                Err(SpecStoreError::TypeMismatch(columns[0].name))
            } else {
                spec_validate_row(columns.drop_first(), row)
            },
        }
    }
}

/// Law: a row that lacks some declared column is always rejected.
pub proof fn lemma_missing_column_fails(
    columns: Seq<SpecColumn>,
    row: Seq<(Seq<char>, SpecValue)>,
    k: int,
)
    requires
        0 <= k < columns.len(),
        spec_lookup(row, columns[k].name) is None,
    ensures
        spec_validate_row(columns, row) is Err,
    decreases columns.len(),
{
    if spec_lookup(row, columns[0].name) is Some && kind_compatible(
        columns[0].kind,
        spec_lookup(row, columns[0].name)->Some_0,
    ) {
        assert(k != 0);
        assert(columns.drop_first()[k - 1] == columns[k]);
        lemma_missing_column_fails(columns.drop_first(), row, k - 1);
    }
}

/// Law: a row that lacks a declared column, every column before which it
/// satisfies, is rejected with `MissingColumn` of exactly that column's name.
pub proof fn lemma_missing_column_error(
    columns: Seq<SpecColumn>,
    row: Seq<(Seq<char>, SpecValue)>,
    k: int,
)
    requires
        0 <= k < columns.len(),
        spec_lookup(row, columns[k].name) is None,
        forall|j: int|
            0 <= j < k ==> spec_lookup(row, (#[trigger] columns[j]).name) is Some
                && kind_compatible(columns[j].kind, spec_lookup(row, columns[j].name)->Some_0),
    ensures
        spec_validate_row(columns, row) == Err::<(), SpecStoreError>(
            SpecStoreError::MissingColumn(columns[k].name),
        ),
    decreases k,
{
    if k > 0 {
        assert(forall|j: int| 0 <= j < k - 1 ==> columns.drop_first()[j] == columns[j + 1]);
        assert(columns.drop_first()[k - 1] == columns[k]);
        lemma_missing_column_error(columns.drop_first(), row, k - 1);
    }
}

/// Law: a row whose value for a declared column has an incompatible kind,
/// every column before which it satisfies, is rejected with `TypeMismatch` of
/// exactly that column's name.
pub proof fn lemma_type_mismatch_error(
    columns: Seq<SpecColumn>,
    row: Seq<(Seq<char>, SpecValue)>,
    k: int,
)
    requires
        0 <= k < columns.len(),
        spec_lookup(row, columns[k].name) is Some,
        !kind_compatible(columns[k].kind, spec_lookup(row, columns[k].name)->Some_0),
        forall|j: int|
            0 <= j < k ==> spec_lookup(row, (#[trigger] columns[j]).name) is Some
                && kind_compatible(columns[j].kind, spec_lookup(row, columns[j].name)->Some_0),
    ensures
        spec_validate_row(columns, row) == Err::<(), SpecStoreError>(
            SpecStoreError::TypeMismatch(columns[k].name),
        ),
    decreases k,
{
    if k > 0 {
        assert(forall|j: int| 0 <= j < k - 1 ==> columns.drop_first()[j] == columns[j + 1]);
        assert(columns.drop_first()[k - 1] == columns[k]);
        lemma_type_mismatch_error(columns.drop_first(), row, k - 1);
    }
}

/// Law: validation looks only at declared columns. A row that carries every
/// declared column with a compatible value is accepted, whatever extra keys
/// it also carries.
pub proof fn lemma_superset_row_accepted(
    columns: Seq<SpecColumn>,
    row: Seq<(Seq<char>, SpecValue)>,
)
    requires
        forall|j: int|
            0 <= j < columns.len() ==> spec_lookup(row, (#[trigger] columns[j]).name) is Some
                && kind_compatible(columns[j].kind, spec_lookup(row, columns[j].name)->Some_0),
    ensures
        spec_validate_row(columns, row) is Ok,
    decreases columns.len(),
{
    if columns.len() > 0 {
        assert(forall|j: int|
            0 <= j < columns.len() - 1 ==> columns.drop_first()[j] == columns[j + 1]);
        lemma_superset_row_accepted(columns.drop_first(), row);
    }
}

/// A failed validation always reports which column offends: the error is
/// `MissingColumn` or `TypeMismatch`, never another kind.
pub proof fn lemma_validate_err_kind(columns: Seq<SpecColumn>, row: Seq<(Seq<char>, SpecValue)>)
    ensures
        spec_validate_row(columns, row) matches Err(e) ==> e is MissingColumn
            || e is TypeMismatch,
    decreases columns.len(),
{
    if columns.len() > 0 {
        lemma_validate_err_kind(columns.drop_first(), row);
    }
}

/// Relies on `uuid::Uuid::new_v4` and its `Display` form: a freshly drawn
/// random identifier, rendered as the 36-character hyphenated form. Nothing
/// can be promised about which identifier comes back.
#[verifier::external_body]
fn fresh_table_id() -> (r: String)
    ensures
        r@.len() == 36,
{
    uuid::Uuid::new_v4().to_string()
}

impl Table {
    /// Creates a table with a freshly generated identity, the given columns
    /// in the given order, and no rows.
    pub fn new(name: String, columns: Vec<Column>) -> (t: Table)
        ensures
            t@.name == name@,
            t@.columns == columns_view(columns@),
            t@.rows.len() == 0,
            t@.id.len() == 36,
    {
        let t = Table { id: fresh_table_id(), name, columns, rows: Vec::new() };
        proof {
            assert(t@.rows =~= Seq::<Seq<(Seq<char>, SpecValue)>>::empty());
        }
        t
    }

    /// Checks the candidate row against this table's schema; a pure
    /// predicate with a descriptive failure reason and no side effect.
    pub fn validate_row(&self, row: &Row) -> (r: Result<(), StoreError>)
        ensures
            match r {
                Ok(_) => spec_validate_row(self@.columns, row@) is Ok,
                Err(e) => spec_validate_row(self@.columns, row@) == Err::<(), SpecStoreError>(e@),
            },
    {
        let n = self.columns.len();
        proof {
            assert(self@.columns.skip(0) =~= self@.columns);
        }
        for i in 0..n
            invariant
                n == self.columns.len(),
                spec_validate_row(self@.columns, row@) == spec_validate_row(
                    self@.columns.skip(i as int),
                    row@,
                ),
        {
            proof {
                assert(self@.columns.skip(i as int)[0] == self@.columns[i as int]);
                assert(self@.columns.skip(i as int).drop_first() =~= self@.columns.skip(i + 1));
            }
            match row.get(&self.columns[i].name) {
                None => {
                    return Err(StoreError::MissingColumn(self.columns[i].name.clone()));
                },
                Some(v) => {
                    if !v.has_kind(self.columns[i].kind) {
                        return Err(StoreError::TypeMismatch(self.columns[i].name.clone()));
                    }
                },
            }
        }
        proof {
            assert(self@.columns.skip(n as int) =~= Seq::<SpecColumn>::empty());
        }
        Ok(())
    }
}

} // verus!
