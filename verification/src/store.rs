//! The in-memory registry of tables: a mapping from table name to table,
//! with unique names, mutated only by the operations here.

use vstd::prelude::*;
use crate::error::{SpecStoreError, StoreError};
use crate::table::{
    Column, Row, SpecColumn, SpecTable, Table, clone_columns, clone_rows, columns_view, rows_view,
    spec_validate_row,
};


verus! {

/// True when some table in the sequence bears the given name.
pub open spec fn contains_name(tables: Seq<SpecTable>, name: Seq<char>) -> bool {
    exists|i: int| 0 <= i < tables.len() && tables[i].name == name
}

/// The set of table names in the sequence.
pub open spec fn spec_names(tables: Seq<SpecTable>) -> Set<Seq<char>> {
    Set::new(|n: Seq<char>| contains_name(tables, n))
}

/// True when no two tables in the sequence bear the same name.
pub open spec fn names_unique(tables: Seq<SpecTable>) -> bool {
    forall|i: int, j: int| 0 <= i < j < tables.len() ==> tables[i].name != tables[j].name
}

/// The model of a sequence of tables.
pub open spec fn tables_view(tables: Seq<Table>) -> Seq<SpecTable> {
    Seq::new(tables.len(), |i: int| tables[i]@)
}

/// A table's descriptor as returned to callers: identity, name, schema and
/// current row count.
#[derive(Debug)]
pub struct TableSummary {
    pub id: String,
    pub name: String,
    pub columns: Vec<Column>,
    pub row_count: usize,
}

/// The mathematical model of a [`TableSummary`].
pub struct SpecTableSummary {
    pub id: Seq<char>,
    pub name: Seq<char>,
    pub columns: Seq<SpecColumn>,
    pub row_count: int,
}

impl View for TableSummary {
    type V = SpecTableSummary;

    open spec fn view(&self) -> SpecTableSummary {
        SpecTableSummary {
            id: self.id@,
            name: self.name@,
            columns: columns_view(self.columns@),
            row_count: self.row_count as int,
        }
    }
}

/// The descriptor a table yields.
pub open spec fn spec_summary(t: SpecTable) -> SpecTableSummary {
    SpecTableSummary { id: t.id, name: t.name, columns: t.columns, row_count: t.rows.len() as int }
}

/// The in-memory registry of all tables, keyed by unique table name.
#[derive(Debug, PartialEq, Eq)]
pub struct Store {
    pub tables: Vec<Table>,
}

impl View for Store {
    type V = Seq<SpecTable>;

    open spec fn view(&self) -> Seq<SpecTable> {
        tables_view(self.tables@)
    }
}

impl Store {
    /// The store's invariant: table names are unique at every observable
    /// instant.
    pub open spec fn wf(&self) -> bool {
        names_unique(self@)
    }

    /// An empty store.
    pub fn new() -> (s: Store)
        ensures
            s@.len() == 0,
            s.wf(),
    {
        let s = Store { tables: Vec::new() };
        proof {
            assert(s@ =~= Seq::<SpecTable>::empty());
        }
        s
    }

    /// A store over the given tables, refused unless their names are unique.
    pub fn from_tables(tables: Vec<Table>) -> (r: Option<Store>)
        ensures
            match r {
                Some(s) => s.wf() && s@ == tables_view(tables@),
                None => !names_unique(tables_view(tables@)),
            },
    {
        if names_unique_check(&tables) {
            Some(Store { tables })
        } else {
            None
        }
    }

    /// The index of the table bearing `name`, if any.
    fn find_index(&self, name: &String) -> (r: Option<usize>)
        ensures
            match r {
                Some(i) => i < self@.len() && self@[i as int].name == name@,
                None => !contains_name(self@, name@),
            },
    {
        let n = self.tables.len();
        for i in 0..n
            invariant
                n == self.tables.len(),
                forall|j: int| 0 <= j < i ==> self@[j].name != name@,
        {
            if self.tables[i].name == *name {
                return Some(i);
            }
        }
        None
    }

    /// How many tables the store holds.
    pub fn table_count(&self) -> (r: usize)
        ensures
            r == self@.len(),
    {
        self.tables.len()
    }

    /// The names of all tables, in the order the tables stand in the store.
    #[verifier::loop_isolation(false)]
    pub fn list_tables(&self) -> (r: Vec<String>)
        ensures
            r@.len() == self@.len(),
            forall|i: int| 0 <= i < r@.len() ==> r@[i]@ == self@[i].name,
    {
        let mut out: Vec<String> = Vec::new();
        let n = self.tables.len();
        for i in 0..n
            invariant
                out@.len() == i,
                forall|j: int| 0 <= j < i ==> out@[j]@ == self@[j].name,
        {
            out.push(self.tables[i].name.clone());
        }
        out
    }

    /// Creates a table under a fresh identity with the given columns in the
    /// given order and no rows; fails with `TableExists`, changing nothing,
    /// exactly when the name is already taken.
    pub fn create_table(&mut self, name: String, columns: Vec<Column>) -> (r: Result<
        TableSummary,
        StoreError,
    >)
        requires
            old(self).wf(),
        ensures
            final(self).wf(),
            match r {
                Err(e) => {
                    &&& e@ == SpecStoreError::TableExists
                    &&& contains_name(old(self)@, name@)
                    &&& final(self)@ == old(self)@
                },
                Ok(summary) => {
                    &&& !contains_name(old(self)@, name@)
                    &&& final(self)@.len() == old(self)@.len() + 1
                    &&& final(self)@.take(old(self)@.len() as int) == old(self)@
                    &&& final(self)@.last().name == name@
                    &&& final(self)@.last().columns == columns_view(columns@)
                    &&& final(self)@.last().rows.len() == 0
                    &&& summary@ == spec_summary(final(self)@.last())
                    &&& spec_names(final(self)@) == spec_names(old(self)@).insert(name@)
                },
            },
    {
        if self.find_index(&name).is_some() {
            return Err(StoreError::TableExists);
        }
        let table = Table::new(name, columns);
        let summary = TableSummary {
            id: table.id.clone(),
            name: table.name.clone(),
            columns: clone_columns(&table.columns),
            row_count: 0,
        };
        self.tables.push(table);
        proof {
            let pre = old(self)@;
            let post = self@;
            assert(post.take(pre.len() as int) =~= pre);
            assert(post.last() == post[pre.len() as int]);
            assert forall|k: int| 0 <= k < pre.len() implies post[k] == pre[k] by {
                assert(post.take(pre.len() as int)[k] == post[k]);
            }
            assert forall|a: int, b: int|
                0 <= a < b < post.len() implies post[a].name != post[b].name by {
                if b < pre.len() {
                } else {
                    if pre[a].name == name@ {
                        assert(contains_name(pre, name@));
                    }
                }
            }
            assert forall|n: Seq<char>| contains_name(post, n) implies contains_name(pre, n) || n
                == post.last().name by {
                let i = choose|i: int| 0 <= i < post.len() && post[i].name == n;
                if i < pre.len() {
                    assert(pre[i].name == n);
                }
            }
            assert forall|n: Seq<char>|
                contains_name(pre, n) || n == post.last().name implies contains_name(
                post,
                n,
            ) by {
                if contains_name(pre, n) {
                    let i = choose|i: int| 0 <= i < pre.len() && pre[i].name == n;
                    assert(post[i].name == n);
                } else {
                    assert(post[pre.len() as int].name == n);
                }
            }
            assert(spec_names(post) =~= spec_names(pre).insert(post.last().name));
        }
        Ok(summary)
    }

    /// The descriptor of the named table, or `TableNotFound`.
    pub fn get_table(&self, name: &String) -> (r: Result<TableSummary, StoreError>)
        ensures
            match r {
                Ok(summary) => exists|i: int|
                    0 <= i < self@.len() && self@[i].name == name@ && summary@ == spec_summary(
                        #[trigger] self@[i],
                    ),
                Err(e) => e@ == SpecStoreError::TableNotFound && !contains_name(self@, name@),
            },
    {
        match self.find_index(name) {
            None => Err(StoreError::TableNotFound),
            Some(i) => {
                let t = &self.tables[i];
                Ok(
                    TableSummary {
                        id: t.id.clone(),
                        name: t.name.clone(),
                        columns: clone_columns(&t.columns),
                        row_count: t.rows.len(),
                    },
                )
            },
        }
    }

    /// The full row sequence of the named table, or `TableNotFound`.
    pub fn list_rows(&self, name: &String) -> (r: Result<Vec<Row>, StoreError>)
        ensures
            match r {
                Ok(rows) => exists|i: int|
                    0 <= i < self@.len() && self@[i].name == name@ && rows_view(rows@)
                        == #[trigger] self@[i].rows,
                Err(e) => e@ == SpecStoreError::TableNotFound && !contains_name(self@, name@),
            },
    {
        match self.find_index(name) {
            None => Err(StoreError::TableNotFound),
            Some(i) => {
                let rows = clone_rows(&self.tables[i].rows);
                proof {
                    assert(self@[i as int].rows == rows_view(self.tables@[i as int].rows@));
                }
                Ok(rows)
            },
        }
    }

    /// Validates the candidate row against the named table's schema and, only
    /// if it passes, appends it; returns the new row count. Fails with
    /// `TableNotFound` exactly when the table is absent, and with the
    /// validator's failure, mutating nothing, exactly when validation
    /// rejects the row.
    pub fn insert_row(&mut self, name: &String, row: Row) -> (r: Result<usize, StoreError>)
        requires
            old(self).wf(),
        ensures
            final(self).wf(),
            match r {
                Err(e) => final(self)@ == old(self)@ && match e@ {
                    SpecStoreError::TableNotFound => !contains_name(old(self)@, name@),
                    SpecStoreError::MissingColumn(_) | SpecStoreError::TypeMismatch(_) => exists|
                        i: int,
                    |
                        0 <= i < old(self)@.len() && old(self)@[i].name == name@
                            && spec_validate_row(#[trigger] old(self)@[i].columns, row@) == Err::<
                            (),
                            SpecStoreError,
                        >(e@),
                    SpecStoreError::TableExists => false,
                },
                Ok(count) => exists|i: int|
                    {
                        &&& 0 <= i < old(self)@.len()
                        &&& (#[trigger] old(self)@[i]).name == name@
                        &&& spec_validate_row(old(self)@[i].columns, row@) is Ok
                        &&& final(self)@ == old(self)@.update(
                            i,
                            SpecTable {
                                id: old(self)@[i].id,
                                name: old(self)@[i].name,
                                columns: old(self)@[i].columns,
                                rows: old(self)@[i].rows.push(row@),
                            },
                        )
                        &&& count == old(self)@[i].rows.len() + 1
                    },
            },
    {
        match self.find_index(name) {
            None => Err(StoreError::TableNotFound),
            Some(i) => {
                if let Err(e) = self.tables[i].validate_row(&row) {
                    proof {
                        assert(old(self)@[i as int].columns == self.tables@[i as int]@.columns);
                        crate::table::lemma_validate_err_kind(old(self)@[i as int].columns, row@);
                    }
                    return Err(e);
                }
                let ghost pre = self@;
                let mut t = self.tables.remove(i);
                t.rows.push(row);
                let count = t.rows.len();
                self.tables.insert(i, t);
                proof {
                    let post = self@;
                    assert(rows_view(t.rows@) =~= pre[i as int].rows.push(row@));
                    assert(t@ == SpecTable {
                        id: pre[i as int].id,
                        name: pre[i as int].name,
                        columns: pre[i as int].columns,
                        rows: pre[i as int].rows.push(row@),
                    });
                    assert(post =~= pre.update(i as int, t@));
                    assert(names_unique(post));
                }
                Ok(count)
            },
        }
    }

    /// Removes the named table, or fails with `TableNotFound`, changing
    /// nothing, exactly when it is absent. After a successful removal the
    /// name no longer resolves.
    pub fn delete_table(&mut self, name: &String) -> (r: Result<(), StoreError>)
        requires
            old(self).wf(),
        ensures
            final(self).wf(),
            match r {
                Err(e) => {
                    &&& e@ == SpecStoreError::TableNotFound
                    &&& !contains_name(old(self)@, name@)
                    &&& final(self)@ == old(self)@
                },
                Ok(_) => {
                    &&& exists|i: int|
                        0 <= i < old(self)@.len() && (#[trigger] old(self)@[i]).name == name@
                            && final(self)@ == old(self)@.remove(i)
                    &&& !contains_name(final(self)@, name@)
                    &&& spec_names(final(self)@) == spec_names(old(self)@).remove(name@)
                },
            },
    {
        match self.find_index(name) {
            None => Err(StoreError::TableNotFound),
            Some(i) => {
                let ghost pre = self@;
                self.tables.remove(i);
                proof {
                    let post = self@;
                    assert(post =~= pre.remove(i as int));
                    assert forall|j: int| 0 <= j < post.len() implies post[j].name != name@ by {
                        if j < i {
                            assert(post[j] == pre[j]);
                        } else {
                            assert(post[j] == pre[j + 1]);
                        }
                    }
                    assert forall|n: Seq<char>| contains_name(post, n) implies contains_name(
                        pre,
                        n,
                    ) && n != name@ by {
                        let j = choose|j: int| 0 <= j < post.len() && post[j].name == n;
                        if j < i {
                            assert(pre[j].name == n);
                        } else {
                            assert(pre[j + 1].name == n);
                        }
                    }
                    assert forall|n: Seq<char>|
                        contains_name(pre, n) && n != name@ implies contains_name(post, n) by {
                        let j = choose|j: int| 0 <= j < pre.len() && pre[j].name == n;
                        if j < i {
                            assert(post[j].name == n);
                        } else {
                            assert(j != i);
                            assert(post[j - 1].name == n);
                        }
                    }
                    assert(spec_names(post) =~= spec_names(pre).remove(name@));
                }
                Ok(())
            },
        }
    }
}

/// True when no two of the given tables bear the same name.
#[verifier::loop_isolation(false)]
fn names_unique_check(tables: &Vec<Table>) -> (b: bool)
    ensures
        b == names_unique(tables_view(tables@)),
{
    let n = tables.len();
    for i in 0..n
        invariant
            forall|a: int, b: int| 0 <= a < b < n && a < i ==> tables@[a]@.name != tables@[b]@.name,
    {
        for j in (i + 1)..n
            invariant
                forall|b: int| i < b < j ==> tables@[i as int]@.name != tables@[b]@.name,
        {
            if tables[i].name == tables[j].name {
                proof {
                    assert(tables_view(tables@)[i as int].name == tables_view(
                        tables@,
                    )[j as int].name);
                }
                return false;
            }
        }
    }
    true
}

} // verus!
