//! The database: a catalog of tables by name, where foreign keys are
//! enforced across tables.
use vstd::prelude::*;
use crate::model::{
    delete_many_spec, delete_tuple_spec, find_row, insert_spec, matching_key_parts, tuples_view,
    table_ok, update_all_spec, update_spec, updates_view, TableView,
};
use crate::predicate::Predicate;
use crate::row::{CellView, Row};
use crate::schema::{
    column_matches, definition_ok, index_of, lemma_index_of_absent, lemma_index_of_found, lemma_index_of_range,
    names_of, reference_dot, text_eq, ColumnInformation, ForeignKeyConstraint,
};
use crate::table::{definitions_ok, pk_positions, Table};
use crate::text::{first_where, lemma_first_where, lemma_first_where_at, views_of, words};

verus! {

/// What a database holds, as mathematical values.
pub struct DatabaseView {
    pub name: Seq<char>,
    pub tables: Seq<TableView>,
}

/// A named catalog of tables; table names are unique.
pub struct Database {
    name: String,
    tables: Vec<Table>,
}

pub open spec fn table_names(tables: Seq<TableView>) -> Seq<Seq<char>> {
    tables.map_values(|t: TableView| t.name)
}

/// The position of the table called `name`, or `-1`.
pub open spec fn table_index(db: DatabaseView, name: Seq<char>) -> int {
    index_of(table_names(db.tables), name)
}

/// The position of the column a foreign key refers to, or `-1` when its
/// table or column is missing.
pub open spec fn fk_target(db: DatabaseView, table: Seq<char>, column: Seq<char>) -> int {
    let ti = table_index(db, table);
    if ti < 0 {
        -1
    } else {
        index_of(names_of(db.tables[ti].columns), column)
    }
}

/// A value written into a foreign-key column is admitted: empty (null), or
/// the primary key of some row of the referenced table.
pub open spec fn fk_value_ok(db: DatabaseView, fk: ForeignKeyConstraint, value: Seq<char>) -> bool {
    value.len() == 0 || {
        let ri = table_index(db, fk.table_name@);
        ri >= 0 && find_row(db.tables[ri], value) >= 0
    }
}

/// Every foreign-key cell of the input row is admitted.
pub open spec fn insert_fks_ok(db: DatabaseView, t: TableView, data: Seq<Seq<char>>) -> bool {
    forall|c: int| 0 <= c < t.columns.len() && c < data.len() ==> match (#[trigger] t.columns[c]).1.foreign_key {
        Some(fk) => fk_value_ok(db, fk, data[c]),
        None => true,
    }
}

/// Every assignment to a foreign-key column is admitted.
pub open spec fn update_fks_ok(db: DatabaseView, t: TableView, ups: Seq<(Seq<char>, Seq<char>)>) -> bool {
    forall|i: int| 0 <= i < ups.len() ==> {
        let c = index_of(names_of(t.columns), (#[trigger] ups[i]).0);
        c >= 0 ==> match t.columns[c].1.foreign_key {
            Some(fk) => fk_value_ok(db, fk, ups[i].1),
            None => true,
        }
    }
}

/// The database's invariants, over its view: every table keeps its own, and
/// no two tables share a name.
pub open spec fn database_ok(db: DatabaseView) -> bool {
    &&& forall|i: int| 0 <= i < db.tables.len() ==> table_ok(#[trigger] db.tables[i])
    &&& crate::schema::distinct_names(table_names(db.tables))
}

/// The cell of column `c` of the input row refers to no row.
pub open spec fn fk_bad_at(db: DatabaseView, t: TableView, data: Seq<Seq<char>>, c: int) -> bool {
    c < data.len() && match t.columns[c].1.foreign_key {
        Some(fk) => !fk_value_ok(db, fk, data[c]),
        None => false,
    }
}

/// The error for an input row whose first offending foreign-key cell has no
/// referent: `does not exist: <value> in <table>.<column>`.
pub open spec fn fk_error(db: DatabaseView, t: TableView, data: Seq<Seq<char>>) -> Seq<char> {
    let c = first_where(0, t.columns.len() as int, |c: int| fk_bad_at(db, t, data, c));
    let fk = t.columns[c].1.foreign_key.unwrap();
    "does not exist: "@ + data[c] + " in "@ + fk.table_name@ + "."@ + fk.column_name@
}

/// The foreign-key error that inserting several rows in turn stops at, if
/// it stops at one.
pub open spec fn insert_many_fk_error(db: DatabaseView, ti: int, vals: Seq<Seq<Seq<char>>>) -> Option<Seq<char>>
    decreases vals.len(),
{
    if vals.len() == 0 {
        None
    } else {
        match insert_into_spec(db, ti, vals[0]) {
            None => if !insert_fks_ok(db, db.tables[ti], vals[0]) {
                Some(fk_error(db, db.tables[ti], vals[0]))
            } else {
                None
            },
            Some(db2) => insert_many_fk_error(db2, ti, vals.drop_first()),
        }
    }
}

/// The referenced table of a foreign-key definition's `table.column`.
pub open spec fn ref_table(w: Seq<Seq<char>>) -> Seq<char> {
    w[3].subrange(0, reference_dot(w[3]))
}

pub open spec fn ref_column(w: Seq<Seq<char>>) -> Seq<char> {
    w[3].subrange(reference_dot(w[3]) + 1, w[3].len() as int)
}

/// The error for the first definition whose foreign key refers to a missing
/// table or column.
pub open spec fn ref_error(db: DatabaseView, defs: Seq<Seq<char>>) -> Seq<char> {
    let k = first_where(0, defs.len() as int, |i: int| !definition_refs_ok(db, words(defs[i])));
    let w = words(defs[k]);
    "invalid foreign key on "@ + ref_table(w) + "; column "@ + ref_column(w) + " doesn't exist"@
}

/// The database after inserting `data` into table `ti`, or `None` when refused.
pub open spec fn insert_into_spec(db: DatabaseView, ti: int, data: Seq<Seq<char>>) -> Option<DatabaseView> {
    if !insert_fks_ok(db, db.tables[ti], data) {
        None
    } else {
        match insert_spec(db.tables[ti], data) {
            None => None,
            Some(t) => Some(DatabaseView { tables: db.tables.update(ti, t), ..db }),
        }
    }
}

pub open spec fn insert_many_into_spec(db: DatabaseView, ti: int, vals: Seq<Seq<Seq<char>>>) -> (DatabaseView, bool)
    decreases vals.len(),
{
    if vals.len() == 0 {
        (db, true)
    } else {
        match insert_into_spec(db, ti, vals[0]) {
            None => (db, false),
            Some(db2) => insert_many_into_spec(db2, ti, vals.drop_first()),
        }
    }
}

/// The database after updating the row of key tuple `parts` in table `ti`.
pub open spec fn update_set_spec(db: DatabaseView, ti: int, parts: Seq<Seq<char>>, ups: Seq<(Seq<char>, Seq<char>)>) -> Option<DatabaseView> {
    if !update_fks_ok(db, db.tables[ti], ups) {
        None
    } else {
        match update_spec(db.tables[ti], parts, ups) {
            None => None,
            Some(t) => Some(DatabaseView { tables: db.tables.update(ti, t), ..db }),
        }
    }
}

pub open spec fn update_many_spec(db: DatabaseView, ti: int, keys: Seq<Seq<Seq<char>>>, ups: Seq<(Seq<char>, Seq<char>)>) -> (DatabaseView, bool)
    decreases keys.len(),
{
    if keys.len() == 0 {
        (db, true)
    } else {
        match update_set_spec(db, ti, keys[0], ups) {
            None => (db, false),
            Some(db2) => update_many_spec(db2, ti, keys.drop_first(), ups),
        }
    }
}

/// The foreign keys of the definitions refer to tables and columns of `db`.
pub open spec fn definition_refs_ok(db: DatabaseView, w: Seq<Seq<char>>) -> bool {
    w.len() == 4 ==> fk_target(db, w[3].subrange(0, reference_dot(w[3])), w[3].subrange(reference_dot(w[3]) + 1, w[3].len() as int)) >= 0
}

/// Column `col` is what the definition words `w` declare, with its foreign
/// key (if any) resolved against `db`.
pub open spec fn column_resolved(db: DatabaseView, w: Seq<Seq<char>>, col: (String, ColumnInformation)) -> bool {
    match col.1.foreign_key {
        None => column_matches(w, col.0, col.1),
        Some(fk) => column_matches(w, col.0, ColumnInformation { foreign_key: Some(ForeignKeyConstraint { column_index: None, ..fk }), ..col.1 })
            && fk.column_index == Some(fk_target(db, fk.table_name@, fk.column_name@) as usize),
    }
}

proof fn lemma_delete_many_keeps_name(v: TableView, keys: Seq<Seq<Seq<char>>>)
    ensures
        delete_many_spec(v, keys).0.name == v.name,
    decreases keys.len(),
{
    if keys.len() > 0 {
        match delete_tuple_spec(v, keys[0]) {
            None => {},
            Some((v2, _)) => {
                lemma_delete_many_keeps_name(v2, keys.drop_first());
            },
        }
    }
}

impl View for Database {
    type V = DatabaseView;

    closed spec fn view(&self) -> DatabaseView {
        DatabaseView { name: self.name@, tables: self.tables@.map_values(|t: Table| t@) }
    }
}

impl Database {
    /// Every table is well formed and no two share a name.
    pub closed spec fn wf(&self) -> bool {
        &&& forall|i: int| 0 <= i < self.tables@.len() ==> (#[trigger] self.tables@[i]).wf()
        &&& crate::schema::distinct_names(table_names(self@.tables))
    }

    /// A well-formed database satisfies the invariants stated over its view.
    pub proof fn lemma_wf(&self)
        requires
            self.wf(),
        ensures
            database_ok(self@),
    {
        assert forall|i: int| 0 <= i < self@.tables.len() implies table_ok(#[trigger] self@.tables[i]) by {
            self.tables@[i].lemma_wf_view();
        }
    }

    /// A database with no tables.
    pub fn new(name: String) -> (r: Database)
        ensures
            r.wf(),
            r@.name == name@,
            r@.tables.len() == 0,
    {
        let r = Database { name, tables: Vec::new() };
        proof {
            assert(r@.tables =~= Seq::<TableView>::empty());
        }
        r
    }

    pub fn name(&self) -> (r: String)
        ensures
            r@ == self@.name,
    {
        self.name.clone()
    }

    /// The position of the table called `name`.
    fn find_table(&self, name: &str) -> (r: Option<usize>)
        ensures
            r.is_some() == (table_index(self@, name@) >= 0),
            r.is_some() ==> r.unwrap() == table_index(self@, name@) && r.unwrap() < self.tables@.len(),
    {
        let ghost names = table_names(self@.tables);
        let mut i: usize = 0;
        while i < self.tables.len()
            invariant
                names == table_names(self@.tables),
                i <= self.tables@.len(),
                forall|j: int| 0 <= j < i ==> names[j] != name@,
            decreases self.tables@.len() - i,
        {
            let n = self.tables[i].name();
            proof {
                assert(names[i as int] == self.tables@[i as int]@.name);
            }
            if text_eq(n.as_str(), name) {
                proof {
                    lemma_index_of_found(names, name@, i as int);
                }
                return Some(i);
            }
            i += 1;
        }
        proof {
            lemma_index_of_absent(names, name@);
        }
        None
    }

    pub fn contains_table(&self, name: &str) -> (r: bool)
        ensures
            r == (table_index(self@, name@) >= 0),
    {
        self.find_table(name).is_some()
    }

    /// The table called `name`.
    pub fn get_table(&self, name: &str) -> (r: Option<&Table>)
        requires
            self.wf(),
        ensures
            r.is_some() == (table_index(self@, name@) >= 0),
            r.is_some() ==> r.unwrap()@ == self@.tables[table_index(self@, name@)] && r.unwrap().wf(),
    {
        match self.find_table(name) {
            Some(i) => Some(&self.tables[i]),
            None => None,
        }
    }

    /// The table names, in order of creation.
    pub fn get_table_names(&self) -> (r: Vec<String>)
        ensures
            views_of(r@) == table_names(self@.tables),
    {
        let mut out: Vec<String> = Vec::new();
        let mut i: usize = 0;
        while i < self.tables.len()
            invariant
                i <= self.tables@.len(),
                out@.len() == i,
                forall|k: int| 0 <= k < i ==> (#[trigger] out@[k])@ == self.tables@[k]@.name,
            decreases self.tables@.len() - i,
        {
            out.push(self.tables[i].name());
            i += 1;
        }
        proof {
            assert(views_of(out@) =~= table_names(self@.tables));
        }
        out
    }

    /// Whether `value` may stand in a column with foreign key `fk`.
    fn check_fk_value(&self, fk: &ForeignKeyConstraint, value: &str) -> (r: bool)
        requires
            self.wf(),
        ensures
            r == fk_value_ok(self@, *fk, value@),
    {
        if value.unicode_len() == 0 {
            return true;
        }
        match self.find_table(fk.table_name.as_str()) {
            Some(ri) => self.tables[ri].has_key(value),
            None => false,
        }
    }

    /// The error of a foreign-key value with no referent.
    fn missing_referent(fk: &ForeignKeyConstraint, value: &str) -> (r: String)
        ensures
            r@ == "does not exist: "@ + value@ + " in "@ + fk.table_name@ + "."@ + fk.column_name@,
    {
        let mut m = String::from_str("does not exist: ");
        m.append(value);
        m.append(" in ");
        m.append(fk.table_name.as_str());
        m.append(".");
        m.append(fk.column_name.as_str());
        m
    }

    /// Checks every foreign-key cell of an input row for table `ti`.
    fn check_insert_fks(&self, ti: usize, data: &Vec<String>) -> (r: Result<(), String>)
        requires
            self.wf(),
            ti < self.tables@.len(),
        ensures
            r.is_ok() == insert_fks_ok(self@, self@.tables[ti as int], views_of(data@)),
            r.is_err() ==> (r matches Err(e) && e@ == fk_error(self@, self@.tables[ti as int], views_of(data@))),
    {
        let t = &self.tables[ti];
        let n = t.schema().len();
        let ghost tv = self@.tables[ti as int];
        let mut c: usize = 0;
        while c < n
            invariant
                self.wf(),
                ti < self.tables@.len(),
                *t == self.tables@[ti as int],
                tv == self@.tables[ti as int],
                n == tv.columns.len(),
                c <= n,
                forall|k: int| 0 <= k < c && k < data@.len() ==> match (#[trigger] tv.columns[k]).1.foreign_key {
                    Some(fk) => fk_value_ok(self@, fk, views_of(data@)[k]),
                    None => true,
                },
            decreases n - c,
        {
            if c < data.len() {
                proof {
                    assert(views_of(data@)[c as int] == data@[c as int]@);
                }
                match &t.schema().at(c).1.foreign_key {
                    Some(fk) => {
                        if !self.check_fk_value(fk, data[c].as_str()) {
                            proof {
                                let d = views_of(data@);
                                assert(tv.columns[c as int].1.foreign_key == Some(*fk));
                                assert forall|j: int| 0 <= j < c implies !#[trigger] fk_bad_at(self@, tv, d, j) by {
                                    if j < data@.len() {
                                        match tv.columns[j].1.foreign_key {
                                            Some(f) => {},
                                            None => {},
                                        }
                                    }
                                }
                                lemma_first_where_at(0, n as int, |j: int| fk_bad_at(self@, tv, d, j), c as int);
                            }
                            return Err(Database::missing_referent(fk, data[c].as_str()));
                        }
                    },
                    None => {},
                }
            }
            c += 1;
        }
        Ok(())
    }

    /// Checks every assignment to a foreign-key column of table `ti`.
    fn check_update_fks(&self, ti: usize, updates: &Vec<(String, String)>) -> (r: Result<(), String>)
        requires
            self.wf(),
            ti < self.tables@.len(),
        ensures
            r.is_ok() == update_fks_ok(self@, self@.tables[ti as int], updates_view(updates@)),
    {
        let t = &self.tables[ti];
        let ghost tv = self@.tables[ti as int];
        let ghost ups = updates_view(updates@);
        let mut i: usize = 0;
        while i < updates.len()
            invariant
                self.wf(),
                ti < self.tables@.len(),
                *t == self.tables@[ti as int],
                tv == self@.tables[ti as int],
                ups == updates_view(updates@),
                i <= updates@.len(),
                forall|k: int| 0 <= k < i ==> {
                    let c = index_of(names_of(tv.columns), (#[trigger] ups[k]).0);
                    c >= 0 ==> match tv.columns[c].1.foreign_key {
                        Some(fk) => fk_value_ok(self@, fk, ups[k].1),
                        None => true,
                    }
                },
            decreases updates@.len() - i,
        {
            proof {
                assert(ups[i as int] == (updates@[i as int].0@, updates@[i as int].1@));
            }
            match t.schema().position(updates[i].0.as_str()) {
                Some(c) => {
                    proof {
                        lemma_index_of_range(names_of(tv.columns), ups[i as int].0);
                    }
                    match &t.schema().at(c).1.foreign_key {
                        Some(fk) => {
                            if !self.check_fk_value(fk, updates[i].1.as_str()) {
                                return Err(Database::missing_referent(fk, updates[i].1.as_str()));
                            }
                        },
                        None => {},
                    }
                },
                None => {},
            }
            i += 1;
        }
        Ok(())
    }

    /// Takes table `ti` out; `put_table` puts it back.
    fn take_table(&mut self, ti: usize) -> (r: Table)
        requires
            old(self).wf(),
            ti < old(self).tables@.len(),
        ensures
            r == old(self).tables@[ti as int],
            final(self).tables@ == old(self).tables@.remove(ti as int),
            final(self).name == old(self).name,
    {
        self.tables.remove(ti)
    }

    fn put_table(&mut self, ti: usize, t: Table)
        requires
            ti <= old(self).tables@.len(),
        ensures
            final(self).tables@ == old(self).tables@.insert(ti as int, t),
            final(self).name == old(self).name,
    {
        self.tables.insert(ti, t);
    }

    /// Inserts `data` into the table called `table_name`, once every
    /// foreign-key value in it is the primary key of a row of the table it
    /// refers to. Returns the row inserted.
    pub fn insert_into_table(&mut self, table_name: &str, data: Vec<String>) -> (r: Result<Row, String>)
        requires
            old(self).wf(),
        ensures
            final(self).wf(),
            final(self)@.name == old(self)@.name,
            table_names(final(self)@.tables) == table_names(old(self)@.tables),
            table_index(old(self)@, table_name@) < 0 ==> r.is_err() && final(self)@ == old(self)@,
            table_index(old(self)@, table_name@) >= 0 ==> match insert_into_spec(old(self)@, table_index(old(self)@, table_name@), views_of(data@)) {
                None => r.is_err() && final(self)@ == old(self)@,
                Some(db) => r.is_ok() && final(self)@ == db && r.unwrap()@ == crate::model::row_of(views_of(data@)),
            },
            table_index(old(self)@, table_name@) >= 0 && !insert_fks_ok(old(self)@, old(self)@.tables[table_index(old(self)@, table_name@)], views_of(data@))
                ==> (r matches Err(e) && e@ == fk_error(old(self)@, old(self)@.tables[table_index(old(self)@, table_name@)], views_of(data@))),
    {
        let ti = match self.find_table(table_name) {
            Some(ti) => ti,
            None => {
                return Err(String::from_str("unknown table: no table has this name"));
            },
        };
        self.check_insert_fks(ti, &data)?;
        let ghost old_v = self@;
        let mut t = self.take_table(ti);
        let r = t.insert(data);
        self.put_table(ti, t);
        proof {
            assert(self.tables@ =~= old(self).tables@.update(ti as int, t));
            assert(self@.tables =~= old_v.tables.update(ti as int, t@));
            assert(table_names(self@.tables) =~= table_names(old_v.tables));
            assert forall|i: int| 0 <= i < self.tables@.len() implies (#[trigger] self.tables@[i]).wf() by {
                if i != ti {
                    assert(self.tables@[i] == old(self).tables@[i]);
                }
            }
            if r.is_err() {
                assert(self@.tables =~= old_v.tables);
                assert(self@ == old_v);
            }
        }
        r
    }

    /// Creates the table `name` from column definitions, resolving each
    /// foreign key against the tables already here. Refused when the
    /// definitions are malformed, when the name is taken, or when a foreign
    /// key refers to a missing table or column.
    pub fn create_table(&mut self, name: String, column_definitions: Vec<String>) -> (r: Result<(), String>)
        requires
            old(self).wf(),
        ensures
            final(self).wf(),
            final(self)@.name == old(self)@.name,
            r.is_ok() == (definitions_ok(views_of(column_definitions@)) && table_index(old(self)@, name@) < 0
                && forall|i: int| 0 <= i < column_definitions@.len() ==> definition_refs_ok(old(self)@, words(#[trigger] views_of(column_definitions@)[i]))),
            r.is_err() ==> final(self)@ == old(self)@,
            r.is_ok() ==> {
                let defs = views_of(column_definitions@);
                let t = final(self)@.tables.last();
                &&& final(self)@.name == old(self)@.name
                &&& final(self)@.tables.len() == old(self)@.tables.len() + 1
                &&& final(self)@.tables.drop_last() == old(self)@.tables
                &&& t.name == name@
                &&& t.rows.len() == 0
                &&& t.columns.len() == defs.len()
                &&& forall|i: int| 0 <= i < defs.len() ==> column_resolved(old(self)@, words(#[trigger] defs[i]), t.columns[i])
                &&& t.indexed == exists|i: int| 0 <= i < defs.len() && words(#[trigger] defs[i]).len() == 3
                &&& t.primary_keys == pk_positions(defs)
                &&& t.index == Map::<Seq<char>, usize>::empty()
            },
            ({
                let defs = views_of(column_definitions@);
                definitions_ok(defs) && table_index(old(self)@, name@) < 0 && !(forall|i: int| 0 <= i < defs.len()
                    ==> definition_refs_ok(old(self)@, words(#[trigger] defs[i])))
                    ==> (r matches Err(e) && e@ == ref_error(old(self)@, defs))
            }),
    {
        let ghost defs = views_of(column_definitions@);
        let mut t = Table::new(name, column_definitions)?;
        let ghost t0 = t@;
        if self.find_table(t.name().as_str()).is_some() {
            return Err(String::from_str("table exists: a table already has this name"));
        }
        let n = t.schema().len();
        let mut c: usize = 0;
        while c < n
            invariant
                self.wf(),
                self@ == old(self)@,
                defs == views_of(column_definitions@),
                n == defs.len(),
                t.wf(),
                t@ == (TableView { columns: t@.columns, ..t0 }),
                t@.columns.len() == n,
                t0.columns.len() == n,
                c <= n,
                forall|k: int| 0 <= k < n ==> column_matches(words(#[trigger] defs[k]), t0.columns[k].0, t0.columns[k].1),
                forall|k: int| 0 <= k < n ==> definition_ok(words(#[trigger] defs[k])),
                forall|k: int| 0 <= k < c ==> column_resolved(old(self)@, words(#[trigger] defs[k]), t@.columns[k]),
                forall|k: int| 0 <= k < c ==> definition_refs_ok(old(self)@, words(#[trigger] defs[k])),
                forall|k: int| c <= k < n ==> #[trigger] t@.columns[k] == t0.columns[k],
            decreases n - c,
        {
            let fk = match &t.schema().at(c).1.foreign_key {
                Some(fk) => Some(fk.copy()),
                None => None,
            };
            proof {
                assert(t@.columns[c as int] == t0.columns[c as int]);
            }
            match fk {
                Some(fk) => {
                    let target = match self.find_table(fk.table_name.as_str()) {
                        Some(ri) => self.tables[ri].schema().position(fk.column_name.as_str()),
                        None => None,
                    };
                    proof {
                        let ri = table_index(self@, fk.table_name@);
                        if ri >= 0 {
                            assert(self@.tables[ri] == self.tables@[ri]@);
                        }
                    }
                    match target {
                        Some(idx) => {
                            let ghost before = t@.columns;
                            t.update_foreign_key_index(c, idx);
                            proof {
                                assert forall|k: int| 0 <= k < c implies column_resolved(old(self)@, words(#[trigger] defs[k]), t@.columns[k]) by {
                                    assert(t@.columns[k] == before[k]);
                                }
                                assert forall|k: int| c < k < n implies #[trigger] t@.columns[k] == t0.columns[k] by {
                                    assert(t@.columns[k] == before[k]);
                                }
                                let col = t@.columns[c as int];
                                assert(t0.columns[c as int].1.foreign_key == Some(fk));
                                assert(column_matches(words(defs[c as int]), t0.columns[c as int].0, t0.columns[c as int].1));
                                assert(fk.column_index.is_none());
                                assert(col.1.foreign_key == Some(ForeignKeyConstraint { column_index: Some(idx), ..fk }));
                                assert(ForeignKeyConstraint { column_index: None, ..col.1.foreign_key.unwrap() } == fk);
                                assert((ColumnInformation { foreign_key: Some(ForeignKeyConstraint { column_index: None, ..col.1.foreign_key.unwrap() }), ..col.1 }) == t0.columns[c as int].1);
                            }
                        },
                        None => {
                            proof {
                                let w = words(defs[c as int]);
                                assert(column_matches(w, t0.columns[c as int].0, t0.columns[c as int].1));
                                assert(t0.columns[c as int].1.foreign_key == Some(fk));
                                assert(w.len() == 4);
                                assert(fk_target(old(self)@, fk.table_name@, fk.column_name@) < 0);
                                assert(!definition_refs_ok(old(self)@, w));
                                assert(views_of(column_definitions@)[c as int] == defs[c as int]);
                                lemma_first_where_at(0, n as int, |i: int| !definition_refs_ok(old(self)@, words(defs[i])), c as int);
                            }
                            let mut m = String::from_str("invalid foreign key on ");
                            m.append(fk.table_name.as_str());
                            m.append("; column ");
                            m.append(fk.column_name.as_str());
                            m.append(" doesn't exist");
                            return Err(m);
                        },
                    }
                },
                None => {},
            }
            c += 1;
        }
        let ghost old_tables = self.tables@;
        self.tables.push(t);
        proof {
            assert(self@.tables =~= old(self)@.tables.push(t@));
            assert(self@.tables.drop_last() =~= old(self)@.tables);
            assert(table_names(self@.tables) =~= table_names(old(self)@.tables).push(t@.name));
            crate::schema::lemma_index_of_range(table_names(old(self)@.tables), t@.name);
            assert forall|i: int| 0 <= i < self.tables@.len() implies (#[trigger] self.tables@[i]).wf() by {
                if i < old_tables.len() {
                    assert(self.tables@[i] == old_tables[i]);
                }
            }
        }
        Ok(())
    }

    proof fn lemma_replaced(old_db: Database, new_db: Database, ti: usize, t: Table)
        requires
            old_db.wf(),
            ti < old_db.tables@.len(),
            new_db.tables@ == old_db.tables@.update(ti as int, t),
            new_db.name == old_db.name,
            t.wf(),
            t@.name == old_db@.tables[ti as int].name,
        ensures
            new_db.wf(),
            new_db@ == (DatabaseView { tables: old_db@.tables.update(ti as int, t@), ..old_db@ }),
            table_names(new_db@.tables) == table_names(old_db@.tables),
    {
        assert(new_db@.tables =~= old_db@.tables.update(ti as int, t@));
        assert(table_names(new_db@.tables) =~= table_names(old_db@.tables));
        assert forall|i: int| 0 <= i < new_db.tables@.len() implies (#[trigger] new_db.tables@[i]).wf() by {
            if i != ti {
                assert(new_db.tables@[i] == old_db.tables@[i]);
            }
        }
    }

    /// Inserts several rows in turn into the table called `table_name`,
    /// stopping at the first refused; the rows before it stay. Returns how
    /// many were inserted.
    pub fn insert_many_into_table(&mut self, table_name: &str, values: Vec<Vec<String>>) -> (r: Result<usize, String>)
        requires
            old(self).wf(),
        ensures
            final(self).wf(),
            final(self)@.name == old(self)@.name,
            table_index(old(self)@, table_name@) < 0 ==> r.is_err() && final(self)@ == old(self)@,
            table_index(old(self)@, table_name@) >= 0 ==> {
                let (db, ok) = insert_many_into_spec(old(self)@, table_index(old(self)@, table_name@), tuples_view(values@));
                &&& final(self)@ == db
                &&& r.is_ok() == ok
                &&& ok ==> r.unwrap() == values@.len()
                &&& insert_many_fk_error(old(self)@, table_index(old(self)@, table_name@), tuples_view(values@)) matches Some(m)
                    ==> (r matches Err(e) && e@ == m)
            },
    {
        if !self.contains_table(table_name) {
            return Err(String::from_str("unknown table: no table has this name"));
        }
        let ghost ti = table_index(self@, table_name@);
        let ghost all = tuples_view(values@);
        let mut i: usize = 0;
        proof {
            assert(all.subrange(0, all.len() as int) =~= all);
        }
        while i < values.len()
            invariant
                self.wf(),
                ti == table_index(old(self)@, table_name@),
                ti >= 0,
                table_index(self@, table_name@) == ti,
                self@.name == old(self)@.name,
                self@.tables.len() == old(self)@.tables.len(),
                all == tuples_view(values@),
                i <= values@.len(),
                insert_many_into_spec(self@, ti, all.subrange(i as int, all.len() as int))
                    == insert_many_into_spec(old(self)@, ti, all),
                insert_many_fk_error(self@, ti, all.subrange(i as int, all.len() as int))
                    == insert_many_fk_error(old(self)@, ti, all),
            decreases values@.len() - i,
        {
            let ghost rest = all.subrange(i as int, all.len() as int);
            proof {
                assert(rest[0] == views_of(values@[i as int]@));
                assert(rest.drop_first() =~= all.subrange(i + 1, all.len() as int));
            }
            let mut data: Vec<String> = Vec::new();
            let mut k: usize = 0;
            while k < values[i].len()
                invariant
                    i < values@.len(),
                    k <= values@[i as int]@.len(),
                    data@.len() == k,
                    forall|j: int| 0 <= j < k ==> #[trigger] data@[j] == values@[i as int]@[j],
                decreases values@[i as int]@.len() - k,
            {
                data.push(values[i][k].clone());
                k += 1;
            }
            proof {
                assert(data@ =~= values@[i as int]@);
            }
            let ghost before = self@;
            match self.insert_into_table(table_name, data) {
                Ok(_) => {},
                Err(e) => {
                    return Err(e);
                },
            }
            i += 1;
        }
        proof {
            assert(all.subrange(i as int, all.len() as int) =~= Seq::<Seq<Seq<char>>>::empty());
        }
        Ok(values.len())
    }

    /// Applies the assignments to the row of key tuple `pk` in the table
    /// called `table_name`, once every value written into a foreign-key
    /// column is the primary key of a row of the table it refers to. Returns
    /// the number of columns updated.
    pub fn update_table_set(&mut self, table_name: &str, pk: Vec<String>, data: Vec<(String, String)>) -> (r: Result<usize, String>)
        requires
            old(self).wf(),
        ensures
            final(self).wf(),
            final(self)@.name == old(self)@.name,
            table_names(final(self)@.tables) == table_names(old(self)@.tables),
            table_index(old(self)@, table_name@) < 0 ==> r.is_err() && final(self)@ == old(self)@,
            table_index(old(self)@, table_name@) >= 0 ==> match update_set_spec(old(self)@, table_index(old(self)@, table_name@), views_of(pk@), updates_view(data@)) {
                None => r.is_err() && final(self)@ == old(self)@,
                Some(db) => r.is_ok() && r.unwrap() == data@.len() && final(self)@ == db,
            },
    {
        let ti = match self.find_table(table_name) {
            Some(ti) => ti,
            None => {
                return Err(String::from_str("unknown table: no table has this name"));
            },
        };
        self.check_update_fks(ti, &data)?;
        let ghost old_db = *self;
        let mut t = self.take_table(ti);
        let r = t.update(pk, data);
        self.put_table(ti, t);
        proof {
            assert(self.tables@ =~= old_db.tables@.update(ti as int, t));
            Database::lemma_replaced(old_db, *self, ti, t);
            if r.is_err() {
                assert(self@.tables =~= old_db@.tables);
            }
        }
        r
    }

    /// Updates the rows of the table called `table_name` that satisfy `pred`
    /// (every row when there is none): first reads their key tuples, then
    /// updates each in turn. Returns the number of rows updated.
    pub fn update_table_set_with_filters(&mut self, table_name: &str, pred: Option<Predicate>, updates: Vec<(String, String)>) -> (r: Result<usize, String>)
        requires
            old(self).wf(),
        ensures
            final(self).wf(),
            final(self)@.name == old(self)@.name,
            table_index(old(self)@, table_name@) < 0 ==> r.is_err() && final(self)@ == old(self)@,
            table_index(old(self)@, table_name@) >= 0 ==> {
                let ti = table_index(old(self)@, table_name@);
                let t = old(self)@.tables[ti];
                let ups = updates_view(updates@);
                match pred {
                    Some(p) => {
                        let keys = matching_key_parts(t.rows, t.primary_keys, |row: Seq<CellView>| p.holds(row));
                        &&& final(self)@ == update_many_spec(old(self)@, ti, keys, ups).0
                        &&& r.is_ok() == update_many_spec(old(self)@, ti, keys, ups).1
                        &&& r.is_ok() ==> r.unwrap() == keys.len()
                    },
                    None => if !update_fks_ok(old(self)@, t, ups) {
                        r.is_err() && final(self)@ == old(self)@
                    } else {
                        let (t2, ok) = update_all_spec(t, ups);
                        &&& final(self)@ == (DatabaseView { tables: old(self)@.tables.update(ti, t2), ..old(self)@ })
                        &&& r.is_ok() == ok
                        &&& ok ==> r.unwrap() == t.rows.len()
                    },
                }
            },
    {
        let ti = match self.find_table(table_name) {
            Some(ti) => ti,
            None => {
                return Err(String::from_str("unknown table: no table has this name"));
            },
        };
        let ghost tij = ti as int;
        match &pred {
            Some(p) => {
                let keys = self.tables[ti].filter_rows(p);
                let ghost all = tuples_view(keys@);
                proof {
                    assert(self@.tables[tij] == self.tables@[tij]@);
                    assert(all.subrange(0, all.len() as int) =~= all);
                }
                let mut i: usize = 0;
                while i < keys.len()
                    invariant
                        self.wf(),
                        ti < self@.tables.len(),
                        table_index(self@, table_name@) == tij,
                        self@.name == old(self)@.name,
                        table_index(old(self)@, table_name@) == tij,
                        tij >= 0,
                        self@.tables.len() == old(self)@.tables.len(),
                        all == tuples_view(keys@),
                        all == matching_key_parts(old(self)@.tables[tij].rows, old(self)@.tables[tij].primary_keys, |row: Seq<CellView>| p.holds(row)),
                        pred == Some(*p),
                        i <= keys@.len(),
                        update_many_spec(self@, tij, all.subrange(i as int, all.len() as int), updates_view(updates@))
                            == update_many_spec(old(self)@, tij, all, updates_view(updates@)),
                    decreases keys@.len() - i,
                {
                    let ghost rest = all.subrange(i as int, all.len() as int);
                    proof {
                        assert(rest[0] == views_of(keys@[i as int]@));
                        assert(rest.drop_first() =~= all.subrange(i + 1, all.len() as int));
                    }
                    let mut ups: Vec<(String, String)> = Vec::new();
                    let mut k: usize = 0;
                    while k < updates.len()
                        invariant
                            k <= updates@.len(),
                            ups@.len() == k,
                            forall|j: int| 0 <= j < k ==> #[trigger] ups@[j] == updates@[j],
                        decreases updates@.len() - k,
                    {
                        ups.push((updates[k].0.clone(), updates[k].1.clone()));
                        k += 1;
                    }
                    proof {
                        assert(ups@ =~= updates@);
                    }
                    let mut key: Vec<String> = Vec::new();
                    let mut k: usize = 0;
                    while k < keys[i].len()
                        invariant
                            i < keys@.len(),
                            k <= keys@[i as int]@.len(),
                            key@.len() == k,
                            forall|j: int| 0 <= j < k ==> #[trigger] key@[j] == keys@[i as int]@[j],
                        decreases keys@[i as int]@.len() - k,
                    {
                        key.push(keys[i][k].clone());
                        k += 1;
                    }
                    proof {
                        assert(key@ =~= keys@[i as int]@);
                    }
                    let ghost before = self@;
                    let ghost kv = views_of(key@);
                    proof {
                        assert(kv == rest[0]);
                        assert(updates_view(ups@) == updates_view(updates@));
                    }
                    match self.update_table_set(table_name, key, ups) {
                        Ok(_) => {},
                        Err(e) => {
                            proof {
                                assert(update_set_spec(before, tij, rest[0], updates_view(updates@)).is_none());
                                assert(update_many_spec(before, tij, rest, updates_view(updates@)) == (before, false));
                                assert(self@ == before);
                                assert(self@ == update_many_spec(old(self)@, tij, all, updates_view(updates@)).0);
                            }
                            return Err(e);
                        },
                    }
                    i += 1;
                }
                proof {
                    assert(all.subrange(i as int, all.len() as int) =~= Seq::<Seq<Seq<char>>>::empty());
                }
                Ok(keys.len())
            },
            None => {
                self.check_update_fks(ti, &updates)?;
                let ghost old_db = *self;
                let mut t = self.take_table(ti);
                let r = t.update_all(updates);
                self.put_table(ti, t);
                proof {
                    assert(self.tables@ =~= old_db.tables@.update(ti as int, t));
                    crate::model::lemma_update_from_keeps(old_db@.tables[ti as int], updates_view(updates@), 0,
                        old_db@.tables[ti as int].rows.len() as int);
                    Database::lemma_replaced(old_db, *self, ti, t);
                }
                r
            },
        }
    }

    /// Deletes the row of key tuple `pk` from the table called `table_name`.
    pub fn delete_from_table_value(&mut self, table_name: &str, pk: Vec<String>) -> (r: Result<Row, String>)
        requires
            old(self).wf(),
        ensures
            final(self).wf(),
            final(self)@.name == old(self)@.name,
            table_index(old(self)@, table_name@) < 0 ==> r.is_err() && final(self)@ == old(self)@,
            table_index(old(self)@, table_name@) >= 0 ==> {
                let ti = table_index(old(self)@, table_name@);
                match delete_tuple_spec(old(self)@.tables[ti], views_of(pk@)) {
                    None => r.is_err() && final(self)@ == old(self)@,
                    Some((t, row)) => r.is_ok() && r.unwrap()@ == row
                        && final(self)@ == (DatabaseView { tables: old(self)@.tables.update(ti, t), ..old(self)@ }),
                }
            },
    {
        let ti = match self.find_table(table_name) {
            Some(ti) => ti,
            None => {
                return Err(String::from_str("unknown table: no table has this name"));
            },
        };
        let ghost old_db = *self;
        let mut t = self.take_table(ti);
        let r = t.delete(pk);
        self.put_table(ti, t);
        proof {
            assert(self.tables@ =~= old_db.tables@.update(ti as int, t));
            Database::lemma_replaced(old_db, *self, ti, t);
            if r.is_err() {
                assert(self@.tables =~= old_db@.tables);
            }
        }
        r
    }

    /// Deletes the rows of several key tuples in turn from the table called
    /// `table_name`, stopping at the first that finds no row. Returns how
    /// many were deleted.
    pub fn delete_from_table_values(&mut self, table_name: &str, pks: Vec<Vec<String>>) -> (r: Result<usize, String>)
        requires
            old(self).wf(),
        ensures
            final(self).wf(),
            final(self)@.name == old(self)@.name,
            table_index(old(self)@, table_name@) < 0 ==> r.is_err() && final(self)@ == old(self)@,
            table_index(old(self)@, table_name@) >= 0 ==> {
                let ti = table_index(old(self)@, table_name@);
                let (t, ok) = delete_many_spec(old(self)@.tables[ti], tuples_view(pks@));
                &&& final(self)@ == (DatabaseView { tables: old(self)@.tables.update(ti, t), ..old(self)@ })
                &&& r.is_ok() == ok
                &&& ok ==> r.unwrap() == pks@.len()
            },
    {
        let ti = match self.find_table(table_name) {
            Some(ti) => ti,
            None => {
                return Err(String::from_str("unknown table: no table has this name"));
            },
        };
        let ghost old_db = *self;
        let mut t = self.take_table(ti);
        let r = t.delete_many(pks);
        self.put_table(ti, t);
        proof {
            lemma_delete_many_keeps_name(old_db@.tables[ti as int], tuples_view(pks@));
            assert(self.tables@ =~= old_db.tables@.update(ti as int, t));
            Database::lemma_replaced(old_db, *self, ti, t);
        }
        r
    }

    /// Deletes the rows of the table called `table_name` that satisfy `pred`
    /// (every row when there is none). Returns how many were deleted.
    pub fn delete_from_table_with_filter(&mut self, table_name: &str, pred: Option<Predicate>) -> (r: Result<usize, String>)
        requires
            old(self).wf(),
        ensures
            final(self).wf(),
            final(self)@.name == old(self)@.name,
            table_index(old(self)@, table_name@) < 0 ==> r.is_err() && final(self)@ == old(self)@,
            table_index(old(self)@, table_name@) >= 0 ==> {
                let ti = table_index(old(self)@, table_name@);
                let t = old(self)@.tables[ti];
                match pred {
                    Some(p) => {
                        let keys = matching_key_parts(t.rows, t.primary_keys, |row: Seq<CellView>| p.holds(row));
                        let (t2, ok) = delete_many_spec(t, keys);
                        &&& final(self)@ == (DatabaseView { tables: old(self)@.tables.update(ti, t2), ..old(self)@ })
                        &&& r.is_ok() == ok
                        &&& ok ==> r.unwrap() == keys.len()
                    },
                    None => r.is_ok() && r.unwrap() == t.rows.len() && final(self)@ == (DatabaseView {
                        tables: old(self)@.tables.update(ti, TableView { rows: Seq::empty(), index: Map::empty(), ..t }),
                        ..old(self)@
                    }),
                }
            },
    {
        let ti = match self.find_table(table_name) {
            Some(ti) => ti,
            None => {
                return Err(String::from_str("unknown table: no table has this name"));
            },
        };
        let ghost old_db = *self;
        let mut t = self.take_table(ti);
        let r = match &pred {
            Some(p) => t.delete_with_filter(p),
            None => Ok(t.delete_all()),
        };
        self.put_table(ti, t);
        proof {
            let tv = old_db@.tables[ti as int];
            if let Some(p) = pred {
                lemma_delete_many_keeps_name(tv, matching_key_parts(tv.rows, tv.primary_keys, |row: Seq<CellView>| p.holds(row)));
            }
            assert(self.tables@ =~= old_db.tables@.update(ti as int, t));
            Database::lemma_replaced(old_db, *self, ti, t);
        }
        r
    }
}

} // verus!
