//! The mathematical model of a table: its view, the validity of values, and
//! primary-key strings.
use vstd::prelude::*;
use crate::row::{CellView, Row};
use crate::schema::{distinct_names, is_reserved, names_of, ColumnInformation, DataType};
use crate::text::{join_key, parses_as_u64};

verus! {

/// What a table holds, as mathematical values.
pub struct TableView {
    pub name: Seq<char>,
    pub columns: Seq<(String, ColumnInformation)>,
    pub rows: Seq<Seq<CellView>>,
    /// Positions of the primary-key columns (the first column when none is declared).
    pub primary_keys: Seq<int>,
    /// Whether the schema declares a primary key.
    pub indexed: bool,
    /// Primary-key string to row position.
    pub index: Map<Seq<char>, usize>,
}

pub open spec fn rows_view(rows: Seq<Row>) -> Seq<Seq<CellView>> {
    rows.map_values(|r: Row| r@)
}

/// The text a cell contributes to a key: a null cell contributes nothing.
pub open spec fn cell_text(c: CellView) -> Seq<char> {
    match c {
        Some(t) => t,
        None => Seq::empty(),
    }
}

/// The values of a row at the primary-key columns.
pub open spec fn key_parts(row: Seq<CellView>, pks: Seq<int>) -> Seq<Seq<char>> {
    pks.map_values(|c: int| cell_text(row[c]))
}

/// The primary-key string of a row: its key values joined with `|`.
pub open spec fn key_of(row: Seq<CellView>, pks: Seq<int>) -> Seq<char> {
    join_key(key_parts(row, pks))
}

pub open spec fn keys_of(rows: Seq<Seq<CellView>>, pks: Seq<int>) -> Seq<Seq<char>> {
    rows.map_values(|r: Seq<CellView>| key_of(r, pks))
}

/// The cell that input text `s` becomes: the empty text stands for null.
pub open spec fn cell_of(s: Seq<char>) -> CellView {
    if s.len() == 0 {
        None
    } else {
        Some(s)
    }
}

/// Input text `s` is admitted by a column: empty only where the column is
/// nullable, a 64-bit unsigned integer in a number column, and no longer
/// than the limit, in UTF-8 bytes, in a text column.
pub open spec fn value_ok(info: ColumnInformation, s: Seq<char>) -> bool {
    if s.len() == 0 {
        info.nullable
    } else {
        match info.datatype {
            DataType::Number => parses_as_u64(s),
            DataType::Text => match info.max_limit {
                Some(m) => vstd::utf8::encode_utf8(s).len() <= m,
                None => true,
            },
        }
    }
}

/// A stored cell satisfies its column.
pub open spec fn cell_fits(info: ColumnInformation, c: CellView) -> bool {
    match c {
        None => info.nullable,
        Some(t) => t.len() > 0 && value_ok(info, t),
    }
}

pub open spec fn data_ok(columns: Seq<(String, ColumnInformation)>, data: Seq<Seq<char>>) -> bool {
    data.len() == columns.len() && forall|i: int| 0 <= i < data.len() ==> value_ok(columns[i].1, #[trigger] data[i])
}

pub open spec fn row_of(data: Seq<Seq<char>>) -> Seq<CellView> {
    data.map_values(|s: Seq<char>| cell_of(s))
}

pub open spec fn row_fits(columns: Seq<(String, ColumnInformation)>, row: Seq<CellView>) -> bool {
    row.len() == columns.len() && forall|i: int| 0 <= i < row.len() ==> cell_fits(columns[i].1, #[trigger] row[i])
}

/// The schema is usable: at least one column, distinct names, no reserved word.
pub open spec fn columns_ok(columns: Seq<(String, ColumnInformation)>) -> bool {
    &&& columns.len() > 0
    &&& distinct_names(names_of(columns))
    &&& forall|i: int| 0 <= i < columns.len() ==> !is_reserved(#[trigger] columns[i].0@)
}

pub open spec fn primary_keys_ok(v: TableView) -> bool {
    &&& v.primary_keys.len() > 0
    &&& forall|i: int| 0 <= i < v.primary_keys.len() ==> 0 <= #[trigger] v.primary_keys[i] < v.columns.len()
    &&& !v.indexed ==> v.primary_keys == seq![0int]
}

/// Every row sits in the index at its own position, and every key in the
/// index belongs to a row.
pub open spec fn index_consistent(v: TableView) -> bool {
    &&& forall|p: int| 0 <= p < v.rows.len() ==> v.index.contains_key(#[trigger] key_of(v.rows[p], v.primary_keys))
        && v.index[key_of(v.rows[p], v.primary_keys)] == p
    &&& forall|k: Seq<char>| #[trigger] v.index.contains_key(k) ==> exists|p: int|
        0 <= p < v.rows.len() && key_of(v.rows[p], v.primary_keys) == k
}

/// The table's invariants, over its view.
pub open spec fn table_ok(v: TableView) -> bool {
    &&& columns_ok(v.columns)
    &&& primary_keys_ok(v)
    &&& forall|p: int| 0 <= p < v.rows.len() ==> row_fits(v.columns, #[trigger] v.rows[p])
    &&& v.indexed ==> index_consistent(v)
    &&& !v.indexed ==> v.index == Map::<Seq<char>, usize>::empty()
}

/// The position of the first row whose primary-key string is `key`, or `-1`.
pub open spec fn find_row(v: TableView, key: Seq<char>) -> int {
    crate::schema::index_of(keys_of(v.rows, v.primary_keys), key)
}

/// The table after inserting the input row `data`, or `None` when it is refused.
pub open spec fn insert_spec(v: TableView, data: Seq<Seq<char>>) -> Option<TableView> {
    let row = row_of(data);
    let key = key_of(row, v.primary_keys);
    if !data_ok(v.columns, data) {
        None
    } else if v.indexed && v.index.contains_key(key) {
        None
    } else {
        Some(TableView {
            rows: v.rows.push(row),
            index: if v.indexed { v.index.insert(key, v.rows.len() as usize) } else { v.index },
            ..v
        })
    }
}

/// The table after deleting the first row whose primary-key string is `key`,
/// with the deleted row, or `None` when no row has that key.
pub open spec fn delete_spec(v: TableView, key: Seq<char>) -> Option<(TableView, Seq<CellView>)> {
    let p = find_row(v, key);
    if p < 0 {
        None
    } else {
        Some((TableView {
            rows: v.rows.remove(p),
            index: if v.indexed { crate::index::shifted_down(v.index.remove(key), p as usize) } else { v.index },
            ..v
        }, v.rows[p]))
    }
}

} // verus!

verus! {

/// Deleting by a key tuple: refused when it does not have one value per
/// primary-key column.
pub open spec fn delete_tuple_spec(v: TableView, parts: Seq<Seq<char>>) -> Option<(TableView, Seq<CellView>)> {
    if parts.len() != v.primary_keys.len() {
        None
    } else {
        delete_spec(v, join_key(parts))
    }
}

/// Deleting the rows of several key tuples in turn: the table reached, and
/// whether every deletion found its row. It stops at the first that does not.
pub open spec fn delete_many_spec(v: TableView, keys: Seq<Seq<Seq<char>>>) -> (TableView, bool)
    decreases keys.len(),
{
    if keys.len() == 0 {
        (v, true)
    } else {
        match delete_tuple_spec(v, keys[0]) {
            None => (v, false),
            Some((v2, _)) => delete_many_spec(v2, keys.drop_first()),
        }
    }
}

/// The key tuples of the rows that satisfy `pred`, in row order.
pub open spec fn matching_key_parts(rows: Seq<Seq<CellView>>, pks: Seq<int>, pred: spec_fn(Seq<CellView>) -> bool) -> Seq<Seq<Seq<char>>>
    decreases rows.len(),
{
    if rows.len() == 0 {
        Seq::empty()
    } else {
        let prev = matching_key_parts(rows.drop_last(), pks, pred);
        if pred(rows.last()) {
            prev.push(key_parts(rows.last(), pks))
        } else {
            prev
        }
    }
}

pub open spec fn tuples_view(v: Seq<Vec<String>>) -> Seq<Seq<Seq<char>>> {
    v.map_values(|p: Vec<String>| crate::text::views_of(p@))
}

} // verus!

verus! {

/// Where an assignment `name = value` writes, and what: refused when no
/// column has that name or when the value does not suit the column.
pub open spec fn resolve_spec(columns: Seq<(String, ColumnInformation)>, name: Seq<char>, value: Seq<char>) -> Option<(int, CellView)> {
    let c = crate::schema::index_of(crate::schema::names_of(columns), name);
    if c < 0 {
        None
    } else if !value_ok(columns[c].1, value) {
        None
    } else {
        Some((c, cell_of(value)))
    }
}

pub open spec fn updates_view(u: Seq<(String, String)>) -> Seq<(Seq<char>, Seq<char>)> {
    u.map_values(|a: (String, String)| (a.0@, a.1@))
}

pub open spec fn updates_ok(columns: Seq<(String, ColumnInformation)>, ups: Seq<(Seq<char>, Seq<char>)>) -> bool {
    forall|i: int| 0 <= i < ups.len() ==> (#[trigger] resolve_spec(columns, ups[i].0, ups[i].1)).is_some()
}

pub open spec fn resolved(columns: Seq<(String, ColumnInformation)>, ups: Seq<(Seq<char>, Seq<char>)>) -> Seq<(int, CellView)> {
    ups.map_values(|u: (Seq<char>, Seq<char>)| resolve_spec(columns, u.0, u.1).unwrap())
}

/// The row after writing each (position, cell) in turn.
pub open spec fn apply_cells(row: Seq<CellView>, cs: Seq<(int, CellView)>) -> Seq<CellView>
    decreases cs.len(),
{
    if cs.len() == 0 {
        row
    } else {
        apply_cells(row, cs.drop_last()).update(cs.last().0, cs.last().1)
    }
}

/// The table after applying the assignments to the row at position `p`, or
/// `None` when refused. In an indexed table a changed primary key must be
/// free; its index entry then moves to the new key.
pub open spec fn update_at_spec(v: TableView, p: int, ups: Seq<(Seq<char>, Seq<char>)>) -> Option<TableView> {
    let row = apply_cells(v.rows[p], resolved(v.columns, ups));
    let old_key = key_of(v.rows[p], v.primary_keys);
    let new_key = key_of(row, v.primary_keys);
    if !updates_ok(v.columns, ups) {
        None
    } else if v.indexed && new_key != old_key && v.index.contains_key(new_key) {
        None
    } else {
        Some(TableView {
            rows: v.rows.update(p, row),
            index: if v.indexed && new_key != old_key { v.index.remove(old_key).insert(new_key, p as usize) } else { v.index },
            ..v
        })
    }
}

/// The table after applying the assignments to the first row whose primary
/// key is the tuple `parts`, or `None` when refused.
pub open spec fn update_spec(v: TableView, parts: Seq<Seq<char>>, ups: Seq<(Seq<char>, Seq<char>)>) -> Option<TableView> {
    let p = find_row(v, join_key(parts));
    if parts.len() != v.primary_keys.len() || p < 0 {
        None
    } else {
        update_at_spec(v, p, ups)
    }
}

/// Applying the assignments to the rows at positions `p..n` in turn: the
/// table reached, and whether every row was updated. It stops at the first
/// refusal.
pub open spec fn update_from(v: TableView, ups: Seq<(Seq<char>, Seq<char>)>, p: int, n: int) -> (TableView, bool)
    decreases n - p,
{
    if p >= n {
        (v, true)
    } else {
        match update_at_spec(v, p, ups) {
            None => (v, false),
            Some(v2) => update_from(v2, ups, p + 1, n),
        }
    }
}

/// Applying the assignments to every row in turn.
pub open spec fn update_all_spec(v: TableView, ups: Seq<(Seq<char>, Seq<char>)>) -> (TableView, bool) {
    if !updates_ok(v.columns, ups) {
        (v, false)
    } else {
        update_from(v, ups, 0, v.rows.len() as int)
    }
}

/// Updating rows in turn keeps the table's name and columns.
pub proof fn lemma_update_from_keeps(v: TableView, ups: Seq<(Seq<char>, Seq<char>)>, p: int, n: int)
    ensures
        update_from(v, ups, p, n).0.name == v.name,
        update_from(v, ups, p, n).0.columns == v.columns,
    decreases n - p,
{
    if p < n {
        match update_at_spec(v, p, ups) {
            None => {},
            Some(v2) => {
                lemma_update_from_keeps(v2, ups, p + 1, n);
            },
        }
    }
}

} // verus!

verus! {

/// Inserting several input rows in turn: the table reached, and whether all
/// were admitted. It stops at the first refused.
pub open spec fn insert_many_spec(v: TableView, vals: Seq<Seq<Seq<char>>>) -> (TableView, bool)
    decreases vals.len(),
{
    if vals.len() == 0 {
        (v, true)
    } else {
        match insert_spec(v, vals[0]) {
            None => (v, false),
            Some(v2) => insert_many_spec(v2, vals.drop_first()),
        }
    }
}

} // verus!
