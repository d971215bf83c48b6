//! The laws the engine keeps, stated over the views and proved.
use vstd::prelude::*;
use crate::database::{fk_value_ok, insert_into_spec, table_index, DatabaseView};
use crate::functions::aggregators::aggregate_spec;
use crate::model::{
    delete_spec, delete_tuple_spec, find_row, insert_spec, key_of, key_parts, keys_of, row_of, rows_view, table_ok,
    TableView,
};
use crate::reader::{all_known, kept, limit_spec, offset_spec, project, select_indices, TableReader};
use crate::row::{CellView, Row};
use crate::schema::{
    definition_ok, distinct_names, is_reserved, lemma_index_of_distinct, lemma_index_of_range, DataType,
};
use crate::table::Table;
use crate::text::{decimal_of, parses_as_u64};

verus! {

/// In an indexed table, every row's primary-key string maps in the index to
/// the row's position.
pub proof fn lemma_index_positions(t: &Table)
    requires
        t.wf(),
    ensures
        t@.indexed ==> forall|p: int| 0 <= p < t@.rows.len() ==>
            #[trigger] t@.index[key_of(t@.rows[p], t@.primary_keys)] == p,
{
    t.lemma_wf_view();
}

/// Every row has one cell per column of the schema.
pub proof fn lemma_row_widths(t: &Table)
    requires
        t.wf(),
    ensures
        forall|p: int| 0 <= p < t@.rows.len() ==> (#[trigger] t@.rows[p]).len() == t@.columns.len(),
{
    t.lemma_wf_view();
    assert forall|p: int| 0 <= p < t@.rows.len() implies (#[trigger] t@.rows[p]).len() == t@.columns.len() by {
        assert(crate::model::row_fits(t@.columns, t@.rows[p]));
    }
}

/// Every number cell is a 64-bit unsigned integer, and every text cell of a
/// column with a limit is no longer than the limit, in UTF-8 bytes.
pub proof fn lemma_cells_valid(t: &Table)
    requires
        t.wf(),
    ensures
        forall|p: int, i: int| 0 <= p < t@.rows.len() && 0 <= i < t@.columns.len() && (#[trigger] t@.rows[p][i]).is_some() ==> {
            let c = t@.rows[p][i].unwrap();
            &&& t@.columns[i].1.datatype == DataType::Number ==> parses_as_u64(c)
            &&& t@.columns[i].1.datatype == DataType::Text && t@.columns[i].1.max_limit.is_some()
                ==> vstd::utf8::encode_utf8(c).len() <= t@.columns[i].1.max_limit.unwrap()
        },
{
    t.lemma_wf_view();
    assert forall|p: int, i: int| 0 <= p < t@.rows.len() && 0 <= i < t@.columns.len() && (#[trigger] t@.rows[p][i]).is_some() implies {
        let c = t@.rows[p][i].unwrap();
        &&& t@.columns[i].1.datatype == DataType::Number ==> parses_as_u64(c)
        &&& t@.columns[i].1.datatype == DataType::Text && t@.columns[i].1.max_limit.is_some()
            ==> vstd::utf8::encode_utf8(c).len() <= t@.columns[i].1.max_limit.unwrap()
    } by {
        assert(crate::model::row_fits(t@.columns, t@.rows[p]));
        assert(crate::model::cell_fits(t@.columns[i].1, t@.rows[p][i]));
    }
}

/// A row admitted into a table holds, in each foreign-key column, either
/// nothing or the primary key of a row of the referenced table.
pub proof fn lemma_insert_respects_foreign_keys(db: DatabaseView, ti: int, data: Seq<Seq<char>>)
    requires
        0 <= ti < db.tables.len(),
        insert_into_spec(db, ti, data).is_some(),
    ensures
        forall|c: int| 0 <= c < db.tables[ti].columns.len() && (#[trigger] db.tables[ti].columns[c]).1.foreign_key.is_some()
            && data[c].len() > 0 ==> {
                let fk = db.tables[ti].columns[c].1.foreign_key.unwrap();
                let ri = table_index(db, fk.table_name@);
                ri >= 0 && find_row(db.tables[ri], data[c]) >= 0
            },
{
    let t = db.tables[ti];
    assert(insert_spec(t, data).is_some());
    assert forall|c: int| 0 <= c < t.columns.len() && (#[trigger] t.columns[c]).1.foreign_key.is_some() && data[c].len() > 0 implies {
        let fk = t.columns[c].1.foreign_key.unwrap();
        let ri = table_index(db, fk.table_name@);
        ri >= 0 && find_row(db.tables[ri], data[c]) >= 0
    } by {
        assert(data.len() == t.columns.len());
        assert(fk_value_ok(db, t.columns[c].1.foreign_key.unwrap(), data[c]));
    }
}

/// After deleting the row at position `p` of an indexed table, every other
/// key that sat above `p` moves down by one and every key below stays; the
/// deleted key is gone.
pub proof fn lemma_delete_shifts_index(v: TableView, key: Seq<char>)
    requires
        table_ok(v),
        v.indexed,
        find_row(v, key) >= 0,
    ensures
        ({
            let p = find_row(v, key);
            let w = delete_spec(v, key).unwrap().0;
            &&& !w.index.contains_key(key)
            &&& forall|k: Seq<char>| #[trigger] w.index.contains_key(k) <==> (v.index.contains_key(k) && k != key)
            &&& forall|k: Seq<char>| #[trigger] w.index.contains_key(k) && v.index[k] > p ==> w.index[k] == v.index[k] - 1
            &&& forall|k: Seq<char>| #[trigger] w.index.contains_key(k) && v.index[k] < p ==> w.index[k] == v.index[k]
        }),
{
    let p = find_row(v, key);
    let keys = keys_of(v.rows, v.primary_keys);
    lemma_index_of_range(keys, key);
    assert(keys[p] == key_of(v.rows[p], v.primary_keys));
    assert(v.index[key] == p);
}

/// A reader's scan has as many rows as the table it was taken from.
pub proof fn lemma_scan_len(t: &Table, r: &TableReader, scanned: Seq<Row>)
    requires
        r.rows_view() == t@.rows,
        rows_view(scanned) == r.rows_view(),
    ensures
        scanned.len() == t@.rows.len(),
{
    assert(rows_view(scanned).len() == scanned.len());
}

/// Selecting every column, in order, changes nothing.
pub proof fn lemma_select_all_columns(r: &TableReader)
    requires
        r.wf(),
        distinct_names(r.names()),
    ensures
        all_known(r.names(), r.names()),
        select_indices(r.names(), r.names()).map_values(|c: int| r.schema.0@[c]) == r.schema.0@,
        r.rows_view().map_values(|row: Seq<CellView>| project(row, select_indices(r.names(), r.names()))) == r.rows_view(),
{
    let names = r.names();
    let idx = select_indices(names, names);
    assert forall|i: int| 0 <= i < names.len() implies #[trigger] idx[i] == i by {
        lemma_index_of_distinct(names, i);
    }
    assert(idx.map_values(|c: int| r.schema.0@[c]) =~= r.schema.0@);
    assert forall|p: int| 0 <= p < r.rows_view().len() implies #[trigger] project(r.rows_view()[p], idx) == r.rows_view()[p] by {
        assert(r.rows@[p]@.len() == r.schema.0@.len());
        assert(project(r.rows_view()[p], idx) =~= r.rows_view()[p]);
    }
    assert(r.rows_view().map_values(|row: Seq<CellView>| project(row, idx)) =~= r.rows_view());
}

/// Keeping every row changes nothing; keeping none leaves nothing.
pub proof fn lemma_filter_all_or_none<A>(s: Seq<A>, keep: Seq<bool>)
    requires
        keep.len() == s.len(),
    ensures
        (forall|i: int| 0 <= i < keep.len() ==> #[trigger] keep[i]) ==> kept(s, keep) == s,
        (forall|i: int| 0 <= i < keep.len() ==> !#[trigger] keep[i]) ==> kept(s, keep) == Seq::<A>::empty(),
    decreases s.len(),
{
    if s.len() > 0 {
        lemma_filter_all_or_none(s.drop_last(), keep.drop_last());
        if forall|i: int| 0 <= i < keep.len() ==> #[trigger] keep[i] {
            assert(keep.last() == keep[keep.len() - 1]);
            assert forall|i: int| 0 <= i < keep.drop_last().len() implies #[trigger] keep.drop_last()[i] by {
                assert(keep[i]);
            }
            assert(s.drop_last().push(s.last()) =~= s);
        }
        if forall|i: int| 0 <= i < keep.len() ==> !#[trigger] keep[i] {
            assert(!keep[keep.len() - 1]);
            assert forall|i: int| 0 <= i < keep.drop_last().len() implies !#[trigger] keep.drop_last()[i] by {
                assert(!keep[i]);
            }
        }
    }
}

/// Without a limit or an offset the rows are unchanged; a limit or offset at
/// least the row count saturates instead of failing.
pub proof fn lemma_limit_offset<A>(s: Seq<A>, n: usize)
    ensures
        limit_spec(offset_spec(s, None), None) == s,
        n >= s.len() ==> limit_spec(s, Some(n)) == s,
        n >= s.len() ==> offset_spec(s, Some(n)) == Seq::<A>::empty(),
{
}

/// Inserting a row and then deleting its primary key leaves as many rows as
/// before.
pub proof fn lemma_insert_then_delete(v: TableView, data: Seq<Seq<char>>)
    requires
        table_ok(v),
        insert_spec(v, data).is_some(),
    ensures
        delete_tuple_spec(insert_spec(v, data).unwrap(), key_parts(row_of(data), v.primary_keys)).is_some(),
        delete_tuple_spec(insert_spec(v, data).unwrap(), key_parts(row_of(data), v.primary_keys)).unwrap().0.rows.len()
            == v.rows.len(),
{
    let v2 = insert_spec(v, data).unwrap();
    let row = row_of(data);
    let key = key_of(row, v.primary_keys);
    let keys = keys_of(v2.rows, v2.primary_keys);
    assert(v2.rows[v.rows.len() as int] == row);
    assert(keys[v.rows.len() as int] == key);
    lemma_index_of_range(keys, key);
}

/// COUNT(*) over no rows is `0`.
pub proof fn lemma_count_star_empty()
    ensures
        aggregate_spec("COUNT"@, seq!["*"@], Seq::<Seq<CellView>>::empty()) == Some("0"@),
{
    reveal_strlit("COUNT");
    reveal_strlit("*");
    reveal_strlit("0");
    assert(seq!["*"@].contains("*"@)) by {
        assert(seq!["*"@][0] == "*"@);
    }
    assert(decimal_of(0) =~= "0"@);
}

/// A column definition whose name is a reserved word is refused.
pub proof fn lemma_reserved_name_refused(w: Seq<Seq<char>>)
    requires
        w.len() > 0,
        is_reserved(w[0]),
    ensures
        !definition_ok(w),
{
}

} // verus!
