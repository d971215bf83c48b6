//! The table: a named, schema-typed row store with a primary-key index.
use vstd::prelude::*;
use crate::index::Index;
use crate::model::{
    insert_many_spec,
    apply_cells, resolve_spec, resolved, update_all_spec, update_at_spec, update_from, update_spec, updates_ok, updates_view,
    delete_many_spec, delete_tuple_spec, matching_key_parts, tuples_view,
    cell_fits, cell_of, columns_ok, data_ok, delete_spec, find_row, insert_spec,
    key_of, key_parts, keys_of, primary_keys_ok, row_fits, row_of, rows_view, table_ok, value_ok, TableView,
};
use crate::row::{cell_view, clone_cell, CellView, Row};
use crate::schema::{
    column_matches, datatype_error, definition_matches, definition_ok, only_type_refused, distinct_names, is_reserved, names_of,
    parse_column_definition, text_eq, ColumnDefinition, ColumnInformation, DataType, Schema,
};
use crate::functions::FunctionCall;
use crate::functions::aggregators::{aggregate_spec, run as run_aggregate};
use crate::predicate::Predicate;
use crate::reader::TableReader;
use crate::text::{first_where, join_parts, parse_u64, views_of, words};

verus! {

/// A named, schema-typed store of rows. A table whose schema declares
/// primary-key columns keeps an index from primary-key string to row position.
pub struct Table {
    name: String,
    schema: Schema,
    rows: Vec<Row>,
    primary_keys: Vec<usize>,
    indexed: bool,
    index: Index,
}

/// The positions at which `flags` holds, in increasing order.
pub open spec fn positions_where(flags: Seq<bool>) -> Seq<int>
    decreases flags.len(),
{
    if flags.len() == 0 {
        Seq::empty()
    } else if flags.last() {
        positions_where(flags.drop_last()).push(flags.len() - 1)
    } else {
        positions_where(flags.drop_last())
    }
}

proof fn lemma_positions_where_bounds(flags: Seq<bool>)
    ensures
        forall|i: int| 0 <= i < positions_where(flags).len() ==> 0 <= #[trigger] positions_where(flags)[i] < flags.len(),
        (positions_where(flags).len() == 0) == (forall|i: int| 0 <= i < flags.len() ==> !#[trigger] flags[i]),
    decreases flags.len(),
{
    if flags.len() > 0 {
        lemma_positions_where_bounds(flags.drop_last());
        if !flags.last() && positions_where(flags).len() == 0 {
            assert forall|i: int| 0 <= i < flags.len() implies !#[trigger] flags[i] by {
                if i < flags.len() - 1 {
                    assert(!flags.drop_last()[i]);
                }
            }
        }
        if positions_where(flags).len() == 0 {
            assert(!flags[flags.len() - 1]);
        }
    }
}

/// The primary-key positions that definitions declare: those marked `pk`,
/// or the first column when none is.
pub open spec fn pk_positions(defs: Seq<Seq<char>>) -> Seq<int> {
    if exists|i: int| 0 <= i < defs.len() && words(#[trigger] defs[i]).len() == 3 {
        positions_where(defs.map_values(|s: Seq<char>| words(s).len() == 3))
    } else {
        seq![0int]
    }
}

/// The column definitions, split into words, are all well formed and name
/// distinct columns.
pub open spec fn definitions_ok(defs: Seq<Seq<char>>) -> bool {
    &&& defs.len() > 0
    &&& forall|i: int| 0 <= i < defs.len() ==> definition_ok(words(#[trigger] defs[i]))
    &&& forall|i: int, j: int| 0 <= i < j < defs.len() ==> words(defs[i])[0] != words(defs[j])[0]
}

proof fn lemma_delete_keeps_invariants(v: TableView, key: Seq<char>)
    requires
        table_ok(v),
        find_row(v, key) >= 0,
    ensures
        table_ok(delete_spec(v, key).unwrap().0),
        find_row(v, key) < v.rows.len(),
        key_of(v.rows[find_row(v, key)], v.primary_keys) == key,
{
    let p = find_row(v, key);
    let keys = keys_of(v.rows, v.primary_keys);
    crate::schema::lemma_index_of_range(keys, key);
    let w = delete_spec(v, key).unwrap().0;
    let pks = v.primary_keys;
    assert(keys[p] == key_of(v.rows[p], pks));
    assert forall|q: int| 0 <= q < w.rows.len() implies #[trigger] w.rows[q] == v.rows[if q < p { q } else { q + 1 }] by {}
    assert forall|q: int| 0 <= q < w.rows.len() implies row_fits(w.columns, #[trigger] w.rows[q]) by {
        let oq = if q < p { q } else { q + 1 };
        assert(row_fits(v.columns, v.rows[oq]));
    }
    if v.indexed {
        assert(v.index[key] == p);
        assert forall|q: int| 0 <= q < w.rows.len() implies w.index.contains_key(#[trigger] key_of(w.rows[q], pks))
            && w.index[key_of(w.rows[q], pks)] == q by {
            let oq = if q < p { q } else { q + 1 };
            assert(w.rows[q] == v.rows[oq]);
            assert(v.index.contains_key(key_of(v.rows[oq], pks)));
            assert(v.index[key_of(v.rows[oq], pks)] == oq);
        }
        assert forall|kk: Seq<char>| #[trigger] w.index.contains_key(kk) implies exists|q: int|
            0 <= q < w.rows.len() && key_of(w.rows[q], pks) == kk by {
            assert(v.index.contains_key(kk) && kk != key);
            let r = choose|r: int| 0 <= r < v.rows.len() && key_of(v.rows[r], pks) == kk;
            assert(r != p);
            let q = if r < p { r } else { r - 1 };
            assert(w.rows[q] == v.rows[r]);
        }
    }
}

proof fn lemma_apply_cells(v: TableView, row: Seq<CellView>, cs: Seq<(int, CellView)>)
    requires
        row_fits(v.columns, row),
        forall|i: int| 0 <= i < cs.len() ==> 0 <= (#[trigger] cs[i]).0 < v.columns.len() && cell_fits(v.columns[cs[i].0].1, cs[i].1),
    ensures
        row_fits(v.columns, apply_cells(row, cs)),
    decreases cs.len(),
{
    if cs.len() > 0 {
        let pre = cs.drop_last();
        assert forall|i: int| 0 <= i < pre.len() implies 0 <= (#[trigger] pre[i]).0 < v.columns.len() && cell_fits(v.columns[pre[i].0].1, pre[i].1) by {
            assert(pre[i] == cs[i]);
        }
        lemma_apply_cells(v, row, pre);
        let last = cs.last();
        assert(last == cs[cs.len() - 1]);
        let r0 = apply_cells(row, pre);
        let r1 = r0.update(last.0, last.1);
        assert forall|i: int| 0 <= i < r1.len() implies cell_fits(v.columns[i].1, #[trigger] r1[i]) by {
            if i != last.0 {
                assert(r1[i] == r0[i]);
            }
        }
    }
}

/// The resolved cells of admitted assignments suit their columns.
proof fn lemma_resolved_fit(v: TableView, ups: Seq<(Seq<char>, Seq<char>)>)
    requires
        updates_ok(v.columns, ups),
    ensures
        forall|i: int| 0 <= i < ups.len() ==> 0 <= (#[trigger] resolved(v.columns, ups)[i]).0 < v.columns.len()
            && cell_fits(v.columns[resolved(v.columns, ups)[i].0].1, resolved(v.columns, ups)[i].1),
{
    assert forall|i: int| 0 <= i < ups.len() implies 0 <= (#[trigger] resolved(v.columns, ups)[i]).0 < v.columns.len()
        && cell_fits(v.columns[resolved(v.columns, ups)[i].0].1, resolved(v.columns, ups)[i].1) by {
        assert(resolve_spec(v.columns, ups[i].0, ups[i].1).is_some());
        crate::schema::lemma_index_of_range(names_of(v.columns), ups[i].0);
    }
}

/// Updating one row keeps the table's invariants.
proof fn lemma_update_at_keeps_invariants(v: TableView, p: int, ups: Seq<(Seq<char>, Seq<char>)>)
    requires
        table_ok(v),
        0 <= p < v.rows.len(),
        update_at_spec(v, p, ups).is_some(),
    ensures
        table_ok(update_at_spec(v, p, ups).unwrap()),
{
    let w = update_at_spec(v, p, ups).unwrap();
    let pks = v.primary_keys;
    let row = apply_cells(v.rows[p], resolved(v.columns, ups));
    lemma_resolved_fit(v, ups);
    assert(row_fits(v.columns, v.rows[p]));
    lemma_apply_cells(v, v.rows[p], resolved(v.columns, ups));
    assert forall|q: int| 0 <= q < w.rows.len() implies row_fits(w.columns, #[trigger] w.rows[q]) by {
        if q != p {
            assert(w.rows[q] == v.rows[q]);
        }
    }
    if v.indexed {
        let old_key = key_of(v.rows[p], pks);
        let new_key = key_of(row, pks);
        assert(v.index[old_key] == p);
        assert forall|q: int| 0 <= q < w.rows.len() implies w.index.contains_key(#[trigger] key_of(w.rows[q], pks))
            && w.index[key_of(w.rows[q], pks)] == q by {
            if q != p {
                assert(w.rows[q] == v.rows[q]);
                assert(v.index.contains_key(key_of(v.rows[q], pks)));
                assert(v.index[key_of(v.rows[q], pks)] == q);
            }
        }
        assert forall|k: Seq<char>| #[trigger] w.index.contains_key(k) implies exists|q: int|
            0 <= q < w.rows.len() && key_of(w.rows[q], pks) == k by {
            if k == new_key {
                assert(key_of(w.rows[p], pks) == k);
            } else {
                assert(v.index.contains_key(k));
                let q = choose|q: int| 0 <= q < v.rows.len() && key_of(v.rows[q], pks) == k;
                if q == p {
                    assert(k == old_key);
                    assert(key_of(w.rows[p], pks) == k);
                } else {
                    assert(w.rows[q] == v.rows[q]);
                }
            }
        }
    }
}

impl View for Table {
    type V = TableView;

    closed spec fn view(&self) -> TableView {
        TableView {
            name: self.name@,
            columns: self.schema.0@,
            rows: rows_view(self.rows@),
            primary_keys: self.primary_keys@.map_values(|c: usize| c as int),
            indexed: self.indexed,
            index: self.index@,
        }
    }
}

impl Table {
    /// The table's invariants hold.
    pub closed spec fn wf(&self) -> bool {
        table_ok(self@) && self.index.wf()
    }

    /// A well-formed table satisfies the invariants stated over its view.
    pub proof fn lemma_wf_view(&self)
        requires
            self.wf(),
        ensures
            table_ok(self@),
    {
    }

    /// Builds an empty table from parsed column definitions.
    fn build(name: String, defs: &Vec<ColumnDefinition>) -> (r: Result<Table, String>)
        ensures
            r.is_ok() == (defs@.len() > 0 && distinct_names(defs@.map_values(|d: ColumnDefinition| d.name@))
                && forall|i: int| 0 <= i < defs@.len() ==> !is_reserved(#[trigger] defs@[i].name@)),
            r.is_ok() ==> {
                let t = r.unwrap();
                &&& t.wf()
                &&& t@.name == name@
                &&& t@.rows.len() == 0
                &&& t@.columns.len() == defs@.len()
                &&& forall|i: int| 0 <= i < defs@.len() ==> #[trigger] t@.columns[i] == (defs@[i].name, defs@[i].info)
                &&& t@.indexed == exists|i: int| 0 <= i < defs@.len() && #[trigger] defs@[i].primary
                &&& t@.indexed ==> t@.primary_keys == positions_where(defs@.map_values(|d: ColumnDefinition| d.primary))
                &&& !t@.indexed ==> t@.primary_keys == seq![0int]
                &&& t@.index == Map::<Seq<char>, usize>::empty()
            },
    {
        let ghost all = defs@;
        let ghost names = defs@.map_values(|d: ColumnDefinition| d.name@);
        let ghost flags = defs@.map_values(|d: ColumnDefinition| d.primary);
        if defs.len() == 0 {
            return Err(String::from_str("invalid arguments: 0 arguments does not make a schema"));
        }
        let n = defs.len();
        let mut cols: Vec<(String, ColumnInformation)> = Vec::new();
        let mut pks: Vec<usize> = Vec::new();
        let mut i: usize = 0;
        while i < n
            invariant
                n == all.len(),
                all == defs@,
                i <= n,
                names == all.map_values(|d: ColumnDefinition| d.name@),
                flags == all.map_values(|d: ColumnDefinition| d.primary),
                cols@.len() == i,
                forall|k: int| 0 <= k < i ==> #[trigger] cols@[k] == (all[k].name, all[k].info),
                forall|a: int, b: int| 0 <= a < b < i ==> names[a] != names[b],
                forall|k: int| 0 <= k < i ==> !is_reserved(#[trigger] names[k]),
                pks@.map_values(|c: usize| c as int) == positions_where(flags.subrange(0, i as int)),
            decreases n - i,
        {
            let d = &defs[i];
            let nm = d.name.as_str();
            proof {
                assert(names[i as int] == nm@);
            }
            if text_eq(nm, "pk") || text_eq(nm, "fk") || text_eq(nm, "num") || text_eq(nm, "txt") {
                proof {
                    assert(is_reserved(all[i as int].name@));
                }
                return Err(String::from_str("invalid column definition: a keyword cannot name a column"));
            }
            let mut k: usize = 0;
            while k < i
                invariant
                    n == all.len(),
                    all == defs@,
                    i < n,
                    k <= i,
                    cols@.len() == i,
                    forall|kk: int| 0 <= kk < i ==> #[trigger] cols@[kk] == (all[kk].name, all[kk].info),
                    names == all.map_values(|d: ColumnDefinition| d.name@),
                    names[i as int] == nm@,
                    forall|a: int| 0 <= a < k ==> names[a] != names[i as int],
                decreases i - k,
            {
                if text_eq(cols[k].0.as_str(), nm) {
                    proof {
                        assert(names[k as int] == cols@[k as int].0@);
                        assert(!distinct_names(names));
                    }
                    return Err(String::from_str("invalid column definition: duplicate column name"));
                }
                proof {
                    assert(names[k as int] == cols@[k as int].0@);
                }
                k += 1;
            }
            if d.primary {
                pks.push(i);
            }
            proof {
                let fl = flags.subrange(0, i + 1);
                assert(fl.drop_last() =~= flags.subrange(0, i as int));
                assert(fl.last() == d.primary);
                assert(pks@.map_values(|c: usize| c as int) =~= positions_where(fl));
            }
            cols.push((d.name.clone(), d.info.copy()));
            i += 1;
        }
        proof {
            assert(flags.subrange(0, n as int) =~= flags);
            lemma_positions_where_bounds(flags);
        }
        let indexed = pks.len() > 0;
        if !indexed {
            pks.push(0);
        }
        let t = Table { name, schema: Schema(cols), rows: Vec::new(), primary_keys: pks, indexed, index: Index::new() };
        proof {
            assert(names_of(t@.columns) =~= names);
            assert(t@.rows =~= Seq::<Seq<CellView>>::empty());
            if !indexed {
                assert(t@.primary_keys =~= seq![0int]);
            }
            if exists|i: int| 0 <= i < all.len() && #[trigger] all[i].primary {
                let i0 = choose|i: int| 0 <= i < all.len() && #[trigger] all[i].primary;
                assert(flags[i0]);
            }
            if indexed {
                let i0 = choose|i: int| 0 <= i < flags.len() && #[trigger] flags[i];
                assert(all[i0].primary);
            }
            assert forall|i: int| 0 <= i < t@.primary_keys.len() implies 0 <= #[trigger] t@.primary_keys[i] < t@.columns.len() by {
                if indexed {
                    assert(t@.primary_keys[i] == positions_where(flags)[i]);
                }
            }
            assert(distinct_names(names));
            assert forall|i: int| 0 <= i < all.len() implies !is_reserved(#[trigger] all[i].name@) by {
                assert(names[i] == all[i].name@);
            }
        }
        Ok(t)
    }

    /// Creates an empty, unnamed, unindexed table from (column name,
    /// datatype) pairs, the datatype being `num` or `txt`.
    pub fn from(columns: Vec<(String, String)>) -> (r: Result<Table, String>)
        ensures
            r.is_ok() == (columns@.len() > 0
                && (forall|i: int| 0 <= i < columns@.len() ==> crate::schema::datatype_of((#[trigger] columns@[i]).1@).is_some()
                    && !is_reserved(columns@[i].0@))
                && distinct_names(columns@.map_values(|c: (String, String)| c.0@))),
            r.is_ok() ==> {
                let t = r.unwrap();
                &&& t.wf()
                &&& t@.name.len() == 0
                &&& t@.rows.len() == 0
                &&& !t@.indexed
                &&& t@.primary_keys == seq![0int]
                &&& t@.index == Map::<Seq<char>, usize>::empty()
                &&& t@.columns.len() == columns@.len()
                &&& forall|i: int| 0 <= i < columns@.len() ==> {
                    &&& (#[trigger] t@.columns[i]).0@ == columns@[i].0@
                    &&& Some(t@.columns[i].1.datatype) == crate::schema::datatype_of(columns@[i].1@)
                    &&& t@.columns[i].1.max_limit == crate::schema::default_limit(t@.columns[i].1.datatype)
                    &&& !t@.columns[i].1.nullable
                    &&& t@.columns[i].1.foreign_key.is_none()
                }
            },
            ({
                let k = first_where(0, columns@.len() as int, |i: int| crate::schema::datatype_of(columns@[i].1@).is_none());
                k < columns@.len() ==> (r matches Err(e) && e@ == crate::schema::datatype_error(columns@[k].1@))
            }),
    {
        let mut defs: Vec<ColumnDefinition> = Vec::new();
        let mut i: usize = 0;
        while i < columns.len()
            invariant
                i <= columns@.len(),
                defs@.len() == i,
                forall|k: int| 0 <= k < i ==> crate::schema::datatype_of((#[trigger] columns@[k]).1@).is_some(),
                forall|k: int| 0 <= k < i ==> {
                    &&& (#[trigger] defs@[k]).name == columns@[k].0
                    &&& Some(defs@[k].info.datatype) == crate::schema::datatype_of(columns@[k].1@)
                    &&& defs@[k].info.max_limit == crate::schema::default_limit(defs@[k].info.datatype)
                    &&& !defs@[k].info.nullable
                    &&& defs@[k].info.foreign_key.is_none()
                    &&& !defs@[k].primary
                },
            decreases columns@.len() - i,
        {
            let datatype = if text_eq(columns[i].1.as_str(), "num") {
                DataType::Number
            } else if text_eq(columns[i].1.as_str(), "txt") {
                DataType::Text
            } else {
                let mut m = String::from_str("invalid datatype ");
                m.append(columns[i].1.as_str());
                m.append(": not supported");
                proof {
                    crate::text::lemma_first_where_at(0, columns@.len() as int,
                        |i: int| crate::schema::datatype_of(columns@[i].1@).is_none(), i as int);
                }
                return Err(m);
            };
            let max_limit = match datatype {
                DataType::Number => None,
                DataType::Text => Some(crate::schema::DEFAULT_TEXT_LIMIT),
            };
            defs.push(ColumnDefinition {
                name: columns[i].0.clone(),
                info: ColumnInformation::from(datatype, max_limit, false),
                primary: false,
            });
            i += 1;
        }
        let r = Table::build(String::new(), &defs);
        proof {
            crate::text::lemma_first_where(0, columns@.len() as int, |i: int| crate::schema::datatype_of(columns@[i].1@).is_none());
            let dn = defs@.map_values(|d: ColumnDefinition| d.name@);
            let cn = columns@.map_values(|c: (String, String)| c.0@);
            assert(dn =~= cn);
            assert forall|k: int| 0 <= k < defs@.len() implies (#[trigger] defs@[k]).name@ == columns@[k].0@ by {}
            assert((forall|k: int| 0 <= k < defs@.len() ==> !is_reserved(#[trigger] defs@[k].name@)) == (forall|k: int|
                0 <= k < columns@.len() ==> crate::schema::datatype_of((#[trigger] columns@[k]).1@).is_some()
                    && !is_reserved(columns@[k].0@))) by {
                if forall|k: int| 0 <= k < defs@.len() ==> !is_reserved(#[trigger] defs@[k].name@) {
                    assert forall|k: int| 0 <= k < columns@.len() implies crate::schema::datatype_of((#[trigger] columns@[k]).1@).is_some()
                        && !is_reserved(columns@[k].0@) by {
                        assert(!is_reserved(defs@[k].name@));
                    }
                }
                if forall|k: int| 0 <= k < columns@.len() ==> crate::schema::datatype_of((#[trigger] columns@[k]).1@).is_some()
                    && !is_reserved(columns@[k].0@) {
                    assert forall|k: int| 0 <= k < defs@.len() implies !is_reserved(#[trigger] defs@[k].name@) by {
                        assert(!is_reserved(columns@[k].0@));
                    }
                }
            }
            if r.is_ok() {
                assert(!(exists|k: int| 0 <= k < defs@.len() && #[trigger] defs@[k].primary));
            }
        }
        r
    }

    /// Creates an empty table named `name` from column definitions of the
    /// form `name type [key] [ref]`. Refused when the list is empty, when a
    /// definition is malformed, or when two columns share a name.
    pub fn new(name: String, column_definitions: Vec<String>) -> (r: Result<Table, String>)
        ensures
            r.is_ok() == definitions_ok(views_of(column_definitions@)),
            r.is_ok() ==> {
                let t = r.unwrap();
                let defs = views_of(column_definitions@);
                &&& t.wf()
                &&& t@.name == name@
                &&& t@.rows.len() == 0
                &&& t@.columns.len() == defs.len()
                &&& forall|i: int| 0 <= i < defs.len() ==> column_matches(words(#[trigger] defs[i]), t@.columns[i].0, t@.columns[i].1)
                &&& t@.indexed == exists|i: int| 0 <= i < defs.len() && words(#[trigger] defs[i]).len() == 3
                &&& t@.primary_keys == pk_positions(defs)
                &&& t@.index == Map::<Seq<char>, usize>::empty()
            },
            ({
                let defs = views_of(column_definitions@);
                let k = first_where(0, defs.len() as int, |i: int| !definition_ok(words(defs[i])));
                k < defs.len() && only_type_refused(words(defs[k])) ==> (r matches Err(e) && e@ == datatype_error(words(defs[k])[1]))
            }),
    {
        let ghost defs = views_of(column_definitions@);
        let mut parsed: Vec<ColumnDefinition> = Vec::new();
        let mut i: usize = 0;
        while i < column_definitions.len()
            invariant
                defs == views_of(column_definitions@),
                i <= defs.len(),
                parsed@.len() == i,
                forall|k: int| 0 <= k < i ==> definition_ok(words(#[trigger] defs[k])),
                forall|k: int| 0 <= k < i ==> definition_matches(words(defs[k]), #[trigger] parsed@[k]),
            decreases defs.len() - i,
        {
            proof {
                assert(defs[i as int] == column_definitions@[i as int]@);
            }
            match parse_column_definition(column_definitions[i].as_str()) {
                Ok(d) => {
                    parsed.push(d);
                },
                Err(e) => {
                    proof {
                        assert(!definition_ok(words(defs[i as int])));
                        crate::text::lemma_first_where_at(0, defs.len() as int, |i: int| !definition_ok(words(defs[i])), i as int);
                    }
                    return Err(e);
                },
            }
            i += 1;
        }
        let ghost ps = parsed@;
        let r = Table::build(name, &parsed);
        proof {
            crate::text::lemma_first_where(0, defs.len() as int, |i: int| !definition_ok(words(defs[i])));
            let nms = ps.map_values(|d: ColumnDefinition| d.name@);
            assert forall|k: int| 0 <= k < defs.len() implies #[trigger] nms[k] == words(defs[k])[0] by {
                assert(definition_matches(words(defs[k]), ps[k]));
            }
            assert forall|k: int| 0 <= k < defs.len() implies !is_reserved(#[trigger] ps[k].name@) by {
                assert(definition_matches(words(defs[k]), ps[k]));
                assert(definition_ok(words(defs[k])));
            }
            if defs.len() > 0 && !(forall|a: int, b: int| 0 <= a < b < defs.len() ==> words(defs[a])[0] != words(defs[b])[0]) {
                let (a, b) = choose|a: int, b: int| 0 <= a < b < defs.len() && words(defs[a])[0] == words(defs[b])[0];
                assert(nms[a] == nms[b]);
            }
            assert(ps.map_values(|d: ColumnDefinition| d.primary) =~= defs.map_values(|s: Seq<char>| words(s).len() == 3)) by {
                assert forall|k: int| 0 <= k < defs.len() implies ps[k].primary == (words(defs[k]).len() == 3) by {
                    assert(definition_matches(words(defs[k]), ps[k]));
                }
            }
            if r.is_ok() {
                let t = r.unwrap();
                assert forall|k: int| 0 <= k < defs.len() implies column_matches(words(#[trigger] defs[k]), t@.columns[k].0, t@.columns[k].1) by {
                    assert(definition_matches(words(defs[k]), ps[k]));
                    assert(t@.columns[k] == (ps[k].name, ps[k].info));
                }
                if exists|k: int| 0 <= k < defs.len() && words(#[trigger] defs[k]).len() == 3 {
                    let k = choose|k: int| 0 <= k < defs.len() && words(#[trigger] defs[k]).len() == 3;
                    assert(definition_matches(words(defs[k]), ps[k]));
                    assert(ps[k].primary);
                }
                if t@.indexed {
                    let k = choose|k: int| 0 <= k < ps.len() && #[trigger] ps[k].primary;
                    assert(definition_matches(words(defs[k]), ps[k]));
                }
            }
        }
        r
    }

    pub fn name(&self) -> (r: String)
        ensures
            r@ == self@.name,
    {
        self.name.clone()
    }

    pub fn schema(&self) -> (r: &Schema)
        ensures
            r.0@ == self@.columns,
    {
        &self.schema
    }

    /// The number of rows.
    pub fn rows(&self) -> (r: usize)
        ensures
            r == self@.rows.len(),
    {
        self.rows.len()
    }

    pub fn is_indexed(&self) -> (r: bool)
        ensures
            r == self@.indexed,
    {
        self.indexed
    }

    /// The position recorded in the index for `key`.
    pub fn index_lookup(&self, key: &str) -> (r: Option<usize>)
        requires
            self.wf(),
        ensures
            r == (if self@.index.contains_key(key@) { Some(self@.index[key@]) } else { None::<usize> }),
    {
        self.index.get(key)
    }

    /// Checks input text against a column.
    fn check_value(info: &ColumnInformation, s: &str) -> (r: bool)
        ensures
            r == value_ok(*info, s@),
    {
        let n = s.unicode_len();
        if n == 0 {
            return info.nullable;
        }
        match info.datatype {
            DataType::Number => parse_u64(s).is_some(),
            DataType::Text => match info.max_limit {
                Some(m) => s.as_bytes().len() <= m,
                None => true,
            },
        }
    }

    /// Checks an input row against the schema and turns it into a row.
    fn validate(&self, data: &Vec<String>) -> (r: Result<Row, String>)
        ensures
            r.is_ok() == data_ok(self@.columns, views_of(data@)),
            r.is_ok() ==> r.unwrap()@ == row_of(views_of(data@)),
    {
        let ghost d = views_of(data@);
        if data.len() != self.schema.0.len() {
            return Err(String::from_str("invalid data: the row does not have as many values as the schema has columns"));
        }
        let mut cells: Vec<Option<String>> = Vec::new();
        let mut i: usize = 0;
        while i < data.len()
            invariant
                d == views_of(data@),
                data@.len() == self@.columns.len(),
                i <= data@.len(),
                cells@.len() == i,
                forall|k: int| 0 <= k < i ==> value_ok(self@.columns[k].1, #[trigger] d[k]),
                forall|k: int| 0 <= k < i ==> cell_view(#[trigger] cells@[k]) == cell_of(d[k]),
            decreases data@.len() - i,
        {
            proof {
                assert(d[i as int] == data@[i as int]@);
            }
            let item = &data[i];
            if !Table::check_value(&self.schema.0[i].1, item.as_str()) {
                if item.unicode_len() == 0 {
                    return Err(String::from_str("invalid NULL: empty values are not allowed on this column"));
                }
                return Err(String::from_str("invalid value: not allowed on this column"));
            }
            if item.unicode_len() == 0 {
                cells.push(None);
            } else {
                cells.push(Some(item.clone()));
            }
            i += 1;
        }
        let row = Row(cells);
        proof {
            assert(row@ =~= row_of(d));
        }
        Ok(row)
    }

    /// The values of `row` at the primary-key columns.
    fn key_parts_of(&self, row: &Row) -> (r: Vec<String>)
        requires
            self.wf(),
            row@.len() == self@.columns.len(),
        ensures
            views_of(r@) == key_parts(row@, self@.primary_keys),
    {
        let mut parts: Vec<String> = Vec::new();
        let mut i: usize = 0;
        while i < self.primary_keys.len()
            invariant
                self.wf(),
                row@.len() == self@.columns.len(),
                i <= self.primary_keys@.len(),
                parts@.len() == i,
                forall|k: int| 0 <= k < i ==> (#[trigger] parts@[k])@ == key_parts(row@, self@.primary_keys)[k],
            decreases self.primary_keys@.len() - i,
        {
            let c = self.primary_keys[i];
            proof {
                assert(self@.primary_keys[i as int] == c as int);
            }
            let part = match &row.0[c] {
                Some(t) => t.clone(),
                None => String::new(),
            };
            proof {
                assert(row@[c as int] == cell_view(row.0@[c as int]));
            }
            parts.push(part);
            i += 1;
        }
        proof {
            assert(views_of(parts@) =~= key_parts(row@, self@.primary_keys));
        }
        parts
    }

    /// The primary-key string of `row`.
    fn key_of_row(&self, row: &Row) -> (r: String)
        requires
            self.wf(),
            row@.len() == self@.columns.len(),
        ensures
            r@ == key_of(row@, self@.primary_keys),
    {
        let parts = self.key_parts_of(row);
        join_parts(&parts)
    }

    /// The position of the first row whose primary-key string is `key`.
    fn find(&self, key: &str) -> (r: Option<usize>)
        requires
            self.wf(),
        ensures
            r.is_some() == (find_row(self@, key@) >= 0),
            r.is_some() ==> r.unwrap() == find_row(self@, key@),
    {
        let ghost keys = keys_of(self@.rows, self@.primary_keys);
        if self.indexed {
            match self.index.get(key) {
                Some(p) => {
                    proof {
                        let q = choose|q: int| 0 <= q < self@.rows.len() && key_of(self@.rows[q], self@.primary_keys) == key@;
                        assert(self@.index[key_of(self@.rows[q], self@.primary_keys)] == q);
                        assert forall|j: int| 0 <= j < p implies keys[j] != key@ by {
                            if keys[j] == key@ {
                                assert(self@.index[key_of(self@.rows[j], self@.primary_keys)] == j);
                            }
                        }
                        crate::schema::lemma_index_of_found(keys, key@, p as int);
                    }
                    Some(p)
                },
                None => {
                    proof {
                        assert forall|j: int| 0 <= j < keys.len() implies keys[j] != key@ by {
                            assert(self@.index.contains_key(key_of(self@.rows[j], self@.primary_keys)));
                        }
                        crate::schema::lemma_index_of_absent(keys, key@);
                    }
                    None
                },
            }
        } else {
            let mut p: usize = 0;
            while p < self.rows.len()
                invariant
                    self.wf(),
                    keys == keys_of(self@.rows, self@.primary_keys),
                    p <= self@.rows.len(),
                    forall|j: int| 0 <= j < p ==> keys[j] != key@,
                decreases self@.rows.len() - p,
            {
                proof {
                    assert(self@.rows[p as int] == self.rows@[p as int]@);
                    assert(row_fits(self@.columns, self@.rows[p as int]));
                }
                let k = self.key_of_row(&self.rows[p]);
                if text_eq(k.as_str(), key) {
                    proof {
                        crate::schema::lemma_index_of_found(keys, key@, p as int);
                    }
                    return Some(p);
                }
                p += 1;
            }
            proof {
                crate::schema::lemma_index_of_absent(keys, key@);
            }
            None
        }
    }

    /// Checks `data` against the schema and appends it as a row. In an
    /// indexed table, a row whose primary key is already present is refused.
    /// Returns the row inserted.
    pub fn insert(&mut self, data: Vec<String>) -> (r: Result<Row, String>)
        requires
            old(self).wf(),
        ensures
            final(self).wf(),
            match insert_spec(old(self)@, views_of(data@)) {
                None => r.is_err() && final(self)@ == old(self)@,
                Some(v) => r.is_ok() && final(self)@ == v && r.unwrap()@ == row_of(views_of(data@)),
            },
    {
        let row = self.validate(&data)?;
        let key = self.key_of_row(&row);
        if self.indexed && self.index.get(key.as_str()).is_some() {
            return Err(String::from_str("duplicate key: a row with this primary key exists"));
        }
        let pos = self.rows.len();
        let ghost old_v = self@;
        let copy = row.copy();
        self.rows.push(copy);
        if self.indexed {
            self.index.insert(key, pos);
        }
        proof {
            let v = self@;
            let pks = v.primary_keys;
            assert(v.rows =~= old_v.rows.push(row@));
            assert forall|p: int| 0 <= p < v.rows.len() implies row_fits(v.columns, #[trigger] v.rows[p]) by {
                if p < old_v.rows.len() {
                    assert(v.rows[p] == old_v.rows[p]);
                } else {
                    let d = views_of(data@);
                    assert forall|i: int| 0 <= i < row@.len() implies cell_fits(v.columns[i].1, #[trigger] row@[i]) by {
                        assert(value_ok(v.columns[i].1, d[i]));
                    }
                }
            }
            if v.indexed {
                let k = key_of(row@, pks);
                assert(!old_v.index.contains_key(k));
                assert forall|p: int| 0 <= p < v.rows.len() implies v.index.contains_key(#[trigger] key_of(v.rows[p], pks))
                    && v.index[key_of(v.rows[p], pks)] == p by {
                    if p < old_v.rows.len() {
                        assert(v.rows[p] == old_v.rows[p]);
                        assert(old_v.index.contains_key(key_of(old_v.rows[p], pks)));
                    } else {
                        assert(v.rows[p] == row@);
                    }
                }
                assert forall|kk: Seq<char>| #[trigger] v.index.contains_key(kk) implies exists|p: int|
                    0 <= p < v.rows.len() && key_of(v.rows[p], pks) == kk by {
                    if kk == k {
                        assert(key_of(v.rows[pos as int], pks) == kk);
                    } else {
                        let p = choose|p: int| 0 <= p < old_v.rows.len() && key_of(old_v.rows[p], pks) == kk;
                        assert(v.rows[p] == old_v.rows[p]);
                    }
                }
            }
        }
        Ok(row)
    }

    /// Deletes the first row whose primary key is the tuple `pk`, and closes
    /// the gap in the index. Returns the deleted row.
    pub fn delete(&mut self, pk: Vec<String>) -> (r: Result<Row, String>)
        requires
            old(self).wf(),
        ensures
            final(self).wf(),
            match delete_tuple_spec(old(self)@, views_of(pk@)) {
                None => r.is_err() && final(self)@ == old(self)@,
                Some((v, row)) => r.is_ok() && final(self)@ == v && r.unwrap()@ == row,
            },
    {
        if pk.len() != self.primary_keys.len() {
            return Err(String::from_str("invalid key: the key does not have one value per primary-key column"));
        }
        let key = join_parts(&pk);
        let p = match self.find(key.as_str()) {
            Some(p) => p,
            None => {
                return Err(String::from_str("no match: no row has this primary key"));
            },
        };
        let ghost old_v = self@;
        proof {
            lemma_delete_keeps_invariants(old_v, key@);
        }
        let row = self.rows.remove(p);
        if self.indexed {
            self.index.remove(key.as_str());
            self.index.shift_index_back(p);
        }
        proof {
            assert(self@.rows =~= old_v.rows.remove(p as int));
            assert(self@ == delete_spec(old_v, key@).unwrap().0);
        }
        Ok(row)
    }

    /// Deletes the rows of several key tuples in turn, stopping at the first
    /// that finds no row. Returns how many were deleted.
    pub fn delete_many(&mut self, pks: Vec<Vec<String>>) -> (r: Result<usize, String>)
        requires
            old(self).wf(),
        ensures
            final(self).wf(),
            final(self)@ == delete_many_spec(old(self)@, tuples_view(pks@)).0,
            r.is_ok() == delete_many_spec(old(self)@, tuples_view(pks@)).1,
            r.is_ok() ==> r.unwrap() == pks@.len(),
    {
        let ghost all = tuples_view(pks@);
        let mut i: usize = 0;
        proof {
            assert(all.subrange(0, all.len() as int) =~= all);
        }
        while i < pks.len()
            invariant
                self.wf(),
                all == tuples_view(pks@),
                i <= pks@.len(),
                delete_many_spec(self@, all.subrange(i as int, all.len() as int)) == delete_many_spec(old(self)@, all),
            decreases pks@.len() - i,
        {
            let ghost before = self@;
            let ghost rest = all.subrange(i as int, all.len() as int);
            proof {
                assert(rest[0] == views_of(pks@[i as int]@));
                assert(rest.drop_first() =~= all.subrange(i + 1, all.len() as int));
            }
            match self.delete(pks[i].clone()) {
                Ok(_) => {},
                Err(e) => {
                    return Err(e);
                },
            }
            i += 1;
        }
        proof {
            assert(all.subrange(i as int, all.len() as int) =~= Seq::<Seq<Seq<char>>>::empty());
        }
        Ok(pks.len())
    }

    /// The key tuples of the rows that satisfy `pred`, in row order.
    pub fn filter_rows(&self, pred: &Predicate) -> (r: Vec<Vec<String>>)
        requires
            self.wf(),
        ensures
            tuples_view(r@) == matching_key_parts(self@.rows, self@.primary_keys, |row: Seq<CellView>| pred.holds(row)),
    {
        let mut out: Vec<Vec<String>> = Vec::new();
        let mut p: usize = 0;
        while p < self.rows.len()
            invariant
                self.wf(),
                p <= self@.rows.len(),
                tuples_view(out@) == matching_key_parts(self@.rows.subrange(0, p as int), self@.primary_keys, |row: Seq<CellView>| pred.holds(row)),
            decreases self@.rows.len() - p,
        {
            let ghost pre = self@.rows.subrange(0, p as int);
            let ghost next = self@.rows.subrange(0, p + 1);
            proof {
                assert(next.drop_last() =~= pre);
                assert(self@.rows[p as int] == self.rows@[p as int]@);
                assert(row_fits(self@.columns, self@.rows[p as int]));
            }
            if pred.eval(&self.rows[p]) {
                let parts = self.key_parts_of(&self.rows[p]);
                let ghost before = out@;
                out.push(parts);
                proof {
                    assert(tuples_view(out@) =~= tuples_view(before).push(views_of(parts@)));
                }
            }
            p += 1;
        }
        proof {
            assert(self@.rows.subrange(0, p as int) =~= self@.rows);
        }
        out
    }

    /// Deletes the rows that satisfy `pred`: first reads their key tuples,
    /// then deletes each in turn. Returns how many were deleted.
    pub fn delete_with_filter(&mut self, pred: &Predicate) -> (r: Result<usize, String>)
        requires
            old(self).wf(),
        ensures
            final(self).wf(),
            final(self)@ == delete_many_spec(old(self)@, matching_key_parts(old(self)@.rows, old(self)@.primary_keys, |row: Seq<CellView>| pred.holds(row))).0,
            r.is_ok() == delete_many_spec(old(self)@, matching_key_parts(old(self)@.rows, old(self)@.primary_keys, |row: Seq<CellView>| pred.holds(row))).1,
            r.is_ok() ==> r.unwrap() == matching_key_parts(old(self)@.rows, old(self)@.primary_keys, |row: Seq<CellView>| pred.holds(row)).len(),
    {
        let keys = self.filter_rows(pred);
        self.delete_many(keys)
    }

    /// Deletes every row and empties the index. Returns how many rows there were.
    pub fn delete_all(&mut self) -> (r: usize)
        requires
            old(self).wf(),
        ensures
            final(self).wf(),
            r == old(self)@.rows.len(),
            final(self)@ == (TableView { rows: Seq::empty(), index: Map::empty(), ..old(self)@ }),
    {
        let n = self.rows.len();
        self.rows = Vec::new();
        self.index.clear();
        proof {
            assert(self@.rows =~= Seq::<Seq<CellView>>::empty());
        }
        n
    }

    /// Resolves assignments `column = value` to (position, cell) pairs.
    fn resolve_updates(&self, updates: &Vec<(String, String)>) -> (r: Result<Vec<(usize, Option<String>)>, String>)
        requires
            self.wf(),
        ensures
            r.is_ok() == updates_ok(self@.columns, updates_view(updates@)),
            r.is_ok() ==> r.unwrap()@.map_values(|e: (usize, Option<String>)| (e.0 as int, cell_view(e.1)))
                == resolved(self@.columns, updates_view(updates@)),
    {
        let ghost ups = updates_view(updates@);
        let ghost cols = self@.columns;
        let mut out: Vec<(usize, Option<String>)> = Vec::new();
        let mut i: usize = 0;
        while i < updates.len()
            invariant
                self.wf(),
                cols == self@.columns,
                ups == updates_view(updates@),
                i <= updates@.len(),
                out@.len() == i,
                forall|k: int| 0 <= k < i ==> (#[trigger] resolve_spec(cols, ups[k].0, ups[k].1)).is_some(),
                forall|k: int| 0 <= k < i ==> ((#[trigger] out@[k]).0 as int, cell_view(out@[k].1)) == resolved(cols, ups)[k],
            decreases updates@.len() - i,
        {
            let name = updates[i].0.as_str();
            let value = updates[i].1.as_str();
            proof {
                assert(ups[i as int] == (name@, value@));
                crate::schema::lemma_index_of_range(names_of(cols), name@);
            }
            let c = match self.schema.position(name) {
                Some(c) => c,
                None => {
                    proof {
                        assert(resolve_spec(cols, ups[i as int].0, ups[i as int].1).is_none());
                    }
                    return Err(String::from_str("unknown column: no column has this name"));
                },
            };
            if !Table::check_value(&self.schema.0[c].1, value) {
                proof {
                    assert(resolve_spec(cols, ups[i as int].0, ups[i as int].1).is_none());
                }
                if value.unicode_len() == 0 {
                    return Err(String::from_str("invalid NULL: empty values are not allowed on this column"));
                }
                return Err(String::from_str("invalid value: not allowed on this column"));
            }
            let cell = if value.unicode_len() == 0 { None } else { Some(updates[i].1.clone()) };
            out.push((c, cell));
            i += 1;
        }
        proof {
            assert(out@.map_values(|e: (usize, Option<String>)| (e.0 as int, cell_view(e.1))) =~= resolved(cols, ups));
        }
        Ok(out)
    }

    /// Writes resolved cells into a copy of a row.
    fn apply_resolved(row: &Row, cs: &Vec<(usize, Option<String>)>) -> (r: Row)
        requires
            forall|i: int| 0 <= i < cs@.len() ==> (#[trigger] cs@[i]).0 < row@.len(),
        ensures
            r@ == apply_cells(row@, cs@.map_values(|e: (usize, Option<String>)| (e.0 as int, cell_view(e.1)))),
    {
        let ghost all = cs@.map_values(|e: (usize, Option<String>)| (e.0 as int, cell_view(e.1)));
        let mut r = row.copy();
        let mut i: usize = 0;
        proof {
            assert(all.subrange(0, 0) =~= Seq::<(int, CellView)>::empty());
        }
        while i < cs.len()
            invariant
                all == cs@.map_values(|e: (usize, Option<String>)| (e.0 as int, cell_view(e.1))),
                forall|k: int| 0 <= k < cs@.len() ==> (#[trigger] cs@[k]).0 < row@.len(),
                i <= cs@.len(),
                r@ == apply_cells(row@, all.subrange(0, i as int)),
                r@.len() == row@.len(),
            decreases cs@.len() - i,
        {
            let c = cs[i].0;
            let cell = clone_cell(&cs[i].1);
            proof {
                assert(all.subrange(0, i + 1).drop_last() =~= all.subrange(0, i as int));
                assert(all.subrange(0, i + 1).last() == (c as int, cell_view(cell)));
            }
            r.0.set(c, cell);
            proof {
                assert(r@ =~= apply_cells(row@, all.subrange(0, i as int)).update(c as int, cell_view(cell)));
            }
            i += 1;
        }
        proof {
            assert(all.subrange(0, cs@.len() as int) =~= all);
        }
        r
    }

    /// Applies resolved assignments to the row at position `p`, moving its
    /// index entry when its primary key changes.
    fn update_position(&mut self, p: usize, cs: &Vec<(usize, Option<String>)>, Ghost(ups): Ghost<Seq<(Seq<char>, Seq<char>)>>) -> (r: Result<(), String>)
        requires
            old(self).wf(),
            p < old(self)@.rows.len(),
            updates_ok(old(self)@.columns, ups),
            cs@.map_values(|e: (usize, Option<String>)| (e.0 as int, cell_view(e.1))) == resolved(old(self)@.columns, ups),
        ensures
            final(self).wf(),
            match update_at_spec(old(self)@, p as int, ups) {
                None => r.is_err() && final(self)@ == old(self)@,
                Some(v) => r.is_ok() && final(self)@ == v,
            },
    {
        let ghost old_v = self@;
        let ghost rs = resolved(old_v.columns, ups);
        proof {
            crate::table::lemma_resolved_fit(old_v, ups);
            assert(old_v.rows[p as int] == self.rows@[p as int]@);
            assert(row_fits(old_v.columns, old_v.rows[p as int]));
            assert forall|i: int| 0 <= i < cs@.len() implies (#[trigger] cs@[i]).0 < self.rows@[p as int]@.len() by {
                assert(rs[i].0 == cs@[i].0 as int);
            }
        }
        let new_row = Table::apply_resolved(&self.rows[p], cs);
        proof {
            lemma_apply_cells(old_v, old_v.rows[p as int], rs);
        }
        let mut rekey: Option<(String, String)> = None;
        if self.indexed {
            let old_key = self.key_of_row(&self.rows[p]);
            let new_key = self.key_of_row(&new_row);
            if !text_eq(old_key.as_str(), new_key.as_str()) {
                if self.index.get(new_key.as_str()).is_some() {
                    return Err(String::from_str("duplicate key: a row with this primary key exists"));
                }
                rekey = Some((old_key, new_key));
            }
        }
        let ghost nr = new_row@;
        self.rows.set(p, new_row);
        match rekey {
            Some((old_key, new_key)) => {
                self.index.remove(old_key.as_str());
                self.index.insert(new_key, p);
            },
            None => {},
        }
        proof {
            assert(self@.rows =~= old_v.rows.update(p as int, nr));
            lemma_update_at_keeps_invariants(old_v, p as int, ups);
        }
        Ok(())
    }

    /// Applies the assignments `column = value` to the first row whose
    /// primary key is the tuple `pk`. All assignments are checked before any
    /// is written; a changed primary key must be free. Returns the number of
    /// columns updated.
    pub fn update(&mut self, pk: Vec<String>, updates: Vec<(String, String)>) -> (r: Result<usize, String>)
        requires
            old(self).wf(),
        ensures
            final(self).wf(),
            match update_spec(old(self)@, views_of(pk@), updates_view(updates@)) {
                None => r.is_err() && final(self)@ == old(self)@,
                Some(v) => r.is_ok() && r.unwrap() == updates@.len() && final(self)@ == v,
            },
    {
        if pk.len() != self.primary_keys.len() {
            return Err(String::from_str("invalid key: the key does not have one value per primary-key column"));
        }
        let key = join_parts(&pk);
        let p = match self.find(key.as_str()) {
            Some(p) => p,
            None => {
                return Err(String::from_str("no match: no row has this primary key"));
            },
        };
        proof {
            crate::schema::lemma_index_of_range(keys_of(self@.rows, self@.primary_keys), key@);
        }
        let cs = self.resolve_updates(&updates)?;
        self.update_position(p, &cs, Ghost(updates_view(updates@)))?;
        Ok(updates.len())
    }

    /// Applies the assignments `column = value` to every row in turn,
    /// stopping at the first refusal; the rows before it stay updated.
    /// Returns the number of rows updated.
    pub fn update_all(&mut self, updates: Vec<(String, String)>) -> (r: Result<usize, String>)
        requires
            old(self).wf(),
        ensures
            final(self).wf(),
            final(self)@ == update_all_spec(old(self)@, updates_view(updates@)).0,
            r.is_ok() == update_all_spec(old(self)@, updates_view(updates@)).1,
            r.is_ok() ==> r.unwrap() == old(self)@.rows.len(),
    {
        let ghost ups = updates_view(updates@);
        let n = self.rows.len();
        let cs = self.resolve_updates(&updates)?;
        let mut p: usize = 0;
        while p < n
            invariant
                self.wf(),
                n == self@.rows.len(),
                n == old(self)@.rows.len(),
                p <= n,
                self@.columns == old(self)@.columns,
                ups == updates_view(updates@),
                updates_ok(old(self)@.columns, ups),
                cs@.map_values(|e: (usize, Option<String>)| (e.0 as int, cell_view(e.1))) == resolved(old(self)@.columns, ups),
                update_from(self@, ups, p as int, n as int) == update_from(old(self)@, ups, 0, n as int),
            decreases n - p,
        {
            let ghost before = self@;
            match self.update_position(p, &cs, Ghost(ups)) {
                Ok(()) => {
                    proof {
                        crate::model::lemma_update_from_keeps(before, ups, p as int, p as int + 1);
                    }
                },
                Err(e) => {
                    proof {
                        assert(update_at_spec(before, p as int, ups).is_none());
                        assert(update_from(before, ups, p as int, n as int) == (before, false));
                    }
                    return Err(e);
                },
            }
            p += 1;
        }
        Ok(n)
    }

    /// Inserts several rows in turn, stopping at the first refused; the rows
    /// before it stay. Returns how many were inserted.
    pub fn insert_many(&mut self, values: Vec<Vec<String>>) -> (r: Result<usize, String>)
        requires
            old(self).wf(),
        ensures
            final(self).wf(),
            final(self)@ == insert_many_spec(old(self)@, tuples_view(values@)).0,
            r.is_ok() == insert_many_spec(old(self)@, tuples_view(values@)).1,
            r.is_ok() ==> r.unwrap() == values@.len(),
    {
        let ghost all = tuples_view(values@);
        let mut i: usize = 0;
        proof {
            assert(all.subrange(0, all.len() as int) =~= all);
        }
        while i < values.len()
            invariant
                self.wf(),
                all == tuples_view(values@),
                i <= values@.len(),
                insert_many_spec(self@, all.subrange(i as int, all.len() as int)) == insert_many_spec(old(self)@, all),
            decreases values@.len() - i,
        {
            let ghost rest = all.subrange(i as int, all.len() as int);
            proof {
                assert(rest[0] == views_of(values@[i as int]@));
                assert(rest.drop_first() =~= all.subrange(i + 1, all.len() as int));
            }
            let mut data: Vec<String> = Vec::new();
            let mut k: usize = 0;
            while k < values[i].len()
                invariant
                    i < values@.len(),
                    k <= values@[i as int]@.len(),
                    data@.len() == k,
                    forall|j: int| 0 <= j < k ==> #[trigger] data@[j] == values@[i as int]@[j],
                decreases values@[i as int]@.len() - k,
            {
                data.push(values[i][k].clone());
                k += 1;
            }
            proof {
                assert(data@ =~= values@[i as int]@);
            }
            match self.insert(data) {
                Ok(_) => {},
                Err(e) => {
                    return Err(e);
                },
            }
            i += 1;
        }
        proof {
            assert(all.subrange(i as int, all.len() as int) =~= Seq::<Seq<Seq<char>>>::empty());
        }
        Ok(values.len())
    }

    /// A reader over a snapshot of the schema and rows.
    pub fn reader(&self) -> (r: TableReader)
        requires
            self.wf(),
        ensures
            r.schema.0@ == self@.columns,
            r.rows_view() == self@.rows,
            r.wf(),
    {
        let schema = self.schema.copy();
        let mut rows: Vec<Row> = Vec::new();
        let mut i: usize = 0;
        while i < self.rows.len()
            invariant
                self.wf(),
                i <= self.rows@.len(),
                rows@.len() == i,
                forall|k: int| 0 <= k < i ==> (#[trigger] rows@[k])@ == self.rows@[k]@,
            decreases self.rows@.len() - i,
        {
            rows.push(self.rows[i].copy());
            i += 1;
        }
        let r = TableReader { schema, rows };
        proof {
            assert(r.rows_view() =~= self@.rows);
            assert forall|p: int| 0 <= p < r.rows@.len() implies (#[trigger] r.rows@[p])@.len() == r.schema.0@.len() by {
                assert(row_fits(self@.columns, self@.rows[p]));
            }
        }
        r
    }

    /// Computes each aggregator over a snapshot of the rows, giving a
    /// one-row reader whose columns are named by the aliases (or names).
    pub fn perform_aggregate(&self, functions: &Vec<FunctionCall>) -> (r: Result<TableReader, String>)
        requires
            self.wf(),
        ensures
            r.is_ok() == forall|i: int| 0 <= i < functions@.len() ==>
                (#[trigger] aggregate_spec(functions@[i].name@, functions@[i].args_view(), self@.rows)).is_some(),
            r.is_ok() ==> {
                let out = r.unwrap();
                &&& out.wf()
                &&& out.names() == functions@.map_values(|f: FunctionCall| f.label())
                &&& out.rows_view() == seq![functions@.map_values(|f: FunctionCall|
                        Some(aggregate_spec(f.name@, f.args_view(), self@.rows).unwrap()))]
            },
    {
        let snapshot = self.reader();
        let mut cols: Vec<(String, ColumnInformation)> = Vec::new();
        let mut cells: Vec<Option<String>> = Vec::new();
        let mut i: usize = 0;
        while i < functions.len()
            invariant
                self.wf(),
                snapshot.rows_view() == self@.rows,
                i <= functions@.len(),
                cols@.len() == i,
                cells@.len() == i,
                forall|k: int| 0 <= k < i ==> (#[trigger] aggregate_spec(functions@[k].name@, functions@[k].args_view(), self@.rows)).is_some(),
                forall|k: int| 0 <= k < i ==> (#[trigger] cols@[k]).0@ == functions@[k].label(),
                forall|k: int| 0 <= k < i ==> cell_view(#[trigger] cells@[k]) == Some(aggregate_spec(functions@[k].name@, functions@[k].args_view(), self@.rows).unwrap()),
            decreases functions@.len() - i,
        {
            let f = &functions[i];
            match run_aggregate(&f.name, &f.args, &snapshot.rows) {
                Ok(v) => {
                    cols.push((f.label_text(), ColumnInformation::from(DataType::Text, None, true)));
                    cells.push(Some(v));
                },
                Err(e) => {
                    proof {
                        assert(snapshot.rows_view() == rows_view(snapshot.rows@));
                        assert(aggregate_spec(functions@[i as int].name@, functions@[i as int].args_view(), self@.rows).is_none());
                    }
                    return Err(e);
                },
            }
            i += 1;
        }
        let out = TableReader { schema: Schema(cols), rows: vec![Row(cells)] };
        proof {
            assert(out.names() =~= functions@.map_values(|f: FunctionCall| f.label()));
            assert(out.rows@[0]@ =~= functions@.map_values(|f: FunctionCall|
                Some(aggregate_spec(f.name@, f.args_view(), self@.rows).unwrap())));
            assert(out.rows_view() =~= seq![functions@.map_values(|f: FunctionCall|
                Some(aggregate_spec(f.name@, f.args_view(), self@.rows).unwrap()))]);
        }
        Ok(out)
    }

    /// Whether some row has `key` as its primary-key string.
    pub fn has_key(&self, key: &str) -> (r: bool)
        requires
            self.wf(),
        ensures
            r == (find_row(self@, key@) >= 0),
    {
        self.find(key).is_some()
    }

    /// Records the position of the column that column `column`'s foreign key refers to.
    pub fn update_foreign_key_index(&mut self, column: usize, index: usize)
        requires
            old(self).wf(),
            column < old(self)@.columns.len(),
        ensures
            final(self).wf(),
            final(self)@ == (TableView { columns: final(self)@.columns, ..old(self)@ }),
            final(self)@.columns.len() == old(self)@.columns.len(),
            forall|c: int| 0 <= c < old(self)@.columns.len() && c != column ==> final(self)@.columns[c] == old(self)@.columns[c],
            final(self)@.columns[column as int].0 == old(self)@.columns[column as int].0,
            final(self)@.columns[column as int].1.datatype == old(self)@.columns[column as int].1.datatype,
            final(self)@.columns[column as int].1.max_limit == old(self)@.columns[column as int].1.max_limit,
            final(self)@.columns[column as int].1.nullable == old(self)@.columns[column as int].1.nullable,
            final(self)@.columns[column as int].1.foreign_key == match old(self)@.columns[column as int].1.foreign_key {
                Some(fk) => Some(crate::schema::ForeignKeyConstraint { column_index: Some(index), ..fk }),
                None => None,
            },
    {
        let ghost old_v = self@;
        self.schema.set_foreign_key_index(column, index);
        proof {
            let v = self@;
            assert(names_of(v.columns) =~= names_of(old_v.columns)) by {
                assert forall|c: int| 0 <= c < v.columns.len() implies names_of(v.columns)[c] == names_of(old_v.columns)[c] by {
                    if c != column {
                        assert(v.columns[c] == old_v.columns[c]);
                    }
                }
            }
            assert forall|i: int| 0 <= i < v.columns.len() implies !is_reserved(#[trigger] v.columns[i].0@) by {
                if i != column {
                    assert(v.columns[i] == old_v.columns[i]);
                }
                assert(!is_reserved(old_v.columns[i].0@));
            }
            assert forall|p: int| 0 <= p < v.rows.len() implies row_fits(v.columns, #[trigger] v.rows[p]) by {
                assert(row_fits(old_v.columns, old_v.rows[p]));
                assert forall|i: int| 0 <= i < v.rows[p].len() implies cell_fits(v.columns[i].1, #[trigger] v.rows[p][i]) by {
                    assert(cell_fits(old_v.columns[i].1, old_v.rows[p][i]));
                    if i != column {
                        assert(v.columns[i] == old_v.columns[i]);
                    }
                }
            }
        }
    }
}

} // verus!
