//! The table reader: an immutable snapshot of a table's schema and rows,
//! from which projections, filters, orderings and limits derive new readers.
use vstd::prelude::*;
use crate::model::rows_view;
use crate::order::{keys_view, sort_rows, sort_rows_exec};
use crate::functions::FunctionCall;
use crate::functions::scalars::{get_runner, add_spec, ScalarFunction};
use crate::predicate::Predicate;
use crate::schema::DataType;
use crate::text::same_ignoring_ascii_case;
use crate::row::{CellView, Row};
use crate::schema::{index_of, lemma_index_of_range, names_of, ColumnInformation, Schema};
use crate::text::views_of;

verus! {

/// A snapshot of a table's schema and rows. Every derived reader owns new
/// rows and leaves its source untouched.
pub struct TableReader {
    pub schema: Schema,
    pub rows: Vec<Row>,
}

/// The elements of `s` whose flag in `keep` is set, in order.
pub open spec fn kept<A>(s: Seq<A>, keep: Seq<bool>) -> Seq<A>
    decreases s.len(),
{
    if s.len() == 0 || keep.len() == 0 {
        Seq::empty()
    } else if keep.last() {
        kept(s.drop_last(), keep.drop_last()).push(s.last())
    } else {
        kept(s.drop_last(), keep.drop_last())
    }
}

pub open spec fn call_args(fs: Seq<FunctionCall>) -> Seq<Seq<Seq<char>>> {
    fs.map_values(|f: FunctionCall| f.args_view())
}

/// The row with one more cell per scalar call (given by its arguments),
/// each computed from the row as it was.
pub open spec fn extend_row(argss: Seq<Seq<Seq<char>>>, row: Seq<CellView>) -> Seq<CellView> {
    row + argss.map_values(|a: Seq<Seq<char>>| Some(add_spec(a, row).unwrap()))
}

/// Every call (given by its arguments) computes on every row.
pub open spec fn scalars_compute(argss: Seq<Seq<Seq<char>>>, rows: Seq<Seq<CellView>>) -> bool {
    forall|i: int, p: int| 0 <= i < argss.len() && 0 <= p < rows.len() ==> (#[trigger] add_spec(argss[i], #[trigger] rows[p])).is_some()
}

/// Every call names a scalar, and each computes on every row.
pub open spec fn scalars_ok(fs: Seq<FunctionCall>, rows: Seq<Seq<CellView>>) -> bool {
    &&& forall|i: int| 0 <= i < fs.len() ==> same_ignoring_ascii_case((#[trigger] fs[i]).name@, "ADD"@)
    &&& scalars_compute(call_args(fs), rows)
}

/// The positions of the named columns.
pub open spec fn select_indices(names: Seq<Seq<char>>, fields: Seq<Seq<char>>) -> Seq<int> {
    fields.map_values(|f: Seq<char>| index_of(names, f))
}

pub open spec fn project(row: Seq<CellView>, idx: Seq<int>) -> Seq<CellView> {
    idx.map_values(|c: int| row[c])
}

pub open spec fn all_known(names: Seq<Seq<char>>, fields: Seq<Seq<char>>) -> bool {
    forall|i: int| 0 <= i < fields.len() ==> index_of(names, #[trigger] fields[i]) >= 0
}

/// The first `n` rows, or all of them when there are fewer.
pub open spec fn limit_spec<A>(s: Seq<A>, n: Option<usize>) -> Seq<A> {
    match n {
        None => s,
        Some(n) => if n < s.len() { s.subrange(0, n as int) } else { s },
    }
}

/// The rows after the first `n`, or none when there are fewer.
pub open spec fn offset_spec<A>(s: Seq<A>, n: Option<usize>) -> Seq<A> {
    match n {
        None => s,
        Some(n) => if n < s.len() { s.subrange(n as int, s.len() as int) } else { Seq::empty() },
    }
}

impl TableReader {
    /// Every row has one cell per column.
    pub open spec fn wf(&self) -> bool {
        forall|p: int| 0 <= p < self.rows@.len() ==> (#[trigger] self.rows@[p])@.len() == self.schema.0@.len()
    }

    pub open spec fn rows_view(&self) -> Seq<Seq<CellView>> {
        rows_view(self.rows@)
    }

    pub open spec fn names(&self) -> Seq<Seq<char>> {
        names_of(self.schema.0@)
    }

    /// A copy of the rows.
    pub fn scan(&self) -> (r: Vec<Row>)
        ensures
            rows_view(r@) == self.rows_view(),
    {
        let mut out: Vec<Row> = Vec::new();
        let mut i: usize = 0;
        while i < self.rows.len()
            invariant
                i <= self.rows@.len(),
                out@.len() == i,
                forall|k: int| 0 <= k < i ==> (#[trigger] out@[k])@ == self.rows@[k]@,
            decreases self.rows@.len() - i,
        {
            out.push(self.rows[i].copy());
            i += 1;
        }
        proof {
            assert(rows_view(out@) =~= self.rows_view());
        }
        out
    }

    /// The reader of the rows for which `filter` returns true. Nothing is
    /// known of `filter` but its own contract: the result keeps each row
    /// exactly where the call on it returned true.
    pub fn filter<F: Fn(&Row) -> bool>(self, filter: F) -> (r: Result<TableReader, String>)
        requires
            forall|row: &Row| #[trigger] filter.requires((row,)),
        ensures
            r.is_ok(),
            r.unwrap().schema.0@ == self.schema.0@,
            exists|keep: Seq<bool>|
                keep.len() == self.rows@.len() && (forall|i: int|
                    0 <= i < keep.len() ==> filter.ensures((&self.rows@[i],), #[trigger] keep[i]))
                    && r.unwrap().rows_view() == kept(self.rows_view(), keep),
    {
        let ghost all = self.rows_view();
        let mut out: Vec<Row> = Vec::new();
        let ghost mut keep: Seq<bool> = Seq::empty();
        let mut i: usize = 0;
        while i < self.rows.len()
            invariant
                all == rows_view(self.rows@),
                forall|row: &Row| #[trigger] filter.requires((row,)),
                i <= self.rows@.len(),
                keep.len() == i,
                forall|k: int| 0 <= k < i ==> filter.ensures((&self.rows@[k],), #[trigger] keep[k]),
                rows_view(out@) == kept(all.subrange(0, i as int), keep),
            decreases self.rows@.len() - i,
        {
            let b = filter(&self.rows[i]);
            let ghost pre = all.subrange(0, i as int);
            proof {
                assert(all.subrange(0, i + 1).drop_last() =~= pre);
                assert(keep.push(b).drop_last() =~= keep);
                assert(all.subrange(0, i + 1).last() == self.rows@[i as int]@);
            }
            if b {
                let ghost before = out@;
                out.push(self.rows[i].copy());
                proof {
                    assert(rows_view(out@) =~= rows_view(before).push(self.rows@[i as int]@));
                }
            }
            proof {
                keep = keep.push(b);
            }
            i += 1;
        }
        proof {
            assert(all.subrange(0, i as int) =~= all);
        }
        Ok(TableReader { schema: self.schema, rows: out })
    }

    /// The reader of the rows that satisfy `pred`.
    pub fn filter_where(self, pred: &Predicate) -> (r: TableReader)
        ensures
            r.schema.0@ == self.schema.0@,
            r.rows_view() == kept(self.rows_view(), self.rows_view().map_values(|row: Seq<CellView>| pred.holds(row))),
            self.wf() ==> r.wf(),
    {
        let ghost all = self.rows_view();
        let ghost flags = all.map_values(|row: Seq<CellView>| pred.holds(row));
        let mut out: Vec<Row> = Vec::new();
        let mut i: usize = 0;
        proof {
            assert(flags.subrange(0, 0) =~= Seq::<bool>::empty());
        }
        while i < self.rows.len()
            invariant
                all == rows_view(self.rows@),
                flags == all.map_values(|row: Seq<CellView>| pred.holds(row)),
                i <= self.rows@.len(),
                rows_view(out@) == kept(all.subrange(0, i as int), flags.subrange(0, i as int)),
                self.wf() ==> forall|p: int| 0 <= p < out@.len() ==> (#[trigger] out@[p])@.len() == self.schema.0@.len(),
            decreases self.rows@.len() - i,
        {
            let b = pred.eval(&self.rows[i]);
            proof {
                assert(all.subrange(0, i + 1).drop_last() =~= all.subrange(0, i as int));
                assert(flags.subrange(0, i + 1).drop_last() =~= flags.subrange(0, i as int));
                assert(all.subrange(0, i + 1).last() == self.rows@[i as int]@);
                assert(flags.subrange(0, i + 1).last() == b);
            }
            if b {
                let ghost before = out@;
                out.push(self.rows[i].copy());
                proof {
                    assert(rows_view(out@) =~= rows_view(before).push(self.rows@[i as int]@));
                }
            }
            i += 1;
        }
        proof {
            assert(all.subrange(0, i as int) =~= all);
            assert(flags.subrange(0, i as int) =~= flags);
        }
        TableReader { schema: self.schema, rows: out }
    }

    /// The reader of the named columns, in the order asked for. Refused when
    /// a name is not a column.
    pub fn select(self, fields: Vec<String>) -> (r: Result<TableReader, String>)
        requires
            self.wf(),
        ensures
            r.is_ok() == all_known(self.names(), views_of(fields@)),
            r.is_ok() ==> {
                let idx = select_indices(self.names(), views_of(fields@));
                &&& r.unwrap().schema.0@ == idx.map_values(|c: int| self.schema.0@[c])
                &&& r.unwrap().rows_view() == self.rows_view().map_values(|row: Seq<CellView>| project(row, idx))
                &&& r.unwrap().wf()
            },
    {
        let ghost names = self.names();
        let ghost fs = views_of(fields@);
        let ghost idx = select_indices(names, fs);
        let mut indices: Vec<usize> = Vec::new();
        let mut cols: Vec<(String, ColumnInformation)> = Vec::new();
        let mut i: usize = 0;
        while i < fields.len()
            invariant
                names == self.names(),
                fs == views_of(fields@),
                idx == select_indices(names, fs),
                i <= fields@.len(),
                indices@.len() == i,
                cols@.len() == i,
                forall|k: int| 0 <= k < i ==> index_of(names, #[trigger] fs[k]) >= 0,
                forall|k: int| 0 <= k < i ==> (#[trigger] indices@[k]) as int == idx[k],
                forall|k: int| 0 <= k < i ==> #[trigger] cols@[k] == self.schema.0@[idx[k]],
                forall|k: int| 0 <= k < i ==> (#[trigger] indices@[k]) < self.schema.0@.len(),
            decreases fields@.len() - i,
        {
            proof {
                assert(fs[i as int] == fields@[i as int]@);
                lemma_index_of_range(names, fs[i as int]);
            }
            match self.schema.position(fields[i].as_str()) {
                Some(c) => {
                    let ghost bi = indices@;
                    let ghost bc = cols@;
                    indices.push(c);
                    cols.push((self.schema.0[c].0.clone(), self.schema.0[c].1.copy()));
                    proof {
                        assert(indices@[i as int] == c);
                        assert forall|k: int| 0 <= k < i implies indices@[k] == bi[k] && cols@[k] == bc[k] by {}
                    }
                },
                None => {
                    return Err(String::from_str("unknown column: no column has this name"));
                },
            }
            i += 1;
        }
        let mut rows: Vec<Row> = Vec::new();
        let mut p: usize = 0;
        while p < self.rows.len()
            invariant
                self.wf(),
                indices@.len() == idx.len(),
                forall|k: int| 0 <= k < idx.len() ==> (#[trigger] indices@[k]) as int == idx[k],
                forall|k: int| 0 <= k < idx.len() ==> (#[trigger] indices@[k]) < self.schema.0@.len(),
                p <= self.rows@.len(),
                rows@.len() == p,
                forall|q: int| 0 <= q < p ==> (#[trigger] rows@[q])@ == project(self.rows@[q]@, idx),
            decreases self.rows@.len() - p,
        {
            let row = &self.rows[p];
            let mut cells: Vec<Option<String>> = Vec::new();
            let mut k: usize = 0;
            while k < indices.len()
                invariant
                    self.wf(),
                    p < self.rows@.len(),
                    *row == self.rows@[p as int],
                    indices@.len() == idx.len(),
                    forall|j: int| 0 <= j < idx.len() ==> (#[trigger] indices@[j]) as int == idx[j],
                    forall|j: int| 0 <= j < idx.len() ==> (#[trigger] indices@[j]) < self.schema.0@.len(),
                    k <= indices@.len(),
                    cells@.len() == k,
                    forall|j: int| 0 <= j < k ==> crate::row::cell_view(#[trigger] cells@[j]) == row@[idx[j]],
                decreases indices@.len() - k,
            {
                let c = indices[k];
                proof {
                    assert(row@.len() == self.schema.0@.len());
                }
                cells.push(crate::row::clone_cell(&row.0[c]));
                k += 1;
            }
            let new_row = Row(cells);
            proof {
                assert(new_row@ =~= project(row@, idx));
            }
            rows.push(new_row);
            p += 1;
        }
        let r = TableReader { schema: Schema(cols), rows };
        proof {
            assert(r.schema.0@ =~= idx.map_values(|c: int| self.schema.0@[c]));
            assert(r.rows_view() =~= self.rows_view().map_values(|row: Seq<CellView>| project(row, idx)));
        }
        Ok(r)
    }

    /// The first `n` rows; all of them when `n` is `None` or not smaller than
    /// the row count.
    pub fn limit(self, n: Option<usize>) -> (r: TableReader)
        ensures
            r.schema.0@ == self.schema.0@,
            r.rows_view() == limit_spec(self.rows_view(), n),
            self.wf() ==> r.wf(),
    {
        let mut rows = self.rows;
        match n {
            Some(n) => {
                if n < rows.len() {
                    rows.truncate(n);
                }
            },
            None => {},
        }
        let r = TableReader { schema: self.schema, rows };
        proof {
            assert(r.rows_view() =~= limit_spec(self.rows_view(), n));
        }
        r
    }

    /// The rows after the first `n`; none when `n` is not smaller than the
    /// row count, all of them when `n` is `None`.
    pub fn offset(self, n: Option<usize>) -> (r: TableReader)
        ensures
            r.schema.0@ == self.schema.0@,
            r.rows_view() == offset_spec(self.rows_view(), n),
            self.wf() ==> r.wf(),
    {
        let mut rows = self.rows;
        match n {
            Some(n) => {
                if n < rows.len() {
                    let rest = rows.split_off(n);
                    rows = rest;
                } else {
                    rows = Vec::new();
                }
            },
            None => {},
        }
        let r = TableReader { schema: self.schema, rows };
        proof {
            assert(r.rows_view() =~= offset_spec(self.rows_view(), n));
        }
        r
    }

    /// The rows reordered by the keys (column position, ascending): the first
    /// key decides, later ones break ties, and rows that tie on every key keep
    /// their order. Refused when a key names no column.
    pub fn order_by(self, keys: Vec<(usize, bool)>) -> (r: Result<TableReader, String>)
        requires
            self.wf(),
        ensures
            r.is_ok() == forall|i: int| 0 <= i < keys@.len() ==> (#[trigger] keys@[i]).0 < self.schema.0@.len(),
            r.is_ok() ==> r.unwrap().schema.0@ == self.schema.0@ && r.unwrap().rows_view() == sort_rows(
                self.rows_view(),
                keys_view(keys@),
            ) && r.unwrap().wf(),
    {
        let width = self.schema.0.len();
        let mut i: usize = 0;
        while i < keys.len()
            invariant
                width == self.schema.0@.len(),
                i <= keys@.len(),
                forall|j: int| 0 <= j < i ==> (#[trigger] keys@[j]).0 < width,
            decreases keys@.len() - i,
        {
            if keys[i].0 >= width {
                return Err(String::from_str("unknown column: an ordering key names no column"));
            }
            i += 1;
        }
        let rows = sort_rows_exec(self.rows, &keys, width);
        Ok(TableReader { schema: self.schema, rows })
    }

    /// Appends one column per scalar call, whose cells are the call applied
    /// to each row. Refused when a name is not a scalar or a call fails on a
    /// row.
    pub fn perform_function(self, functions: &Vec<FunctionCall>) -> (r: Result<TableReader, String>)
        requires
            self.wf(),
        ensures
            r.is_ok() == scalars_ok(functions@, self.rows_view()),
            r.is_ok() ==> {
                let out = r.unwrap();
                &&& out.wf()
                &&& out.names() == self.names() + functions@.map_values(|f: FunctionCall| f.label())
                &&& out.rows_view() == self.rows_view().map_values(|row: Seq<CellView>| extend_row(call_args(functions@), row))
            },
    {
        let ghost fs = functions@;
        let ghost rv = self.rows_view();
        let mut i: usize = 0;
        while i < functions.len()
            invariant
                fs == functions@,
                i <= fs.len(),
                forall|k: int| 0 <= k < i ==> same_ignoring_ascii_case((#[trigger] fs[k]).name@, "ADD"@),
            decreases fs.len() - i,
        {
            match get_runner(&functions[i].name) {
                Ok(_) => {},
                Err(e) => {
                    return Err(e);
                },
            }
            i += 1;
        }
        let mut rows: Vec<Row> = Vec::new();
        let mut p: usize = 0;
        while p < self.rows.len()
            invariant
                self.wf(),
                fs == functions@,
                rv == self.rows_view(),
                forall|k: int| 0 <= k < fs.len() ==> same_ignoring_ascii_case((#[trigger] fs[k]).name@, "ADD"@),
                p <= self.rows@.len(),
                rows@.len() == p,
                forall|k: int, q: int| 0 <= k < fs.len() && 0 <= q < p ==> (#[trigger] add_spec(call_args(fs)[k], #[trigger] rv[q])).is_some(),
                forall|q: int| 0 <= q < p ==> (#[trigger] rows@[q])@ == extend_row(call_args(fs), rv[q]),
            decreases self.rows@.len() - p,
        {
            let row = &self.rows[p];
            proof {
                assert(rv[p as int] == row@);
            }
            let mut cells = row.copy();
            let mut k: usize = 0;
            while k < functions.len()
                invariant
                    fs == functions@,
                    rv == self.rows_view(),
                    p < self.rows@.len(),
                    rv[p as int] == row@,
                    forall|j: int| 0 <= j < fs.len() ==> same_ignoring_ascii_case((#[trigger] fs[j]).name@, "ADD"@),
                    k <= fs.len(),
                    forall|j: int| 0 <= j < k ==> (#[trigger] add_spec(call_args(fs)[j], rv[p as int])).is_some(),
                    cells@ == row@ + call_args(fs).subrange(0, k as int).map_values(|a: Seq<Seq<char>>| Some(add_spec(a, row@).unwrap())),
                decreases fs.len() - k,
            {
                match ScalarFunction::Add.run(&functions[k].args, row) {
                    Ok(v) => {
                        let ghost before = cells@;
                        cells.0.push(Some(v));
                        proof {
                            assert(call_args(fs)[k as int] == functions@[k as int].args_view());
                            assert(cells@ =~= before.push(Some(v@)));
                            assert(call_args(fs).subrange(0, k + 1).map_values(|a: Seq<Seq<char>>| Some(add_spec(a, row@).unwrap()))
                                =~= call_args(fs).subrange(0, k as int).map_values(|a: Seq<Seq<char>>| Some(add_spec(a, row@).unwrap())).push(Some(v@)));
                        }
                    },
                    Err(e) => {
                        proof {
                            assert(call_args(fs)[k as int] == functions@[k as int].args_view());
                            assert(add_spec(call_args(fs)[k as int], rv[p as int]).is_none());
                        }
                        return Err(e);
                    },
                }
                k += 1;
            }
            proof {
                assert(call_args(fs).subrange(0, fs.len() as int) =~= call_args(fs));
            }
            rows.push(cells);
            p += 1;
        }
        let mut schema = self.schema;
        let mut k: usize = 0;
        let ghost base = schema.0@;
        while k < functions.len()
            invariant
                fs == functions@,
                k <= fs.len(),
                schema.0@.len() == base.len() + k,
                names_of(schema.0@) == names_of(base) + fs.subrange(0, k as int).map_values(|f: FunctionCall| f.label()),
            decreases fs.len() - k,
        {
            let ghost before = schema.0@;
            schema.push(functions[k].label_text(), ColumnInformation::from(DataType::Number, None, true));
            proof {
                assert(names_of(schema.0@) =~= names_of(before).push(fs[k as int].label()));
                assert(fs.subrange(0, k + 1).map_values(|f: FunctionCall| f.label())
                    =~= fs.subrange(0, k as int).map_values(|f: FunctionCall| f.label()).push(fs[k as int].label()));
            }
            k += 1;
        }
        proof {
            assert(fs.subrange(0, fs.len() as int) =~= fs);
        }
        let out = TableReader { schema, rows };
        proof {
            assert(out.rows_view() =~= rv.map_values(|row: Seq<CellView>| extend_row(call_args(fs), row)));
            assert forall|q: int| 0 <= q < out.rows@.len() implies (#[trigger] out.rows@[q])@.len() == out.schema.0@.len() by {
                assert(out.rows@[q]@ == extend_row(call_args(fs), rv[q]));
                assert(rv[q] == self.rows@[q]@);
            }
        }
        Ok(out)
    }

    /// The reader of the columns at the given positions, in that order,
    /// named by `labels`.
    pub fn project_columns(self, indices: Vec<usize>, labels: Vec<String>) -> (r: TableReader)
        requires
            self.wf(),
            labels@.len() == indices@.len(),
            forall|k: int| 0 <= k < indices@.len() ==> (#[trigger] indices@[k]) < self.schema.0@.len(),
        ensures
            r.wf(),
            r.names() == views_of(labels@),
            r.rows_view() == self.rows_view().map_values(|row: Seq<CellView>| project(row, indices@.map_values(|c: usize| c as int))),
    {
        let ghost idx = indices@.map_values(|c: usize| c as int);
        let mut cols: Vec<(String, ColumnInformation)> = Vec::new();
        let mut i: usize = 0;
        while i < indices.len()
            invariant
                labels@.len() == indices@.len(),
                forall|k: int| 0 <= k < indices@.len() ==> (#[trigger] indices@[k]) < self.schema.0@.len(),
                i <= indices@.len(),
                cols@.len() == i,
                forall|k: int| 0 <= k < i ==> (#[trigger] cols@[k]).0 == labels@[k],
            decreases indices@.len() - i,
        {
            cols.push((labels[i].clone(), self.schema.0[indices[i]].1.copy()));
            i += 1;
        }
        let mut rows: Vec<Row> = Vec::new();
        let mut p: usize = 0;
        while p < self.rows.len()
            invariant
                self.wf(),
                idx == indices@.map_values(|c: usize| c as int),
                forall|k: int| 0 <= k < indices@.len() ==> (#[trigger] indices@[k]) < self.schema.0@.len(),
                p <= self.rows@.len(),
                rows@.len() == p,
                forall|q: int| 0 <= q < p ==> (#[trigger] rows@[q])@ == project(self.rows@[q]@, idx),
            decreases self.rows@.len() - p,
        {
            let row = &self.rows[p];
            let mut cells: Vec<Option<String>> = Vec::new();
            let mut k: usize = 0;
            while k < indices.len()
                invariant
                    self.wf(),
                    p < self.rows@.len(),
                    *row == self.rows@[p as int],
                    idx == indices@.map_values(|c: usize| c as int),
                    forall|j: int| 0 <= j < indices@.len() ==> (#[trigger] indices@[j]) < self.schema.0@.len(),
                    k <= indices@.len(),
                    cells@.len() == k,
                    forall|j: int| 0 <= j < k ==> crate::row::cell_view(#[trigger] cells@[j]) == row@[idx[j]],
                decreases indices@.len() - k,
            {
                let c = indices[k];
                proof {
                    assert(row@.len() == self.schema.0@.len());
                }
                cells.push(crate::row::clone_cell(&row.0[c]));
                k += 1;
            }
            let new_row = Row(cells);
            proof {
                assert(new_row@ =~= project(row@, idx));
            }
            rows.push(new_row);
            p += 1;
        }
        let r = TableReader { schema: Schema(cols), rows };
        proof {
            assert(r.names() =~= views_of(labels@));
            assert(r.rows_view() =~= self.rows_view().map_values(|row: Seq<CellView>| project(row, idx)));
        }
        r
    }
}

} // verus!
