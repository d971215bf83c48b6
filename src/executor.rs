//! The SQL executor: turns one parsed statement into calls on the session,
//! its databases and their tables.
use vstd::prelude::*;
use crate::functions::aggregators::{aggregate_spec, is_allowed as is_aggregator};
use crate::functions::scalars::is_allowed as is_scalar;
use crate::functions::FunctionCall;
use crate::model::TableView;
use crate::order::{keys_view, sort_rows};
use crate::predicate::Predicate;
use crate::reader::{call_args, extend_row, kept, limit_spec, offset_spec, project, scalars_compute, TableReader};
use crate::row::CellView;
use crate::schema::{index_of, lemma_index_of_range, names_of, Schema};
use crate::table::{definitions_ok, pk_positions, Table};
use crate::session::{Session, SessionView};
use crate::registry::{database_index, database_names};
use crate::database::{column_resolved, definition_refs_ok, insert_many_fk_error, insert_many_into_spec, table_index, table_names, update_many_spec, update_fks_ok, DatabaseView};
use crate::model::{delete_many_spec, matching_key_parts, tuples_view, update_all_spec, updates_view};
use crate::schema::{ColumnInformation, DataType};
use crate::row::Row;
use crate::text::{decimal_of, same_ignoring_ascii_case, u64_to_text, views_of, words};

verus! {

/// An expression of a WHERE clause, a VALUES list or an assignment.
#[derive(Debug)]
pub enum Expr {
    Column(String),
    Number(String),
    Text(String),
    Null,
    Negative(Box<Expr>),
    Eq(Box<Expr>, Box<Expr>),
    NotEq(Box<Expr>, Box<Expr>),
    And(Box<Expr>, Box<Expr>),
    Or(Box<Expr>, Box<Expr>),
    /// Anything else the parser produced.
    Unsupported,
}

/// The text a literal stands for: numbers and strings as written, a negated
/// number with a leading `-`, NULL as the empty text.
pub open spec fn literal_spec(e: Expr) -> Option<Seq<char>> {
    match e {
        Expr::Number(s) => Some(s@),
        Expr::Text(s) => Some(s@),
        Expr::Null => Some(Seq::empty()),
        Expr::Negative(b) => match *b {
            Expr::Number(s) => Some(seq!['-'] + s@),
            _ => None,
        },
        _ => None,
    }
}

/// The WHERE clause compiles against the column names: comparisons put a
/// known column on the left and a literal on the right, joined by AND and OR.
pub open spec fn compiles(e: Expr, names: Seq<Seq<char>>) -> bool
    decreases e,
{
    match e {
        Expr::Eq(l, r) => match *l {
            Expr::Column(n) => index_of(names, n@) >= 0 && literal_spec(*r).is_some(),
            _ => false,
        },
        Expr::NotEq(l, r) => match *l {
            Expr::Column(n) => index_of(names, n@) >= 0 && literal_spec(*r).is_some(),
            _ => false,
        },
        Expr::And(a, b) => compiles(*a, names) && compiles(*b, names),
        Expr::Or(a, b) => compiles(*a, names) && compiles(*b, names),
        _ => false,
    }
}

/// What a compiled WHERE clause says of a row.
pub open spec fn where_holds(e: Expr, names: Seq<Seq<char>>, row: Seq<CellView>) -> bool
    decreases e,
{
    match e {
        Expr::Eq(l, r) => match *l {
            Expr::Column(n) => {
                let c = index_of(names, n@);
                c < row.len() && row[c] == Some(literal_spec(*r).unwrap())
            },
            _ => false,
        },
        Expr::NotEq(l, r) => match *l {
            Expr::Column(n) => {
                let c = index_of(names, n@);
                c < row.len() && row[c].is_some() && row[c] != Some(literal_spec(*r).unwrap())
            },
            _ => false,
        },
        Expr::And(a, b) => where_holds(*a, names, row) && where_holds(*b, names, row),
        Expr::Or(a, b) => where_holds(*a, names, row) || where_holds(*b, names, row),
        _ => false,
    }
}

/// The text of a literal.
pub fn literal_text(e: &Expr) -> (r: Option<String>)
    ensures
        r.is_some() == literal_spec(*e).is_some(),
        r.is_some() ==> r.unwrap()@ == literal_spec(*e).unwrap(),
{
    match e {
        Expr::Number(s) => Some(s.clone()),
        Expr::Text(s) => Some(s.clone()),
        Expr::Null => Some(String::new()),
        Expr::Negative(b) => match &**b {
            Expr::Number(s) => {
                let mut t = String::from_str("-");
                t.append(s.as_str());
                proof {
                    reveal_strlit("-");
                }
                Some(t)
            },
            _ => None,
        },
        _ => None,
    }
}

fn compare_parts(l: &Expr, r: &Expr, schema: &Schema) -> (res: Result<(usize, String), String>)
    ensures
        res.is_ok() == match *l {
            Expr::Column(n) => index_of(names_of(schema.0@), n@) >= 0 && literal_spec(*r).is_some(),
            _ => false,
        },
        res.is_ok() ==> match *l {
            Expr::Column(n) => res.unwrap().0 == index_of(names_of(schema.0@), n@) && res.unwrap().1@ == literal_spec(*r).unwrap(),
            _ => false,
        },
{
    match l {
        Expr::Column(n) => {
            let c = match schema.position(n.as_str()) {
                Some(c) => c,
                None => {
                    return Err(String::from_str("unknown column: no column has this name"));
                },
            };
            match literal_text(r) {
                Some(t) => Ok((c, t)),
                None => Err(String::from_str("unsupported filter: the right side must be a literal")),
            }
        },
        _ => Err(String::from_str("unsupported filter: the left side must be a column")),
    }
}

/// Compiles a WHERE clause against a schema into a row predicate.
pub fn compile_predicate(e: &Expr, schema: &Schema) -> (r: Result<Predicate, String>)
    ensures
        r.is_ok() == compiles(*e, names_of(schema.0@)),
        r.is_ok() ==> forall|row: Seq<CellView>| #[trigger] r.unwrap().holds(row) == where_holds(*e, names_of(schema.0@), row),
    decreases e,
{
    match e {
        Expr::Eq(l, r) => {
            let (c, t) = compare_parts(l, r, schema)?;
            let p = Predicate::Equals(c, t);
            proof {
                assert forall|row: Seq<CellView>| #[trigger] p.holds(row) == where_holds(*e, names_of(schema.0@), row) by {
                    match **l {
                        Expr::Column(n) => {},
                        _ => {},
                    }
                }
            }
            Ok(p)
        },
        Expr::NotEq(l, r) => {
            let (c, t) = compare_parts(l, r, schema)?;
            let p = Predicate::NotEquals(c, t);
            proof {
                assert forall|row: Seq<CellView>| #[trigger] p.holds(row) == where_holds(*e, names_of(schema.0@), row) by {
                    match **l {
                        Expr::Column(n) => {},
                        _ => {},
                    }
                }
            }
            Ok(p)
        },
        Expr::And(a, b) => {
            let pa = compile_predicate(a, schema)?;
            let pb = compile_predicate(b, schema)?;
            let p = Predicate::And(Box::new(pa), Box::new(pb));
            proof {
                assert forall|row: Seq<CellView>| #[trigger] p.holds(row) == where_holds(*e, names_of(schema.0@), row) by {
                    assert(pa.holds(row) == where_holds(**a, names_of(schema.0@), row));
                    assert(pb.holds(row) == where_holds(**b, names_of(schema.0@), row));
                }
            }
            Ok(p)
        },
        Expr::Or(a, b) => {
            let pa = compile_predicate(a, schema)?;
            let pb = compile_predicate(b, schema)?;
            let p = Predicate::Or(Box::new(pa), Box::new(pb));
            proof {
                assert forall|row: Seq<CellView>| #[trigger] p.holds(row) == where_holds(*e, names_of(schema.0@), row) by {
                    assert(pa.holds(row) == where_holds(**a, names_of(schema.0@), row));
                    assert(pb.holds(row) == where_holds(**b, names_of(schema.0@), row));
                }
            }
            Ok(p)
        },
        _ => Err(String::from_str("unsupported filter: only =, <>, AND and OR are handled")),
    }
}

/// An argument of a function call in a projection.
#[derive(Debug)]
pub enum FunctionArg {
    Wildcard,
    Column(String),
    Literal(String),
}

/// One item of a SELECT list.
#[derive(Debug)]
pub enum SelectItem {
    /// `*` or `table.*`.
    Wildcard,
    Column { name: String, alias: Option<String> },
    Function { name: String, args: Vec<FunctionArg>, alias: Option<String> },
}

/// One ORDER BY key; `ascending` is `None` where no direction was written.
#[derive(Debug)]
pub struct OrderKey {
    pub column: String,
    pub ascending: Option<bool>,
}

/// A SELECT on one table.
#[derive(Debug)]
pub struct SelectQuery {
    pub projection: Vec<SelectItem>,
    pub table: String,
    pub selection: Option<Expr>,
    pub order_by: Vec<OrderKey>,
    pub limit: Option<usize>,
    pub offset: Option<usize>,
}

/// What a query hands back: a result table and the number of rows processed.
pub struct SqlResult {
    pub table: Option<TableReader>,
    pub processed: Option<usize>,
}

pub open spec fn is_aggregator_name(n: Seq<char>) -> bool {
    same_ignoring_ascii_case(n, "COUNT"@) || same_ignoring_ascii_case(n, "MIN"@) || same_ignoring_ascii_case(n, "MAX"@)
}

pub open spec fn is_aggregate_item(i: SelectItem) -> bool {
    match i {
        SelectItem::Function { name, .. } => is_aggregator_name(name@),
        _ => false,
    }
}

/// The text an argument passes: a column as its position in decimal; `*`
/// only to an aggregator.
pub open spec fn arg_spec(a: FunctionArg, names: Seq<Seq<char>>, aggregate: bool) -> Option<Seq<char>> {
    match a {
        FunctionArg::Wildcard => if aggregate { Some("*"@) } else { None },
        FunctionArg::Column(n) => if index_of(names, n@) >= 0 { Some(decimal_of(index_of(names, n@) as nat)) } else { None },
        FunctionArg::Literal(t) => Some(t@),
    }
}

pub open spec fn args_spec(args: Seq<FunctionArg>, names: Seq<Seq<char>>, aggregate: bool) -> Option<Seq<Seq<char>>>
    decreases args.len(),
{
    if args.len() == 0 {
        Some(Seq::empty())
    } else {
        match (args_spec(args.drop_last(), names, aggregate), arg_spec(args.last(), names, aggregate)) {
            (Some(prev), Some(a)) => Some(prev.push(a)),
            _ => None,
        }
    }
}

pub open spec fn item_label(i: SelectItem) -> Seq<char> {
    match i {
        SelectItem::Column { name, alias } => match alias { Some(a) => a@, None => name@ },
        SelectItem::Function { name, alias, .. } => match alias { Some(a) => a@, None => name@ },
        SelectItem::Wildcard => Seq::empty(),
    }
}

/// Aggregate mode: the labels and the one row of values, or `None` when an
/// item is not an aggregator or one refuses its arguments.
pub open spec fn aggregate_select(t: TableView, items: Seq<SelectItem>) -> Option<(Seq<Seq<char>>, Seq<Seq<CellView>>)>
    decreases items.len(),
{
    if items.len() == 0 {
        Some((Seq::empty(), seq![Seq::empty()]))
    } else {
        match (aggregate_select(t, items.drop_last()), items.last()) {
            (Some((labels, rows)), SelectItem::Function { name, args, alias }) =>
                if !is_aggregator_name(name@) { None } else {
                    match args_spec(args@, names_of(t.columns), true) {
                        None => None,
                        Some(a) => match aggregate_spec(name@, a, t.rows) {
                            None => None,
                            Some(v) => Some((labels.push(item_label(items.last())), seq![rows[0].push(Some(v))])),
                        },
                    }
                },
            _ => None,
        }
    }
}

/// Column mode: the scalar calls' arguments, in order, or `None` when a
/// function is not a scalar or an argument is refused.
pub open spec fn scalar_calls(items: Seq<SelectItem>, names: Seq<Seq<char>>) -> Option<Seq<Seq<Seq<char>>>>
    decreases items.len(),
{
    if items.len() == 0 {
        Some(Seq::empty())
    } else {
        match scalar_calls(items.drop_last(), names) {
            None => None,
            Some(prev) => match items.last() {
                SelectItem::Function { name, args, .. } =>
                    if !same_ignoring_ascii_case(name@, "ADD"@) { None } else {
                        match args_spec(args@, names, false) {
                            None => None,
                            Some(a) => Some(prev.push(a)),
                        }
                    },
                _ => Some(prev),
            },
        }
    }
}

pub open spec fn function_count(items: Seq<SelectItem>) -> nat
    decreases items.len(),
{
    if items.len() == 0 {
        0
    } else {
        function_count(items.drop_last()) + match items.last() {
            SelectItem::Function { .. } => 1nat,
            _ => 0nat,
        }
    }
}

/// Column mode: the positions (in the row extended by the scalar results)
/// and labels of the output columns, or `None` when a column is unknown.
pub open spec fn projection(items: Seq<SelectItem>, names: Seq<Seq<char>>) -> Option<(Seq<int>, Seq<Seq<char>>)>
    decreases items.len(),
{
    if items.len() == 0 {
        Some((Seq::empty(), Seq::empty()))
    } else {
        match projection(items.drop_last(), names) {
            None => None,
            Some((idx, labels)) => match items.last() {
                SelectItem::Wildcard => Some((idx + Seq::new(names.len(), |i: int| i), labels + names)),
                SelectItem::Column { name, .. } => if index_of(names, name@) < 0 { None } else {
                    Some((idx.push(index_of(names, name@)), labels.push(item_label(items.last()))))
                },
                SelectItem::Function { .. } => Some((idx.push((names.len() + function_count(items.drop_last())) as int), labels.push(item_label(items.last())))),
            },
        }
    }
}

/// The ordering keys, or `None` when a key names no column. `Some(None)`
/// when some key has no direction: then the ordering is skipped.
pub open spec fn order_spec(keys: Seq<OrderKey>, names: Seq<Seq<char>>) -> Option<Option<Seq<(int, bool)>>> {
    if exists|i: int| 0 <= i < keys.len() && (#[trigger] keys[i]).ascending.is_none() {
        Some(None)
    } else if exists|i: int| 0 <= i < keys.len() && index_of(names, (#[trigger] keys[i]).column@) < 0 {
        None
    } else {
        Some(Some(keys.map_values(|k: OrderKey| (index_of(names, k.column@), k.ascending.unwrap()))))
    }
}

/// The rows the WHERE clause keeps.
pub open spec fn filtered(t: TableView, selection: Option<Expr>) -> Seq<Seq<CellView>> {
    match selection {
        None => t.rows,
        Some(e) => kept(t.rows, t.rows.map_values(|row: Seq<CellView>| where_holds(e, names_of(t.columns), row))),
    }
}

/// The labels and rows a SELECT produces on table `t`, or `None` when it is
/// refused.
pub open spec fn select_spec(t: TableView, q: SelectQuery) -> Option<(Seq<Seq<char>>, Seq<Seq<CellView>>)> {
    let items = q.projection@;
    let names = names_of(t.columns);
    if exists|i: int| 0 <= i < items.len() && is_aggregate_item(#[trigger] items[i]) {
        aggregate_select(t, items)
    } else if names.len() + items.len() > usize::MAX {
        None
    } else if q.selection.is_some() && !compiles(q.selection.unwrap(), names) {
        None
    } else {
        let rows1 = filtered(t, q.selection);
        match order_spec(q.order_by@, names) {
            None => None,
            Some(keys) => {
                let rows2 = match keys { Some(k) => sort_rows(rows1, k), None => rows1 };
                match (scalar_calls(items, names), projection(items, names)) {
                    (Some(calls), Some((idx, labels))) =>
                        if !scalars_compute(calls, rows2) { None } else {
                            let rows3 = rows2.map_values(|row: Seq<CellView>| project(extend_row(calls, row), idx));
                            Some((labels, limit_spec(offset_spec(rows3, q.offset), q.limit)))
                        },
                    _ => None,
                }
            },
        }
    }
}

proof fn lemma_args_none(args: Seq<FunctionArg>, names: Seq<Seq<char>>, aggregate: bool, i: int)
    requires
        0 <= i < args.len(),
        arg_spec(args[i], names, aggregate).is_none(),
    ensures
        args_spec(args, names, aggregate).is_none(),
    decreases args.len(),
{
    if i < args.len() - 1 {
        lemma_args_none(args.drop_last(), names, aggregate, i);
    }
}

/// Resolves the arguments of a function call against a schema.
fn resolve_args(args: &Vec<FunctionArg>, schema: &Schema, aggregate: bool) -> (r: Result<Vec<String>, String>)
    ensures
        r.is_ok() == args_spec(args@, names_of(schema.0@), aggregate).is_some(),
        r.is_ok() ==> views_of(r.unwrap()@) == args_spec(args@, names_of(schema.0@), aggregate).unwrap(),
{
    let ghost names = names_of(schema.0@);
    let mut out: Vec<String> = Vec::new();
    let mut i: usize = 0;
    proof {
        assert(args@.subrange(0, 0) =~= Seq::<FunctionArg>::empty());
    }
    while i < args.len()
        invariant
            names == names_of(schema.0@),
            i <= args@.len(),
            args_spec(args@.subrange(0, i as int), names, aggregate) == Some(views_of(out@)),
        decreases args@.len() - i,
    {
        let ghost pre = args@.subrange(0, i + 1);
        proof {
            assert(pre.drop_last() =~= args@.subrange(0, i as int));
            assert(pre.last() == args@[i as int]);
        }
        let a: String = match &args[i] {
            FunctionArg::Wildcard => {
                if aggregate {
                    proof {
                        reveal_strlit("*");
                    }
                    String::from_str("*")
                } else {
                    proof {
                        lemma_args_none(args@, names, aggregate, i as int);
                    }
                    return Err(String::from_str("unsupported: a wildcard cannot be passed to a scalar"));
                }
            },
            FunctionArg::Column(n) => match schema.position(n.as_str()) {
                Some(c) => u64_to_text(c as u64),
                None => {
                    proof {
                        lemma_args_none(args@, names, aggregate, i as int);
                    }
                    return Err(String::from_str("unknown column: no column has this name"));
                },
            },
            FunctionArg::Literal(t) => t.clone(),
        };
        let ghost before = out@;
        out.push(a);
        proof {
            assert(views_of(out@) =~= views_of(before).push(a@));
        }
        i += 1;
    }
    proof {
        assert(args@.subrange(0, args@.len() as int) =~= args@);
    }
    Ok(out)
}

/// The call `call` is what aggregate item `item` asks for.
pub open spec fn aggregate_call_of(t: TableView, item: SelectItem, call: FunctionCall) -> bool {
    match item {
        SelectItem::Function { name, args, alias } => call.name == name && call.alias == alias
            && is_aggregator_name(name@) && args_spec(args@, names_of(t.columns), true) == Some(call.args_view()),
        _ => false,
    }
}

pub open spec fn item_refused(t: TableView, item: SelectItem) -> bool {
    match item {
        SelectItem::Function { name, args, .. } => !is_aggregator_name(name@) || args_spec(args@, names_of(t.columns), true).is_none(),
        _ => true,
    }
}

proof fn lemma_aggregate_select_refused(t: TableView, items: Seq<SelectItem>, i: int)
    requires
        0 <= i < items.len(),
        item_refused(t, items[i]),
    ensures
        aggregate_select(t, items).is_none(),
    decreases items.len(),
{
    if i < items.len() - 1 {
        lemma_aggregate_select_refused(t, items.drop_last(), i);
    }
}

proof fn lemma_aggregate_select(t: TableView, items: Seq<SelectItem>, calls: Seq<FunctionCall>)
    requires
        calls.len() == items.len(),
        forall|k: int| 0 <= k < items.len() ==> aggregate_call_of(t, #[trigger] items[k], calls[k]),
    ensures
        aggregate_select(t, items) == (if (forall|k: int| 0 <= k < calls.len() ==>
            (#[trigger] aggregate_spec(calls[k].name@, calls[k].args_view(), t.rows)).is_some()) {
            Some((calls.map_values(|f: FunctionCall| f.label()),
                seq![calls.map_values(|f: FunctionCall| Some(aggregate_spec(f.name@, f.args_view(), t.rows).unwrap()))]))
        } else {
            None
        }),
    decreases items.len(),
{
    if items.len() > 0 {
        let n = items.len() - 1;
        let pi = items.drop_last();
        let pc = calls.drop_last();
        assert forall|k: int| 0 <= k < pi.len() implies aggregate_call_of(t, #[trigger] pi[k], pc[k]) by {
            assert(aggregate_call_of(t, items[k], calls[k]));
        }
        lemma_aggregate_select(t, pi, pc);
        assert(aggregate_call_of(t, items[n], calls[n]));
        let allp = forall|k: int| 0 <= k < pc.len() ==> (#[trigger] aggregate_spec(pc[k].name@, pc[k].args_view(), t.rows)).is_some();
        if allp {
            assert(pc.map_values(|f: FunctionCall| f.label()).push(calls[n].label()) =~= calls.map_values(|f: FunctionCall| f.label()));
            assert(pc.map_values(|f: FunctionCall| Some(aggregate_spec(f.name@, f.args_view(), t.rows).unwrap())).push(
                Some(aggregate_spec(calls[n].name@, calls[n].args_view(), t.rows).unwrap()))
                =~= calls.map_values(|f: FunctionCall| Some(aggregate_spec(f.name@, f.args_view(), t.rows).unwrap())));
            match items[n] {
                SelectItem::Function { name, args, alias } => {
                    assert(item_label(items[n]) == calls[n].label());
                },
                _ => {},
            }
            if !(forall|k: int| 0 <= k < calls.len() ==> (#[trigger] aggregate_spec(calls[k].name@, calls[k].args_view(), t.rows)).is_some()) {
                let k = choose|k: int| 0 <= k < calls.len() && !(#[trigger] aggregate_spec(calls[k].name@, calls[k].args_view(), t.rows)).is_some();
                if k < n {
                    assert(pc[k] == calls[k]);
                }
            }
        } else {
            let k = choose|k: int| 0 <= k < pc.len() && !(#[trigger] aggregate_spec(pc[k].name@, pc[k].args_view(), t.rows)).is_some();
            assert(pc[k] == calls[k]);
        }
    } else {
        assert(calls.map_values(|f: FunctionCall| f.label()) =~= Seq::<Seq<char>>::empty());
        assert(calls.map_values(|f: FunctionCall| Some(aggregate_spec(f.name@, f.args_view(), t.rows).unwrap())) =~= Seq::<CellView>::empty());
    }
}

fn clone_alias(a: &Option<String>) -> (r: Option<String>)
    ensures
        r == *a,
{
    match a {
        Some(s) => Some(s.clone()),
        None => None,
    }
}

/// A SELECT whose items are all aggregators.
fn aggregate_mode(t: &Table, items: &Vec<SelectItem>) -> (r: Result<TableReader, String>)
    requires
        t.wf(),
    ensures
        r.is_ok() == aggregate_select(t@, items@).is_some(),
        r.is_ok() ==> r.unwrap().wf() && r.unwrap().names() == aggregate_select(t@, items@).unwrap().0
            && r.unwrap().rows_view() == aggregate_select(t@, items@).unwrap().1,
{
    let mut calls: Vec<FunctionCall> = Vec::new();
    let mut i: usize = 0;
    while i < items.len()
        invariant
            t.wf(),
            i <= items@.len(),
            calls@.len() == i,
            forall|k: int| 0 <= k < i ==> aggregate_call_of(t@, #[trigger] items@[k], calls@[k]),
        decreases items@.len() - i,
    {
        match &items[i] {
            SelectItem::Function { name, args, alias } => {
                if !is_aggregator(name) {
                    proof {
                        lemma_aggregate_select_refused(t@, items@, i as int);
                    }
                    return Err(String::from_str("unsupported: aggregators cannot be mixed with columns or scalars"));
                }
                let a = match resolve_args(args, t.schema(), true) {
                    Ok(a) => a,
                    Err(e) => {
                        proof {
                            lemma_aggregate_select_refused(t@, items@, i as int);
                        }
                        return Err(e);
                    },
                };
                calls.push(FunctionCall { name: name.clone(), args: a, alias: clone_alias(alias) });
            },
            _ => {
                proof {
                    lemma_aggregate_select_refused(t@, items@, i as int);
                }
                return Err(String::from_str("unsupported: aggregators cannot be mixed with columns or scalars"));
            },
        }
        i += 1;
    }
    proof {
        lemma_aggregate_select(t@, items@, calls@);
    }
    t.perform_aggregate(&calls)
}

proof fn lemma_scalar_calls_prefix(items: Seq<SelectItem>, names: Seq<Seq<char>>, i: int)
    requires
        0 <= i <= items.len(),
        scalar_calls(items.subrange(0, i), names).is_none(),
    ensures
        scalar_calls(items, names).is_none(),
    decreases items.len(),
{
    if i < items.len() {
        assert(items.drop_last().subrange(0, i) =~= items.subrange(0, i));
        lemma_scalar_calls_prefix(items.drop_last(), names, i);
    } else {
        assert(items.subrange(0, i) =~= items);
    }
}

proof fn lemma_projection_prefix(items: Seq<SelectItem>, names: Seq<Seq<char>>, i: int)
    requires
        0 <= i <= items.len(),
        projection(items.subrange(0, i), names).is_none(),
    ensures
        projection(items, names).is_none(),
    decreases items.len(),
{
    if i < items.len() {
        assert(items.drop_last().subrange(0, i) =~= items.subrange(0, i));
        lemma_projection_prefix(items.drop_last(), names, i);
    } else {
        assert(items.subrange(0, i) =~= items);
    }
}

proof fn lemma_function_count_grows(items: Seq<SelectItem>, i: int)
    requires
        0 <= i <= items.len(),
    ensures
        function_count(items.subrange(0, i)) <= function_count(items),
    decreases items.len(),
{
    if i < items.len() {
        assert(items.drop_last().subrange(0, i) =~= items.subrange(0, i));
        lemma_function_count_grows(items.drop_last(), i);
    } else {
        assert(items.subrange(0, i) =~= items);
    }
}

/// Resolves the ORDER BY keys: `None` when some key has no direction.
fn resolve_order(keys: &Vec<OrderKey>, schema: &Schema) -> (r: Result<Option<Vec<(usize, bool)>>, String>)
    ensures
        match order_spec(keys@, names_of(schema.0@)) {
            None => r.is_err(),
            Some(None) => r.is_ok() && r.unwrap().is_none(),
            Some(Some(k)) => r.is_ok() && r.unwrap().is_some() && keys_view(r.unwrap().unwrap()@) == k
                && forall|i: int| 0 <= i < r.unwrap().unwrap()@.len() ==> (#[trigger] r.unwrap().unwrap()@[i]).0 < schema.0@.len(),
        },
{
    let ghost names = names_of(schema.0@);
    let mut i: usize = 0;
    while i < keys.len()
        invariant
            i <= keys@.len(),
            forall|j: int| 0 <= j < i ==> (#[trigger] keys@[j]).ascending.is_some(),
        decreases keys@.len() - i,
    {
        if keys[i].ascending.is_none() {
            proof {
                assert(keys@[i as int].ascending.is_none());
            }
            return Ok(None);
        }
        i += 1;
    }
    let mut out: Vec<(usize, bool)> = Vec::new();
    let mut i: usize = 0;
    while i < keys.len()
        invariant
            names == names_of(schema.0@),
            i <= keys@.len(),
            forall|j: int| 0 <= j < keys@.len() ==> (#[trigger] keys@[j]).ascending.is_some(),
            out@.len() == i,
            forall|j: int| 0 <= j < i ==> (#[trigger] out@[j]).0 as int == index_of(names, keys@[j].column@)
                && out@[j].1 == keys@[j].ascending.unwrap() && out@[j].0 < schema.0@.len(),
        decreases keys@.len() - i,
    {
        proof {
            lemma_index_of_range(names, keys@[i as int].column@);
        }
        let c = match schema.position(keys[i].column.as_str()) {
            Some(c) => c,
            None => {
                proof {
                    assert(index_of(names, keys@[i as int].column@) < 0);
                    assert(!(exists|j: int| 0 <= j < keys@.len() && (#[trigger] keys@[j]).ascending.is_none()));
                }
                return Err(String::from_str("unknown column: an ordering key names no column"));
            },
        };
        let asc = match keys[i].ascending {
            Some(a) => a,
            None => true,
        };
        out.push((c, asc));
        i += 1;
    }
    proof {
        assert(keys_view(out@) =~= keys@.map_values(|k: OrderKey| (index_of(names, k.column@), k.ascending.unwrap())));
        assert(!(exists|j: int| 0 <= j < keys@.len() && (#[trigger] keys@[j]).ascending.is_none()));
        assert(!(exists|j: int| 0 <= j < keys@.len() && index_of(names, (#[trigger] keys@[j]).column@) < 0)) by {
            if exists|j: int| 0 <= j < keys@.len() && index_of(names, (#[trigger] keys@[j]).column@) < 0 {
                let j = choose|j: int| 0 <= j < keys@.len() && index_of(names, (#[trigger] keys@[j]).column@) < 0;
                assert(out@[j].0 as int == index_of(names, keys@[j].column@));
            }
        }
    }
    Ok(Some(out))
}

/// The scalar calls of a SELECT list, in order.
fn scalar_calls_exec(items: &Vec<SelectItem>, schema: &Schema) -> (r: Result<Vec<FunctionCall>, String>)
    ensures
        r.is_ok() == scalar_calls(items@, names_of(schema.0@)).is_some(),
        r.is_ok() ==> call_args(r.unwrap()@) == scalar_calls(items@, names_of(schema.0@)).unwrap()
            && r.unwrap()@.len() == function_count(items@)
            && forall|k: int| 0 <= k < r.unwrap()@.len() ==> same_ignoring_ascii_case((#[trigger] r.unwrap()@[k]).name@, "ADD"@),
{
    let ghost names = names_of(schema.0@);
    let mut calls: Vec<FunctionCall> = Vec::new();
    let mut i: usize = 0;
    proof {
        assert(items@.subrange(0, 0) =~= Seq::<SelectItem>::empty());
        assert(call_args(calls@) =~= Seq::<Seq<Seq<char>>>::empty());
    }
    while i < items.len()
        invariant
            names == names_of(schema.0@),
            i <= items@.len(),
            scalar_calls(items@.subrange(0, i as int), names) == Some(call_args(calls@)),
            calls@.len() == function_count(items@.subrange(0, i as int)),
            forall|k: int| 0 <= k < calls@.len() ==> same_ignoring_ascii_case((#[trigger] calls@[k]).name@, "ADD"@),
        decreases items@.len() - i,
    {
        let ghost pre = items@.subrange(0, i + 1);
        proof {
            assert(pre.drop_last() =~= items@.subrange(0, i as int));
            assert(pre.last() == items@[i as int]);
        }
        match &items[i] {
            SelectItem::Function { name, args, alias } => {
                if !is_scalar(name) {
                    proof {
                        lemma_scalar_calls_prefix(items@, names, i + 1);
                    }
                    return Err(String::from_str("unknown function: not a scalar or an aggregator"));
                }
                let a = match resolve_args(args, schema, false) {
                    Ok(a) => a,
                    Err(e) => {
                        proof {
                            lemma_scalar_calls_prefix(items@, names, i + 1);
                        }
                        return Err(e);
                    },
                };
                let ghost before = calls@;
                calls.push(FunctionCall { name: name.clone(), args: a, alias: clone_alias(alias) });
                proof {
                    assert(call_args(calls@) =~= call_args(before).push(views_of(a@)));
                }
            },
            _ => {},
        }
        i += 1;
    }
    proof {
        assert(items@.subrange(0, items@.len() as int) =~= items@);
    }
    Ok(calls)
}

/// The output columns of a SELECT list: positions in the row extended by
/// the scalar results, and labels.
fn projection_exec(items: &Vec<SelectItem>, schema: &Schema) -> (r: Result<(Vec<usize>, Vec<String>), String>)
    requires
        schema.0@.len() + items@.len() <= usize::MAX,
    ensures
        r.is_ok() == projection(items@, names_of(schema.0@)).is_some(),
        r.is_ok() ==> {
            let (idx, labels) = r.unwrap();
            &&& idx@.map_values(|c: usize| c as int) == projection(items@, names_of(schema.0@)).unwrap().0
            &&& views_of(labels@) == projection(items@, names_of(schema.0@)).unwrap().1
            &&& labels@.len() == idx@.len()
            &&& forall|k: int| 0 <= k < idx@.len() ==> (#[trigger] idx@[k]) < schema.0@.len() + function_count(items@)
        },
{
    let ghost names = names_of(schema.0@);
    let width = schema.len();
    let mut idx: Vec<usize> = Vec::new();
    let mut labels: Vec<String> = Vec::new();
    let mut fcount: usize = 0;
    let mut i: usize = 0;
    proof {
        assert(items@.subrange(0, 0) =~= Seq::<SelectItem>::empty());
        assert(idx@.map_values(|c: usize| c as int) =~= Seq::<int>::empty());
        assert(views_of(labels@) =~= Seq::<Seq<char>>::empty());
    }
    while i < items.len()
        invariant
            names == names_of(schema.0@),
            width == names.len(),
            width + items@.len() <= usize::MAX,
            i <= items@.len(),
            fcount == function_count(items@.subrange(0, i as int)),
            fcount <= i,
            projection(items@.subrange(0, i as int), names) == Some((idx@.map_values(|c: usize| c as int), views_of(labels@))),
            labels@.len() == idx@.len(),
            forall|k: int| 0 <= k < idx@.len() ==> (#[trigger] idx@[k]) < width + fcount + (if fcount < function_count(items@) { 1int } else { 0int }),
            fcount <= function_count(items@),
        decreases items@.len() - i,
    {
        let ghost pre = items@.subrange(0, i + 1);
        proof {
            assert(pre.drop_last() =~= items@.subrange(0, i as int));
            assert(pre.last() == items@[i as int]);
            lemma_function_count_grows(items@, i + 1);
        }
        let ghost bi = idx@;
        let ghost bl = labels@;
        match &items[i] {
            SelectItem::Wildcard => {
                let mut c: usize = 0;
                while c < width
                    invariant
                        names == names_of(schema.0@),
                        width == names.len(),
                        width == schema.0@.len(),
                        c <= width,
                        idx@ == bi + Seq::new(c as nat, |j: int| j as usize),
                        views_of(labels@) == views_of(bl) + names.subrange(0, c as int),
                        labels@.len() == idx@.len(),
                        bl.len() == bi.len(),
                    decreases width - c,
                {
                    let ghost bl2 = labels@;
                    idx.push(c);
                    labels.push(schema.at(c).0.clone());
                    proof {
                        assert(names[c as int] == schema.0@[c as int].0@);
                        assert(views_of(labels@) =~= views_of(bl2).push(names[c as int]));
                        assert(names.subrange(0, c + 1) =~= names.subrange(0, c as int).push(names[c as int]));
                    }
                    c += 1;
                    proof {
                        assert(idx@ =~= bi + Seq::new(c as nat, |j: int| j as usize));
                        assert(views_of(labels@) =~= views_of(bl) + names.subrange(0, c as int));
                    }
                }
                proof {
                    assert(idx@.map_values(|c: usize| c as int) =~= bi.map_values(|c: usize| c as int) + Seq::new(names.len(), |j: int| j));
                    assert(names.subrange(0, width as int) =~= names);
                    assert(views_of(labels@) == views_of(bl) + names);
                }
            },
            SelectItem::Column { name, alias } => {
                proof {
                    lemma_index_of_range(names, name@);
                }
                let c = match schema.position(name.as_str()) {
                    Some(c) => c,
                    None => {
                        proof {
                            lemma_projection_prefix(items@, names, i + 1);
                        }
                        return Err(String::from_str("unknown column: no column has this name"));
                    },
                };
                idx.push(c);
                let label = match alias {
                    Some(a) => a.clone(),
                    None => name.clone(),
                };
                labels.push(label);
                proof {
                    assert(idx@.map_values(|c: usize| c as int) =~= bi.map_values(|c: usize| c as int).push(c as int));
                    assert(views_of(labels@) =~= views_of(bl).push(label@));
                }
            },
            SelectItem::Function { name, alias, .. } => {
                idx.push(width + fcount);
                let label = match alias {
                    Some(a) => a.clone(),
                    None => name.clone(),
                };
                labels.push(label);
                proof {
                    assert(idx@.map_values(|c: usize| c as int) =~= bi.map_values(|c: usize| c as int).push(width + fcount));
                    assert(views_of(labels@) =~= views_of(bl).push(label@));
                }
                fcount = fcount + 1;
            },
        }
        i += 1;
    }
    proof {
        assert(items@.subrange(0, items@.len() as int) =~= items@);
    }
    Ok((idx, labels))
}

/// Runs a SELECT on one table: aggregators over all rows, or the pipeline
/// of filter, ordering, scalars, projection, offset and limit.
pub fn run_select(t: &Table, q: &SelectQuery) -> (r: Result<TableReader, String>)
    requires
        t.wf(),
    ensures
        r.is_ok() == select_spec(t@, *q).is_some(),
        r.is_ok() ==> r.unwrap().wf() && r.unwrap().names() == select_spec(t@, *q).unwrap().0
            && r.unwrap().rows_view() == select_spec(t@, *q).unwrap().1,
{
    let items = &q.projection;
    let ghost names = names_of(t@.columns);
    let mut has_aggregate = false;
    let mut i: usize = 0;
    while i < items.len()
        invariant
            i <= items@.len(),
            has_aggregate == exists|j: int| 0 <= j < i && is_aggregate_item(#[trigger] items@[j]),
        decreases items@.len() - i,
    {
        let here = match &items[i] {
            SelectItem::Function { name, .. } => is_aggregator(name),
            _ => false,
        };
        proof {
            assert(here == is_aggregate_item(items@[i as int]));
            if here {
                assert(is_aggregate_item(items@[i as int]));
            }
            if !here && has_aggregate {
                let j = choose|j: int| 0 <= j < i && is_aggregate_item(#[trigger] items@[j]);
                assert(0 <= j < i + 1 && is_aggregate_item(items@[j]));
            }
            if !here && !has_aggregate {
                assert forall|j: int| 0 <= j < i + 1 implies !is_aggregate_item(#[trigger] items@[j]) by {
                    if j < i {
                        assert(!(exists|j: int| 0 <= j < i && is_aggregate_item(#[trigger] items@[j])));
                    }
                }
            }
        }
        has_aggregate = has_aggregate || here;
        i += 1;
    }
    if has_aggregate {
        return aggregate_mode(t, items);
    }
    let schema = t.schema();
    if schema.len() > usize::MAX - items.len() {
        return Err(String::from_str("unsupported: the result would have too many columns"));
    }
    let mut reader = t.reader();
    let ghost rows1 = filtered(t@, q.selection);
    match &q.selection {
        Some(e) => {
            let p = compile_predicate(e, schema)?;
            reader = reader.filter_where(&p);
            proof {
                assert(t@.rows.map_values(|row: Seq<CellView>| p.holds(row)) =~= t@.rows.map_values(
                    |row: Seq<CellView>| where_holds(*e, names, row)));
            }
        },
        None => {},
    }
    proof {
        assert(reader.rows_view() == rows1);
    }
    let keys = resolve_order(&q.order_by, schema)?;
    match keys {
        Some(k) => {
            reader = match reader.order_by(k) {
                Ok(r) => r,
                Err(e) => {
                    return Err(e);
                },
            };
        },
        None => {},
    }
    let ghost rows2 = reader.rows_view();
    let calls = scalar_calls_exec(items, schema)?;
    let (indices, labels) = projection_exec(items, schema)?;
    let reader = reader.perform_function(&calls)?;
    proof {
        assert(reader.schema.0@.len() == names.len() + calls@.len()) by {
            assert(names_of(reader.schema.0@).len() == reader.schema.0@.len());
        }
    }
    let ghost idx = indices@.map_values(|c: usize| c as int);
    let reader = reader.project_columns(indices, labels);
    let reader = reader.offset(q.offset);
    let reader = reader.limit(q.limit);
    proof {
        let calls_v = call_args(calls@);
        assert(rows2.map_values(|row: Seq<CellView>| extend_row(calls_v, row)).map_values(|row: Seq<CellView>| project(row, idx))
            =~= rows2.map_values(|row: Seq<CellView>| project(extend_row(calls_v, row), idx)));
    }
    Ok(reader)
}

/// A column type as the parser gives it.
#[derive(Debug)]
pub enum SqlType {
    /// An integer type (INT and the like).
    Number,
    /// A character type (VARCHAR and the like).
    Text,
    /// Any other type, by name.
    Other(String),
}

/// A column of CREATE TABLE.
#[derive(Debug)]
pub struct ColumnSpec {
    pub name: String,
    pub datatype: SqlType,
    pub primary: bool,
}

/// A table-level FOREIGN KEY (column) REFERENCES table(referenced).
#[derive(Debug)]
pub struct ForeignKeySpec {
    pub column: String,
    pub table: String,
    pub referenced: String,
}

/// One parsed SQL statement.
#[derive(Debug)]
pub enum Statement {
    Select(SelectQuery),
    Insert { table: String, rows: Vec<Vec<Expr>> },
    Update { table: String, assignments: Vec<(String, Expr)>, selection: Option<Expr> },
    Delete { table: String, selection: Option<Expr> },
    CreateTable { name: String, columns: Vec<ColumnSpec>, foreign_keys: Vec<ForeignKeySpec> },
    CreateDatabase { name: String, if_not_exists: bool },
    DropDatabase { name: String, if_exists: bool },
    UseDatabase(String),
    ShowTables,
    ShowDatabases,
    /// A statement the engine does not handle, by its kind.
    Unsupported(String),
}

/// The texts of the VALUES rows, or `None` when a value is not a literal.
pub open spec fn literal_rows(rows: Seq<Vec<Expr>>) -> Option<Seq<Seq<Seq<char>>>> {
    if forall|i: int, j: int| 0 <= i < rows.len() && 0 <= j < rows[i]@.len() ==> (#[trigger] literal_spec(rows[i]@[j])).is_some() {
        Some(rows.map_values(|r: Vec<Expr>| r@.map_values(|e: Expr| literal_spec(e).unwrap())))
    } else {
        None
    }
}

/// The assignments as (column, text), or `None` when a value is not a literal.
pub open spec fn literal_assignments(a: Seq<(String, Expr)>) -> Option<Seq<(Seq<char>, Seq<char>)>> {
    if forall|i: int| 0 <= i < a.len() ==> (#[trigger] literal_spec(a[i].1)).is_some() {
        Some(a.map_values(|x: (String, Expr)| (x.0@, literal_spec(x.1).unwrap())))
    } else {
        None
    }
}

/// The position of the active database in the registry, or `-1`.
pub open spec fn active_index(s: SessionView) -> int {
    match s.active {
        Some(n) => database_index(s.databases, n),
        None => -1,
    }
}

/// The session with database `i` replaced.
pub open spec fn with_database(s: SessionView, i: int, db: DatabaseView) -> SessionView {
    SessionView { databases: s.databases.update(i, db), ..s }
}

/// A one-column result whose rows are the given names.
pub open spec fn name_rows(names: Seq<Seq<char>>) -> Seq<Seq<CellView>> {
    names.map_values(|n: Seq<char>| seq![Some(n)])
}

fn literal_rows_exec(rows: &Vec<Vec<Expr>>) -> (r: Result<Vec<Vec<String>>, String>)
    ensures
        r.is_ok() == literal_rows(rows@).is_some(),
        r.is_ok() ==> tuples_view(r.unwrap()@) == literal_rows(rows@).unwrap(),
{
    let mut out: Vec<Vec<String>> = Vec::new();
    let mut i: usize = 0;
    while i < rows.len()
        invariant
            i <= rows@.len(),
            out@.len() == i,
            forall|a: int, b: int| 0 <= a < i && 0 <= b < rows@[a]@.len() ==> (#[trigger] literal_spec(rows@[a]@[b])).is_some(),
            forall|a: int| 0 <= a < i ==> views_of((#[trigger] out@[a])@) == rows@[a]@.map_values(|e: Expr| literal_spec(e).unwrap()),
        decreases rows@.len() - i,
    {
        let mut vals: Vec<String> = Vec::new();
        let mut j: usize = 0;
        while j < rows[i].len()
            invariant
                i < rows@.len(),
                j <= rows@[i as int]@.len(),
                vals@.len() == j,
                forall|b: int| 0 <= b < j ==> (#[trigger] literal_spec(rows@[i as int]@[b])).is_some()
                    && vals@[b]@ == literal_spec(rows@[i as int]@[b]).unwrap(),
            decreases rows@[i as int]@.len() - j,
        {
            match literal_text(&rows[i][j]) {
                Some(t) => vals.push(t),
                None => {
                    return Err(String::from_str("unsupported value: only literals can be inserted"));
                },
            }
            j += 1;
        }
        proof {
            assert(views_of(vals@) =~= rows@[i as int]@.map_values(|e: Expr| literal_spec(e).unwrap()));
        }
        out.push(vals);
        i += 1;
    }
    proof {
        assert(tuples_view(out@) =~= rows@.map_values(|r: Vec<Expr>| r@.map_values(|e: Expr| literal_spec(e).unwrap())));
    }
    Ok(out)
}

fn literal_assignments_exec(a: &Vec<(String, Expr)>) -> (r: Result<Vec<(String, String)>, String>)
    ensures
        r.is_ok() == literal_assignments(a@).is_some(),
        r.is_ok() ==> updates_view(r.unwrap()@) == literal_assignments(a@).unwrap(),
{
    let mut out: Vec<(String, String)> = Vec::new();
    let mut i: usize = 0;
    while i < a.len()
        invariant
            i <= a@.len(),
            out@.len() == i,
            forall|k: int| 0 <= k < i ==> (#[trigger] literal_spec(a@[k].1)).is_some()
                && out@[k].0@ == a@[k].0@ && out@[k].1@ == literal_spec(a@[k].1).unwrap(),
        decreases a@.len() - i,
    {
        match literal_text(&a[i].1) {
            Some(t) => out.push((a[i].0.clone(), t)),
            None => {
                return Err(String::from_str("unsupported value: only literals can be assigned"));
            },
        }
        i += 1;
    }
    proof {
        assert(updates_view(out@) =~= a@.map_values(|x: (String, Expr)| (x.0@, literal_spec(x.1).unwrap())));
    }
    Ok(out)
}

/// The type word of the engine's column definitions for an SQL type.
pub open spec fn type_word(t: SqlType) -> Option<Seq<char>> {
    match t {
        SqlType::Number => Some(" num"@),
        SqlType::Text => Some(" txt"@),
        SqlType::Other(_) => None,
    }
}

pub open spec fn fk_columns(fks: Seq<ForeignKeySpec>) -> Seq<Seq<char>> {
    fks.map_values(|f: ForeignKeySpec| f.column@)
}

/// The definition `name type [pk | fk table.column]` of one CREATE TABLE
/// column, its foreign key the first table-level one on that column; `None`
/// for an unknown type or a column that is both primary and foreign key.
pub open spec fn definition_text(c: ColumnSpec, fks: Seq<ForeignKeySpec>) -> Option<Seq<char>> {
    match type_word(c.datatype) {
        None => None,
        Some(w) => {
            let base = c.name@ + w;
            let k = index_of(fk_columns(fks), c.name@);
            if k >= 0 {
                if c.primary {
                    None
                } else {
                    Some(base + " fk "@ + fks[k].table@ + "."@ + fks[k].referenced@)
                }
            } else if c.primary {
                Some(base + " pk"@)
            } else {
                Some(base)
            }
        },
    }
}

pub open spec fn definitions_ok_text(columns: Seq<ColumnSpec>, fks: Seq<ForeignKeySpec>) -> bool {
    forall|i: int| 0 <= i < columns.len() ==> (#[trigger] definition_text(columns[i], fks)).is_some()
}

pub open spec fn definitions_of(columns: Seq<ColumnSpec>, fks: Seq<ForeignKeySpec>) -> Seq<Seq<char>> {
    columns.map_values(|c: ColumnSpec| definition_text(c, fks).unwrap())
}

fn column_definition_text(c: &ColumnSpec, fks: &Vec<ForeignKeySpec>) -> (r: Result<String, String>)
    ensures
        r.is_ok() == definition_text(*c, fks@).is_some(),
        r.is_ok() ==> r.unwrap()@ == definition_text(*c, fks@).unwrap(),
{
    let mut d = c.name.clone();
    match &c.datatype {
        SqlType::Number => d.append(" num"),
        SqlType::Text => d.append(" txt"),
        SqlType::Other(_) => {
            return Err(String::from_str("unsupported datatype: only integer and character types are handled"));
        },
    }
    let ghost cols = fk_columns(fks@);
    let mut fk: Option<usize> = None;
    let mut i: usize = 0;
    while i < fks.len() && fk.is_none()
        invariant
            cols == fk_columns(fks@),
            i <= fks@.len(),
            fk.is_none() ==> forall|j: int| 0 <= j < i ==> cols[j] != c.name@,
            fk.is_some() ==> fk.unwrap() < fks@.len() && cols[fk.unwrap() as int] == c.name@
                && forall|j: int| 0 <= j < fk.unwrap() ==> cols[j] != c.name@,
        decreases fks@.len() - i,
    {
        proof {
            assert(cols[i as int] == fks@[i as int].column@);
        }
        if text_eq_str(&fks[i].column, &c.name) {
            fk = Some(i);
        }
        i += 1;
    }
    proof {
        match fk {
            Some(k) => crate::schema::lemma_index_of_found(cols, c.name@, k as int),
            None => crate::schema::lemma_index_of_absent(cols, c.name@),
        }
    }
    match fk {
        Some(k) => {
            if c.primary {
                return Err(String::from_str("unsupported: a column cannot be both primary and foreign key"));
            }
            d.append(" fk ");
            d.append(fks[k].table.as_str());
            d.append(".");
            d.append(fks[k].referenced.as_str());
        },
        None => {
            if c.primary {
                d.append(" pk");
            }
        },
    }
    Ok(d)
}

/// The definitions of all CREATE TABLE columns.
fn definitions_text(columns: &Vec<ColumnSpec>, fks: &Vec<ForeignKeySpec>) -> (r: Result<Vec<String>, String>)
    ensures
        r.is_ok() == definitions_ok_text(columns@, fks@),
        r.is_ok() ==> views_of(r.unwrap()@) == definitions_of(columns@, fks@),
{
    let mut defs: Vec<String> = Vec::new();
    let mut i: usize = 0;
    while i < columns.len()
        invariant
            i <= columns@.len(),
            defs@.len() == i,
            forall|k: int| 0 <= k < i ==> (#[trigger] definition_text(columns@[k], fks@)).is_some(),
            forall|k: int| 0 <= k < i ==> (#[trigger] defs@[k])@ == definition_text(columns@[k], fks@).unwrap(),
        decreases columns@.len() - i,
    {
        let d = column_definition_text(&columns[i], fks)?;
        defs.push(d);
        i += 1;
    }
    proof {
        assert(views_of(defs@) =~= definitions_of(columns@, fks@));
    }
    Ok(defs)
}

fn text_eq_str(a: &String, b: &String) -> (r: bool)
    ensures
        r == (a@ == b@),
{
    crate::schema::text_eq(a.as_str(), b.as_str())
}

/// A one-column reader whose rows are the given names.
fn names_reader(header: &str, names: Vec<String>) -> (r: TableReader)
    ensures
        r.wf(),
        r.names() == seq![header@],
        r.rows_view() == name_rows(views_of(names@)),
{
    let mut rows: Vec<Row> = Vec::new();
    let mut i: usize = 0;
    while i < names.len()
        invariant
            i <= names@.len(),
            rows@.len() == i,
            forall|k: int| 0 <= k < i ==> (#[trigger] rows@[k])@ == seq![Some(names@[k]@)],
        decreases names@.len() - i,
    {
        let row = Row(vec![Some(names[i].clone())]);
        proof {
            assert(row@ =~= seq![Some(names@[i as int]@)]);
        }
        rows.push(row);
        i += 1;
    }
    let mut schema = Schema(Vec::new());
    schema.push(String::from_str(header), ColumnInformation::from(DataType::Text, None, false));
    let r = TableReader { schema, rows };
    proof {
        assert(r.rows_view() =~= name_rows(views_of(names@)));
        assert(r.names() =~= seq![header@]);
    }
    r
}

/// Runs one parsed statement against a session.
pub struct SqlExecutor {
    statement: Statement,
}

impl SqlExecutor {
    pub fn new(statement: Statement) -> (r: SqlExecutor)
        ensures
            r.statement() == statement,
    {
        SqlExecutor { statement }
    }

    pub closed spec fn statement(&self) -> Statement {
        self.statement
    }

    /// Runs the statement against the session. Queries hand back a result
    /// table and the table's row count; mutations hand back the number of
    /// rows they processed.
    pub fn execute(&self, session: &mut Session) -> (r: Result<SqlResult, String>)
        requires
            old(session).wf(),
        ensures
            final(session).wf(),
            final(session)@.history == old(session)@.history,
            final(session)@.start_time == old(session)@.start_time,
            match self.statement() {
                Statement::Select(q) => final(session)@ == old(session)@ && {
                    let ai = active_index(old(session)@);
                    if ai < 0 || table_index(old(session)@.databases[ai], q.table@) < 0 {
                        r.is_err()
                    } else {
                        let t = old(session)@.databases[ai].tables[table_index(old(session)@.databases[ai], q.table@)];
                        &&& r.is_ok() == select_spec(t, q).is_some()
                        &&& r.is_ok() ==> r.unwrap().table.is_some() && r.unwrap().table.unwrap().names() == select_spec(t, q).unwrap().0
                            && r.unwrap().table.unwrap().rows_view() == select_spec(t, q).unwrap().1
                            && r.unwrap().processed == Some(t.rows.len() as usize)
                    }
                },
                Statement::Insert { table, rows } => {
                    let ai = active_index(old(session)@);
                    if ai < 0 || table_index(old(session)@.databases[ai], table@) < 0 || literal_rows(rows@).is_none() {
                        r.is_err() && final(session)@ == old(session)@
                    } else {
                        let db = old(session)@.databases[ai];
                        let (db2, ok) = insert_many_into_spec(db, table_index(db, table@), literal_rows(rows@).unwrap());
                        &&& final(session)@ == with_database(old(session)@, ai, db2)
                        &&& r.is_ok() == ok
                        &&& ok ==> r.unwrap().table.is_none() && r.unwrap().processed == Some(rows@.len() as usize)
                        &&& insert_many_fk_error(db, table_index(db, table@), literal_rows(rows@).unwrap()) matches Some(m)
                            ==> (r matches Err(e) && e@ == m)
                    }
                },
                Statement::Update { table, assignments, selection } => {
                    let ai = active_index(old(session)@);
                    let db = old(session)@.databases[ai];
                    let ti = table_index(db, table@);
                    if ai < 0 || ti < 0 || literal_assignments(assignments@).is_none()
                        || (selection.is_some() && !compiles(selection.unwrap(), names_of(db.tables[ti].columns))) {
                        r.is_err() && final(session)@ == old(session)@
                    } else {
                        let t = db.tables[ti];
                        let ups = literal_assignments(assignments@).unwrap();
                        match selection {
                            Some(e) => {
                                let keys = matching_key_parts(t.rows, t.primary_keys, |row: Seq<CellView>| where_holds(e, names_of(t.columns), row));
                                let (db2, ok) = update_many_spec(db, ti, keys, ups);
                                &&& final(session)@ == with_database(old(session)@, ai, db2)
                                &&& r.is_ok() == ok
                                &&& ok ==> r.unwrap().table.is_none() && r.unwrap().processed == Some(keys.len() as usize)
                            },
                            None => if !update_fks_ok(db, t, ups) {
                                r.is_err() && final(session)@ == old(session)@
                            } else {
                                let (t2, ok) = update_all_spec(t, ups);
                                &&& final(session)@ == with_database(old(session)@, ai, DatabaseView { tables: db.tables.update(ti, t2), ..db })
                                &&& r.is_ok() == ok
                                &&& ok ==> r.unwrap().table.is_none() && r.unwrap().processed == Some(t.rows.len() as usize)
                            },
                        }
                    }
                },
                Statement::Delete { table, selection } => {
                    let ai = active_index(old(session)@);
                    let db = old(session)@.databases[ai];
                    let ti = table_index(db, table@);
                    if ai < 0 || ti < 0 || (selection.is_some() && !compiles(selection.unwrap(), names_of(db.tables[ti].columns))) {
                        r.is_err() && final(session)@ == old(session)@
                    } else {
                        let t = db.tables[ti];
                        match selection {
                            Some(e) => {
                                let keys = matching_key_parts(t.rows, t.primary_keys, |row: Seq<CellView>| where_holds(e, names_of(t.columns), row));
                                let (t2, ok) = delete_many_spec(t, keys);
                                &&& final(session)@ == with_database(old(session)@, ai, DatabaseView { tables: db.tables.update(ti, t2), ..db })
                                &&& r.is_ok() == ok
                                &&& ok ==> r.unwrap().table.is_none() && r.unwrap().processed == Some(keys.len() as usize)
                            },
                            None => r.is_ok() && r.unwrap().table.is_none() && r.unwrap().processed == Some(t.rows.len() as usize)
                                && final(session)@ == with_database(old(session)@, ai, DatabaseView {
                                    tables: db.tables.update(ti, crate::model::TableView { rows: Seq::empty(), index: Map::empty(), ..t }),
                                    ..db
                                }),
                        }
                    }
                },
                Statement::CreateTable { name, columns, foreign_keys } => {
                    let ai = active_index(old(session)@);
                    if ai < 0 || !definitions_ok_text(columns@, foreign_keys@) {
                        r.is_err() && final(session)@ == old(session)@
                    } else {
                        let db = old(session)@.databases[ai];
                        let defs = definitions_of(columns@, foreign_keys@);
                        &&& r.is_ok() == (definitions_ok(defs) && table_index(db, name@) < 0
                            && forall|i: int| 0 <= i < defs.len() ==> definition_refs_ok(db, words(#[trigger] defs[i])))
                        &&& r.is_err() ==> final(session)@ == old(session)@
                        &&& r.is_ok() ==> {
                            let db2 = final(session)@.databases[ai];
                            let t = db2.tables.last();
                            &&& final(session)@ == with_database(old(session)@, ai, db2)
                            &&& db2.name == db.name
                            &&& db2.tables.drop_last() == db.tables
                            &&& db2.tables.len() == db.tables.len() + 1
                            &&& t.name == name@
                            &&& t.rows.len() == 0
                            &&& t.columns.len() == defs.len()
                            &&& forall|i: int| 0 <= i < defs.len() ==> column_resolved(db, words(#[trigger] defs[i]), t.columns[i])
                            &&& t.indexed == exists|i: int| 0 <= i < defs.len() && words(#[trigger] defs[i]).len() == 3
                            &&& t.primary_keys == pk_positions(defs)
                            &&& t.index == Map::<Seq<char>, usize>::empty()
                        }
                    }
                },
                Statement::CreateDatabase { name, if_not_exists } => {
                    &&& final(session)@.active == old(session)@.active
                    &&& database_index(old(session)@.databases, name@) >= 0 ==> final(session)@.databases == old(session)@.databases
                        && r.is_ok() == if_not_exists
                    &&& database_index(old(session)@.databases, name@) < 0 ==> r.is_ok()
                        && final(session)@.databases.drop_last() == old(session)@.databases
                        && final(session)@.databases.len() == old(session)@.databases.len() + 1
                        && final(session)@.databases.last().name == name@
                        && final(session)@.databases.last().tables.len() == 0
                },
                Statement::DropDatabase { name, if_exists } => {
                    &&& final(session)@.active == old(session)@.active
                    &&& database_index(old(session)@.databases, name@) < 0 ==> final(session)@ == old(session)@ && r.is_ok() == if_exists
                    &&& database_index(old(session)@.databases, name@) >= 0 ==> r.is_ok()
                        && final(session)@.databases == old(session)@.databases.remove(database_index(old(session)@.databases, name@))
                },
                Statement::UseDatabase(name) => {
                    &&& r.is_ok() == (database_index(old(session)@.databases, name@) >= 0)
                    &&& r.is_ok() ==> final(session)@ == (SessionView { active: Some(name@), ..old(session)@ })
                    &&& r.is_err() ==> final(session)@ == old(session)@
                },
                Statement::ShowTables => final(session)@ == old(session)@ && {
                    let ai = active_index(old(session)@);
                    &&& r.is_ok() == (ai >= 0)
                    &&& r.is_ok() ==> r.unwrap().table.is_some()
                        && r.unwrap().table.unwrap().rows_view() == name_rows(table_names(old(session)@.databases[ai].tables))
                },
                Statement::ShowDatabases => final(session)@ == old(session)@ && r.is_ok() && r.unwrap().table.is_some()
                    && r.unwrap().table.unwrap().rows_view() == name_rows(database_names(old(session)@.databases)),
                Statement::Unsupported(_) => r.is_err() && final(session)@ == old(session)@,
            },
    {
        match &self.statement {
            Statement::Select(q) => {
                let db = match session.get_active_database() {
                    Some(db) => db,
                    None => {
                        return Err(String::from_str("no database: choose one with USE"));
                    },
                };
                let t = match db.get_table(q.table.as_str()) {
                    Some(t) => t,
                    None => {
                        return Err(String::from_str("unknown table: no table has this name"));
                    },
                };
                let reader = run_select(t, q)?;
                Ok(SqlResult { table: Some(reader), processed: Some(t.rows()) })
            },
            Statement::Insert { table, rows } => {
                let ai = match session.active_position() {
                    Some(ai) => ai,
                    None => {
                        return Err(String::from_str("no database: choose one with USE"));
                    },
                };
                let values = match literal_rows_exec(rows) {
                    Ok(v) => v,
                    Err(e) => {
                        return Err(e);
                    },
                };
                let ghost from = *session;
                let mut db = session.take_database(ai);
                let res = db.insert_many_into_table(table.as_str(), values);
                session.put_database(Ghost(from), ai, db);
                proof {
                    if table_index(from@.databases[ai as int], table@) < 0 {
                        assert(session@.databases =~= from@.databases);
                    }
                }
                match res {
                    Ok(n) => Ok(SqlResult { table: None, processed: Some(n) }),
                    Err(e) => Err(e),
                }
            },
            Statement::Update { table, assignments, selection } => {
                let ai = match session.active_position() {
                    Some(ai) => ai,
                    None => {
                        return Err(String::from_str("no database: choose one with USE"));
                    },
                };
                let pred = {
                    let db = match session.get_active_database() {
                        Some(db) => db,
                        None => {
                            return Err(String::from_str("no database: choose one with USE"));
                        },
                    };
                    let t = match db.get_table(table.as_str()) {
                        Some(t) => t,
                        None => {
                            return Err(String::from_str("unknown table: no table has this name"));
                        },
                    };
                    let ups_check = literal_assignments_exec(assignments)?;
                    match selection {
                        Some(e) => {
                            let p = compile_predicate(e, t.schema())?;
                            proof {
                                assert((|row: Seq<CellView>| p.holds(row)) =~= (|row: Seq<CellView>| where_holds(*e, names_of(t@.columns), row)));
                            }
                            Some(p)
                        },
                        None => None,
                    }
                };
                let ups = literal_assignments_exec(assignments)?;
                let ghost from = *session;
                let mut db = session.take_database(ai);
                let res = db.update_table_set_with_filters(table.as_str(), pred, ups);
                session.put_database(Ghost(from), ai, db);
                proof {
                    assert(from@.databases.update(ai as int, from@.databases[ai as int]) =~= from@.databases);
                }
                match res {
                    Ok(n) => Ok(SqlResult { table: None, processed: Some(n) }),
                    Err(e) => Err(e),
                }
            },
            Statement::Delete { table, selection } => {
                let ai = match session.active_position() {
                    Some(ai) => ai,
                    None => {
                        return Err(String::from_str("no database: choose one with USE"));
                    },
                };
                let pred = {
                    let db = match session.get_active_database() {
                        Some(db) => db,
                        None => {
                            return Err(String::from_str("no database: choose one with USE"));
                        },
                    };
                    let t = match db.get_table(table.as_str()) {
                        Some(t) => t,
                        None => {
                            return Err(String::from_str("unknown table: no table has this name"));
                        },
                    };
                    match selection {
                        Some(e) => {
                            let p = compile_predicate(e, t.schema())?;
                            proof {
                                assert((|row: Seq<CellView>| p.holds(row)) =~= (|row: Seq<CellView>| where_holds(*e, names_of(t@.columns), row)));
                            }
                            Some(p)
                        },
                        None => None,
                    }
                };
                let ghost from = *session;
                let mut db = session.take_database(ai);
                let res = db.delete_from_table_with_filter(table.as_str(), pred);
                session.put_database(Ghost(from), ai, db);
                match res {
                    Ok(n) => Ok(SqlResult { table: None, processed: Some(n) }),
                    Err(e) => Err(e),
                }
            },
            Statement::CreateTable { name, columns, foreign_keys } => {
                let ai = match session.active_position() {
                    Some(ai) => ai,
                    None => {
                        return Err(String::from_str("no database: choose one with USE"));
                    },
                };
                let defs = definitions_text(columns, foreign_keys)?;
                let ghost from = *session;
                let mut db = session.take_database(ai);
                let res = db.create_table(name.clone(), defs);
                session.put_database(Ghost(from), ai, db);
                proof {
                    if res.is_err() {
                        assert(session@.databases =~= from@.databases);
                    }
                }
                match res {
                    Ok(()) => Ok(SqlResult { table: None, processed: None }),
                    Err(e) => Err(e),
                }
            },
            Statement::CreateDatabase { name, if_not_exists } => {
                session.create_database(name.as_str(), *if_not_exists)?;
                Ok(SqlResult { table: None, processed: None })
            },
            Statement::DropDatabase { name, if_exists } => {
                match session.drop_database(name.as_str()) {
                    Some(_) => Ok(SqlResult { table: None, processed: None }),
                    None => {
                        if *if_exists {
                            Ok(SqlResult { table: None, processed: None })
                        } else {
                            Err(String::from_str("unknown database: no database has this name"))
                        }
                    },
                }
            },
            Statement::UseDatabase(name) => {
                session.use_database(name.as_str())?;
                Ok(SqlResult { table: None, processed: None })
            },
            Statement::ShowTables => {
                let db = match session.get_active_database() {
                    Some(db) => db,
                    None => {
                        return Err(String::from_str("no database: choose one with USE"));
                    },
                };
                let names = db.get_table_names();
                Ok(SqlResult { table: Some(names_reader("Tables", names)), processed: None })
            },
            Statement::ShowDatabases => {
                let names = session.get_available_databases();
                Ok(SqlResult { table: Some(names_reader("Databases", names)), processed: None })
            },
            Statement::Unsupported(_) => Err(String::from_str("unsupported statement: the engine does not handle it")),
        }
    }
}

} // verus!
