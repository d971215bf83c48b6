//! The aggregators COUNT, MIN and MAX, dispatched by name.
use vstd::prelude::*;
use crate::row::{cell_view, CellView, Row};
use crate::text::{
    decimal_of, eq_ignoring_ascii_case, parse_u64, parses_as_u64, same_ignoring_ascii_case, text_less,
    u64_to_text, u64_value, compare_text,
};
use crate::model::rows_view;
use crate::schema::text_eq;

verus! {

/// `s` is the decimal text of a column position.
pub open spec fn parses_as_position(s: Seq<char>) -> bool {
    parses_as_u64(s) && u64_value(s) <= usize::MAX
}

/// The number of rows whose cell at `c` is present.
pub open spec fn count_present(rows: Seq<Seq<CellView>>, c: int) -> nat
    decreases rows.len(),
{
    if rows.len() == 0 {
        0
    } else {
        count_present(rows.drop_last(), c) + if c < rows.last().len() && rows.last()[c].is_some() { 1nat } else { 0nat }
    }
}

/// The least (or, with `want_max`, the greatest) present text at `c`, in
/// code-point order; `None` when no cell there is present.
pub open spec fn extreme(rows: Seq<Seq<CellView>>, c: int, want_max: bool) -> Option<Seq<char>>
    decreases rows.len(),
{
    if rows.len() == 0 {
        None
    } else {
        let prev = extreme(rows.drop_last(), c, want_max);
        let row = rows.last();
        if c < row.len() && row[c].is_some() {
            let t = row[c].unwrap();
            match prev {
                None => Some(t),
                Some(m) => if (if want_max { text_less(m, t) } else { text_less(t, m) }) { Some(t) } else { Some(m) },
            }
        } else {
            prev
        }
    }
}

/// COUNT: the number of rows with `*`, else the number of present cells in
/// the one column given.
pub open spec fn count_spec(args: Seq<Seq<char>>, rows: Seq<Seq<CellView>>) -> Option<Seq<char>> {
    if args.contains("*"@) {
        Some(decimal_of(rows.len()))
    } else if args.len() != 1 || !parses_as_position(args[0]) {
        None
    } else {
        Some(decimal_of(count_present(rows, u64_value(args[0]) as int)))
    }
}

/// MIN and MAX: the extreme present text of the one column given.
pub open spec fn extreme_spec(args: Seq<Seq<char>>, rows: Seq<Seq<CellView>>, want_max: bool) -> Option<Seq<char>> {
    if args.len() != 1 || !parses_as_position(args[0]) {
        None
    } else {
        extreme(rows, u64_value(args[0]) as int, want_max)
    }
}

/// The value of aggregator `name` (any case) over the rows, or `None` when
/// it is unknown or refuses its arguments.
pub open spec fn aggregate_spec(name: Seq<char>, args: Seq<Seq<char>>, rows: Seq<Seq<CellView>>) -> Option<Seq<char>> {
    if same_ignoring_ascii_case(name, "COUNT"@) {
        count_spec(args, rows)
    } else if same_ignoring_ascii_case(name, "MIN"@) {
        extreme_spec(args, rows, false)
    } else if same_ignoring_ascii_case(name, "MAX"@) {
        extreme_spec(args, rows, true)
    } else {
        None
    }
}

/// Reads a column position written in decimal.
pub fn parse_position(s: &str) -> (r: Option<usize>)
    ensures
        r.is_some() == parses_as_position(s@),
        r.is_some() ==> r.unwrap() as nat == u64_value(s@),
{
    match parse_u64(s) {
        Some(v) => {
            if v <= usize::MAX as u64 {
                Some(v as usize)
            } else {
                None
            }
        },
        None => None,
    }
}

fn has_wildcard(args: &Vec<String>) -> (r: bool)
    ensures
        r == crate::text::views_of(args@).contains("*"@),
{
    let ghost a = crate::text::views_of(args@);
    let mut i: usize = 0;
    while i < args.len()
        invariant
            a == crate::text::views_of(args@),
            i <= args@.len(),
            forall|j: int| 0 <= j < i ==> a[j] != "*"@,
        decreases args@.len() - i,
    {
        proof {
            assert(a[i as int] == args@[i as int]@);
        }
        if text_eq(args[i].as_str(), "*") {
            return true;
        }
        i += 1;
    }
    false
}

fn count_cells(rows: &Vec<Row>, c: usize) -> (r: u64)
    ensures
        r as nat == count_present(rows_view(rows@), c as int),
{
    let ghost all = rows_view(rows@);
    let mut n: u64 = 0;
    let mut i: usize = 0;
    proof {
        assert(all.subrange(0, 0) =~= Seq::<Seq<CellView>>::empty());
    }
    while i < rows.len()
        invariant
            all == rows_view(rows@),
            i <= rows@.len(),
            n as nat == count_present(all.subrange(0, i as int), c as int),
            n <= i,
        decreases rows@.len() - i,
    {
        proof {
            let pre = all.subrange(0, i + 1);
            assert(pre.drop_last() =~= all.subrange(0, i as int));
            assert(pre.last() == rows@[i as int]@);
        }
        if c < rows[i].0.len() {
            proof {
                assert(rows@[i as int]@[c as int] == cell_view(rows@[i as int].0@[c as int]));
            }
            if rows[i].0[c].is_some() {
                n = n + 1;
            }
        }
        i += 1;
    }
    proof {
        assert(all.subrange(0, i as int) =~= all);
    }
    n
}

fn extreme_cell(rows: &Vec<Row>, c: usize, want_max: bool) -> (r: Option<String>)
    ensures
        cell_view(r) == extreme(rows_view(rows@), c as int, want_max),
{
    let ghost all = rows_view(rows@);
    let mut best: Option<String> = None;
    let mut i: usize = 0;
    proof {
        assert(all.subrange(0, 0) =~= Seq::<Seq<CellView>>::empty());
    }
    while i < rows.len()
        invariant
            all == rows_view(rows@),
            i <= rows@.len(),
            cell_view(best) == extreme(all.subrange(0, i as int), c as int, want_max),
        decreases rows@.len() - i,
    {
        proof {
            let pre = all.subrange(0, i + 1);
            assert(pre.drop_last() =~= all.subrange(0, i as int));
            assert(pre.last() == rows@[i as int]@);
        }
        if c < rows[i].0.len() {
            proof {
                assert(rows@[i as int]@[c as int] == cell_view(rows@[i as int].0@[c as int]));
            }
            match &rows[i].0[c] {
                Some(t) => {
                    let replace = match &best {
                        None => true,
                        Some(m) => if want_max {
                            compare_text(m.as_str(), t.as_str()) == -1
                        } else {
                            compare_text(t.as_str(), m.as_str()) == -1
                        },
                    };
                    if replace {
                        best = Some(t.clone());
                    }
                },
                None => {},
            }
        }
        i += 1;
    }
    proof {
        assert(all.subrange(0, i as int) =~= all);
    }
    best
}

/// Runs aggregator `name` (any case) over the rows. Arguments are column
/// positions in decimal, or `*` for COUNT.
pub fn run(name: &String, args: &Vec<String>, rows: &Vec<Row>) -> (r: Result<String, String>)
    ensures
        r.is_ok() == aggregate_spec(name@, crate::text::views_of(args@), rows_view(rows@)).is_some(),
        r.is_ok() ==> r.unwrap()@ == aggregate_spec(name@, crate::text::views_of(args@), rows_view(rows@)).unwrap(),
        !(same_ignoring_ascii_case(name@, "COUNT"@) || same_ignoring_ascii_case(name@, "MIN"@)
            || same_ignoring_ascii_case(name@, "MAX"@)) ==> (r matches Err(e) && e@ == "Unknown aggregate function: "@ + name@),
{
    let ghost a = crate::text::views_of(args@);
    if eq_ignoring_ascii_case(name.as_str(), "COUNT") {
        if has_wildcard(args) {
            return Ok(u64_to_text(rows.len() as u64));
        }
        if args.len() != 1 {
            return Err(String::from_str("COUNT takes in a wildcard or a single column."));
        }
        proof {
            assert(a[0] == args@[0]@);
        }
        match parse_position(args[0].as_str()) {
            Some(c) => Ok(u64_to_text(count_cells(rows, c))),
            None => Err(String::from_str("COUNT takes a column position.")),
        }
    } else if eq_ignoring_ascii_case(name.as_str(), "MIN") || eq_ignoring_ascii_case(name.as_str(), "MAX") {
        let want_max = eq_ignoring_ascii_case(name.as_str(), "MAX");
        proof {
            reveal_strlit("MIN");
            reveal_strlit("MAX");
            if same_ignoring_ascii_case(name@, "MIN"@) {
                assert(name@[2] == 'N' || name@[2] as int == 'N' as int + 32);
                assert(!same_ignoring_ascii_case(name@, "MAX"@));
            }
        }
        if args.len() != 1 {
            return Err(String::from_str("MIN and MAX strictly allow a single column."));
        }
        proof {
            assert(a[0] == args@[0]@);
        }
        match parse_position(args[0].as_str()) {
            Some(c) => match extreme_cell(rows, c, want_max) {
                Some(v) => Ok(v),
                None => Err(String::from_str("MIN and MAX need at least one value.")),
            },
            None => Err(String::from_str("MIN and MAX take a column position.")),
        }
    } else {
        let mut m = String::from_str("Unknown aggregate function: ");
        m.append(name.as_str());
        Err(m)
    }
}

/// Whether `name` (any case) is an aggregator.
pub fn is_allowed(name: &String) -> (r: bool)
    ensures
        r == (same_ignoring_ascii_case(name@, "COUNT"@) || same_ignoring_ascii_case(name@, "MIN"@)
            || same_ignoring_ascii_case(name@, "MAX"@)),
{
    eq_ignoring_ascii_case(name.as_str(), "COUNT") || eq_ignoring_ascii_case(name.as_str(), "MIN")
        || eq_ignoring_ascii_case(name.as_str(), "MAX")
}

} // verus!
