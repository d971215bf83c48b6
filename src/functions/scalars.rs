//! The scalar ADD, dispatched by name.
use vstd::prelude::*;
use crate::functions::aggregators::{parse_position, parses_as_position};
use crate::row::{CellView, Row};
use crate::text::{decimal_of, eq_ignoring_ascii_case, parse_u64, parses_as_u64, same_ignoring_ascii_case, u64_to_text, u64_value};

verus! {

/// The scalar functions.
#[derive(Clone, Copy, Debug, PartialEq, Eq, Structural)]
pub enum ScalarFunction {
    /// `ADD(col, constant)`: the number in the column plus the constant.
    Add,
}

/// ADD on a row: the first argument is a column position, the second a
/// constant; the cell there must hold a number and the sum fit in 64 bits.
pub open spec fn add_spec(args: Seq<Seq<char>>, row: Seq<CellView>) -> Option<Seq<char>> {
    if args.len() < 2 || !parses_as_position(args[0]) || !parses_as_u64(args[1]) {
        None
    } else {
        let c = u64_value(args[0]) as int;
        if c >= row.len() || row[c].is_none() || !parses_as_u64(row[c].unwrap()) {
            None
        } else if u64_value(row[c].unwrap()) + u64_value(args[1]) > u64::MAX {
            None
        } else {
            Some(decimal_of(u64_value(row[c].unwrap()) + u64_value(args[1])))
        }
    }
}

impl ScalarFunction {
    pub open spec fn spec_run(&self, args: Seq<Seq<char>>, row: Seq<CellView>) -> Option<Seq<char>> {
        match self {
            ScalarFunction::Add => add_spec(args, row),
        }
    }

    /// Applies the function to one row.
    pub fn run(&self, args: &Vec<String>, row: &Row) -> (r: Result<String, String>)
        ensures
            r.is_ok() == self.spec_run(crate::text::views_of(args@), row@).is_some(),
            r.is_ok() ==> r.unwrap()@ == self.spec_run(crate::text::views_of(args@), row@).unwrap(),
    {
        let ghost a = crate::text::views_of(args@);
        match self {
            ScalarFunction::Add => {
                if args.len() < 2 {
                    return Err(String::from_str("ADD takes a column and a constant."));
                }
                proof {
                    assert(a[0] == args@[0]@);
                    assert(a[1] == args@[1]@);
                }
                let c = match parse_position(args[0].as_str()) {
                    Some(c) => c,
                    None => {
                        return Err(String::from_str("ADD takes a column position."));
                    },
                };
                let k = match parse_u64(args[1].as_str()) {
                    Some(k) => k,
                    None => {
                        return Err(String::from_str("Strictly integer value allowed."));
                    },
                };
                if c >= row.0.len() {
                    return Err(String::from_str("ADD names a column the row does not have."));
                }
                proof {
                    assert(row@[c as int] == crate::row::cell_view(row.0@[c as int]));
                }
                let v = match &row.0[c] {
                    Some(t) => match parse_u64(t.as_str()) {
                        Some(v) => v,
                        None => {
                            return Err(String::from_str("ADD needs a number in its column."));
                        },
                    },
                    None => {
                        return Err(String::from_str("ADD needs a value in its column."));
                    },
                };
                match v.checked_add(k) {
                    Some(sum) => Ok(u64_to_text(sum)),
                    None => Err(String::from_str("ADD overflows 64 bits.")),
                }
            },
        }
    }
}

/// The scalar function called `name` (any case).
pub fn get_runner(name: &String) -> (r: Result<ScalarFunction, String>)
    ensures
        r.is_ok() == same_ignoring_ascii_case(name@, "ADD"@),
        r.is_ok() ==> r.unwrap() == ScalarFunction::Add,
        r.is_err() ==> (r matches Err(e) && e@ == "Unknown scalar function: "@ + name@),
{
    if eq_ignoring_ascii_case(name.as_str(), "ADD") {
        Ok(ScalarFunction::Add)
    } else {
        let mut m = String::from_str("Unknown scalar function: ");
        m.append(name.as_str());
        Err(m)
    }
}

/// Whether `name` (any case) is a scalar function.
pub fn is_allowed(name: &String) -> (r: bool)
    ensures
        r == same_ignoring_ascii_case(name@, "ADD"@),
{
    eq_ignoring_ascii_case(name.as_str(), "ADD")
}

} // verus!
