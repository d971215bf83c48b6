//! Row predicates: what a WHERE clause compiles to.
use vstd::prelude::*;
use crate::row::{CellView, Row};
use crate::schema::text_eq;

verus! {

/// A condition on a row, over cells addressed by column position.
#[derive(Debug)]
pub enum Predicate {
    /// The cell holds exactly this text.
    Equals(usize, String),
    /// The cell holds a text other than this one.
    NotEquals(usize, String),
    And(Box<Predicate>, Box<Predicate>),
    Or(Box<Predicate>, Box<Predicate>),
}

impl Predicate {
    /// The row satisfies the condition. A null cell equals nothing and
    /// differs from nothing.
    pub open spec fn holds(&self, row: Seq<CellView>) -> bool
        decreases self,
    {
        match self {
            Predicate::Equals(c, t) => *c < row.len() && row[*c as int] == Some(t@),
            Predicate::NotEquals(c, t) => *c < row.len() && row[*c as int].is_some() && row[*c as int] != Some(t@),
            Predicate::And(a, b) => a.holds(row) && b.holds(row),
            Predicate::Or(a, b) => a.holds(row) || b.holds(row),
        }
    }

    /// Evaluates the condition on a row.
    pub fn eval(&self, row: &Row) -> (r: bool)
        ensures
            r == self.holds(row@),
        decreases self,
    {
        match self {
            Predicate::Equals(c, t) => {
                if *c < row.0.len() {
                    match &row.0[*c] {
                        Some(v) => text_eq(v.as_str(), t.as_str()),
                        None => false,
                    }
                } else {
                    false
                }
            },
            Predicate::NotEquals(c, t) => {
                if *c < row.0.len() {
                    match &row.0[*c] {
                        Some(v) => !text_eq(v.as_str(), t.as_str()),
                        None => false,
                    }
                } else {
                    false
                }
            },
            Predicate::And(a, b) => a.eval(row) && b.eval(row),
            Predicate::Or(a, b) => a.eval(row) || b.eval(row),
        }
    }
}

} // verus!
