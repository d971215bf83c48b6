//! The built-in functions: aggregators over rows and scalars over one row.
use vstd::prelude::*;

pub mod aggregators;
pub mod scalars;

verus! {

/// A function call in a projection: its name, its arguments (column
/// positions in decimal, `*`, or literal text) and an optional alias.
#[derive(Debug)]
pub struct FunctionCall {
    pub name: String,
    pub args: Vec<String>,
    pub alias: Option<String>,
}

impl FunctionCall {
    /// The name of the column the call produces.
    pub open spec fn label(&self) -> Seq<char> {
        match self.alias {
            Some(a) => a@,
            None => self.name@,
        }
    }

    pub fn label_text(&self) -> (r: String)
        ensures
            r@ == self.label(),
    {
        match &self.alias {
            Some(a) => a.clone(),
            None => self.name.clone(),
        }
    }

    pub open spec fn args_view(&self) -> Seq<Seq<char>> {
        crate::text::views_of(self.args@)
    }
}

} // verus!
