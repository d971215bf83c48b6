use vstd::prelude::*;

verus! {

/// One tuple of a table: an ordered sequence of nullable text cells.
#[derive(Clone, Debug)]
pub struct Row(pub Vec<Option<String>>);

/// The mathematical value of a cell: absent (null) or a sequence of characters.
pub type CellView = Option<Seq<char>>;

pub open spec fn cell_view(c: Option<String>) -> CellView {
    match c {
        Some(s) => Some(s@),
        None => None,
    }
}

impl View for Row {
    type V = Seq<CellView>;

    open spec fn view(&self) -> Seq<CellView> {
        self.0@.map_values(|c: Option<String>| cell_view(c))
    }
}

/// Copies a cell, keeping its text.
pub fn clone_cell(c: &Option<String>) -> (r: Option<String>)
    ensures
        cell_view(r) == cell_view(*c),
{
    match c {
        Some(s) => Some(s.clone()),
        None => None,
    }
}

impl Row {
    /// Copies the row cell by cell.
    pub fn copy(&self) -> (r: Row)
        ensures
            r@ == self@,
    {
        let mut cells: Vec<Option<String>> = Vec::new();
        let mut i: usize = 0;
        while i < self.0.len()
            invariant
                i <= self.0@.len(),
                cells@.len() == i,
                forall|j: int| 0 <= j < i ==> cell_view(#[trigger] cells@[j]) == cell_view(self.0@[j]),
            decreases self.0@.len() - i,
        {
            cells.push(clone_cell(&self.0[i]));
            i += 1;
        }
        let r = Row(cells);
        assert(r@ =~= self@);
        r
    }
}

} // verus!
