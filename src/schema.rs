//! Column information, schemas, and the parsing of column definitions of the
//! form `name type [key] [ref]`.
use vstd::prelude::*;
use crate::text::{compare_text, split_words, views_of, words};

verus! {

/// The two logical datatypes of a column.
#[derive(Clone, Copy, Debug, PartialEq, Eq, Structural)]
pub enum DataType {
    Number,
    Text,
}

/// A column's reference to a column of another table.
#[derive(Debug)]
pub struct ForeignKeyConstraint {
    pub table_name: String,
    pub column_name: String,
    /// Position of the referenced column, once the referent has been found.
    pub column_index: Option<usize>,
}

impl ForeignKeyConstraint {
    pub fn new(table_name: String, column_name: String) -> (r: ForeignKeyConstraint)
        ensures
            r.table_name == table_name,
            r.column_name == column_name,
            r.column_index.is_none(),
    {
        ForeignKeyConstraint { table_name, column_name, column_index: None }
    }

    /// Records the position of the referenced column.
    pub fn update_index(&mut self, index: usize)
        ensures
            final(self).table_name == old(self).table_name,
            final(self).column_name == old(self).column_name,
            final(self).column_index == Some(index),
    {
        self.column_index = Some(index);
    }

    pub fn copy(&self) -> (r: ForeignKeyConstraint)
        ensures
            r == *self,
    {
        ForeignKeyConstraint {
            table_name: self.table_name.clone(),
            column_name: self.column_name.clone(),
            column_index: self.column_index,
        }
    }
}

/// What a column admits: its datatype, the longest text it takes, whether it
/// may be null, and the column it refers to, if any.
#[derive(Debug)]
pub struct ColumnInformation {
    pub datatype: DataType,
    pub max_limit: Option<usize>,
    pub nullable: bool,
    pub foreign_key: Option<ForeignKeyConstraint>,
}

impl ColumnInformation {
    pub fn from(datatype: DataType, max_limit: Option<usize>, nullable: bool) -> (r: ColumnInformation)
        ensures
            r.datatype == datatype,
            r.max_limit == max_limit,
            r.nullable == nullable,
            r.foreign_key.is_none(),
    {
        ColumnInformation { datatype, max_limit, nullable, foreign_key: None }
    }

    pub fn copy(&self) -> (r: ColumnInformation)
        ensures
            r == *self,
    {
        let foreign_key = match &self.foreign_key {
            Some(fk) => Some(fk.copy()),
            None => None,
        };
        ColumnInformation {
            datatype: self.datatype,
            max_limit: self.max_limit,
            nullable: self.nullable,
            foreign_key,
        }
    }
}

/// The ordered columns of a table: (column name, column information) pairs.
#[derive(Debug)]
pub struct Schema(pub Vec<(String, ColumnInformation)>);

pub open spec fn names_of(cols: Seq<(String, ColumnInformation)>) -> Seq<Seq<char>> {
    cols.map_values(|e: (String, ColumnInformation)| e.0@)
}

/// The first position of `x` in `names`, or `-1` when it does not occur.
pub open spec fn index_of(names: Seq<Seq<char>>, x: Seq<char>) -> int
    decreases names.len(),
{
    if names.len() == 0 {
        -1
    } else if names[0] == x {
        0
    } else {
        let r = index_of(names.drop_first(), x);
        if r < 0 {
            -1
        } else {
            r + 1
        }
    }
}

pub proof fn lemma_index_of_found(names: Seq<Seq<char>>, x: Seq<char>, i: int)
    requires
        0 <= i < names.len(),
        names[i] == x,
        forall|j: int| 0 <= j < i ==> names[j] != x,
    ensures
        index_of(names, x) == i,
    decreases i,
{
    if i > 0 {
        lemma_index_of_found(names.drop_first(), x, i - 1);
    }
}

pub proof fn lemma_index_of_absent(names: Seq<Seq<char>>, x: Seq<char>)
    requires
        forall|j: int| 0 <= j < names.len() ==> names[j] != x,
    ensures
        index_of(names, x) == -1,
    decreases names.len(),
{
    if names.len() > 0 {
        lemma_index_of_absent(names.drop_first(), x);
    }
}

pub proof fn lemma_index_of_range(names: Seq<Seq<char>>, x: Seq<char>)
    ensures
        -1 <= index_of(names, x) < names.len(),
        index_of(names, x) >= 0 ==> names[index_of(names, x)] == x,
        index_of(names, x) < 0 ==> forall|j: int| 0 <= j < names.len() ==> names[j] != x,
    decreases names.len(),
{
    if names.len() > 0 {
        lemma_index_of_range(names.drop_first(), x);
        if names[0] != x && index_of(names.drop_first(), x) < 0 {
            assert forall|j: int| 0 <= j < names.len() implies names[j] != x by {
                if j > 0 {
                    assert(names[j] == names.drop_first()[j - 1]);
                }
            }
        }
    }
}

/// Names pairwise distinct.
pub open spec fn distinct_names(names: Seq<Seq<char>>) -> bool {
    forall|i: int, j: int| 0 <= i < j < names.len() ==> names[i] != names[j]
}

pub proof fn lemma_index_of_distinct(names: Seq<Seq<char>>, i: int)
    requires
        0 <= i < names.len(),
        distinct_names(names),
    ensures
        index_of(names, names[i]) == i,
{
    lemma_index_of_found(names, names[i], i);
}

/// Tests two texts for equality.
pub fn text_eq(a: &str, b: &str) -> (r: bool)
    ensures
        r == (a@ == b@),
{
    compare_text(a, b) == 0
}

impl Schema {
    pub open spec fn names(&self) -> Seq<Seq<char>> {
        names_of(self.0@)
    }

    pub fn len(&self) -> (r: usize)
        ensures
            r == self.0@.len(),
    {
        self.0.len()
    }

    pub fn at(&self, index: usize) -> (r: &(String, ColumnInformation))
        requires
            index < self.0@.len(),
        ensures
            *r == self.0@[index as int],
    {
        &self.0[index]
    }

    /// The position of the first column called `name`.
    pub fn position(&self, name: &str) -> (r: Option<usize>)
        ensures
            r.is_some() == (index_of(self.names(), name@) >= 0),
            r.is_some() ==> r.unwrap() == index_of(self.names(), name@),
    {
        let mut i: usize = 0;
        while i < self.0.len()
            invariant
                i <= self.0@.len(),
                forall|j: int| 0 <= j < i ==> self.names()[j] != name@,
            decreases self.0@.len() - i,
        {
            if text_eq(self.0[i].0.as_str(), name) {
                proof {
                    lemma_index_of_found(self.names(), name@, i as int);
                }
                return Some(i);
            }
            i += 1;
        }
        proof {
            lemma_index_of_absent(self.names(), name@);
        }
        None
    }

    /// The column names, in order.
    pub fn column_names(&self) -> (r: Vec<String>)
        ensures
            views_of(r@) == self.names(),
    {
        let mut out: Vec<String> = Vec::new();
        let mut i: usize = 0;
        while i < self.0.len()
            invariant
                i <= self.0@.len(),
                out@.len() == i,
                views_of(out@) == self.names().subrange(0, i as int),
            decreases self.0@.len() - i,
        {
            let ghost before = out@;
            out.push(self.0[i].0.clone());
            i += 1;
            proof {
                assert forall|k: int| 0 <= k < i implies #[trigger] views_of(out@)[k] == self.names()[k] by {
                    if k < i - 1 {
                        assert(out@[k] == before[k]);
                        assert(views_of(before)[k] == self.names().subrange(0, i - 1)[k]);
                    }
                }
                assert(views_of(out@) =~= self.names().subrange(0, i as int));
            }
        }
        proof {
            assert(self.names().subrange(0, i as int) =~= self.names());
        }
        out
    }

    /// The foreign-key constraints, each with the position of its column.
    pub fn get_foreign_key_constraints(&self) -> (r: Vec<(usize, ForeignKeyConstraint)>)
        ensures
            forall|k: int| 0 <= k < r@.len() ==> {
                let (c, fk) = #[trigger] r@[k];
                c < self.0@.len() && self.0@[c as int].1.foreign_key == Some(fk)
            },
            forall|c: int| 0 <= c < self.0@.len() && (#[trigger] self.0@[c]).1.foreign_key.is_some()
                ==> exists|k: int| 0 <= k < r@.len() && r@[k].0 == c,
            forall|k: int, l: int| 0 <= k < l < r@.len() ==> r@[k].0 < r@[l].0,
    {
        let mut out: Vec<(usize, ForeignKeyConstraint)> = Vec::new();
        let mut i: usize = 0;
        while i < self.0.len()
            invariant
                i <= self.0@.len(),
                forall|k: int| 0 <= k < out@.len() ==> {
                    let (c, fk) = #[trigger] out@[k];
                    c < i && self.0@[c as int].1.foreign_key == Some(fk)
                },
                forall|c: int| 0 <= c < i && (#[trigger] self.0@[c]).1.foreign_key.is_some()
                    ==> exists|k: int| 0 <= k < out@.len() && out@[k].0 == c,
                forall|k: int, l: int| 0 <= k < l < out@.len() ==> out@[k].0 < out@[l].0,
            decreases self.0@.len() - i,
        {
            let ghost before = out@;
            match &self.0[i].1.foreign_key {
                Some(fk) => {
                    out.push((i, fk.copy()));
                    proof {
                        assert(out@[out@.len() - 1].0 == i);
                    }
                },
                None => {},
            }
            proof {
                assert forall|c: int| 0 <= c < i + 1 && (#[trigger] self.0@[c]).1.foreign_key.is_some()
                    implies exists|k: int| 0 <= k < out@.len() && out@[k].0 == c by {
                    if c < i {
                        let k = choose|k: int| 0 <= k < before.len() && before[k].0 == c;
                        assert(out@[k] == before[k]);
                    } else {
                        assert(out@[out@.len() - 1].0 == c);
                    }
                }
            }
            i += 1;
        }
        out
    }

    /// Records the position of the column that column `column`'s foreign key refers to.
    pub fn set_foreign_key_index(&mut self, column: usize, index: usize)
        requires
            column < old(self).0@.len(),
        ensures
            final(self).0@.len() == old(self).0@.len(),
            forall|c: int| 0 <= c < old(self).0@.len() && c != column ==> final(self).0@[c] == old(self).0@[c],
            final(self).0@[column as int].0 == old(self).0@[column as int].0,
            final(self).0@[column as int].1.datatype == old(self).0@[column as int].1.datatype,
            final(self).0@[column as int].1.max_limit == old(self).0@[column as int].1.max_limit,
            final(self).0@[column as int].1.nullable == old(self).0@[column as int].1.nullable,
            final(self).0@[column as int].1.foreign_key == match old(self).0@[column as int].1.foreign_key {
                Some(fk) => Some(ForeignKeyConstraint { column_index: Some(index), ..fk }),
                None => None,
            },
    {
        let (name, mut info) = self.0.remove(column);
        match &mut info.foreign_key {
            Some(fk) => fk.update_index(index),
            None => {},
        }
        self.0.insert(column, (name, info));
        proof {
            assert forall|c: int| 0 <= c < old(self).0@.len() && c != column implies self.0@[c] == old(self).0@[c] by {
            }
        }
    }

    /// Appends a column at the end.
    pub fn push(&mut self, name: String, info: ColumnInformation)
        ensures
            final(self).0@ == old(self).0@.push((name, info)),
    {
        self.0.push((name, info));
    }

    pub fn copy(&self) -> (r: Schema)
        ensures
            r.0@ == self.0@,
    {
        let mut out: Vec<(String, ColumnInformation)> = Vec::new();
        let mut i: usize = 0;
        while i < self.0.len()
            invariant
                i <= self.0@.len(),
                out@ == self.0@.subrange(0, i as int),
            decreases self.0@.len() - i,
        {
            out.push((self.0[i].0.clone(), self.0[i].1.copy()));
            i += 1;
            proof {
                assert(out@ =~= self.0@.subrange(0, i as int));
            }
        }
        proof {
            assert(out@ =~= self.0@);
        }
        Schema(out)
    }
}

/// The words that no column may be called.
pub open spec fn is_reserved(w: Seq<char>) -> bool {
    w == "pk"@ || w == "fk"@ || w == "num"@ || w == "txt"@
}

/// The longest text a text column takes unless told otherwise.
pub const DEFAULT_TEXT_LIMIT: usize = 50;

pub open spec fn datatype_of(w: Seq<char>) -> Option<DataType> {
    if w == "num"@ {
        Some(DataType::Number)
    } else if w == "txt"@ {
        Some(DataType::Text)
    } else {
        None
    }
}

pub open spec fn default_limit(d: DataType) -> Option<usize> {
    match d {
        DataType::Number => None,
        DataType::Text => Some(DEFAULT_TEXT_LIMIT),
    }
}

/// `t[i]` is the one dot of `t`, with text on both sides.
pub open spec fn is_reference_dot(t: Seq<char>, i: int) -> bool {
    0 < i < t.len() - 1 && t[i] == '.' && forall|j: int| 0 <= j < t.len() && j != i ==> t[j] != '.'
}

pub open spec fn is_reference(t: Seq<char>) -> bool {
    exists|i: int| is_reference_dot(t, i)
}

pub open spec fn reference_dot(t: Seq<char>) -> int {
    choose|i: int| is_reference_dot(t, i)
}

/// The column definition given by the words `w` is well formed.
pub open spec fn definition_ok(w: Seq<Seq<char>>) -> bool {
    &&& 2 <= w.len() <= 4
    &&& !is_reserved(w[0])
    &&& datatype_of(w[1]).is_some()
    &&& w.len() == 3 ==> w[2] == "pk"@
    &&& w.len() == 4 ==> w[2] == "fk"@ && is_reference(w[3])
}

/// The error for a column type that is neither `num` nor `txt`.
pub open spec fn datatype_error(w: Seq<char>) -> Seq<char> {
    "invalid datatype "@ + w + ": not supported"@
}

/// The definition's only fault is its type.
pub open spec fn only_type_refused(w: Seq<Seq<char>>) -> bool {
    2 <= w.len() <= 4 && !is_reserved(w[0]) && datatype_of(w[1]).is_none()
}

/// One parsed column definition.
#[derive(Debug)]
pub struct ColumnDefinition {
    pub name: String,
    pub info: ColumnInformation,
    pub primary: bool,
}

/// The column that the definition given by the words `w` declares.
pub open spec fn column_matches(w: Seq<Seq<char>>, name: String, info: ColumnInformation) -> bool {
    &&& name@ == w[0]
    &&& Some(info.datatype) == datatype_of(w[1])
    &&& info.max_limit == default_limit(info.datatype)
    &&& !info.nullable
    &&& match info.foreign_key {
        None => w.len() != 4,
        Some(fk) => w.len() == 4
            && fk.table_name@ == w[3].subrange(0, reference_dot(w[3]))
            && fk.column_name@ == w[3].subrange(reference_dot(w[3]) + 1, w[3].len() as int)
            && fk.column_index.is_none(),
    }
}

/// What the definition given by the words `w` declares.
pub open spec fn definition_matches(w: Seq<Seq<char>>, d: ColumnDefinition) -> bool {
    column_matches(w, d.name, d.info) && d.primary == (w.len() == 3)
}

fn split_reference(t: &str) -> (r: Option<(String, String)>)
    ensures
        r.is_some() == is_reference(t@),
        r.is_some() ==> r.unwrap().0@ == t@.subrange(0, reference_dot(t@)) && r.unwrap().1@
            == t@.subrange(reference_dot(t@) + 1, t@.len() as int),
{
    let n = t.unicode_len();
    let mut dot: Option<usize> = None;
    let mut i: usize = 0;
    while i < n
        invariant
            n == t@.len(),
            i <= n,
            match dot {
                None => forall|j: int| 0 <= j < i ==> t@[j] != '.',
                Some(d) => d < i && t@[d as int] == '.' && forall|j: int|
                    0 <= j < i && j != d ==> t@[j] != '.',
            },
        decreases n - i,
    {
        if t.get_char(i) == '.' {
            match dot {
                Some(d) => {
                    proof {
                        assert forall|k: int| !is_reference_dot(t@, k) by {
                            if is_reference_dot(t@, k) {
                                assert(t@[d as int] == '.' && t@[i as int] == '.');
                            }
                        }
                    }
                    return None;
                },
                None => {
                    dot = Some(i);
                },
            }
        }
        i += 1;
    }
    match dot {
        None => {
            proof {
                assert forall|k: int| !is_reference_dot(t@, k) by {
                    if is_reference_dot(t@, k) {
                        assert(t@[k] == '.');
                    }
                }
            }
            None
        },
        Some(d) => {
            if d == 0 || d + 1 >= n {
                proof {
                    assert forall|k: int| !is_reference_dot(t@, k) by {
                        if is_reference_dot(t@, k) {
                            assert(t@[k] == '.');
                        }
                    }
                }
                None
            } else {
                proof {
                    assert(is_reference_dot(t@, d as int));
                    let k = reference_dot(t@);
                    assert(is_reference_dot(t@, k));
                    assert(k == d);
                }
                let table = String::from_str(t.substring_char(0, d));
                let column = String::from_str(t.substring_char(d + 1, n));
                Some((table, column))
            }
        },
    }
}

/// Parses one column definition `name type [key] [ref]`, where the type is
/// `num` or `txt`, the key `pk` or `fk`, and the reference of a foreign key
/// reads `table.column`.
pub fn parse_column_definition(definition: &str) -> (r: Result<ColumnDefinition, String>)
    ensures
        r.is_ok() == definition_ok(words(definition@)),
        r.is_ok() ==> definition_matches(words(definition@), r.unwrap()),
        only_type_refused(words(definition@)) ==> (r matches Err(e) && e@ == datatype_error(words(definition@)[1])),
{
    let w = split_words(definition);
    let ghost ws = words(definition@);
    proof {
        assert(w@.len() == ws.len());
        assert forall|k: int| 0 <= k < w@.len() implies w@[k]@ == ws[k] by {
            assert(views_of(w@)[k] == w@[k]@);
        }
    }
    if w.len() < 2 || w.len() > 4 {
        return Err(String::from_str("invalid column definition: expected name, type and an optional key"));
    }
    let name = w[0].as_str();
    if text_eq(name, "pk") || text_eq(name, "fk") || text_eq(name, "num") || text_eq(name, "txt") {
        return Err(String::from_str("invalid column definition: a keyword cannot name a column"));
    }
    let datatype = if text_eq(w[1].as_str(), "num") {
        DataType::Number
    } else if text_eq(w[1].as_str(), "txt") {
        DataType::Text
    } else {
        let mut m = String::from_str("invalid datatype ");
        m.append(w[1].as_str());
        m.append(": not supported");
        return Err(m);
    };
    let max_limit = match datatype {
        DataType::Number => None,
        DataType::Text => Some(DEFAULT_TEXT_LIMIT),
    };
    let mut primary = false;
    let mut foreign_key: Option<ForeignKeyConstraint> = None;
    if w.len() == 3 {
        if !text_eq(w[2].as_str(), "pk") {
            return Err(String::from_str("invalid column definition: only pk stands without a reference"));
        }
        primary = true;
    } else if w.len() == 4 {
        if !text_eq(w[2].as_str(), "fk") {
            return Err(String::from_str("invalid column definition: only fk takes a reference"));
        }
        match split_reference(w[3].as_str()) {
            Some((table, column)) => {
                foreign_key = Some(ForeignKeyConstraint::new(table, column));
            },
            None => {
                return Err(String::from_str("invalid foreign key reference: expected table.column"));
            },
        }
    }
    let info = ColumnInformation { datatype, max_limit, nullable: false, foreign_key };
    Ok(ColumnDefinition { name: w[0].clone(), info, primary })
}

} // verus!
