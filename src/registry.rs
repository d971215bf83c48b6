//! The registry: databases by name, in order of creation.
use vstd::prelude::*;
use crate::database::{database_ok, Database, DatabaseView};
use crate::schema::{distinct_names, index_of, lemma_index_of_absent, lemma_index_of_found, lemma_index_of_range, text_eq};
use crate::text::views_of;

verus! {

/// An insertion-ordered catalog of databases; names are unique.
pub struct DatabaseRegistry {
    pub(crate) databases: Vec<Database>,
}

pub open spec fn database_names(dbs: Seq<DatabaseView>) -> Seq<Seq<char>> {
    dbs.map_values(|d: DatabaseView| d.name)
}

/// The position of the database called `name`, or `-1`.
pub open spec fn database_index(dbs: Seq<DatabaseView>, name: Seq<char>) -> int {
    index_of(database_names(dbs), name)
}

impl View for DatabaseRegistry {
    type V = Seq<DatabaseView>;

    closed spec fn view(&self) -> Seq<DatabaseView> {
        self.databases@.map_values(|d: Database| d@)
    }
}

impl DatabaseRegistry {
    /// Every database is well formed and no two share a name.
    pub closed spec fn wf(&self) -> bool {
        &&& forall|i: int| 0 <= i < self.databases@.len() ==> (#[trigger] self.databases@[i]).wf()
        &&& distinct_names(database_names(self@))
    }

    /// A well-formed registry holds well-formed databases with distinct names.
    pub proof fn lemma_wf(&self)
        requires
            self.wf(),
        ensures
            forall|i: int| 0 <= i < self@.len() ==> database_ok(#[trigger] self@[i]),
            distinct_names(database_names(self@)),
    {
        assert forall|i: int| 0 <= i < self@.len() implies database_ok(#[trigger] self@[i]) by {
            self.databases@[i].lemma_wf();
        }
    }

    pub fn new() -> (r: DatabaseRegistry)
        ensures
            r.wf(),
            r@ == Seq::<DatabaseView>::empty(),
    {
        let r = DatabaseRegistry { databases: Vec::new() };
        proof {
            assert(r@ =~= Seq::<DatabaseView>::empty());
        }
        r
    }

    fn find(&self, name: &str) -> (r: Option<usize>)
        ensures
            r.is_some() == (database_index(self@, name@) >= 0),
            r.is_some() ==> r.unwrap() == database_index(self@, name@) && r.unwrap() < self.databases@.len(),
    {
        let ghost names = database_names(self@);
        let mut i: usize = 0;
        while i < self.databases.len()
            invariant
                names == database_names(self@),
                i <= self.databases@.len(),
                forall|j: int| 0 <= j < i ==> names[j] != name@,
            decreases self.databases@.len() - i,
        {
            let n = self.databases[i].name();
            proof {
                assert(names[i as int] == self.databases@[i as int]@.name);
            }
            if text_eq(n.as_str(), name) {
                proof {
                    lemma_index_of_found(names, name@, i as int);
                }
                return Some(i);
            }
            i += 1;
        }
        proof {
            lemma_index_of_absent(names, name@);
        }
        None
    }

    pub fn contains_database(&self, name: &str) -> (r: bool)
        ensures
            r == (database_index(self@, name@) >= 0),
    {
        self.find(name).is_some()
    }

    /// Creates an empty database `name`. When one exists already, this is an
    /// error unless `if_not_exists` is set, and then nothing changes.
    pub fn create_database(&mut self, name: &str, if_not_exists: bool) -> (r: Result<(), String>)
        requires
            old(self).wf(),
        ensures
            final(self).wf(),
            database_index(old(self)@, name@) >= 0 ==> final(self)@ == old(self)@ && r.is_ok() == if_not_exists,
            database_index(old(self)@, name@) < 0 ==> r.is_ok() && final(self)@.len() == old(self)@.len() + 1
                && final(self)@.drop_last() == old(self)@ && final(self)@.last().name == name@
                && final(self)@.last().tables.len() == 0,
    {
        if self.contains_database(name) {
            if if_not_exists {
                return Ok(());
            } else {
                return Err(String::from_str("database exists: a database already has this name"));
            }
        }
        let db = Database::new(String::from_str(name));
        let ghost before = self.databases@;
        self.databases.push(db);
        proof {
            assert(self@ =~= old(self)@.push(db@));
            assert(self@.drop_last() =~= old(self)@);
            assert(database_names(self@) =~= database_names(old(self)@).push(name@));
            lemma_index_of_range(database_names(old(self)@), name@);
            assert forall|i: int| 0 <= i < self.databases@.len() implies (#[trigger] self.databases@[i]).wf() by {
                if i < before.len() {
                    assert(self.databases@[i] == before[i]);
                }
            }
        }
        Ok(())
    }

    /// The database called `name`.
    pub fn get_database(&self, name: &str) -> (r: Result<&Database, String>)
        requires
            self.wf(),
        ensures
            r.is_ok() == (database_index(self@, name@) >= 0),
            r.is_ok() ==> r.unwrap()@ == self@[database_index(self@, name@)] && r.unwrap().wf(),
    {
        match self.find(name) {
            Some(i) => Ok(&self.databases[i]),
            None => Err(String::from_str("unknown database: no database has this name")),
        }
    }

    /// The database names, in order of creation.
    pub fn get_database_names(&self) -> (r: Vec<String>)
        ensures
            views_of(r@) == database_names(self@),
    {
        let mut out: Vec<String> = Vec::new();
        let mut i: usize = 0;
        while i < self.databases.len()
            invariant
                i <= self.databases@.len(),
                out@.len() == i,
                forall|k: int| 0 <= k < i ==> (#[trigger] out@[k])@ == self.databases@[k]@.name,
            decreases self.databases@.len() - i,
        {
            out.push(self.databases[i].name());
            i += 1;
        }
        proof {
            assert(views_of(out@) =~= database_names(self@));
        }
        out
    }

    /// Removes the database called `name`, returning it.
    pub fn drop_database(&mut self, name: &str) -> (r: Option<Database>)
        requires
            old(self).wf(),
        ensures
            final(self).wf(),
            database_index(old(self)@, name@) < 0 ==> r.is_none() && final(self)@ == old(self)@,
            database_index(old(self)@, name@) >= 0 ==> r.is_some() && r.unwrap()@ == old(self)@[database_index(old(self)@, name@)]
                && final(self)@ == old(self)@.remove(database_index(old(self)@, name@)),
    {
        match self.find(name) {
            Some(i) => {
                let ghost before = self.databases@;
                let db = self.databases.remove(i);
                proof {
                    assert(self@ =~= old(self)@.remove(i as int));
                    assert forall|a: int, b: int| 0 <= a < b < self@.len() implies database_names(self@)[a] != database_names(self@)[b] by {
                        let oa = if a < i { a } else { a + 1 };
                        let ob = if b < i { b } else { b + 1 };
                        assert(self@[a] == old(self)@[oa]);
                        assert(self@[b] == old(self)@[ob]);
                        assert(database_names(old(self)@)[oa] != database_names(old(self)@)[ob]);
                    }
                    assert forall|k: int| 0 <= k < self.databases@.len() implies (#[trigger] self.databases@[k]).wf() by {
                        let ok = if k < i { k } else { k + 1 };
                        assert(self.databases@[k] == before[ok]);
                    }
                }
                Some(db)
            },
            None => None,
        }
    }

    /// Takes database `i` out; `put_back` returns it.
    pub(crate) fn take(&mut self, i: usize) -> (r: Database)
        requires
            old(self).wf(),
            i < old(self)@.len(),
        ensures
            r@ == old(self)@[i as int],
            r.wf(),
            final(self).databases@ == old(self).databases@.remove(i as int),
    {
        self.databases.remove(i)
    }

    pub(crate) fn put_back(&mut self, i: usize, db: Database)
        requires
            i <= old(self).databases@.len(),
        ensures
            final(self).databases@ == old(self).databases@.insert(i as int, db),
    {
        self.databases.insert(i, db);
    }

    pub(crate) proof fn lemma_len(&self)
        ensures
            self@.len() == self.databases@.len(),
    {
    }

    pub(crate) fn position(&self, name: &str) -> (r: Option<usize>)
        ensures
            r.is_some() == (database_index(self@, name@) >= 0),
            r.is_some() ==> r.unwrap() == database_index(self@, name@) && r.unwrap() < self@.len(),
    {
        self.find(name)
    }

    /// Replacing a database by one of the same name keeps the registry well formed.
    pub(crate) proof fn lemma_put_back(old_reg: DatabaseRegistry, taken: DatabaseRegistry, new_reg: DatabaseRegistry, i: usize, db: Database)
        requires
            old_reg.wf(),
            i < old_reg@.len(),
            taken.databases@ == old_reg.databases@.remove(i as int),
            new_reg.databases@ == taken.databases@.insert(i as int, db),
            db.wf(),
            db@.name == old_reg@[i as int].name,
        ensures
            new_reg.wf(),
            new_reg@ == old_reg@.update(i as int, db@),
    {
        assert(new_reg.databases@ =~= old_reg.databases@.update(i as int, db));
        assert(new_reg@ =~= old_reg@.update(i as int, db@));
        assert(database_names(new_reg@) =~= database_names(old_reg@));
        assert forall|k: int| 0 <= k < new_reg.databases@.len() implies (#[trigger] new_reg.databases@[k]).wf() by {
            if k != i {
                assert(new_reg.databases@[k] == old_reg.databases@[k]);
            }
        }
    }
}

} // verus!
