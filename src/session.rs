//! The session: the active database, the registry, and the history of
//! commands.
use vstd::prelude::*;
use crate::database::{database_ok, Database, DatabaseView};
use crate::registry::{database_index, database_names, DatabaseRegistry};
use crate::text::views_of;

verus! {

/// One command of the history, with the time it was given (seconds since
/// the Unix epoch, as the caller's clock told).
pub struct CommandHistory {
    pub command: String,
    pub command_time: u64,
}

/// What a session holds, as mathematical values.
pub struct SessionView {
    pub history: Seq<(Seq<char>, u64)>,
    pub start_time: u64,
    pub active: Option<Seq<char>>,
    pub databases: Seq<DatabaseView>,
}

/// A client session over a registry of databases.
pub struct Session {
    pub(crate) command_history: Vec<CommandHistory>,
    pub(crate) start_time: u64,
    pub(crate) active_database: Option<String>,
    pub(crate) registry: DatabaseRegistry,
}

pub open spec fn history_view(h: Seq<CommandHistory>) -> Seq<(Seq<char>, u64)> {
    h.map_values(|c: CommandHistory| (c.command@, c.command_time))
}

/// The `n` most recent commands of `h`, most recent first (all of them when
/// `n` is `None` or larger).
pub open spec fn recent_spec(h: Seq<(Seq<char>, u64)>, n: Option<usize>) -> Seq<(Seq<char>, u64)> {
    let k = match n {
        Some(n) => if n < h.len() { n as int } else { h.len() as int },
        None => h.len() as int,
    };
    Seq::new(k as nat, |i: int| h[h.len() - 1 - i])
}

impl View for Session {
    type V = SessionView;

    closed spec fn view(&self) -> SessionView {
        SessionView {
            history: history_view(self.command_history@),
            start_time: self.start_time,
            active: match self.active_database {
                Some(n) => Some(n@),
                None => None,
            },
            databases: self.registry@,
        }
    }
}

impl Session {
    pub closed spec fn wf(&self) -> bool {
        self.registry.wf()
    }

    /// A well-formed session holds well-formed databases with distinct names.
    pub proof fn lemma_wf(&self)
        requires
            self.wf(),
        ensures
            forall|i: int| 0 <= i < self@.databases.len() ==> database_ok(#[trigger] self@.databases[i]),
            crate::schema::distinct_names(database_names(self@.databases)),
    {
        self.registry.lemma_wf();
    }

    /// A client session over `registry`, started at `start_time`.
    pub fn client(registry: DatabaseRegistry, start_time: u64) -> (r: Session)
        requires
            registry.wf(),
        ensures
            r.wf(),
            r@.history.len() == 0,
            r@.start_time == start_time,
            r@.active.is_none(),
            r@.databases == registry@,
    {
        let r = Session { command_history: Vec::new(), start_time, active_database: None, registry };
        proof {
            assert(r@.history =~= Seq::<(Seq<char>, u64)>::empty());
        }
        r
    }

    pub fn start_time(&self) -> (r: u64)
        ensures
            r == self@.start_time,
    {
        self.start_time
    }

    /// Makes the database called `db_name` the active one.
    pub fn use_database(&mut self, db_name: &str) -> (r: Result<(), String>)
        requires
            old(self).wf(),
        ensures
            final(self).wf(),
            r.is_ok() == (database_index(old(self)@.databases, db_name@) >= 0),
            r.is_ok() ==> final(self)@ == (SessionView { active: Some(db_name@), ..old(self)@ }),
            r.is_err() ==> final(self)@ == old(self)@,
    {
        if self.registry.contains_database(db_name) {
            self.active_database = Some(String::from_str(db_name));
            Ok(())
        } else {
            Err(String::from_str("unknown database: no database has this name"))
        }
    }

    /// The active database, if one was chosen and still exists.
    pub fn get_active_database(&self) -> (r: Option<&Database>)
        requires
            self.wf(),
        ensures
            r.is_some() == (self@.active.is_some() && database_index(self@.databases, self@.active.unwrap()) >= 0),
            r.is_some() ==> r.unwrap()@ == self@.databases[database_index(self@.databases, self@.active.unwrap())] && r.unwrap().wf(),
    {
        match &self.active_database {
            Some(name) => match self.registry.get_database(name.as_str()) {
                Ok(db) => Some(db),
                Err(_) => None,
            },
            None => None,
        }
    }

    /// Records a command given at `time`.
    pub fn add_to_command_history(&mut self, command: &str, time: u64)
        ensures
            final(self)@ == (SessionView { history: old(self)@.history.push((command@, time)), ..old(self)@ }),
            final(self).wf() == old(self).wf(),
    {
        self.command_history.push(CommandHistory { command: String::from_str(command), command_time: time });
        proof {
            assert(self@.history =~= old(self)@.history.push((command@, time)));
        }
    }

    /// The `nth_back`-th most recent command (1 is the last one).
    pub fn get_last_command(&self, nth_back: usize) -> (r: Option<String>)
        ensures
            r.is_some() == (1 <= nth_back <= self@.history.len()),
            r.is_some() ==> r.unwrap()@ == self@.history[self@.history.len() - nth_back].0,
    {
        let n = self.command_history.len();
        if nth_back == 0 || nth_back > n {
            return None;
        }
        Some(self.command_history[n - nth_back].command.clone())
    }

    /// The `n_prev` most recent commands, most recent first; all of them
    /// when `n_prev` is `None`.
    pub fn recent_commands(&self, n_prev: Option<usize>) -> (r: Vec<(String, u64)>)
        ensures
            r@.map_values(|c: (String, u64)| (c.0@, c.1)) == recent_spec(self@.history, n_prev),
    {
        let n = self.command_history.len();
        let k = match n_prev {
            Some(m) => if m < n { m } else { n },
            None => n,
        };
        let ghost h = self@.history;
        let mut out: Vec<(String, u64)> = Vec::new();
        let mut i: usize = 0;
        while i < k
            invariant
                h == self@.history,
                n == h.len(),
                k <= n,
                i <= k,
                out@.len() == i,
                forall|j: int| 0 <= j < i ==> ((#[trigger] out@[j]).0@, out@[j].1) == h[n - 1 - j],
            decreases k - i,
        {
            let c = &self.command_history[n - 1 - i];
            out.push((c.command.clone(), c.command_time));
            i += 1;
        }
        proof {
            assert(out@.map_values(|c: (String, u64)| (c.0@, c.1)) =~= recent_spec(h, n_prev));
        }
        out
    }

    /// Creates an empty database `db_name` (unless it exists and
    /// `if_not_exists` is set) and returns a handle to it.
    pub fn create_database(&mut self, db_name: &str, if_not_exists: bool) -> (r: Result<&Database, String>)
        requires
            old(self).wf(),
        ensures
            final(self).wf(),
            final(self)@.history == old(self)@.history,
            final(self)@.active == old(self)@.active,
            final(self)@.start_time == old(self)@.start_time,
            database_index(old(self)@.databases, db_name@) >= 0 ==> final(self)@.databases == old(self)@.databases
                && r.is_ok() == if_not_exists,
            database_index(old(self)@.databases, db_name@) < 0 ==> r.is_ok() && final(self)@.databases.len()
                == old(self)@.databases.len() + 1 && final(self)@.databases.drop_last() == old(self)@.databases
                && final(self)@.databases.last().name == db_name@ && final(self)@.databases.last().tables.len() == 0,
            r.is_ok() ==> database_index(final(self)@.databases, db_name@) >= 0
                && r.unwrap()@ == final(self)@.databases[database_index(final(self)@.databases, db_name@)] && r.unwrap().wf(),
    {
        self.registry.create_database(db_name, if_not_exists)?;
        proof {
            crate::schema::lemma_index_of_range(database_names(self@.databases), db_name@);
            if database_index(old(self)@.databases, db_name@) < 0 {
                self.registry.lemma_wf();
                assert(database_names(self@.databases)[self@.databases.len() - 1] == db_name@);
            }
        }
        self.registry.get_database(db_name)
    }

    /// The names of the databases, in order of creation.
    pub fn get_available_databases(&self) -> (r: Vec<String>)
        ensures
            views_of(r@) == database_names(self@.databases),
    {
        self.registry.get_database_names()
    }

    /// Removes the database called `db_name`, returning it.
    pub fn drop_database(&mut self, db_name: &str) -> (r: Option<Database>)
        requires
            old(self).wf(),
        ensures
            final(self).wf(),
            final(self)@.history == old(self)@.history,
            final(self)@.active == old(self)@.active,
            final(self)@.start_time == old(self)@.start_time,
            database_index(old(self)@.databases, db_name@) < 0 ==> r.is_none() && final(self)@.databases == old(self)@.databases,
            database_index(old(self)@.databases, db_name@) >= 0 ==> r.is_some()
                && r.unwrap()@ == old(self)@.databases[database_index(old(self)@.databases, db_name@)]
                && final(self)@.databases == old(self)@.databases.remove(database_index(old(self)@.databases, db_name@)),
    {
        self.registry.drop_database(db_name)
    }

    /// The position of the active database in the registry.
    pub(crate) fn active_position(&self) -> (r: Option<usize>)
        ensures
            r.is_some() == (self@.active.is_some() && database_index(self@.databases, self@.active.unwrap()) >= 0),
            r.is_some() ==> r.unwrap() == database_index(self@.databases, self@.active.unwrap()) && r.unwrap() < self@.databases.len(),
    {
        match &self.active_database {
            Some(name) => self.registry.position(name.as_str()),
            None => None,
        }
    }

    /// This session is `from` with database `i` taken out.
    pub(crate) closed spec fn is_taken(&self, from: Session, i: usize) -> bool {
        &&& self.registry.databases@ == from.registry.databases@.remove(i as int)
        &&& self.command_history@ == from.command_history@
        &&& self.start_time == from.start_time
        &&& self.active_database == from.active_database
    }

    pub(crate) fn take_database(&mut self, i: usize) -> (r: Database)
        requires
            old(self).wf(),
            i < old(self)@.databases.len(),
        ensures
            r@ == old(self)@.databases[i as int],
            r.wf(),
            final(self).is_taken(*old(self), i),
    {
        self.registry.take(i)
    }

    pub(crate) fn put_database(&mut self, Ghost(from): Ghost<Session>, i: usize, db: Database)
        requires
            from.wf(),
            i < from@.databases.len(),
            old(self).is_taken(from, i),
            db.wf(),
            db@.name == from@.databases[i as int].name,
        ensures
            final(self).wf(),
            final(self)@ == (SessionView { databases: from@.databases.update(i as int, db@), ..from@ }),
    {
        let ghost taken = self.registry;
        proof {
            from.registry.lemma_len();
        }
        self.registry.put_back(i, db);
        proof {
            DatabaseRegistry::lemma_put_back(from.registry, taken, self.registry, i, db);
            assert(history_view(self.command_history@) == history_view(from.command_history@));
        }
    }
}

} // verus!
