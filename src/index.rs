//! The primary-key index: a mapping from a primary-key string to the position
//! of its row in a table's rows.
use vstd::prelude::*;
use crate::schema::text_eq;

verus! {

/// A mapping from primary-key strings to row positions.
pub struct Index {
    entries: Vec<(String, usize)>,
    map: Ghost<Map<Seq<char>, usize>>,
}

/// The mapping that shift-down leaves: every position above `start` moves down by one.
pub open spec fn shifted_down(m: Map<Seq<char>, usize>, start: usize) -> Map<Seq<char>, usize> {
    Map::new(
        |k: Seq<char>| m.contains_key(k),
        |k: Seq<char>| if m[k] > start { (m[k] - 1) as usize } else { m[k] },
    )
}

impl View for Index {
    type V = Map<Seq<char>, usize>;

    closed spec fn view(&self) -> Map<Seq<char>, usize> {
        self.map@
    }
}

impl Index {
    /// The entries and the mapping agree, and no key is stored twice.
    pub closed spec fn wf(&self) -> bool {
        &&& forall|i: int|
            0 <= i < self.entries@.len() ==> self.map@.contains_key(#[trigger] self.entries@[i].0@)
                && self.map@[self.entries@[i].0@] == self.entries@[i].1
        &&& forall|k: Seq<char>|
            #[trigger] self.map@.contains_key(k) ==> exists|i: int|
                0 <= i < self.entries@.len() && self.entries@[i].0@ == k
        &&& forall|i: int, j: int|
            0 <= i < j < self.entries@.len() ==> self.entries@[i].0@ != self.entries@[j].0@
    }

    pub fn new() -> (r: Index)
        ensures
            r.wf(),
            r@ == Map::<Seq<char>, usize>::empty(),
    {
        Index { entries: Vec::new(), map: Ghost(Map::empty()) }
    }

    fn find(&self, key: &str) -> (r: Option<usize>)
        requires
            self.wf(),
        ensures
            r.is_some() == self@.contains_key(key@),
            r.is_some() ==> r.unwrap() < self.entries@.len() && self.entries@[r.unwrap() as int].0@
                == key@,
    {
        let mut i: usize = 0;
        while i < self.entries.len()
            invariant
                self.wf(),
                i <= self.entries@.len(),
                forall|j: int| 0 <= j < i ==> self.entries@[j].0@ != key@,
            decreases self.entries@.len() - i,
        {
            if text_eq(self.entries[i].0.as_str(), key) {
                proof {
                    assert(self.map@.contains_key(self.entries@[i as int].0@));
                }
                return Some(i);
            }
            i += 1;
        }
        None
    }

    /// Records `key → index`, replacing what `key` mapped to before.
    pub fn insert(&mut self, key: String, index: usize)
        requires
            old(self).wf(),
        ensures
            final(self).wf(),
            final(self)@ == old(self)@.insert(key@, index),
    {
        let ghost k = key@;
        match self.find(key.as_str()) {
            Some(i) => {
                self.entries.set(i, (key, index));
                self.map = Ghost(self.map@.insert(k, index));
                proof {
                    assert forall|j: int| 0 <= j < self.entries@.len() implies self.map@.contains_key(
                        #[trigger] self.entries@[j].0@) && self.map@[self.entries@[j].0@] == self.entries@[j].1 by {
                        if j != i {
                            assert(old(self).entries@[j].0@ != k);
                        }
                    }
                    assert forall|kk: Seq<char>| #[trigger] self.map@.contains_key(kk) implies exists|j: int|
                        0 <= j < self.entries@.len() && self.entries@[j].0@ == kk by {
                        if kk != k {
                            let j = choose|j: int| 0 <= j < old(self).entries@.len() && old(self).entries@[j].0@ == kk;
                            assert(self.entries@[j].0@ == kk);
                        } else {
                            assert(self.entries@[i as int].0@ == kk);
                        }
                    }
                }
            },
            None => {
                self.entries.push((key, index));
                self.map = Ghost(self.map@.insert(k, index));
                proof {
                    let n = self.entries@.len() - 1;
                    assert forall|j: int| 0 <= j < self.entries@.len() implies self.map@.contains_key(
                        #[trigger] self.entries@[j].0@) && self.map@[self.entries@[j].0@] == self.entries@[j].1 by {
                        if j != n {
                            assert(old(self).entries@[j] == self.entries@[j]);
                            assert(old(self).map@.contains_key(old(self).entries@[j].0@));
                        }
                    }
                    assert forall|kk: Seq<char>| #[trigger] self.map@.contains_key(kk) implies exists|j: int|
                        0 <= j < self.entries@.len() && self.entries@[j].0@ == kk by {
                        if kk != k {
                            let j = choose|j: int| 0 <= j < old(self).entries@.len() && old(self).entries@[j].0@ == kk;
                            assert(self.entries@[j].0@ == kk);
                        } else {
                            assert(self.entries@[n].0@ == kk);
                        }
                    }
                    assert forall|a: int, b: int| 0 <= a < b < self.entries@.len() implies self.entries@[a].0@
                        != self.entries@[b].0@ by {
                        if b == n {
                            assert(old(self).map@.contains_key(old(self).entries@[a].0@));
                        }
                    }
                }
            },
        }
    }

    /// The position recorded for `key`.
    pub fn get(&self, key: &str) -> (r: Option<usize>)
        requires
            self.wf(),
        ensures
            r == (if self@.contains_key(key@) { Some(self@[key@]) } else { None::<usize> }),
    {
        match self.find(key) {
            Some(i) => Some(self.entries[i].1),
            None => None,
        }
    }

    /// Forgets `key`, returning the position it mapped to.
    pub fn remove(&mut self, key: &str) -> (r: Option<usize>)
        requires
            old(self).wf(),
        ensures
            final(self).wf(),
            final(self)@ == old(self)@.remove(key@),
            r == (if old(self)@.contains_key(key@) { Some(old(self)@[key@]) } else { None::<usize> }),
    {
        match self.find(key) {
            Some(i) => {
                let (_, pos) = self.entries.remove(i);
                self.map = Ghost(self.map@.remove(key@));
                proof {
                    let old_e = old(self).entries@;
                    assert forall|j: int| 0 <= j < self.entries@.len() implies self.map@.contains_key(
                        #[trigger] self.entries@[j].0@) && self.map@[self.entries@[j].0@] == self.entries@[j].1 by {
                        let oj = if j < i { j } else { j + 1 };
                        assert(self.entries@[j] == old_e[oj]);
                        assert(old(self).map@.contains_key(old_e[oj].0@));
                        assert(old_e[oj].0@ != key@);
                    }
                    assert forall|kk: Seq<char>| #[trigger] self.map@.contains_key(kk) implies exists|j: int|
                        0 <= j < self.entries@.len() && self.entries@[j].0@ == kk by {
                        let j = choose|j: int| 0 <= j < old_e.len() && old_e[j].0@ == kk;
                        assert(j != i);
                        if j < i {
                            assert(self.entries@[j].0@ == kk);
                        } else {
                            assert(self.entries@[j - 1].0@ == kk);
                        }
                    }
                    assert forall|a: int, b: int| 0 <= a < b < self.entries@.len() implies self.entries@[a].0@
                        != self.entries@[b].0@ by {
                        let oa = if a < i { a } else { a + 1 };
                        let ob = if b < i { b } else { b + 1 };
                        assert(self.entries@[a] == old_e[oa]);
                        assert(self.entries@[b] == old_e[ob]);
                    }
                }
                Some(pos)
            },
            None => {
                proof {
                    assert(self.map@.remove(key@) =~= self.map@);
                }
                None
            },
        }
    }

    /// Closes the gap a removed row leaves: every position above `start`
    /// moves down by one.
    pub fn shift_index_back(&mut self, start_index: usize)
        requires
            old(self).wf(),
        ensures
            final(self).wf(),
            final(self)@ == shifted_down(old(self)@, start_index),
    {
        let ghost target = shifted_down(self.map@, start_index);
        let ghost old_e = self.entries@;
        let mut i: usize = 0;
        while i < self.entries.len()
            invariant
                self.entries@.len() == old_e.len(),
                i <= old_e.len(),
                forall|j: int| 0 <= j < old_e.len() ==> (#[trigger] self.entries@[j]).0 == old_e[j].0,
                forall|j: int|
                    0 <= j < i ==> (#[trigger] self.entries@[j]).1 == (if old_e[j].1 > start_index {
                        (old_e[j].1 - 1) as usize
                    } else {
                        old_e[j].1
                    }),
                forall|j: int| i <= j < old_e.len() ==> (#[trigger] self.entries@[j]).1 == old_e[j].1,
            decreases old_e.len() - i,
        {
            let (key, pos) = self.entries.remove(i);
            let new_pos = if pos > start_index { pos - 1 } else { pos };
            self.entries.insert(i, (key, new_pos));
            i += 1;
        }
        self.map = Ghost(target);
        proof {
            assert forall|j: int| 0 <= j < self.entries@.len() implies self.map@.contains_key(
                #[trigger] self.entries@[j].0@) && self.map@[self.entries@[j].0@] == self.entries@[j].1 by {
                assert(old(self).map@.contains_key(old_e[j].0@));
            }
            assert forall|kk: Seq<char>| #[trigger] self.map@.contains_key(kk) implies exists|j: int|
                0 <= j < self.entries@.len() && self.entries@[j].0@ == kk by {
                let j = choose|j: int| 0 <= j < old_e.len() && old_e[j].0@ == kk;
                assert(self.entries@[j].0@ == kk);
            }
            assert forall|a: int, b: int| 0 <= a < b < self.entries@.len() implies self.entries@[a].0@
                != self.entries@[b].0@ by {
                assert(self.entries@[a].0 == old_e[a].0);
                assert(self.entries@[b].0 == old_e[b].0);
            }
        }
    }

    /// Forgets every key.
    pub fn clear(&mut self)
        ensures
            final(self).wf(),
            final(self)@ == Map::<Seq<char>, usize>::empty(),
    {
        self.entries = Vec::new();
        self.map = Ghost(Map::empty());
    }
}

} // verus!
