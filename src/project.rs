//! A project: the commands defined directly at one directory.
use vstd::prelude::*;
use crate::assoc::{assoc, find_key, has_key, lemma_assoc_at, lemma_assoc_dom, lemma_assoc_remove,
    lemma_assoc_update, lemma_push_unique, unique_keys};

verus! {

/// Maps each command name to the command line it stands for.
pub struct Project {
    entries: Vec<(String, String)>,
}

impl View for Project {
    type V = Map<Seq<char>, Seq<char>>;

    closed spec fn view(&self) -> Map<Seq<char>, Seq<char>> {
        assoc(self.entries@)
    }
}

impl DeepView for Project {
    type V = Map<Seq<char>, Seq<char>>;

    open spec fn deep_view(&self) -> Map<Seq<char>, Seq<char>> {
        self@
    }
}

impl Project {
    /// Names are pairwise distinct.
    pub closed spec fn wf(&self) -> bool {
        unique_keys(self.entries@)
    }

    pub fn new() -> (r: Project)
        ensures
            r.wf(),
            r@ == Map::<Seq<char>, Seq<char>>::empty(),
    {
        Project { entries: Vec::new() }
    }

    /// The project that `commands` lists; a later entry wins over an earlier
    /// one with the same name.
    pub fn from_commands(commands: &Vec<(String, String)>) -> (r: Project)
        ensures
            r.wf(),
            r@ == assoc(commands@),
    {
        let mut r = Project::new();
        let mut j: usize = 0;
        while j < commands.len()
            invariant
                j <= commands@.len(),
                r.wf(),
                r@ == assoc(commands@.take(j as int)),
            decreases commands@.len() - j,
        {
            proof {
                lemma_take_step(commands@, j as int);
            }
            r.insert(commands[j].0.clone(), commands[j].1.clone());
            j = j + 1;
        }
        proof {
            assert(commands@.take(j as int) =~= commands@);
        }
        r
    }

    /// The bindings, one entry per name.
    pub fn commands(&self) -> (r: &Vec<(String, String)>)
        requires
            self.wf(),
        ensures
            unique_keys(r@),
            assoc(r@) == self@,
    {
        &self.entries
    }

    /// Number of commands.
    pub fn len(&self) -> (r: usize)
        requires
            self.wf(),
        ensures
            r == self@.len(),
    {
        proof {
            self.lemma_len();
        }
        self.entries.len()
    }

    proof fn lemma_len(&self)
        requires
            self.wf(),
        ensures
            self@.dom().finite(),
            self@.len() == self.entries@.len(),
        decreases self.entries@.len(),
    {
        lemma_assoc_len(self.entries@);
    }

    /// The command bound to `name`.
    pub fn get(&self, name: &str) -> (r: Option<&String>)
        requires
            self.wf(),
        ensures
            match r {
                Some(c) => self@.contains_key(name@) && self@[name@] == c@,
                None => !self@.contains_key(name@),
            },
    {
        let key = name.to_owned();
        match find_key(&self.entries, &key) {
            Some(i) => {
                proof {
                    lemma_assoc_at(self.entries@, i as int);
                }
                Some(&self.entries[i].1)
            },
            None => {
                proof {
                    lemma_assoc_dom(self.entries@, name@);
                }
                None
            },
        }
    }

    /// Binds `name` to `command`, replacing an earlier binding, which is returned.
    pub fn insert(&mut self, name: String, command: String) -> (r: Option<String>)
        requires
            old(self).wf(),
        ensures
            final(self).wf(),
            final(self)@ == old(self)@.insert(name@, command@),
            match r {
                Some(c) => old(self)@.contains_key(name@) && old(self)@[name@] == c@,
                None => !old(self)@.contains_key(name@),
            },
    {
        match find_key(&self.entries, &name) {
            Some(i) => {
                proof {
                    lemma_assoc_at(self.entries@, i as int);
                    lemma_assoc_update(self.entries@, i as int, (name, command));
                }
                let prev = self.entries[i].1.clone();
                self.entries.set(i, (name, command));
                Some(prev)
            },
            None => {
                proof {
                    lemma_assoc_dom(self.entries@, name@);
                    lemma_push_unique(self.entries@, (name, command));
                    assert(self.entries@.push((name, command)).drop_last() =~= self.entries@);
                }
                self.entries.push((name, command));
                None
            },
        }
    }

    /// Removes the binding of `name` and returns its command.
    pub fn remove(&mut self, name: &str) -> (r: Option<String>)
        requires
            old(self).wf(),
        ensures
            final(self).wf(),
            final(self)@ == old(self)@.remove(name@),
            match r {
                Some(c) => old(self)@.contains_key(name@) && old(self)@[name@] == c@,
                None => !old(self)@.contains_key(name@),
            },
    {
        let key = name.to_owned();
        match find_key(&self.entries, &key) {
            Some(i) => {
                proof {
                    lemma_assoc_at(self.entries@, i as int);
                    lemma_assoc_remove(self.entries@, i as int);
                }
                let (_, command) = self.entries.remove(i);
                Some(command)
            },
            None => {
                proof {
                    lemma_assoc_dom(self.entries@, name@);
                    assert(self@.remove(name@) =~= self@);
                }
                None
            },
        }
    }

    /// Copies every binding of `other` into `self`, replacing bindings of
    /// the same names.
    pub fn overlay(&mut self, other: &Project)
        requires
            old(self).wf(),
            other.wf(),
        ensures
            final(self).wf(),
            final(self)@ == old(self)@.union_prefer_right(other@),
    {
        let ghost start = self@;
        let mut j: usize = 0;
        while j < other.entries.len()
            invariant
                j <= other.entries@.len(),
                self.wf(),
                self@ == start.union_prefer_right(assoc(other.entries@.take(j as int))),
            decreases other.entries@.len() - j,
        {
            let name = other.entries[j].0.clone();
            let command = other.entries[j].1.clone();
            proof {
                lemma_take_step(other.entries@, j as int);
            }
            self.insert(name, command);
            proof {
                assert(self@ =~= start.union_prefer_right(assoc(other.entries@.take(j + 1))));
            }
            j = j + 1;
        }
        proof {
            assert(other.entries@.take(j as int) =~= other.entries@);
        }
    }

    /// Copies the bindings of `other` whose names `self` does not bind yet.
    pub fn fill_gaps(&mut self, other: &Project)
        requires
            old(self).wf(),
            other.wf(),
        ensures
            final(self).wf(),
            final(self)@ == other@.union_prefer_right(old(self)@),
    {
        let ghost start = self@;
        let mut j: usize = 0;
        while j < other.entries.len()
            invariant
                j <= other.entries@.len(),
                self.wf(),
                other.wf(),
                self@ == assoc(other.entries@.take(j as int)).union_prefer_right(start),
            decreases other.entries@.len() - j,
        {
            let ghost t = other.entries@.take(j as int);
            let ghost k = other.entries@[j as int].0@;
            proof {
                lemma_take_step(other.entries@, j as int);
                lemma_assoc_dom(t, k);
                if has_key(t, k) {
                    let i = choose|i: int| 0 <= i < t.len() && #[trigger] t[i].0@ == k;
                    assert(t[i] == other.entries@[i]);
                }
            }
            if self.get(other.entries[j].0.as_str()).is_none() {
                let name = other.entries[j].0.clone();
                let command = other.entries[j].1.clone();
                self.insert(name, command);
            }
            proof {
                assert(self@ =~= assoc(other.entries@.take(j + 1)).union_prefer_right(start));
            }
            j = j + 1;
        }
        proof {
            assert(other.entries@.take(j as int) =~= other.entries@);
        }
    }
}

/// The map of the first `j + 1` entries adds entry `j` to that of the first `j`.
proof fn lemma_take_step(s: Seq<(String, String)>, j: int)
    requires
        0 <= j < s.len(),
    ensures
        assoc(s.take(j + 1)) == assoc(s.take(j)).insert(s[j].0@, s[j].1@),
{
    assert(s.take(j + 1).drop_last() =~= s.take(j));
    assert(s.take(j + 1).last() == s[j]);
}

proof fn lemma_assoc_len(s: Seq<(String, String)>)
    requires
        unique_keys(s),
    ensures
        assoc(s).dom().finite(),
        assoc(s).len() == s.len(),
    decreases s.len(),
{
    if s.len() > 0 {
        let t = s.drop_last();
        assert forall|a: int, b: int|
            #![trigger t[a], t[b]]
            0 <= a < t.len() && 0 <= b < t.len() && t[a].0@ == t[b].0@ implies a == b by {
            assert(t[a] == s[a] && t[b] == s[b]);
        }
        lemma_assoc_len(t);
        lemma_assoc_dom(t, s.last().0@);
        if has_key(t, s.last().0@) {
            let i = choose|i: int| 0 <= i < t.len() && #[trigger] t[i].0@ == s.last().0@;
            assert(t[i] == s[i]);
            assert(s[s.len() - 1] == s.last());
        }
    }
}

} // verus!
