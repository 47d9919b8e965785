//! The store: every project and every link, and the resolution of the
//! commands visible at a directory.
use vstd::prelude::*;
use crate::assoc::{
    assoc, assoc_insert, find_key, lemma_assoc_at, lemma_assoc_dom, lemma_assoc_update,
    lemma_push_unique, unique_keys,
};
use crate::project::Project;

verus! {

/// What a [`Config`] holds, as maps.
pub ghost struct ConfigView {
    /// Directory to the labels it links to, in the order they were added.
    pub aliases: Map<Seq<char>, Seq<Seq<char>>>,
    /// Directory (or label) to the commands defined directly there.
    pub projects: Map<Seq<char>, Map<Seq<char>, Seq<char>>>,
}

/// Index `i` of `p` ends a directory on the way from the root to `p`
/// (`/a/b` is reached through `/`, `/a` and `/a/b`).
pub open spec fn is_prefix_end(p: Seq<char>, i: int) -> bool {
    &&& 1 <= i <= p.len()
    &&& (i == p.len() || p[i] == '/' || (i == 1 && p[0] == '/'))
}

/// `acc` after the commands of each labelled project, in label order, have
/// filled the names that are still unbound.
pub open spec fn fill_from_labels(
    projects: Map<Seq<char>, Map<Seq<char>, Seq<char>>>,
    acc: Map<Seq<char>, Seq<char>>,
    labels: Seq<Seq<char>>,
) -> Map<Seq<char>, Seq<char>>
    decreases labels.len(),
{
    if labels.len() == 0 {
        acc
    } else {
        let before = fill_from_labels(projects, acc, labels.drop_last());
        if projects.contains_key(labels.last()) {
            projects[labels.last()].union_prefer_right(before)
        } else {
            before
        }
    }
}

/// The labels that directory `dir` links to, empty where it links to none.
pub open spec fn labels_at(c: ConfigView, dir: Seq<char>) -> Seq<Seq<char>> {
    if c.aliases.contains_key(dir) {
        c.aliases[dir]
    } else {
        Seq::empty()
    }
}

/// The commands defined directly at `dir`, empty where it is no project.
pub open spec fn direct_at(c: ConfigView, dir: Seq<char>) -> Map<Seq<char>, Seq<char>> {
    if c.projects.contains_key(dir) {
        c.projects[dir]
    } else {
        Map::empty()
    }
}

/// One directory's contribution: its linked projects fill gaps, then its
/// own commands override.
pub open spec fn merge_level(
    c: ConfigView,
    acc: Map<Seq<char>, Seq<char>>,
    dir: Seq<char>,
) -> Map<Seq<char>, Seq<char>> {
    fill_from_labels(c.projects, acc, labels_at(c, dir)).union_prefer_right(direct_at(c, dir))
}

/// The commands visible after the directories that end at or before index `n` of `p`.
pub open spec fn resolved_upto(c: ConfigView, p: Seq<char>, n: int) -> Map<Seq<char>, Seq<char>>
    decreases n,
{
    if n <= 0 {
        Map::empty()
    } else {
        let prev = resolved_upto(c, p, n - 1);
        if is_prefix_end(p, n) {
            merge_level(c, prev, p.take(n))
        } else {
            prev
        }
    }
}

/// The commands visible at directory `p`.
pub open spec fn resolved(c: ConfigView, p: Seq<char>) -> Map<Seq<char>, Seq<char>> {
    resolved_upto(c, p, p.len() as int)
}

/// Why a command could not be removed.
#[derive(Debug, PartialEq, Eq, Structural)]
pub enum RemoveError {
    /// No project is registered at the directory.
    ProjectNotFound,
    /// The project exists but does not bind the name.
    AliasNotFound,
}

/// The projects that `tables` lists, each given by its list of bindings; a
/// later entry wins over an earlier one with the same key.
pub open spec fn project_tables(tables: Seq<(String, Vec<(String, String)>)>) -> Map<
    Seq<char>,
    Map<Seq<char>, Seq<char>>,
>
    decreases tables.len(),
{
    if tables.len() == 0 {
        Map::empty()
    } else {
        project_tables(tables.drop_last()).insert(tables.last().0@, assoc(tables.last().1@))
    }
}

/// A copy of `v`.
fn copy_strings(v: &Vec<String>) -> (r: Vec<String>)
    ensures
        r.deep_view() == v.deep_view(),
{
    let mut r: Vec<String> = Vec::new();
    let mut j: usize = 0;
    while j < v.len()
        invariant
            j <= v@.len(),
            r@.len() == j,
            r.deep_view() == v.deep_view().take(j as int),
        decreases v@.len() - j,
    {
        r.push(v[j].clone());
        proof {
            assert(r.deep_view() =~= v.deep_view().take(j + 1));
        }
        j = j + 1;
    }
    proof {
        assert(v.deep_view().take(j as int) =~= v.deep_view());
    }
    r
}

/// Every project and every link.
pub struct Config {
    aliases: Vec<(String, Vec<String>)>,
    projects: Vec<(String, Project)>,
}

impl View for Config {
    type V = ConfigView;

    closed spec fn view(&self) -> ConfigView {
        ConfigView { aliases: assoc(self.aliases@), projects: assoc(self.projects@) }
    }
}

impl Config {
    /// Keys are distinct in both tables and every project is well formed.
    pub closed spec fn wf(&self) -> bool {
        &&& unique_keys(self.aliases@)
        &&& unique_keys(self.projects@)
        &&& forall|i: int| 0 <= i < self.projects@.len() ==> (#[trigger] self.projects@[i]).1.wf()
    }

    /// An empty store.
    pub fn new() -> (r: Config)
        ensures
            r.wf(),
            r@.aliases == Map::<Seq<char>, Seq<Seq<char>>>::empty(),
            r@.projects == Map::<Seq<char>, Map<Seq<char>, Seq<char>>>::empty(),
    {
        Config { aliases: Vec::new(), projects: Vec::new() }
    }

    /// The store that the two tables list: each directory with its labels,
    /// and each directory with its bindings.
    pub fn from_tables(
        aliases: &Vec<(String, Vec<String>)>,
        projects: &Vec<(String, Vec<(String, String)>)>,
    ) -> (r: Config)
        ensures
            r.wf(),
            r@.aliases == assoc(aliases@),
            r@.projects == project_tables(projects@),
    {
        let mut r = Config::new();
        let mut j: usize = 0;
        while j < aliases.len()
            invariant
                j <= aliases@.len(),
                r.wf(),
                r@.aliases == assoc(aliases@.take(j as int)),
                r@.projects == Map::<Seq<char>, Map<Seq<char>, Seq<char>>>::empty(),
            decreases aliases@.len() - j,
        {
            proof {
                assert(aliases@.take(j + 1).drop_last() =~= aliases@.take(j as int));
                assert(aliases@.take(j + 1).last() == aliases@[j as int]);
            }
            let labels = copy_strings(&aliases[j].1);
            r.set_aliases(aliases[j].0.clone(), labels);
            j = j + 1;
        }
        proof {
            assert(aliases@.take(j as int) =~= aliases@);
        }
        let mut k: usize = 0;
        while k < projects.len()
            invariant
                k <= projects@.len(),
                r.wf(),
                r@.aliases == assoc(aliases@),
                r@.projects == project_tables(projects@.take(k as int)),
            decreases projects@.len() - k,
        {
            proof {
                assert(projects@.take(k + 1).drop_last() =~= projects@.take(k as int));
                assert(projects@.take(k + 1).last() == projects@[k as int]);
            }
            let project = Project::from_commands(&projects[k].1);
            r.set_project(projects[k].0.clone(), project);
            k = k + 1;
        }
        proof {
            assert(projects@.take(k as int) =~= projects@);
        }
        r
    }

    /// The links, one entry per directory.
    pub fn aliases(&self) -> (r: &Vec<(String, Vec<String>)>)
        requires
            self.wf(),
        ensures
            unique_keys(r@),
            assoc(r@) == self@.aliases,
    {
        &self.aliases
    }

    /// The projects, one entry per directory.
    pub fn projects(&self) -> (r: &Vec<(String, Project)>)
        requires
            self.wf(),
        ensures
            unique_keys(r@),
            assoc(r@) == self@.projects,
            forall|i: int| 0 <= i < r@.len() ==> (#[trigger] r@[i]).1.wf(),
    {
        &self.projects
    }

    /// Registers `project` at `dir`, replacing what was there.
    pub fn set_project(&mut self, dir: String, project: Project)
        requires
            old(self).wf(),
            project.wf(),
        ensures
            final(self).wf(),
            final(self)@.aliases == old(self)@.aliases,
            final(self)@.projects == old(self)@.projects.insert(dir@, project@),
    {
        assoc_insert(&mut self.projects, dir, project);
        proof {
            assert forall|i: int| 0 <= i < self.projects@.len() implies (
            #[trigger] self.projects@[i]).1.wf() by {
                if self.projects@[i] != (dir, project) {
                    let j = choose|j: int|
                        0 <= j < old(self).projects@.len() && old(self).projects@[j]
                            == self.projects@[i];
                    assert(old(self).projects@[j].1.wf());
                }
            }
        }
    }

    /// Sets the labels that `dir` links to, replacing those it had.
    pub fn set_aliases(&mut self, dir: String, labels: Vec<String>)
        requires
            old(self).wf(),
        ensures
            final(self).wf(),
            final(self)@.projects == old(self)@.projects,
            final(self)@.aliases == old(self)@.aliases.insert(dir@, labels.deep_view()),
    {
        assoc_insert(&mut self.aliases, dir, labels);
    }

    /// Fills unbound names of `acc` from the projects that `labels` name.
    fn fill_from_labels(&self, acc: &mut Project, labels: &Vec<String>)
        requires
            self.wf(),
            old(acc).wf(),
        ensures
            final(acc).wf(),
            final(acc)@ == fill_from_labels(self@.projects, old(acc)@, labels.deep_view()),
    {
        let ghost start = acc@;
        let mut j: usize = 0;
        while j < labels.len()
            invariant
                self.wf(),
                j <= labels@.len(),
                acc.wf(),
                acc@ == fill_from_labels(self@.projects, start, labels.deep_view().take(j as int)),
            decreases labels@.len() - j,
        {
            let ghost ls = labels.deep_view().take(j + 1);
            proof {
                assert(ls.drop_last() =~= labels.deep_view().take(j as int));
                assert(ls.last() == labels@[j as int]@);
                lemma_assoc_dom(self.projects@, labels@[j as int]@);
            }
            match find_key(&self.projects, &labels[j]) {
                Some(k) => {
                    proof {
                        lemma_assoc_at(self.projects@, k as int);
                    }
                    acc.fill_gaps(&self.projects[k].1);
                },
                None => {},
            }
            j = j + 1;
        }
        proof {
            assert(labels.deep_view().take(j as int) =~= labels.deep_view());
        }
    }

    /// Merges what directory `dir` contributes into `acc`.
    fn merge_level(&self, acc: &mut Project, dir: &String)
        requires
            self.wf(),
            old(acc).wf(),
        ensures
            final(acc).wf(),
            final(acc)@ == merge_level(self@, old(acc)@, dir@),
    {
        proof {
            lemma_assoc_dom(self.aliases@, dir@);
            lemma_assoc_dom(self.projects@, dir@);
        }
        match find_key(&self.aliases, dir) {
            Some(i) => {
                proof {
                    lemma_assoc_at(self.aliases@, i as int);
                }
                self.fill_from_labels(acc, &self.aliases[i].1);
            },
            None => {},
        }
        match find_key(&self.projects, dir) {
            Some(i) => {
                proof {
                    lemma_assoc_at(self.projects@, i as int);
                }
                acc.overlay(&self.projects[i].1);
            },
            None => {
                proof {
                    assert(acc@.union_prefer_right(Map::empty()) =~= acc@);
                }
            },
        }
    }

    /// The commands visible at directory `dir`: those of every directory from
    /// the root down to `dir`, where a deeper directory overrides a shallower
    /// one and linked projects only supply names that are still unbound.
    pub fn resolve_project(&self, dir: &str) -> (r: Project)
        requires
            self.wf(),
        ensures
            r.wf(),
            r@ == resolved(self@, dir@),
    {
        let n = dir.unicode_len();
        let mut result = Project::new();
        let mut i: usize = 0;
        while i < n
            invariant
                self.wf(),
                n == dir@.len(),
                i <= n,
                result.wf(),
                result@ == resolved_upto(self@, dir@, i as int),
            decreases n - i,
        {
            let end = i + 1;
            if end == n || dir.get_char(end) == '/' || (end == 1 && dir.get_char(0) == '/') {
                let prefix = dir.substring_char(0, end).to_owned();
                proof {
                    assert(prefix@ == dir@.take(end as int));
                }
                self.merge_level(&mut result, &prefix);
            }
            i = end;
        }
        result
    }

    /// The commands defined directly at `dir`, without anything inherited.
    pub fn get_project(&self, dir: &str) -> (r: Option<&Project>)
        requires
            self.wf(),
        ensures
            match r {
                Some(p) => p.wf() && self@.projects.contains_key(dir@) && p@ == self@.projects[dir@],
                None => !self@.projects.contains_key(dir@),
            },
    {
        let key = dir.to_owned();
        proof {
            lemma_assoc_dom(self.projects@, dir@);
        }
        match find_key(&self.projects, &key) {
            Some(i) => {
                proof {
                    lemma_assoc_at(self.projects@, i as int);
                }
                Some(&self.projects[i].1)
            },
            None => None,
        }
    }

    /// Makes `dir` additionally inherit the project registered under `label`,
    /// after the labels it already links to.
    pub fn add_alias(&mut self, dir: &str, label: &str)
        requires
            old(self).wf(),
        ensures
            final(self).wf(),
            final(self)@.projects == old(self)@.projects,
            final(self)@.aliases == old(self)@.aliases.insert(
                dir@,
                labels_at(old(self)@, dir@).push(label@),
            ),
    {
        let key = dir.to_owned();
        let item = label.to_owned();
        proof {
            lemma_assoc_dom(self.aliases@, dir@);
        }
        match find_key(&self.aliases, &key) {
            Some(i) => {
                proof {
                    lemma_assoc_at(self.aliases@, i as int);
                }
                let (k, mut labels) = self.aliases.remove(i);
                labels.push(item);
                proof {
                    assert(labels.deep_view() =~= labels_at(old(self)@, dir@).push(label@));
                    assert(self.aliases@.insert(i as int, (k, labels)) =~= old(self).aliases@.update(
                        i as int,
                        (k, labels),
                    ));
                    lemma_assoc_update(old(self).aliases@, i as int, (k, labels));
                }
                self.aliases.insert(i, (k, labels));
            },
            None => {
                let mut labels: Vec<String> = Vec::new();
                labels.push(item);
                proof {
                    assert(labels.deep_view() =~= labels_at(old(self)@, dir@).push(label@));
                    lemma_push_unique(self.aliases@, (key, labels));
                    assert(self.aliases@.push((key, labels)).drop_last() =~= self.aliases@);
                }
                self.aliases.push((key, labels));
            },
        }
    }

    /// Binds `name` to `command` in the project at `dir`, creating the project
    /// where there is none. Returns the command that the name was bound to.
    pub fn add_command(&mut self, dir: &str, name: &str, command: &str) -> (r: Option<String>)
        requires
            old(self).wf(),
        ensures
            final(self).wf(),
            final(self)@.aliases == old(self)@.aliases,
            final(self)@.projects == old(self)@.projects.insert(
                dir@,
                direct_at(old(self)@, dir@).insert(name@, command@),
            ),
            match r {
                Some(c) => direct_at(old(self)@, dir@).contains_key(name@) && direct_at(
                    old(self)@,
                    dir@,
                )[name@] == c@,
                None => !direct_at(old(self)@, dir@).contains_key(name@),
            },
    {
        let key = dir.to_owned();
        proof {
            lemma_assoc_dom(self.projects@, dir@);
        }
        match find_key(&self.projects, &key) {
            Some(i) => {
                proof {
                    lemma_assoc_at(self.projects@, i as int);
                }
                let (k, mut project) = self.projects.remove(i);
                let prev = project.insert(name.to_owned(), command.to_owned());
                proof {
                    assert(self.projects@.insert(i as int, (k, project)) =~= old(
                        self,
                    ).projects@.update(i as int, (k, project)));
                    lemma_assoc_update(old(self).projects@, i as int, (k, project));
                }
                self.projects.insert(i, (k, project));
                proof {
                    assert forall|j: int| 0 <= j < self.projects@.len() implies (
                    #[trigger] self.projects@[j]).1.wf() by {
                        if j != i {
                            assert(self.projects@[j] == old(self).projects@[j]);
                        }
                    }
                }
                prev
            },
            None => {
                let mut project = Project::new();
                project.insert(name.to_owned(), command.to_owned());
                proof {
                    lemma_push_unique(self.projects@, (key, project));
                    assert(self.projects@.push((key, project)).drop_last() =~= self.projects@);
                }
                self.projects.push((key, project));
                proof {
                    assert forall|j: int| 0 <= j < self.projects@.len() implies (
                    #[trigger] self.projects@[j]).1.wf() by {
                        if j < self.projects@.len() - 1 {
                            assert(self.projects@[j] == old(self).projects@[j]);
                        }
                    }
                }
                None
            },
        }
    }

    /// Removes the binding of `name` from the project at `dir` and returns its
    /// command. Nothing changes where the project or the name is missing.
    pub fn remove_command(&mut self, dir: &str, name: &str) -> (r: Result<String, RemoveError>)
        requires
            old(self).wf(),
        ensures
            final(self).wf(),
            final(self)@.aliases == old(self)@.aliases,
            !old(self)@.projects.contains_key(dir@) <==> r == Err::<String, RemoveError>(
                RemoveError::ProjectNotFound,
            ),
            old(self)@.projects.contains_key(dir@) && !old(self)@.projects[dir@].contains_key(name@)
                <==> r == Err::<String, RemoveError>(RemoveError::AliasNotFound),
            r is Err ==> final(self)@ == old(self)@,
            match r {
                Ok(c) => {
                    &&& old(self)@.projects.contains_key(dir@)
                    &&& old(self)@.projects[dir@].contains_key(name@)
                    &&& old(self)@.projects[dir@][name@] == c@
                    &&& final(self)@.projects == old(self)@.projects.insert(
                        dir@,
                        old(self)@.projects[dir@].remove(name@),
                    )
                },
                Err(_) => true,
            },
    {
        let key = dir.to_owned();
        proof {
            lemma_assoc_dom(self.projects@, dir@);
        }
        match find_key(&self.projects, &key) {
            Some(i) => {
                proof {
                    lemma_assoc_at(self.projects@, i as int);
                }
                if self.projects[i].1.get(name).is_none() {
                    return Err(RemoveError::AliasNotFound);
                }
                let (k, mut project) = self.projects.remove(i);
                let removed = project.remove(name);
                proof {
                    assert(self.projects@.insert(i as int, (k, project)) =~= old(
                        self,
                    ).projects@.update(i as int, (k, project)));
                    lemma_assoc_update(old(self).projects@, i as int, (k, project));
                }
                self.projects.insert(i, (k, project));
                proof {
                    assert forall|j: int| 0 <= j < self.projects@.len() implies (
                    #[trigger] self.projects@[j]).1.wf() by {
                        if j != i {
                            assert(self.projects@[j] == old(self).projects@[j]);
                        }
                    }
                }
                match removed {
                    Some(c) => Ok(c),
                    None => Err(RemoveError::AliasNotFound),
                }
            },
            None => Err(RemoveError::ProjectNotFound),
        }
    }
}

} // verus!
