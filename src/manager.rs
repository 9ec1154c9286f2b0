//! The registry of configured projects, keyed by unique name and listed in
//! ascending order of name.
use vstd::prelude::*;

use crate::config::{project_of, project_from, Document, Entry};
use crate::error::GotoError;
use crate::order::{
    lemma_lex_asymmetric, lemma_lex_connected, lemma_lex_irreflexive, lemma_lex_transitive,
    lex_lt, str_lt,
};
use crate::project::{session_command, Project, ProjectView};

verus! {

/// The registry as a sequence of (name, project) pairs, ascending by name.
pub type Registry = Seq<(Seq<char>, ProjectView)>;

/// The names of a registry, in its order.
pub open spec fn names_of(r: Registry) -> Seq<Seq<char>> {
    r.map_values(|e: (Seq<char>, ProjectView)| e.0)
}

/// Each name sorts strictly before the next: ascending, with no name twice.
pub open spec fn strictly_sorted(s: Seq<Seq<char>>) -> bool {
    forall|i: int, j: int| 0 <= i < j < s.len() ==> lex_lt(#[trigger] s[i], #[trigger] s[j])
}

/// The project registered under `name`.
pub open spec fn lookup(r: Registry, name: Seq<char>) -> Option<ProjectView>
    decreases r.len(),
{
    if r.len() == 0 {
        None
    } else if r[0].0 == name {
        Some(r[0].1)
    } else {
        lookup(r.drop_first(), name)
    }
}

/// `r` with `p` registered under `name`, replacing an earlier project of
/// that name, and kept in order.
pub open spec fn insert_sorted(r: Registry, name: Seq<char>, p: ProjectView) -> Registry
    decreases r.len(),
{
    if r.len() == 0 {
        seq![(name, p)]
    } else if r[0].0 == name {
        r.update(0, (name, p))
    } else if lex_lt(name, r[0].0) {
        seq![(name, p)] + r
    } else {
        seq![r[0]] + insert_sorted(r.drop_first(), name, p)
    }
}

/// Every entry follows the schema.
pub open spec fn all_valid(entries: Seq<(String, Entry)>) -> bool {
    forall|i: int| 0 <= i < entries.len() ==> (#[trigger] project_of(entries[i].1)) is Some
}

/// The registry that the entries declare, each registered in turn, so that a
/// later declaration of a name replaces an earlier one.
pub open spec fn registry_of(entries: Seq<(String, Entry)>) -> Registry
    decreases entries.len(),
{
    if entries.len() == 0 {
        Seq::empty()
    } else {
        match project_of(entries.last().1) {
            Some(p) => insert_sorted(registry_of(entries.drop_last()), entries.last().0@, p),
            None => registry_of(entries.drop_last()),
        }
    }
}

/// Entry `i` is the first that breaks the schema.
pub open spec fn first_invalid(entries: Seq<(String, Entry)>, i: int) -> bool {
    &&& 0 <= i < entries.len()
    &&& project_of(entries[i].1) is None
    &&& forall|k: int| 0 <= k < i ==> (#[trigger] project_of(entries[k].1)) is Some
}

/// The names that the entries declare, in declaration order.
pub open spec fn declared_names(entries: Seq<(String, Entry)>) -> Seq<Seq<char>> {
    entries.map_values(|e: (String, Entry)| e.0@)
}

/// The project of the last entry that declares `name`.
pub open spec fn declared_project(entries: Seq<(String, Entry)>, name: Seq<char>) -> Option<
    ProjectView,
>
    decreases entries.len(),
{
    if entries.len() == 0 {
        None
    } else if entries.last().0@ == name {
        project_of(entries.last().1)
    } else {
        declared_project(entries.drop_last(), name)
    }
}

/// Registering keeps the order, adds exactly `name`, and changes only what
/// `name` finds.
proof fn lemma_insert_sorted(r: Registry, name: Seq<char>, p: ProjectView)
    requires
        strictly_sorted(names_of(r)),
    ensures
        strictly_sorted(names_of(insert_sorted(r, name, p))),
        forall|k: Seq<char>| #[trigger]
            names_of(insert_sorted(r, name, p)).contains(k) <==> (k == name || names_of(
                r,
            ).contains(k)),
        forall|k: Seq<char>| #[trigger]
            lookup(insert_sorted(r, name, p), k) == if k == name {
                Some(p)
            } else {
                lookup(r, k)
            },
    decreases r.len(),
{
    let t = insert_sorted(r, name, p);
    if r.len() == 0 {
        assert forall|k: Seq<char>| #[trigger] names_of(t).contains(k) <==> (k == name
            || names_of(r).contains(k)) by {
            assert(names_of(t)[0] == name);
            assert(names_of(r).len() == 0);
        }
        assert forall|k: Seq<char>| #[trigger] lookup(t, k) == if k == name {
            Some(p)
        } else {
            lookup(r, k)
        } by {
            if k != name {
                assert(t.drop_first().len() == 0);
                assert(lookup(t.drop_first(), k) is None);
            }
        }
    } else if r[0].0 == name {
        assert(names_of(t) =~= names_of(r));
        assert(names_of(r)[0] == name);
        assert forall|k: Seq<char>| #[trigger] lookup(t, k) == if k == name {
            Some(p)
        } else {
            lookup(r, k)
        } by {
            assert(t.drop_first() =~= r.drop_first());
        }
    } else if lex_lt(name, r[0].0) {
        assert(names_of(t) =~= seq![name] + names_of(r));
        assert(names_of(t)[0] == name);
        assert forall|i: int, j: int| 0 <= i < j < names_of(t).len() implies lex_lt(
            #[trigger] names_of(t)[i],
            #[trigger] names_of(t)[j],
        ) by {
            if i == 0 && j > 1 {
                assert(lex_lt(names_of(r)[0], names_of(r)[j - 1]));
                lemma_lex_transitive(name, r[0].0, names_of(r)[j - 1]);
            } else if i > 0 {
                assert(lex_lt(names_of(r)[i - 1], names_of(r)[j - 1]));
            }
        }
        assert forall|k: Seq<char>| #[trigger] names_of(t).contains(k) <==> (k == name
            || names_of(r).contains(k)) by {
            if names_of(r).contains(k) {
                let i = choose|i: int| 0 <= i < names_of(r).len() && names_of(r)[i] == k;
                assert(names_of(t)[i + 1] == k);
            }
            if names_of(t).contains(k) && k != name {
                let i = choose|i: int| 0 <= i < names_of(t).len() && names_of(t)[i] == k;
                assert(names_of(r)[i - 1] == k);
            }
        }
        assert forall|k: Seq<char>| #[trigger] lookup(t, k) == if k == name {
            Some(p)
        } else {
            lookup(r, k)
        } by {
            assert(t.drop_first() =~= r);
        }
    } else {
        let rest = r.drop_first();
        let first = r[0];
        assert(strictly_sorted(names_of(rest))) by {
            assert forall|i: int, j: int| 0 <= i < j < names_of(rest).len() implies lex_lt(
                #[trigger] names_of(rest)[i],
                #[trigger] names_of(rest)[j],
            ) by {
                assert(lex_lt(names_of(r)[i + 1], names_of(r)[j + 1]));
            }
        }
        lemma_insert_sorted(rest, name, p);
        let tail = insert_sorted(rest, name, p);
        assert(t == seq![first] + tail);
        lemma_lex_connected(name, first.0);
        assert(names_of(t) =~= seq![first.0] + names_of(tail));
        assert forall|i: int, j: int| 0 <= i < j < names_of(t).len() implies lex_lt(
            #[trigger] names_of(t)[i],
            #[trigger] names_of(t)[j],
        ) by {
            if i == 0 {
                let k = names_of(tail)[j - 1];
                assert(names_of(tail).contains(k));
                if k != name {
                    let m = choose|m: int| 0 <= m < names_of(rest).len() && names_of(rest)[m] == k;
                    assert(lex_lt(names_of(r)[0], names_of(r)[m + 1]));
                }
            } else {
                assert(lex_lt(names_of(tail)[i - 1], names_of(tail)[j - 1]));
            }
        }
        assert forall|k: Seq<char>| #[trigger] names_of(t).contains(k) <==> (k == name
            || names_of(r).contains(k)) by {
            if names_of(r).contains(k) && k != first.0 {
                let i = choose|i: int| 0 <= i < names_of(r).len() && names_of(r)[i] == k;
                assert(names_of(rest)[i - 1] == k);
                assert(names_of(tail).contains(k));
                let m = choose|m: int| 0 <= m < names_of(tail).len() && names_of(tail)[m] == k;
                assert(names_of(t)[m + 1] == k);
            }
            if names_of(t).contains(k) && k != name && k != first.0 {
                let i = choose|i: int| 0 <= i < names_of(t).len() && names_of(t)[i] == k;
                assert(names_of(tail)[i - 1] == k);
                assert(names_of(tail).contains(k));
                assert(names_of(rest).contains(k));
                let m = choose|m: int| 0 <= m < names_of(rest).len() && names_of(rest)[m] == k;
                assert(names_of(r)[m + 1] == k);
            }
            if k == first.0 {
                assert(names_of(t)[0] == k);
                assert(names_of(r)[0] == k);
            }
            if k == name {
                assert(names_of(tail).contains(name));
                let m = choose|m: int| 0 <= m < names_of(tail).len() && names_of(tail)[m] == k;
                assert(names_of(t)[m + 1] == k);
            }
        }
        assert forall|k: Seq<char>| #[trigger] lookup(t, k) == if k == name {
            Some(p)
        } else {
            lookup(r, k)
        } by {
            assert(t.drop_first() =~= tail);
            assert(t[0] == first);
            assert(first.0 != name);
            if k != first.0 {
                assert(lookup(t, k) == lookup(tail, k));
                assert(lookup(r, k) == lookup(rest, k));
            }
        }
    }
}

/// The names that a valid configuration declares are those of the registry
/// it parses to, which lists them ascending and each once.
pub proof fn lemma_listing_of_parsed(entries: Seq<(String, Entry)>)
    requires
        all_valid(entries),
    ensures
        strictly_sorted(names_of(registry_of(entries))),
        names_of(registry_of(entries)).no_duplicates(),
        names_of(registry_of(entries)).to_set() == declared_names(entries).to_set(),
    decreases entries.len(),
{
    let names = names_of(registry_of(entries));
    if entries.len() == 0 {
        assert(names.to_set() =~= declared_names(entries).to_set());
    } else {
        let prefix = entries.drop_last();
        let last = entries.last();
        assert forall|i: int| 0 <= i < prefix.len() implies (#[trigger] project_of(
            prefix[i].1,
        )) is Some by {
            assert(project_of(entries[i].1) is Some);
        }
        assert(project_of(entries[entries.len() - 1].1) is Some);
        lemma_listing_of_parsed(prefix);
        let p = project_of(last.1)->Some_0;
        lemma_insert_sorted(registry_of(prefix), last.0@, p);
        assert(declared_names(entries) =~= declared_names(prefix).push(last.0@));
        assert forall|k: Seq<char>| names.contains(k) == declared_names(entries).contains(k) by {
            if declared_names(entries).contains(k) && k != last.0@ {
                let i = choose|i: int|
                    0 <= i < declared_names(entries).len() && declared_names(entries)[i] == k;
                assert(declared_names(prefix)[i] == k);
                assert(declared_names(prefix).to_set().contains(k));
            }
            if names.contains(k) && k != last.0@ {
                assert(names_of(registry_of(prefix)).to_set().contains(k));
                let i = choose|i: int|
                    0 <= i < declared_names(prefix).len() && declared_names(prefix)[i] == k;
                assert(declared_names(entries)[i] == k);
            }
            if k == last.0@ {
                assert(declared_names(entries)[entries.len() - 1] == k);
            }
        }
        assert(names.to_set() =~= declared_names(entries).to_set());
    }
    assert forall|i: int, j: int| 0 <= i < names.len() && 0 <= j < names.len() && i != j implies names[i]
        != names[j] by {
        if i < j {
            lemma_lex_irreflexive(names[i]);
        } else {
            lemma_lex_irreflexive(names[j]);
        }
    }
}

/// In the registry that a valid configuration parses to, each name finds the
/// project of its last declaration, and an undeclared name finds nothing.
pub proof fn lemma_lookup_of_parsed(entries: Seq<(String, Entry)>, name: Seq<char>)
    requires
        all_valid(entries),
    ensures
        lookup(registry_of(entries), name) == declared_project(entries, name),
    decreases entries.len(),
{
    if entries.len() > 0 {
        let prefix = entries.drop_last();
        let last = entries.last();
        assert forall|i: int| 0 <= i < prefix.len() implies (#[trigger] project_of(
            prefix[i].1,
        )) is Some by {
            assert(project_of(entries[i].1) is Some);
        }
        assert(project_of(entries[entries.len() - 1].1) is Some);
        lemma_listing_of_parsed(prefix);
        lemma_lookup_of_parsed(prefix, name);
        lemma_insert_sorted(registry_of(prefix), last.0@, project_of(last.1)->Some_0);
    }
}

/// Where the first name that does not sort before `name` stands, the
/// registry either holds `name` and replaces its project, or takes `name` in
/// there.
proof fn lemma_insert_sorted_at(r: Registry, j: int, name: Seq<char>, p: ProjectView)
    requires
        0 <= j <= r.len(),
        forall|k: int| 0 <= k < j ==> lex_lt(#[trigger] r[k].0, name),
        j < r.len() ==> !lex_lt(r[j].0, name),
    ensures
        insert_sorted(r, name, p) == if j < r.len() && r[j].0 == name {
            r.update(j, (name, p))
        } else {
            r.insert(j, (name, p))
        },
    decreases j,
{
    if j == 0 {
        if r.len() == 0 {
            assert(seq![(name, p)] =~= r.insert(0, (name, p)));
        } else if r[0].0 != name {
            lemma_lex_connected(name, r[0].0);
            assert(seq![(name, p)] + r =~= r.insert(0, (name, p)));
        }
    } else {
        let rest = r.drop_first();
        assert(lex_lt(r[0].0, name));
        lemma_lex_irreflexive(name);
        lemma_lex_asymmetric(r[0].0, name);
        assert forall|k: int| 0 <= k < j - 1 implies lex_lt(#[trigger] rest[k].0, name) by {
            assert(rest[k] == r[k + 1]);
        }
        lemma_insert_sorted_at(rest, j - 1, name, p);
        if j < r.len() && r[j].0 == name {
            assert(seq![r[0]] + rest.update(j - 1, (name, p)) =~= r.update(j, (name, p)));
        } else {
            assert(seq![r[0]] + rest.insert(j - 1, (name, p)) =~= r.insert(j, (name, p)));
        }
    }
}

/// The registry that a vector of (name, project) pairs holds.
pub open spec fn registry_view(v: Seq<(String, Project)>) -> Registry {
    v.map_values(|e: (String, Project)| (e.0@, e.1@))
}

/// Registers `project` under `name` in the ordered vector `projects`.
fn register(projects: &mut Vec<(String, Project)>, name: String, project: Project)
    requires
        strictly_sorted(names_of(registry_view(old(projects)@))),
    ensures
        registry_view(final(projects)@) == insert_sorted(
            registry_view(old(projects)@),
            name@,
            project@,
        ),
        strictly_sorted(names_of(registry_view(final(projects)@))),
{
    let ghost before = registry_view(projects@);
    let mut j: usize = 0;
    while j < projects.len() && str_lt(projects[j].0.as_str(), name.as_str())
        invariant
            j <= projects@.len(),
            before == registry_view(projects@),
            forall|k: int| 0 <= k < j ==> lex_lt(#[trigger] before[k].0, name@),
        decreases projects@.len() - j,
    {
        j = j + 1;
    }
    proof {
        lemma_insert_sorted_at(before, j as int, name@, project@);
        lemma_insert_sorted(before, name@, project@);
    }
    if j < projects.len() && projects[j].0 == name {
        projects.set(j, (name, project));
        assert(registry_view(projects@) =~= before.update(j as int, (name@, project@)));
    } else {
        projects.insert(j, (name, project));
        assert(registry_view(projects@) =~= before.insert(j as int, (name@, project@)));
    }
}

/// What parsing `doc` gives: for a mapping from names whose every entry
/// follows the schema, the registry that it declares; for one with an entry
/// that breaks the schema, `ParseError` with the name of the first such
/// entry; for anything else, `ParseError` with an empty string.
pub open spec fn parsed(doc: Document, r: Result<Manager, GotoError>) -> bool {
    match doc {
        Document::Other => (r matches Err(GotoError::ParseError(m)) && m@.len() == 0),
        Document::Table(entries) => match r {
            Ok(m) => all_valid(entries@) && m@ == registry_of(entries@) && m.wf(),
            Err(e) => rejected_at_first_invalid(entries@, e),
        },
    }
}

/// `e` names the first entry that breaks the schema.
pub open spec fn rejected_at_first_invalid(entries: Seq<(String, Entry)>, e: GotoError) -> bool {
    exists|i: int| #[trigger] first_invalid(entries, i) && e == GotoError::ParseError(entries[i].0)
}

/// The registry of configured projects.
pub struct Manager {
    projects: Vec<(String, Project)>,
}

impl View for Manager {
    type V = Registry;

    closed spec fn view(&self) -> Registry {
        registry_view(self.projects@)
    }
}

impl Manager {
    /// Names ascend, each once.
    pub open spec fn wf(&self) -> bool {
        strictly_sorted(names_of(self@))
    }

    /// The registry that a decoded configuration declares. It fails with
    /// `ParseError` where the configuration is not a mapping from names
    /// (the error then holds an empty string), or where an entry breaks the
    /// schema (the error holds the name of the first such entry).
    pub fn parse(doc: &Document) -> (r: Result<Manager, GotoError>)
        ensures
            parsed(*doc, r),
    {
        match doc {
            Document::Other => Err(GotoError::ParseError(String::new())),
            Document::Table(entries) => {
                let mut projects: Vec<(String, Project)> = Vec::new();
                let mut i: usize = 0;
                assert(entries@.take(0) =~= Seq::<(String, Entry)>::empty());
                while i < entries.len()
                    invariant
                        *doc == Document::Table(*entries),
                        i <= entries@.len(),
                        forall|k: int|
                            0 <= k < i ==> (#[trigger] project_of(entries@[k].1)) is Some,
                        registry_view(projects@) == registry_of(entries@.take(i as int)),
                        strictly_sorted(names_of(registry_view(projects@))),
                    decreases entries@.len() - i,
                {
                    let (name, entry) = &entries[i];
                    assert(entries@.take(i + 1).drop_last() =~= entries@.take(i as int));
                    match project_from(entry) {
                        Some(project) => {
                            register(&mut projects, name.clone(), project);
                        },
                        None => {
                            let bad = name.clone();
                            assert(first_invalid(entries@, i as int));
                            assert(rejected_at_first_invalid(entries@, GotoError::ParseError(bad)));
                            return Err(GotoError::ParseError(bad));
                        },
                    }
                    i = i + 1;
                }
                assert(entries@.take(entries@.len() as int) =~= entries@);
                Ok(Manager { projects })
            },
        }
    }

    /// The names of all projects, ascending.
    pub fn list_projects(&self) -> (r: Vec<String>)
        ensures
            crate::project::views(r@) == names_of(self@),
    {
        let mut names: Vec<String> = Vec::new();
        let mut i: usize = 0;
        while i < self.projects.len()
            invariant
                i <= self@.len(),
                crate::project::views(names@) == names_of(self@).take(i as int),
            decreases self@.len() - i,
        {
            let ghost old_names = names@;
            let name = self.projects[i].0.clone();
            assert(name@ == names_of(self@)[i as int]);
            names.push(name);
            assert(names@ == old_names.push(name));
            assert(crate::project::views(names@) =~= crate::project::views(old_names).push(name@));
            assert(names_of(self@).take(i + 1) =~= names_of(self@).take(i as int).push(name@));
            assert(crate::project::views(names@) =~= names_of(self@).take(i + 1));
            i = i + 1;
        }
        assert(names_of(self@).take(self@.len() as int) =~= names_of(self@));
        names
    }

    /// The project registered under exactly `name`; `ProjectNotFound` with
    /// that name where there is none.
    pub fn get_project(&self, name: &str) -> (r: Result<&Project, GotoError>)
        ensures
            match r {
                Ok(p) => lookup(self@, name@) == Some(p@),
                Err(e) => lookup(self@, name@) is None && (e matches GotoError::ProjectNotFound(n)
                    && n@ == name@),
            },
    {
        let wanted = name.to_owned();
        let mut i: usize = 0;
        assert(self@.skip(0) =~= self@);
        while i < self.projects.len()
            invariant
                i <= self@.len(),
                wanted@ == name@,
                lookup(self@, name@) == lookup(self@.skip(i as int), name@),
            decreases self@.len() - i,
        {
            assert(self@.skip(i as int).drop_first() =~= self@.skip(i + 1));
            if self.projects[i].0 == wanted {
                return Ok(&self.projects[i].1);
            }
            i = i + 1;
        }
        Err(GotoError::ProjectNotFound(wanted))
    }

    /// The shell command that opens a session in the project `name`, with
    /// `shell` as the interactive shell; `ProjectNotFound` where there is
    /// no such project.
    pub fn open_project(&self, name: &str, shell: &str) -> (r: Result<String, GotoError>)
        ensures
            match r {
                Ok(c) => lookup(self@, name@) matches Some(p) && c@ == session_command(p, shell@),
                Err(e) => lookup(self@, name@) is None && (e matches GotoError::ProjectNotFound(n)
                    && n@ == name@),
            },
    {
        match self.get_project(name) {
            Ok(p) => Ok(p.compose_command(shell)),
            Err(e) => Err(e),
        }
    }
}

} // verus!
