//! The configuration as decoded from its text, and the schema that turns one
//! entry of it into a project.
//!
//! The text is a mapping from project name to a table with a required `path`
//! (a string) and an optional `instructions` (a sequence of strings).
use vstd::prelude::*;

use crate::project::{views, Project, ProjectView};

verus! {

/// The value of one field of a project's table.
#[derive(Clone, Debug)]
pub enum Field {
    Text(String),
    List(Vec<String>),
    /// Anything else: a number, a mapping, a sequence that holds more than
    /// strings, ...
    Other,
}

/// The value under one project name.
#[derive(Clone, Debug)]
pub enum Entry {
    /// A table of fields, by field name, in declaration order.
    Table(Vec<(String, Field)>),
    Other,
}

/// A whole configuration.
#[derive(Clone, Debug)]
pub enum Document {
    /// A mapping from project name to entry, in declaration order.
    Table(Vec<(String, Entry)>),
    /// Anything that is not a mapping from names.
    Other,
}

/// The name of the field that holds a project's path.
pub open spec fn path_key() -> Seq<char> {
    seq!['p', 'a', 't', 'h']
}

/// The name of the field that holds a project's instructions.
pub open spec fn instructions_key() -> Seq<char> {
    seq!['i', 'n', 's', 't', 'r', 'u', 'c', 't', 'i', 'o', 'n', 's']
}

/// The value of the field `key`; where it is declared twice, the later one.
pub open spec fn field_of(fields: Seq<(String, Field)>, key: Seq<char>) -> Option<Field>
    decreases fields.len(),
{
    if fields.len() == 0 {
        None
    } else if fields.last().0@ == key {
        Some(fields.last().1)
    } else {
        field_of(fields.drop_last(), key)
    }
}

/// The project that an entry declares, if it follows the schema: `path` is
/// text, and `instructions` is a list of strings or absent (then empty).
/// Other fields are ignored.
pub open spec fn project_of(e: Entry) -> Option<ProjectView> {
    match e {
        Entry::Table(fields) => match field_of(fields@, path_key()) {
            Some(Field::Text(path)) => match field_of(fields@, instructions_key()) {
                None => Some(ProjectView { path: path@, instructions: Seq::empty() }),
                Some(Field::List(list)) => Some(
                    ProjectView { path: path@, instructions: views(list@) },
                ),
                Some(_) => None,
            },
            _ => None,
        },
        Entry::Other => None,
    }
}

/// An entry that declares a path and no `instructions` field declares a
/// project with no instructions.
pub proof fn lemma_absent_instructions_are_empty(fields: Vec<(String, Field)>, path: String)
    requires
        field_of(fields@, path_key()) == Some(Field::Text(path)),
        field_of(fields@, instructions_key()) is None,
    ensures
        project_of(Entry::Table(fields)) == Some(
            ProjectView { path: path@, instructions: Seq::<Seq<char>>::empty() },
        ),
{
}

/// Finds the field named `key`.
fn find_field<'a>(fields: &'a Vec<(String, Field)>, key: &String) -> (r: Option<&'a Field>)
    ensures
        match r {
            Some(f) => field_of(fields@, key@) == Some(*f),
            None => field_of(fields@, key@) is None,
        },
{
    let mut found: Option<usize> = None;
    let mut i: usize = 0;
    assert(fields@.take(0) =~= Seq::<(String, Field)>::empty());
    while i < fields.len()
        invariant
            i <= fields@.len(),
            field_of(fields@.take(i as int), key@) == match found {
                Some(k) => Some(fields@[k as int].1),
                None => None,
            },
            match found {
                Some(k) => k < fields@.len(),
                None => true,
            },
        decreases fields@.len() - i,
    {
        assert(fields@.take(i + 1).drop_last() =~= fields@.take(i as int));
        if fields[i].0 == *key {
            found = Some(i);
        }
        i = i + 1;
    }
    assert(fields@.take(fields@.len() as int) =~= fields@);
    match found {
        Some(k) => Some(&fields[k].1),
        None => None,
    }
}

/// A copy of each string, in order.
fn copy_strings(v: &Vec<String>) -> (r: Vec<String>)
    ensures
        r@ == v@,
{
    let mut out: Vec<String> = Vec::new();
    let mut i: usize = 0;
    while i < v.len()
        invariant
            i <= v@.len(),
            out@ == v@.take(i as int),
        decreases v@.len() - i,
    {
        out.push(v[i].clone());
        assert(v@.take(i + 1) =~= v@.take(i as int).push(v@[i as int]));
        i = i + 1;
    }
    assert(v@.take(v@.len() as int) =~= v@);
    out
}

/// The project that `entry` declares, or `None` where it breaks the schema.
pub fn project_from(entry: &Entry) -> (r: Option<Project>)
    ensures
        match r {
            Some(p) => project_of(*entry) == Some(p@),
            None => project_of(*entry) is None,
        },
{
    proof {
        reveal_strlit("path");
        reveal_strlit("instructions");
        assert("path"@ =~= path_key());
        assert("instructions"@ =~= instructions_key());
    }
    match entry {
        Entry::Table(fields) => {
            let path_name = "path".to_owned();
            let instructions_name = "instructions".to_owned();
            match find_field(fields, &path_name) {
                Some(Field::Text(path)) => match find_field(fields, &instructions_name) {
                    None => {
                        let p = Project { path: path.clone(), instructions: Vec::new() };
                        assert(p@.instructions =~= Seq::<Seq<char>>::empty());
                        Some(p)
                    },
                    Some(Field::List(list)) => Some(
                        Project { path: path.clone(), instructions: copy_strings(list) },
                    ),
                    Some(_) => None,
                },
                _ => None,
            }
        },
        Entry::Other => None,
    }
}

} // verus!
