//! A configured project: where it lives and what to run on entering it.
use vstd::prelude::*;
use vstd::relations::sorted_by;
use vstd::seq_lib::{lemma_multiset_commutative, lemma_sorted_unique};

use crate::order::{lemma_lex_le_total, lex_le, lex_lt, lex_order, str_lt};

verus! {

/// A project: a filesystem path (possibly starting with `~`) and the shell
/// statements to run there, in order, before the interactive shell.
#[derive(Clone, Debug)]
pub struct Project {
    pub path: String,
    pub instructions: Vec<String>,
}

/// The mathematical value of a `Project`.
pub struct ProjectView {
    pub path: Seq<char>,
    pub instructions: Seq<Seq<char>>,
}

/// The character sequences that a vector of strings holds.
pub open spec fn views(v: Seq<String>) -> Seq<Seq<char>> {
    v.map_values(|s: String| s@)
}

impl View for Project {
    type V = ProjectView;

    open spec fn view(&self) -> ProjectView {
        ProjectView { path: self.path@, instructions: views(self.instructions@) }
    }
}

/// `base` joined with `sub` as a Unix path: an absolute `sub` replaces
/// `base`, and a `/` goes between the two unless `base` is empty or already
/// ends with one.
pub open spec fn join_path(base: Seq<char>, sub: Seq<char>) -> Seq<char> {
    if sub.len() > 0 && sub[0] == '/' {
        sub
    } else if base.len() > 0 && base.last() != '/' {
        base + seq!['/'] + sub
    } else {
        base + sub
    }
}

/// `path` with a leading `~` replaced by `home`.
pub open spec fn expand_home(path: Seq<char>, home: Seq<char>) -> Seq<char> {
    if path.len() > 0 && path[0] == '~' {
        home + path.skip(1)
    } else {
        path
    }
}

/// What joins two statements so that the second runs only if the first
/// succeeded.
pub open spec fn and_then_sep() -> Seq<char> {
    seq![' ', '&', '&', ' ']
}

/// What changes into a directory, before its path.
pub open spec fn cd_word() -> Seq<char> {
    seq!['c', 'd', ' ']
}

/// The statement that clears the screen.
pub open spec fn clear_word() -> Seq<char> {
    seq!['c', 'l', 'e', 'a', 'r']
}

/// The statements joined by ` && `.
pub open spec fn join_statements(parts: Seq<Seq<char>>) -> Seq<char>
    decreases parts.len(),
{
    if parts.len() == 0 {
        Seq::empty()
    } else if parts.len() == 1 {
        parts[0]
    } else {
        join_statements(parts.drop_last()) + and_then_sep() + parts.last()
    }
}

/// The statements of a session: change into the project's path, run its
/// instructions, start the interactive shell, clear the screen after it.
pub open spec fn session_statements(p: ProjectView, shell: Seq<char>) -> Seq<Seq<char>> {
    seq![cd_word() + p.path] + p.instructions + seq![shell, clear_word()]
}

/// The shell command that opens a session in project `p`.
pub open spec fn session_command(p: ProjectView, shell: Seq<char>) -> Seq<char> {
    join_statements(session_statements(p, shell))
}

/// What a directory listing says of one entry.
#[derive(Clone, Debug)]
pub struct DirItem {
    pub name: String,
    pub is_dir: bool,
}

/// The names of the directories among `items`, in the order given.
pub open spec fn dir_names(items: Seq<DirItem>) -> Seq<Seq<char>> {
    items.filter(|d: DirItem| d.is_dir).map_values(|d: DirItem| d.name@)
}

/// The names of the directories among `items`, in ascending order.
pub open spec fn sorted_dir_names(items: Seq<DirItem>) -> Seq<Seq<char>> {
    dir_names(items).sort_by(lex_order())
}

impl Project {
    /// A project at `path` with the given instructions.
    pub fn new(path: String, instructions: Vec<String>) -> (r: Project)
        ensures
            r.path == path,
            r.instructions == instructions,
    {
        Project { path, instructions }
    }

    /// The project for the subdirectory `subdir` of this one: its path is
    /// this path joined with `subdir`; its instructions are these.
    pub fn goto_subdir(self, subdir: &str) -> (r: Project)
        ensures
            r@ == (ProjectView {
                path: join_path(self@.path, subdir@),
                instructions: self@.instructions,
            }),
    {
        let sub_len = subdir.unicode_len();
        let base_len = self.path.as_str().unicode_len();
        let path = if sub_len > 0 && subdir.get_char(0) == '/' {
            subdir.to_owned()
        } else if base_len > 0 && self.path.as_str().get_char(base_len - 1) != '/' {
            let mut joined = self.path.clone();
            joined.append("/");
            joined.append(subdir);
            proof {
                reveal_strlit("/");
                assert(joined@ =~= self.path@ + seq!['/'] + subdir@);
            }
            joined
        } else {
            let mut joined = self.path.clone();
            joined.append(subdir);
            joined
        };
        Project { path, instructions: self.instructions }
    }

    /// The path with a leading `~` expanded to `home`: where the project's
    /// directory is found on disk.
    pub fn expanded_path(&self, home: &str) -> (r: String)
        ensures
            r@ == expand_home(self@.path, home@),
    {
        let len = self.path.as_str().unicode_len();
        if len > 0 && self.path.as_str().get_char(0) == '~' {
            let rest = self.path.as_str().substring_char(1, len);
            let mut expanded = home.to_owned();
            expanded.append(rest);
            expanded
        } else {
            self.path.clone()
        }
    }

    /// The shell command that opens a session here: `cd` into the path (not
    /// expanded), each instruction in order, then `shell`, then `clear`, all
    /// joined by ` && `.
    pub fn compose_command(&self, shell: &str) -> (r: String)
        ensures
            r@ == session_command(self@, shell@),
    {
        let ghost parts = session_statements(self@, shell@);
        proof {
            reveal_strlit("cd ");
            reveal_strlit(" && ");
            reveal_strlit("clear");
            assert("cd "@ =~= cd_word());
            assert(" && "@ =~= and_then_sep());
            assert("clear"@ =~= clear_word());
        }
        let mut command = "cd ".to_owned();
        command.append(self.path.as_str());
        assert(parts.take(1) =~= seq![parts[0]]);
        let n = self.instructions.len();
        let mut i: usize = 0;
        while i < n
            invariant
                n == self.instructions@.len(),
                i <= n,
                parts == session_statements(self@, shell@),
                " && "@ == and_then_sep(),
                command@ == join_statements(parts.take(i + 1)),
            decreases n - i,
        {
            command.append(" && ");
            command.append(self.instructions[i].as_str());
            assert(parts.take(i + 2).drop_last() =~= parts.take(i + 1));
            assert(parts[i + 1] == self.instructions@[i as int]@);
            i = i + 1;
        }
        command.append(" && ");
        command.append(shell);
        assert(parts.take(n + 2).drop_last() =~= parts.take(n + 1));
        assert(parts[n + 1] == shell@);
        assert(command@ == join_statements(parts.take(n + 2)));
        command.append(" && ");
        command.append("clear");
        assert(parts.take(n + 3).drop_last() =~= parts.take(n + 2));
        assert(parts[n + 2] == clear_word());
        assert(command@ == join_statements(parts.take(n + 3)));
        assert(parts.take(n + 3) =~= parts);
        command
    }
}

/// Inserting `x` at `j` keeps `s` sorted when everything before `j` sorts
/// before `x` and `x` sorts strictly before what stands at `j`.
proof fn lemma_sorted_insert(s: Seq<Seq<char>>, j: int, x: Seq<char>)
    requires
        sorted_by(s, lex_order()),
        0 <= j <= s.len(),
        forall|k: int| 0 <= k < j ==> lex_le(#[trigger] s[k], x),
        j < s.len() ==> lex_lt(x, s[j]),
    ensures
        sorted_by(s.insert(j, x), lex_order()),
{
    lemma_lex_le_total();
    let t = s.insert(j, x);
    assert forall|a: int, b: int| 0 <= a < b < t.len() implies #[trigger] lex_order()(
        t[a],
        t[b],
    ) by {
        if b < j {
            assert(lex_order()(s[a], s[b]));
        } else if a > j {
            assert(lex_order()(s[a - 1], s[b - 1]));
        } else if a == j {
            if b > j + 1 {
                assert(lex_order()(s[j], s[b - 1]));
                assert(lex_order()(x, s[j]));
            }
        } else if b == j {
            assert(lex_le(s[a], x));
        } else {
            assert(lex_le(s[a], x));
            assert(lex_order()(x, s[j]));
            if b > j + 1 {
                assert(lex_order()(s[j], s[b - 1]));
            }
        }
    }
}

/// Inserting `x` anywhere adds one `x` to what a sequence holds.
proof fn lemma_insert_multiset(s: Seq<Seq<char>>, j: int, x: Seq<char>)
    requires
        0 <= j <= s.len(),
    ensures
        s.insert(j, x).to_multiset() == s.to_multiset().insert(x),
{
    broadcast use vstd::seq_lib::group_to_multiset_ensures;

    let t = s.insert(j, x);
    assert(t.remove(j) =~= s);
    assert(t[j] == x);
    assert(t.to_multiset().count(x) > 0);
    assert(t.to_multiset() =~= s.to_multiset().insert(x));
}

/// The names of the directories among `items`, sorted ascending; files and
/// other kinds of entry are left out.
pub fn sorted_subdirs(items: &Vec<DirItem>) -> (r: Vec<String>)
    ensures
        views(r@) == sorted_dir_names(items@),
{
    let ghost is_dir = |d: DirItem| d.is_dir;
    proof {
        lemma_lex_le_total();
    }
    let mut names: Vec<String> = Vec::new();
    let mut i: usize = 0;
    assert(items@.take(0) =~= Seq::<DirItem>::empty());
    assert(views(names@) =~= Seq::<Seq<char>>::empty());
    assert(dir_names(items@.take(0)) =~= Seq::<Seq<char>>::empty());
    while i < items.len()
        invariant
            i <= items@.len(),
            is_dir == (|d: DirItem| d.is_dir),
            sorted_by(views(names@), lex_order()),
            views(names@).to_multiset() == dir_names(items@.take(i as int)).to_multiset(),
        decreases items@.len() - i,
    {
        let item = &items[i];
        let ghost x = item.name@;
        let ghost prefix = items@.take(i as int);
        let ghost filtered = prefix.filter(is_dir);
        proof {
            assert(items@.take(i + 1) =~= prefix.push(items@[i as int]));
            prefix.lemma_filter_push(items@[i as int], is_dir);
            assert(filtered.push(items@[i as int]).map_values(|d: DirItem| d.name@)
                =~= filtered.map_values(|d: DirItem| d.name@).push(x));
        }
        if item.is_dir {
            let mut j: usize = 0;
            while j < names.len() && !str_lt(item.name.as_str(), names[j].as_str())
                invariant
                    j <= names@.len(),
                    x == item.name@,
                    forall|k: int| 0 <= k < j ==> lex_le(#[trigger] names@[k]@, x),
                decreases names@.len() - j,
            {
                proof {
                    if names@[j as int]@ != x {
                        crate::order::lemma_lex_connected(names@[j as int]@, x);
                    }
                }
                j = j + 1;
            }
            let ghost before = views(names@);
            assert(forall|k: int| 0 <= k < j ==> lex_le(#[trigger] before[k], x));
            names.insert(j, item.name.clone());
            proof {
                assert(views(names@) =~= before.insert(j as int, x));
                lemma_sorted_insert(before, j as int, x);
                lemma_insert_multiset(before, j as int, x);
                assert(dir_names(items@.take(i + 1)) =~= dir_names(prefix).push(x));
                lemma_insert_multiset(dir_names(prefix), dir_names(prefix).len() as int, x);
                assert(dir_names(prefix).insert(dir_names(prefix).len() as int, x)
                    =~= dir_names(prefix).push(x));
            }
        } else {
            assert(dir_names(items@.take(i + 1)) =~= dir_names(prefix));
        }
        i = i + 1;
    }
    assert(items@.take(items@.len() as int) =~= items@);
    proof {
        dir_names(items@).lemma_sort_by_ensures(lex_order());
        lemma_sorted_unique(views(names@), sorted_dir_names(items@), lex_order());
    }
    names
}

} // verus!
