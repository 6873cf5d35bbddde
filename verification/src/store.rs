//! Where each file of the tree lives.
//!
//! The tree is rooted at one directory: projects under `projects/`, days under
//! `days/YYYY/`, the repeating schedule under `schedule/`, settings at the
//! root and timer and notification state under `state/`. Reading and writing
//! those files is the caller's business; this is where they are.

use vstd::prelude::*;

use crate::clock::CalendarDate;
use crate::grammar::{date_text, format_date_chars, format_year_chars, year_text};
use crate::ids::ProjectSlug;
use crate::text::{append, chars_of, string_of};

verus! {

/// `part` appended to `base` as a path component, as `Path::join` does for a
/// relative component: with a `/` between them unless `base` is empty or
/// already ends in one.
pub open spec fn joined_path(base: Seq<char>, part: Seq<char>) -> Seq<char> {
    if base.len() == 0 {
        part
    } else if base.last() == '/' {
        base + part
    } else {
        base + seq!['/'] + part
    }
}

fn join(base: &[char], part: &[char]) -> (path: Vec<char>)
    ensures
        path@ == joined_path(base@, part@),
{
    let mut out: Vec<char> = Vec::new();
    append(&mut out, base);
    if base.len() > 0 && base[base.len() - 1] != '/' {
        out.push('/');
    }
    append(&mut out, part);
    proof {
        if base@.len() > 0 && base@.last() != '/' {
            assert(out@ =~= base@ + seq!['/'] + part@);
        } else {
            assert(out@ =~= base@ + part@);
        }
    }
    out
}

pub open spec fn md(name: Seq<char>) -> Seq<char> {
    name + seq!['.', 'm', 'd']
}

/// The markdown tree rooted at a directory.
#[derive(Debug)]
pub struct Store {
    root: String,
}

impl View for Store {
    type V = Seq<char>;

    /// The root directory.
    closed spec fn view(&self) -> Seq<char> {
        self.root@
    }
}

impl Store {
    pub fn new(root: &str) -> (store: Self)
        ensures
            store@ == root@,
    {
        Store { root: root.to_owned() }
    }

    pub fn root(&self) -> (root: &str)
        ensures
            root@ == self@,
    {
        self.root.as_str()
    }

    /// `projects/<slug>.md`.
    pub fn project_path(&self, slug: &ProjectSlug) -> (path: String)
        ensures
            path@ == joined_path(joined_path(self@, seq!['p', 'r', 'o', 'j', 'e', 'c', 't', 's']), md(slug@)),
    {
        let dir: [char; 8] = ['p', 'r', 'o', 'j', 'e', 'c', 't', 's'];
        let mut name = slug.to_chars();
        name.push('.');
        name.push('m');
        name.push('d');
        assert(name@ =~= md(slug@));
        let root = chars_of(self.root.as_str());
        let path = join(&join(&root, &dir), &name);
        assert(dir@ =~= seq!['p', 'r', 'o', 'j', 'e', 'c', 't', 's']);
        string_of(&path)
    }

    /// `days/YYYY/YYYY-MM-DD.md`.
    pub fn day_path(&self, date: CalendarDate) -> (path: String)
        ensures
            path@ == joined_path(
                joined_path(joined_path(self@, seq!['d', 'a', 'y', 's']), year_text(date@.0)),
                md(date_text(date@)),
            ),
    {
        let dir: [char; 4] = ['d', 'a', 'y', 's'];
        let year = format_year_chars(date);
        let mut name = format_date_chars(date);
        name.push('.');
        name.push('m');
        name.push('d');
        assert(name@ =~= md(date_text(date@)));
        assert(dir@ =~= seq!['d', 'a', 'y', 's']);
        let root = chars_of(self.root.as_str());
        string_of(&join(&join(&join(&root, &dir), &year), &name))
    }

    fn file_in(&self, dir: &[char], name: &[char]) -> (path: String)
        ensures
            path@ == (if dir@.len() == 0 {
                joined_path(self@, name@)
            } else {
                joined_path(joined_path(self@, dir@), name@)
            }),
    {
        let root = chars_of(self.root.as_str());
        if dir.len() == 0 {
            string_of(&join(&root, name))
        } else {
            string_of(&join(&join(&root, dir), name))
        }
    }

    /// `schedule/recurring.md`.
    pub fn recurring_path(&self) -> (path: String)
        ensures
            path@ == joined_path(
                joined_path(self@, seq!['s', 'c', 'h', 'e', 'd', 'u', 'l', 'e']),
                seq!['r', 'e', 'c', 'u', 'r', 'r', 'i', 'n', 'g', '.', 'm', 'd'],
            ),
    {
        let dir: [char; 8] = ['s', 'c', 'h', 'e', 'd', 'u', 'l', 'e'];
        let name: [char; 12] = ['r', 'e', 'c', 'u', 'r', 'r', 'i', 'n', 'g', '.', 'm', 'd'];
        assert(dir@ =~= seq!['s', 'c', 'h', 'e', 'd', 'u', 'l', 'e']);
        assert(name@ =~= seq!['r', 'e', 'c', 'u', 'r', 'r', 'i', 'n', 'g', '.', 'm', 'd']);
        self.file_in(&dir, &name)
    }

    /// `settings.md`, at the root.
    pub fn settings_path(&self) -> (path: String)
        ensures
            path@ == joined_path(self@, seq!['s', 'e', 't', 't', 'i', 'n', 'g', 's', '.', 'm', 'd']),
    {
        let dir: [char; 0] = [];
        let name: [char; 11] = ['s', 'e', 't', 't', 'i', 'n', 'g', 's', '.', 'm', 'd'];
        assert(name@ =~= seq!['s', 'e', 't', 't', 'i', 'n', 'g', 's', '.', 'm', 'd']);
        self.file_in(&dir, &name)
    }

    /// `todos.md`, at the root.
    pub fn todos_path(&self) -> (path: String)
        ensures
            path@ == joined_path(self@, seq!['t', 'o', 'd', 'o', 's', '.', 'm', 'd']),
    {
        let dir: [char; 0] = [];
        let name: [char; 8] = ['t', 'o', 'd', 'o', 's', '.', 'm', 'd'];
        assert(name@ =~= seq!['t', 'o', 'd', 'o', 's', '.', 'm', 'd']);
        self.file_in(&dir, &name)
    }

    /// `state/active.md`.
    pub fn active_path(&self) -> (path: String)
        ensures
            path@ == joined_path(joined_path(self@, state_dir()), seq!['a', 'c', 't', 'i', 'v', 'e', '.', 'm', 'd']),
    {
        let name: [char; 9] = ['a', 'c', 't', 'i', 'v', 'e', '.', 'm', 'd'];
        assert(name@ =~= seq!['a', 'c', 't', 'i', 'v', 'e', '.', 'm', 'd']);
        self.file_in(&state_chars(), &name)
    }

    /// `state/push.md`.
    pub fn push_path(&self) -> (path: String)
        ensures
            path@ == joined_path(joined_path(self@, state_dir()), seq!['p', 'u', 's', 'h', '.', 'm', 'd']),
    {
        let name: [char; 7] = ['p', 'u', 's', 'h', '.', 'm', 'd'];
        assert(name@ =~= seq!['p', 'u', 's', 'h', '.', 'm', 'd']);
        self.file_in(&state_chars(), &name)
    }

    /// `state/ntfy.md`.
    pub fn ntfy_path(&self) -> (path: String)
        ensures
            path@ == joined_path(joined_path(self@, state_dir()), seq!['n', 't', 'f', 'y', '.', 'm', 'd']),
    {
        let name: [char; 7] = ['n', 't', 'f', 'y', '.', 'm', 'd'];
        assert(name@ =~= seq!['n', 't', 'f', 'y', '.', 'm', 'd']);
        self.file_in(&state_chars(), &name)
    }

    /// `state/reminders.md`.
    pub fn reminders_path(&self) -> (path: String)
        ensures
            path@ == joined_path(
                joined_path(self@, state_dir()),
                seq!['r', 'e', 'm', 'i', 'n', 'd', 'e', 'r', 's', '.', 'm', 'd'],
            ),
    {
        let name: [char; 12] = ['r', 'e', 'm', 'i', 'n', 'd', 'e', 'r', 's', '.', 'm', 'd'];
        assert(name@ =~= seq!['r', 'e', 'm', 'i', 'n', 'd', 'e', 'r', 's', '.', 'm', 'd']);
        self.file_in(&state_chars(), &name)
    }
}

pub open spec fn state_dir() -> Seq<char> {
    seq!['s', 't', 'a', 't', 'e']
}

fn state_chars() -> (dir: Vec<char>)
    ensures
        dir@ == state_dir(),
{
    let d = vec!['s', 't', 'a', 't', 'e'];
    assert(d@ =~= state_dir());
    d
}

} // verus!
