//! Finding repositories among the entries of a directory walk.

use crate::text::text_same;
use vstd::prelude::*;

verus! {

/// One entry of a directory walk.
#[derive(Clone, Debug, PartialEq, Eq)]
pub struct WalkEntry {
    /// Whether the entry is a directory.
    pub is_dir: bool,
    /// The entry's own name, without the directories above it.
    pub name: String,
    /// The path of the directory that holds the entry, if it has one.
    pub parent: Option<String>,
}

/// Whether an entry with this name marks a repository: it is a directory
/// named `.git`.
pub open spec fn marks_repo(is_dir: bool, name: Seq<char>) -> bool {
    is_dir && name == ".git"@
}

/// The repository that the entry shows: the directory that holds it, where
/// the entry marks a repository and has such a directory.
pub open spec fn root_of(entry: WalkEntry) -> Option<Seq<char>> {
    if marks_repo(entry.is_dir, entry.name@) {
        match entry.parent {
            Some(path) => Some(path@),
            None => None,
        }
    } else {
        None
    }
}

/// The repositories that the first `n` entries show, in the order of the
/// walk.
pub open spec fn roots_of(entries: Seq<WalkEntry>, n: int) -> Seq<Seq<char>>
    decreases n,
{
    if n <= 0 {
        Seq::empty()
    } else {
        match root_of(entries[n - 1]) {
            Some(path) => roots_of(entries, n - 1).push(path),
            None => roots_of(entries, n - 1),
        }
    }
}

/// The texts of `paths`.
pub open spec fn paths_of(paths: Seq<String>) -> Seq<Seq<char>> {
    Seq::new(paths.len(), |i: int| paths[i]@)
}

/// Whether an entry with this name marks a repository.
pub fn is_repo_marker(is_dir: bool, name: &str) -> (b: bool)
    ensures
        b == marks_repo(is_dir, name@),
{
    is_dir && text_same(name, ".git")
}

/// The repository that the entry shows, if it shows one.
pub fn repo_root(entry: &WalkEntry) -> (root: Option<String>)
    ensures
        root is Some <==> root_of(*entry) is Some,
        root matches Some(path) ==> Some(path@) == root_of(*entry),
{
    if is_repo_marker(entry.is_dir, entry.name.as_str()) {
        match &entry.parent {
            Some(path) => Some(path.clone()),
            None => None,
        }
    } else {
        None
    }
}

/// The repositories among the entries of a walk: for each directory named
/// `.git`, the directory that holds it, in the order of the walk.
pub fn scan_repos(entries: &Vec<WalkEntry>) -> (repos: Vec<String>)
    ensures
        paths_of(repos@) == roots_of(entries@, entries.len() as int),
{
    let mut repos: Vec<String> = Vec::new();
    let mut i: usize = 0;
    proof {
        assert(paths_of(repos@) =~= roots_of(entries@, 0));
    }
    while i < entries.len()
        invariant
            i <= entries.len(),
            paths_of(repos@) == roots_of(entries@, i as int),
        decreases entries.len() - i,
    {
        let ghost found = paths_of(repos@);
        match repo_root(&entries[i]) {
            Some(path) => {
                repos.push(path);
                proof {
                    assert(paths_of(repos@) =~= found.push(path@));
                }
            },
            None => {},
        }
        i += 1;
    }
    repos
}

} // verus!
