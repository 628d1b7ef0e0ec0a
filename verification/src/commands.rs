//! The decisions of the command line tool: which commits a diff compares,
//! how two commits or a commit and the working tree differ, and the short
//! form of a commit identifier.
use vstd::prelude::*;
use vstd::string::*;
use vstd::utf8::*;
use crate::str_map::{entries_map, has_key};
use crate::paths::components;
use crate::repository::{any_match, is_first_match, Commit, RepoError, Repository};
use crate::text::str_equal;
use crate::utils::{calculate_hash_bytes, content_hash};

verus! {

/// The first 8 bytes of a commit identifier, as the tool shows it.
pub fn short_id(id: &str) -> (s: &str)
    requires
        is_char_boundary(id.spec_bytes(), 8),
    ensures
        s.spec_bytes() == id.spec_bytes().subrange(0, 8),
{
    let (head, _) = id.split_at(8);
    head
}

/// What `add` does with one of the paths it is given.
#[derive(Clone, Copy, Debug, PartialEq, Eq, Structural)]
pub enum AddAction {
    /// `.`: stage every file of the working tree outside the repository directory.
    WholeTree,
    /// Stage the file.
    File,
    /// Stage every file under the directory.
    Directory,
    /// Warn that the path is not found.
    Missing,
}

/// Chooses what `add` does with the path `path_text`, given whether it names
/// a file and whether it names a directory: the text "." means the whole
/// working tree, whatever it names; else a file is staged, a directory is
/// walked, and anything else is reported missing.
pub fn add_action(path_text: &str, is_file: bool, is_dir: bool) -> (a: AddAction)
    ensures
        a == (if path_text@ == "."@ {
            AddAction::WholeTree
        } else if is_file {
            AddAction::File
        } else if is_dir {
            AddAction::Directory
        } else {
            AddAction::Missing
        }),
{
    if str_equal(path_text, ".") {
        AddAction::WholeTree
    } else if is_file {
        AddAction::File
    } else if is_dir {
        AddAction::Directory
    } else {
        AddAction::Missing
    }
}

/// What a diff compares.
#[derive(Clone, Copy, Debug, PartialEq, Eq, Structural)]
pub enum DiffTarget {
    /// The working tree against the commit at this position.
    WorkingDir { commit: usize },
    /// The commit at `first` against the commit at `second`.
    Commits { first: usize, second: usize },
}

/// Chooses what `diff` compares from its optional commit identifiers: with
/// none, the working tree against the last commit; with one, the working tree
/// against the first commit it names; with two, the first commits they name.
/// A repository without commits is refused first, then an identifier that
/// names no commit, and a second identifier without a first.
pub fn resolve_diff(repo: &Repository, commit_id1: Option<&str>, commit_id2: Option<&str>) -> (r: Result<DiffTarget, RepoError>)
    ensures
        repo.commits@.len() == 0 ==> r == Err::<DiffTarget, RepoError>(RepoError::NoCommits),
        repo.commits@.len() > 0 ==> match (commit_id1, commit_id2) {
            (None, None) => r == Ok::<DiffTarget, RepoError>(
                DiffTarget::WorkingDir { commit: (repo.commits@.len() - 1) as usize },
            ),
            (Some(a), None) => if any_match(repo.commits@, a@) {
                r matches Ok(DiffTarget::WorkingDir { commit }) && is_first_match(repo.commits@, a@, commit as int)
            } else {
                r == Err::<DiffTarget, RepoError>(RepoError::CommitNotFound)
            },
            (Some(a), Some(b)) => if !any_match(repo.commits@, a@) {
                r == Err::<DiffTarget, RepoError>(RepoError::FirstCommitNotFound)
            } else if !any_match(repo.commits@, b@) {
                r == Err::<DiffTarget, RepoError>(RepoError::SecondCommitNotFound)
            } else {
                r matches Ok(DiffTarget::Commits { first, second }) && is_first_match(
                    repo.commits@,
                    a@,
                    first as int,
                ) && is_first_match(repo.commits@, b@, second as int)
            },
            (None, Some(_)) => r == Err::<DiffTarget, RepoError>(RepoError::InvalidDiffUsage),
        },
{
    if repo.commits.len() == 0 {
        return Err(RepoError::NoCommits);
    }
    match (commit_id1, commit_id2) {
        (None, None) => Ok(DiffTarget::WorkingDir { commit: repo.commits.len() - 1 }),
        (Some(a), None) => match repo.find_commit(a) {
            Some(i) => Ok(DiffTarget::WorkingDir { commit: i }),
            None => Err(RepoError::CommitNotFound),
        },
        (Some(a), Some(b)) => {
            let first = match repo.find_commit(a) {
                Some(i) => i,
                None => {
                    return Err(RepoError::FirstCommitNotFound);
                },
            };
            let second = match repo.find_commit(b) {
                Some(i) => i,
                None => {
                    return Err(RepoError::SecondCommitNotFound);
                },
            };
            Ok(DiffTarget::Commits { first, second })
        },
        (None, Some(_)) => Err(RepoError::InvalidDiffUsage),
    }
}

/// How a file differs.
#[derive(Clone, Copy, Debug, PartialEq, Eq, Structural)]
pub enum ChangeKind {
    /// Present on both sides with different content.
    Modified,
    /// Present only on the first (older) side.
    Deleted,
    /// Present only on the second (newer) side.
    Added,
}

/// A difference at one path.
#[derive(Debug, PartialEq, Eq)]
pub struct FileChange {
    pub kind: ChangeKind,
    pub path: String,
}

/// A change by its kind and path text.
pub open spec fn change_view(c: FileChange) -> (ChangeKind, Seq<char>) {
    (c.kind, c.path@)
}

/// Changes by their kinds and path texts.
pub open spec fn changes_view(cs: Seq<FileChange>) -> Seq<(ChangeKind, Seq<char>)> {
    Seq::new(cs.len(), |i: int| change_view(cs[i]))
}

/// How the file of entry `e` of the first commit shows against the files
/// `second` of the second commit: modified where the second has it with
/// another hash, deleted where the second lacks it, else unchanged.
pub open spec fn change_against(e: (Seq<char>, Seq<char>), second: Map<Seq<char>, Seq<char>>) -> Option<
    (ChangeKind, Seq<char>),
> {
    if second.contains_key(e.0) {
        if second[e.0] != e.1 {
            Some((ChangeKind::Modified, e.0))
        } else {
            None
        }
    } else {
        Some((ChangeKind::Deleted, e.0))
    }
}

/// The changes of the entries of `first` against `second`, in the order of `first`.
pub open spec fn changes_against(first: Seq<(Seq<char>, Seq<char>)>, second: Map<Seq<char>, Seq<char>>) -> Seq<
    (ChangeKind, Seq<char>),
>
    decreases first.len(),
{
    if first.len() == 0 {
        Seq::empty()
    } else {
        let rest = changes_against(first.drop_last(), second);
        match change_against(first.last(), second) {
            Some(c) => rest.push(c),
            None => rest,
        }
    }
}

/// The paths of `second` that `first` lacks, as additions, in the order of `second`.
pub open spec fn additions(first: Seq<(Seq<char>, Seq<char>)>, second: Seq<(Seq<char>, Seq<char>)>) -> Seq<
    (ChangeKind, Seq<char>),
>
    decreases second.len(),
{
    if second.len() == 0 {
        Seq::empty()
    } else {
        let rest = additions(first, second.drop_last());
        if has_key(first, second.last().0) {
            rest
        } else {
            rest.push((ChangeKind::Added, second.last().0))
        }
    }
}

/// What comparing two commits' files reports: the modified and deleted files
/// of the first, in its order, then the files that only the second has.
pub open spec fn commit_changes(first: Seq<(Seq<char>, Seq<char>)>, second: Seq<(Seq<char>, Seq<char>)>) -> Seq<
    (ChangeKind, Seq<char>),
> {
    changes_against(first, entries_map(second)) + additions(first, second)
}

proof fn lemma_changes_view_push(cs: Seq<FileChange>, c: FileChange)
    ensures
        changes_view(cs.push(c)) == changes_view(cs).push(change_view(c)),
{
    assert(changes_view(cs.push(c)) =~= changes_view(cs).push(change_view(c)));
}

/// The changes between the files of `commit1` and those of `commit2`.
pub fn compare_commits(commit1: &Commit, commit2: &Commit) -> (changes: Vec<FileChange>)
    ensures
        changes_view(changes@) == commit_changes(commit1.files@, commit2.files@),
{
    let files1 = &commit1.files;
    let files2 = &commit2.files;
    let mut out: Vec<FileChange> = Vec::new();
    assert(changes_view(out@) =~= Seq::empty());
    let n1 = files1.len();
    let mut i: usize = 0;
    while i < n1
        invariant
            n1 == files1@.len(),
            i <= n1,
            changes_view(out@) == changes_against(files1@.take(i as int), files2.as_map()),
        decreases n1 - i,
    {
        let (path, hash1) = files1.entry(i);
        assert(files1@.take(i + 1).drop_last() =~= files1@.take(i as int));
        assert(files1@.take(i + 1).last() == files1@[i as int]);
        match files2.get(path.as_str()) {
            Some(hash2) => {
                if !str_equal(hash1.as_str(), hash2.as_str()) {
                    let c = FileChange { kind: ChangeKind::Modified, path: path.clone() };
                    proof {
                        lemma_changes_view_push(out@, c);
                    }
                    out.push(c);
                }
            },
            None => {
                let c = FileChange { kind: ChangeKind::Deleted, path: path.clone() };
                proof {
                    lemma_changes_view_push(out@, c);
                }
                out.push(c);
            },
        }
        i = i + 1;
    }
    assert(files1@.take(n1 as int) =~= files1@);
    let ghost modified = changes_view(out@);
    let n2 = files2.len();
    let mut j: usize = 0;
    while j < n2
        invariant
            n2 == files2@.len(),
            j <= n2,
            modified == changes_against(files1@, files2.as_map()),
            changes_view(out@) == modified + additions(files1@, files2@.take(j as int)),
        decreases n2 - j,
    {
        let (path, _) = files2.entry(j);
        assert(files2@.take(j + 1).drop_last() =~= files2@.take(j as int));
        assert(files2@.take(j + 1).last() == files2@[j as int]);
        if !files1.contains_key(path.as_str()) {
            let c = FileChange { kind: ChangeKind::Added, path: path.clone() };
            proof {
                lemma_changes_view_push(out@, c);
            }
            out.push(c);
            assert(changes_view(out@) =~= modified + additions(files1@, files2@.take(j + 1)));
        }
        j = j + 1;
    }
    assert(files2@.take(n2 as int) =~= files2@);
    out
}

/// How a working tree file shows against the hash `commit_hash` that a commit
/// recorded for it: deleted where it is gone, modified where its content
/// hashes otherwise, else unchanged.
pub open spec fn working_file_change(commit_hash: Seq<char>, current: Option<Seq<u8>>) -> Option<ChangeKind> {
    match current {
        None => Some(ChangeKind::Deleted),
        Some(c) => if content_hash(c) == commit_hash {
            None
        } else {
            Some(ChangeKind::Modified)
        },
    }
}

/// Compares a committed file with its current content in the working tree
/// (`None` where the file is gone).
pub fn classify_working_file(commit_hash: &str, current: Option<&[u8]>) -> (r: Option<ChangeKind>)
    ensures
        r == working_file_change(
            commit_hash@,
            match current {
                Some(c) => Some(c@),
                None => None,
            },
        ),
{
    match current {
        None => Some(ChangeKind::Deleted),
        Some(content) => {
            let current_hash = calculate_hash_bytes(content);
            if str_equal(current_hash.as_str(), commit_hash) {
                None
            } else {
                Some(ChangeKind::Modified)
            }
        },
    }
}

/// The paths of `paths` that `files` does not record, in order.
pub open spec fn untracked(files: Seq<(Seq<char>, Seq<char>)>, paths: Seq<Seq<char>>) -> Seq<Seq<char>>
    decreases paths.len(),
{
    if paths.len() == 0 {
        Seq::empty()
    } else {
        let rest = untracked(files, paths.drop_last());
        if has_key(files, paths.last()) {
            rest
        } else {
            rest.push(paths.last())
        }
    }
}

/// The working tree files, by their paths relative to the working directory,
/// that `commit` does not record: the new files.
pub fn untracked_paths(commit: &Commit, paths: &[String]) -> (r: Vec<String>)
    ensures
        components(r@) == untracked(commit.files@, components(paths@)),
{
    let mut out: Vec<String> = Vec::new();
    assert(components(out@) =~= Seq::<Seq<char>>::empty());
    let n = paths.len();
    let mut i: usize = 0;
    while i < n
        invariant
            n == paths@.len(),
            i <= n,
            components(out@) == untracked(commit.files@, components(paths@).take(i as int)),
        decreases n - i,
    {
        let ghost ps = components(paths@).take(i + 1);
        assert(ps.drop_last() =~= components(paths@).take(i as int));
        assert(ps.last() == paths@[i as int]@);
        if !commit.files.contains_key(paths[i].as_str()) {
            let ghost before = out@;
            out.push(paths[i].clone());
            assert(components(out@) =~= components(before).push(paths@[i as int]@));
        }
        i = i + 1;
    }
    assert(components(paths@).take(n as int) =~= components(paths@));
    out
}

} // verus!
