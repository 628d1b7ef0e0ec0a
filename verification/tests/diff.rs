use std::path::PathBuf;
use version_control::commands::{
    classify_working_file, compare_commits, resolve_diff, short_id, untracked_paths, ChangeKind, DiffTarget, FileChange,
};
use version_control::repository::{Commit, RepoError, Repository, Timestamp};
use version_control::str_map::StrMap;
use version_control::utils::calculate_hash_bytes;

fn commit_with(id: &str, files: &[(&str, &str)]) -> Commit {
    let mut m = StrMap::new();
    for (p, h) in files {
        m.insert(p.to_string(), h.to_string());
    }
    Commit { id: id.to_string(), message: "m".to_string(), timestamp: Timestamp { secs: 1, nanos: 2 }, files: m }
}

fn change(kind: ChangeKind, path: &str) -> FileChange {
    FileChange { kind, path: path.to_string() }
}

fn repo_with_commits(ids: &[&str]) -> Repository {
    let mut repo = Repository::new(PathBuf::from("/work"));
    for id in ids {
        repo.commits.push(commit_with(id, &[]));
    }
    repo
}

#[test]
fn diff_on_empty_repository_is_refused() {
    let repo = repo_with_commits(&[]);
    assert_eq!(resolve_diff(&repo, None, None), Err(RepoError::NoCommits));
    assert_eq!(resolve_diff(&repo, None, Some("a")), Err(RepoError::NoCommits));
}

#[test]
fn diff_targets() {
    let repo = repo_with_commits(&["aaaa1111", "bbbb2222", "cccc3333"]);
    assert_eq!(resolve_diff(&repo, None, None), Ok(DiffTarget::WorkingDir { commit: 2 }));
    assert_eq!(resolve_diff(&repo, Some("bbbb"), None), Ok(DiffTarget::WorkingDir { commit: 1 }));
    assert_eq!(resolve_diff(&repo, Some("zz"), None), Err(RepoError::CommitNotFound));
    assert_eq!(resolve_diff(&repo, Some("aaaa"), Some("cccc")), Ok(DiffTarget::Commits { first: 0, second: 2 }));
    assert_eq!(resolve_diff(&repo, Some("zz"), Some("cccc")), Err(RepoError::FirstCommitNotFound));
    assert_eq!(resolve_diff(&repo, Some("zz"), Some("yy")), Err(RepoError::FirstCommitNotFound));
    assert_eq!(resolve_diff(&repo, Some("aaaa"), Some("yy")), Err(RepoError::SecondCommitNotFound));
    assert_eq!(resolve_diff(&repo, None, Some("aaaa")), Err(RepoError::InvalidDiffUsage));
}

#[test]
fn compare_two_commits() {
    let c1 = commit_with("1", &[("same", "h0"), ("mod", "h1"), ("gone", "h2")]);
    let c2 = commit_with("2", &[("new", "h3"), ("mod", "h4"), ("same", "h0")]);
    assert_eq!(
        compare_commits(&c1, &c2),
        vec![change(ChangeKind::Modified, "mod"), change(ChangeKind::Deleted, "gone"), change(ChangeKind::Added, "new")]
    );
    assert_eq!(
        compare_commits(&c2, &c1),
        vec![change(ChangeKind::Deleted, "new"), change(ChangeKind::Modified, "mod"), change(ChangeKind::Added, "gone")]
    );
}

#[test]
fn compare_commit_with_itself_is_empty() {
    let c = commit_with("1", &[("a", "h1"), ("b", "h2")]);
    assert!(compare_commits(&c, &c).is_empty());
}

#[test]
fn working_file_classification() {
    let h = calculate_hash_bytes(b"content");
    assert_eq!(classify_working_file(&h, Some(b"content")), None);
    assert_eq!(classify_working_file(&h, Some(b"changed")), Some(ChangeKind::Modified));
    assert_eq!(classify_working_file(&h, None), Some(ChangeKind::Deleted));
}

#[test]
fn untracked_paths_keep_order() {
    let c = commit_with("1", &[("a", "h1"), ("dir/b", "h2")]);
    let paths: Vec<String> = ["z", "a", "dir/b", "dir/c"].iter().map(|s| s.to_string()).collect();
    assert_eq!(untracked_paths(&c, &paths), vec!["z".to_string(), "dir/c".to_string()]);
}

#[test]
fn short_ids() {
    assert_eq!(short_id("1234abcd-5678-4abc-8def-0123456789ab"), "1234abcd");
    assert_eq!(short_id("12345678"), "12345678");
}
