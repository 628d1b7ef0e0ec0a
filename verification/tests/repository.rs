use std::path::PathBuf;
use version_control::repository::{Commit, OldRepository, RepoError, Repository, Timestamp};
use version_control::str_map::StrMap;
use version_control::utils::calculate_hash_bytes;

fn comps(parts: &[&str]) -> Vec<String> {
    parts.iter().map(|s| s.to_string()).collect()
}

fn commit_with(id: &str, files: &[(&str, &str)]) -> Commit {
    let mut m = StrMap::new();
    for (p, h) in files {
        m.insert(p.to_string(), h.to_string());
    }
    Commit { id: id.to_string(), message: "m".to_string(), timestamp: Timestamp { secs: 0, nanos: 0 }, files: m }
}

#[test]
fn new_repository_is_empty() {
    let repo = Repository::new(PathBuf::from("/work"));
    assert!(repo.commits.is_empty());
    assert!(repo.staging.is_empty());
    assert!(repo.objects.is_empty());
    assert_eq!(repo.working_dir, PathBuf::from("/work"));
}

#[test]
fn stage_file_stores_object_and_relative_path() {
    let mut repo = Repository::new(PathBuf::from("/work"));
    let wd = comps(&["/", "work"]);
    let r = repo.stage_file(b"hello".to_vec(), &wd, &comps(&["/", "work", "dir", "a.txt"]), '/');
    assert_eq!(r, Ok(()));
    let h = calculate_hash_bytes(b"hello");
    assert_eq!(repo.staging.get("dir/a.txt"), Some(&h));
    assert_eq!(repo.get_object(&h), Ok(b"hello".to_vec()));
}

#[test]
fn stage_file_outside_is_refused_but_object_kept() {
    let mut repo = Repository::new(PathBuf::from("/work"));
    let wd = comps(&["/", "work"]);
    let r = repo.stage_file(b"data".to_vec(), &wd, &comps(&["/", "elsewhere", "a.txt"]), '/');
    assert_eq!(r, Err(RepoError::OutsideRepository));
    assert!(repo.staging.is_empty());
    assert_eq!(repo.get_object(&calculate_hash_bytes(b"data")), Ok(b"data".to_vec()));
}

#[test]
fn get_object_missing() {
    let repo = Repository::new(PathBuf::from("/work"));
    assert_eq!(repo.get_object("abc"), Err(RepoError::ObjectNotFound));
}

#[test]
fn commit_with_empty_staging_is_refused() {
    let mut repo = Repository::new(PathBuf::from("/work"));
    assert_eq!(repo.commit("msg"), Err(RepoError::NothingToCommit));
    assert!(repo.commits.is_empty());
}

#[test]
fn commit_records_staging_and_clears_it() {
    let mut repo = Repository::new(PathBuf::from("/work"));
    let wd = comps(&["/", "work"]);
    repo.stage_file(b"one".to_vec(), &wd, &comps(&["/", "work", "a"]), '/').unwrap();
    repo.stage_file(b"two".to_vec(), &wd, &comps(&["/", "work", "b"]), '/').unwrap();
    assert_eq!(repo.commit("first"), Ok(()));
    assert_eq!(repo.commits.len(), 1);
    let c = &repo.commits[0];
    assert_eq!(c.message, "first");
    assert_eq!(c.id.len(), 36);
    assert_eq!(c.files.len(), 2);
    assert_eq!(c.files.get("a"), Some(&calculate_hash_bytes(b"one")));
    assert_eq!(c.files.get("b"), Some(&calculate_hash_bytes(b"two")));
    assert!(c.timestamp.secs > 0);
    assert!(c.timestamp.nanos < 1_000_000_000);
    assert!(repo.staging.is_empty());
    assert_eq!(repo.commit("again"), Err(RepoError::NothingToCommit));
}

#[test]
fn get_commit_by_prefix_finds_first_match() {
    let mut repo = Repository::new(PathBuf::from("/work"));
    repo.commits.push(commit_with("abcd1234-0000", &[]));
    repo.commits.push(commit_with("abce0000-0000", &[]));
    repo.commits.push(commit_with("abcd9999-0000", &[]));
    assert_eq!(repo.find_commit("abcd"), Some(0));
    assert_eq!(repo.find_commit("abce"), Some(1));
    assert_eq!(repo.find_commit("abcd9"), Some(2));
    assert_eq!(repo.find_commit(""), Some(0));
    assert_eq!(repo.find_commit("zz"), None);
    assert_eq!(repo.get_commit("abce").map(|c| c.id.clone()), Some("abce0000-0000".to_string()));
    assert!(repo.get_commit("abcd99990").is_none());
}

#[test]
fn last_commit_of_empty_and_filled() {
    let mut repo = Repository::new(PathBuf::from("/work"));
    assert!(matches!(repo.last_commit(), Err(RepoError::NoCommits)));
    repo.commits.push(commit_with("one", &[]));
    repo.commits.push(commit_with("two", &[]));
    assert_eq!(repo.last_commit().unwrap().id, "two");
}

#[test]
fn migration_keeps_history_and_drops_objects() {
    let mut staging = StrMap::new();
    staging.insert("a".to_string(), "h1".to_string());
    let old = OldRepository { commits: vec![commit_with("c1", &[("b", "h2")])], staging, working_dir: PathBuf::from("/old") };
    let repo = Repository::from_old(old, PathBuf::from("/new"));
    assert_eq!(repo.commits.len(), 1);
    assert_eq!(repo.staging.get("a"), Some(&"h1".to_string()));
    assert!(repo.objects.is_empty());
    assert_eq!(repo.working_dir, PathBuf::from("/new"));
}

#[test]
fn rebuild_requests_list_staging_then_commits() {
    let mut repo = Repository::new(PathBuf::from("/work"));
    repo.staging.insert("s".to_string(), "hs".to_string());
    repo.commits.push(commit_with("c1", &[("a", "ha"), ("b", "hb")]));
    repo.commits.push(commit_with("c2", &[("c", "hc")]));
    let reqs = repo.rebuild_requests();
    let seen: Vec<(String, String, bool)> =
        reqs.iter().map(|r| (r.path.clone(), r.hash.clone(), r.only_if_missing)).collect();
    assert_eq!(seen, vec![
        ("s".to_string(), "hs".to_string(), false),
        ("a".to_string(), "ha".to_string(), true),
        ("b".to_string(), "hb".to_string(), true),
        ("c".to_string(), "hc".to_string(), true),
    ]);
    assert!(repo.needs_object(&reqs[0]));
    assert!(repo.needs_object(&reqs[1]));
    repo.rebuild_step(&reqs[1], Some(b"x".to_vec()));
    assert!(!repo.needs_object(&reqs[1]));
    assert_eq!(repo.get_object("ha"), Ok(b"x".to_vec()));
    repo.rebuild_step(&reqs[1], Some(b"y".to_vec()));
    assert_eq!(repo.get_object("ha"), Ok(b"x".to_vec()));
    repo.rebuild_step(&reqs[0], None);
    assert_eq!(repo.get_object("hs"), Err(RepoError::ObjectNotFound));
    repo.clear_objects();
    assert!(repo.needs_object(&reqs[1]));
}

#[test]
fn error_messages() {
    assert_eq!(RepoError::NothingToCommit.message(), "Nothing to commit");
    assert_eq!(RepoError::OutsideRepository.message(), "File is outside repository");
    assert_eq!(RepoError::ObjectNotFound.message(), "Object not found in repository");
    assert_eq!(RepoError::CommitNotFound.message(), "Commit not found");
    assert_eq!(RepoError::FirstCommitNotFound.message(), "First commit not found");
    assert_eq!(RepoError::SecondCommitNotFound.message(), "Second commit not found");
    assert_eq!(RepoError::NoCommits.message(), "No commits found in repository");
    assert_eq!(RepoError::InvalidDiffUsage.message(), "Invalid diff command usage");
}

#[test]
fn store_object_returns_hash() {
    let mut repo = Repository::new(PathBuf::from("/work"));
    let h = repo.store_object(b"abc".to_vec());
    assert_eq!(h, "ba7816bf8f01cfea414140de5dae2223b00361a396177a9cb410ff61f20015ad");
    assert_eq!(repo.get_object(&h), Ok(b"abc".to_vec()));
}
