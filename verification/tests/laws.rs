use std::path::PathBuf;
use version_control::commands::{add_action, classify_working_file, compare_commits, short_id, AddAction, ChangeKind};
use version_control::repository::{Commit, RepoError, Repository, Timestamp};
use version_control::str_map::StrMap;
use version_control::utils::generate_commit_id;

fn comps(parts: &[&str]) -> Vec<String> {
    parts.iter().map(|s| s.to_string()).collect()
}

#[test]
fn stored_object_is_readable_and_others_kept() {
    let mut repo = Repository::new(PathBuf::from("/w"));
    let h1 = repo.store_object(b"first".to_vec());
    let h2 = repo.store_object(b"second".to_vec());
    assert_eq!(repo.get_object(&h2), Ok(b"second".to_vec()));
    assert_eq!(repo.get_object(&h1), Ok(b"first".to_vec()));
}

#[test]
fn restaging_keeps_latest_in_place() {
    let mut repo = Repository::new(PathBuf::from("/w"));
    let wd = comps(&["/", "w"]);
    repo.stage_file(b"v1".to_vec(), &wd, &comps(&["/", "w", "a"]), '/').unwrap();
    repo.stage_file(b"x".to_vec(), &wd, &comps(&["/", "w", "b"]), '/').unwrap();
    repo.stage_file(b"v2".to_vec(), &wd, &comps(&["/", "w", "a"]), '/').unwrap();
    assert_eq!(repo.staging.len(), 2);
    let latest = version_control::utils::calculate_hash_bytes(b"v2");
    let (k, v) = repo.staging.entry(0);
    assert_eq!(k, "a");
    assert_eq!(v, &latest);
}

#[test]
fn staged_path_is_relative() {
    let mut repo = Repository::new(PathBuf::from("/w"));
    repo.stage_file(b"x".to_vec(), &comps(&["/", "w"]), &comps(&["/", "w", "d", "e", "f.txt"]), '/').unwrap();
    assert_eq!(repo.staging.entry(0).0, "d/e/f.txt");
}

#[test]
fn commit_twice_is_refused() {
    let mut repo = Repository::new(PathBuf::from("/w"));
    repo.stage_file(b"x".to_vec(), &comps(&["/", "w"]), &comps(&["/", "w", "a"]), '/').unwrap();
    assert_eq!(repo.commit("one"), Ok(()));
    assert_eq!(repo.commit("two"), Err(RepoError::NothingToCommit));
    assert_eq!(repo.commits.len(), 1);
}

#[test]
fn full_id_finds_commit() {
    let mut repo = Repository::new(PathBuf::from("/w"));
    for id in ["ab", "abc", "abcd"] {
        repo.commits.push(Commit {
            id: id.to_string(),
            message: String::new(),
            timestamp: Timestamp { secs: 0, nanos: 0 },
            files: StrMap::new(),
        });
    }
    assert_eq!(repo.find_commit("abc"), Some(1));
    assert_eq!(repo.find_commit("abcd"), Some(2));
    assert_eq!(repo.find_commit("ab"), Some(0));
}

#[test]
fn generated_ids_have_short_form() {
    let id = generate_commit_id();
    assert!(id.is_char_boundary(8));
    assert_eq!(short_id(&id), &id[..8]);
}

#[test]
fn unchanged_file_shows_no_change() {
    let mut repo = Repository::new(PathBuf::from("/w"));
    let h = repo.store_object(b"body".to_vec());
    assert_eq!(classify_working_file(&h, Some(b"body")), None);
}

#[test]
fn commit_changes_are_the_differences() {
    let mut f1 = StrMap::new();
    f1.insert("both".to_string(), "1".to_string());
    f1.insert("only1".to_string(), "2".to_string());
    let mut f2 = StrMap::new();
    f2.insert("only2".to_string(), "3".to_string());
    f2.insert("both".to_string(), "4".to_string());
    let c1 = Commit { id: "a".to_string(), message: String::new(), timestamp: Timestamp { secs: 0, nanos: 0 }, files: f1 };
    let c2 = Commit { id: "b".to_string(), message: String::new(), timestamp: Timestamp { secs: 0, nanos: 0 }, files: f2 };
    let changes = compare_commits(&c1, &c2);
    let find = |p: &str| changes.iter().find(|c| c.path == p).map(|c| c.kind);
    assert_eq!(find("both"), Some(ChangeKind::Modified));
    assert_eq!(find("only1"), Some(ChangeKind::Deleted));
    assert_eq!(find("only2"), Some(ChangeKind::Added));
    assert_eq!(changes.len(), 3);
}

#[test]
fn staged_content_is_restorable_after_commit() {
    let mut repo = Repository::new(PathBuf::from("/w"));
    let wd = comps(&["/", "w"]);
    repo.stage_file(b"payload".to_vec(), &wd, &comps(&["/", "w", "dir", "f"]), '/').unwrap();
    repo.commit("c").unwrap();
    let commit = repo.last_commit().unwrap();
    let hash = commit.files.get("dir/f").unwrap();
    assert_eq!(repo.get_object(hash), Ok(b"payload".to_vec()));
}

#[test]
fn rebuild_outcome() {
    let mut repo = Repository::new(PathBuf::from("/w"));
    repo.staging.insert("s1".to_string(), "h1".to_string());
    repo.staging.insert("s2".to_string(), "h1".to_string());
    let mut files = StrMap::new();
    files.insert("c1".to_string(), "h2".to_string());
    files.insert("c2".to_string(), "h2".to_string());
    files.insert("c3".to_string(), "h1".to_string());
    files.insert("c4".to_string(), "h3".to_string());
    repo.commits.push(Commit { id: "a".to_string(), message: String::new(), timestamp: Timestamp { secs: 0, nanos: 0 }, files });
    let found: Vec<Option<Vec<u8>>> = vec![
        Some(b"first staged".to_vec()),
        Some(b"second staged".to_vec()),
        None,
        Some(b"c2 content".to_vec()),
        Some(b"c3 content".to_vec()),
        None,
    ];
    repo.clear_objects();
    for (req, f) in repo.rebuild_requests().iter().zip(found) {
        repo.rebuild_step(req, f);
    }
    assert_eq!(repo.get_object("h1"), Ok(b"second staged".to_vec()));
    assert_eq!(repo.get_object("h2"), Ok(b"c2 content".to_vec()));
    assert_eq!(repo.get_object("h3"), Err(RepoError::ObjectNotFound));
    assert_eq!(repo.objects.len(), 2);
}

#[test]
fn add_actions() {
    assert_eq!(add_action(".", false, true), AddAction::WholeTree);
    assert_eq!(add_action("a.txt", true, false), AddAction::File);
    assert_eq!(add_action("dir", false, true), AddAction::Directory);
    assert_eq!(add_action("nope", false, false), AddAction::Missing);
    assert_eq!(add_action("./", false, true), AddAction::Directory);
}
