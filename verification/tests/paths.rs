use version_control::paths::{
    has_hidden_component, is_addable, is_in_repository_dir, is_repository_dir, path_starts_with,
    relative_path, repository_dir,
};

fn comps(parts: &[&str]) -> Vec<String> {
    parts.iter().map(|s| s.to_string()).collect()
}

#[test]
fn repository_dir_is_mini_git() {
    assert_eq!(repository_dir(), ".mini-git");
}

#[test]
fn starts_with_is_component_wise() {
    let base = comps(&["/", "home", "user"]);
    assert!(path_starts_with(&comps(&["/", "home", "user", "a.txt"]), &base));
    assert!(path_starts_with(&base, &base));
    assert!(!path_starts_with(&comps(&["/", "home", "username", "a.txt"]), &base));
    assert!(!path_starts_with(&comps(&["/", "home"]), &base));
}

#[test]
fn relative_path_joins_rest_with_slashes() {
    let base = comps(&["/", "work"]);
    assert_eq!(relative_path(&comps(&["/", "work", "src", "main.rs"]), &base, '/'), Some("src/main.rs".to_string()));
    assert_eq!(relative_path(&comps(&["/", "work", "a"]), &base, '/'), Some("a".to_string()));
    assert_eq!(relative_path(&base, &base, '/'), Some(String::new()));
    assert_eq!(relative_path(&comps(&["/", "other", "a"]), &base, '/'), None);
}

#[test]
fn repository_dir_detection() {
    let wd = comps(&["/", "work"]);
    assert!(is_in_repository_dir(&comps(&["/", "work", ".mini-git", "repository.json"]), &wd));
    assert!(!is_in_repository_dir(&comps(&["/", "work", "src", ".mini-git"]), &wd));
    assert!(is_repository_dir(&comps(&["/", "work", ".mini-git"])));
    assert!(!is_repository_dir(&comps(&["/", "work", ".mini-gitx"])));
    assert!(!is_repository_dir(&[]));
}

#[test]
fn hidden_components() {
    assert!(has_hidden_component("/work/.git/config"));
    assert!(has_hidden_component("src/.hidden"));
    assert!(!has_hidden_component(".hidden"));
    assert!(!has_hidden_component("/work/src/a.b"));
    assert!(!has_hidden_component("/"));
}

#[test]
fn addable_files() {
    let wd = comps(&["/", "work"]);
    let inside = comps(&["/", "work", ".mini-git", "x"]);
    assert!(!is_addable(&inside, "/work/.mini-git/x", &wd, true));
    let plain = comps(&["/", "work", "a.txt"]);
    assert!(is_addable(&plain, "/work/a.txt", &wd, true));
    let dir_walk = comps(&["src", "b.txt"]);
    assert!(is_addable(&dir_walk, "src/b.txt", &wd, false));
    assert!(!is_addable(&comps(&["src", ".b"]), "src/.b", &wd, false));
}

#[test]
fn relative_path_uses_given_separator() {
    let base = comps(&["C:", "\\", "work"]);
    assert_eq!(
        relative_path(&comps(&["C:", "\\", "work", "src", "main.rs"]), &base, '\\'),
        Some("src\\main.rs".to_string())
    );
}
