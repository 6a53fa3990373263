use nota::context::parse_repo_name_from_url;

#[test]
fn https_url_with_git_suffix() {
    assert_eq!(
        parse_repo_name_from_url("https://github.com/user/my-app.git"),
        Some("my-app".to_string())
    );
}

#[test]
fn https_url_without_git_suffix() {
    assert_eq!(
        parse_repo_name_from_url("https://github.com/user/my-app"),
        Some("my-app".to_string())
    );
}

#[test]
fn ssh_url_with_git_suffix() {
    assert_eq!(
        parse_repo_name_from_url("git@github.com:user/my-app.git"),
        Some("my-app".to_string())
    );
}

#[test]
fn ssh_url_without_git_suffix() {
    assert_eq!(
        parse_repo_name_from_url("git@github.com:user/my-app"),
        Some("my-app".to_string())
    );
}

#[test]
fn https_url_trailing_slash() {
    assert_eq!(
        parse_repo_name_from_url("https://github.com/user/my-app/"),
        Some("my-app".to_string())
    );
}

#[test]
fn https_url_no_path_segment() {
    assert!(parse_repo_name_from_url("https://github.com/").is_some());
}

#[test]
fn empty_string() {
    assert_eq!(parse_repo_name_from_url(""), None);
}

use nota::context::{collect_diff_paths, resolve_repo_name, select_remote, DiffEntry};

#[test]
fn scp_like_url_without_git_at() {
    assert_eq!(
        parse_repo_name_from_url("host:team/proj.git.git"),
        Some("proj".to_string())
    );
    assert_eq!(parse_repo_name_from_url("git@github.com"), None);
    assert_eq!(parse_repo_name_from_url("https://x/.git"), None);
}

#[test]
fn remote_selection() {
    let names: Vec<String> = vec!["upstream".into(), "origin".into()];
    assert_eq!(select_remote(&names).as_deref(), Some("origin"));
    let names: Vec<String> = vec!["zeta".into(), "alpha".into()];
    assert_eq!(select_remote(&names).as_deref(), Some("alpha"));
    assert_eq!(select_remote(&Vec::new()), None);
}

#[test]
fn repo_name_fallbacks() {
    assert_eq!(resolve_repo_name(Some("git@h:u/app.git"), Some("dir")), "app");
    assert_eq!(resolve_repo_name(Some(""), Some("dir")), "dir");
    assert_eq!(resolve_repo_name(None, None), "none");
}

#[test]
fn diff_paths_sorted_and_filtered() {
    let entries = vec![
        DiffEntry { untracked: false, new_path: Some("src/z.rs".into()) },
        DiffEntry { untracked: true, new_path: Some("new.rs".into()) },
        DiffEntry { untracked: false, new_path: None },
        DiffEntry { untracked: false, new_path: Some("README.md".into()) },
    ];
    let all = collect_diff_paths(
        entries
            .iter()
            .map(|e| DiffEntry { untracked: e.untracked, new_path: e.new_path.clone() })
            .collect(),
        false,
    );
    assert_eq!(all, vec!["README.md", "new.rs", "src/z.rs"]);
    let untracked = collect_diff_paths(entries, true);
    assert_eq!(untracked, vec!["new.rs"]);
}
