use nota::commands::{commit_notes, context_options, is_confirmation, list_notes, note_body, search_results};
use nota::context::{GitContext, NoteContext};
use nota::note::{Note, NoteFrontmatter};
use nota::search::FilterOptions;

fn make(id: &str, ts: &str, body: &str) -> Note {
    Note {
        frontmatter: NoteFrontmatter {
            id: id.to_string(),
            timestamp: ts.to_string(),
            directory: "/d".to_string(),
            git_repo: "r".to_string(),
            git_branch: "m".to_string(),
            commit_hash: "none".to_string(),
            tags: Vec::new(),
            changed_files: Vec::new(),
            unstaged_files: Vec::new(),
            untracked_files: Vec::new(),
        },
        body: body.to_string(),
        file_path: String::new(),
    }
}

#[test]
fn list_sorts_then_limits() {
    let notes = vec![
        make("a", "2026-01-01T00:00:00", "x"),
        make("b", "2026-03-01T00:00:00", "y"),
        make("c", "2026-02-01T00:00:00", "z"),
    ];
    let opts = FilterOptions { limit: 2, ..Default::default() };
    let r = list_notes(notes, &opts);
    let ids: Vec<&str> = r.iter().map(|n| n.frontmatter.id.as_str()).collect();
    assert_eq!(ids, vec!["b", "c"]);
}

#[test]
fn search_exact_and_fuzzy() {
    let notes = vec![
        make("a", "2026-01-01T00:00:00", "debugging the auth flow"),
        make("b", "2026-02-01T00:00:00", "authentication in progress"),
        make("c", "2026-03-01T00:00:00", "the quick brown fox"),
    ];
    let opts = FilterOptions::default();
    let exact = search_results(notes.clone(), "auth", &opts, false);
    assert_eq!(exact.len(), 2);
    assert_eq!(exact[0].frontmatter.id, "b");
    let exact = search_results(notes.clone(), "qck", &opts, false);
    assert!(exact.is_empty());
    let fuzzy = search_results(notes, "qck", &opts, true);
    assert_eq!(fuzzy.len(), 1);
}

#[test]
fn commits_view() {
    let mut a = make("a", "2026-01-01T00:00:00", "note in commit 1");
    a.frontmatter.commit_hash = "1111111122223333".to_string();
    let mut b = make("b", "2026-01-02T00:00:00", "note in commit 2");
    b.frontmatter.commit_hash = "4444444455556666".to_string();
    let r = commit_notes(vec![a, b], "11111111");
    assert_eq!(r.len(), 1);
    assert_eq!(r[0].body, "note in commit 1");
}

#[test]
fn context_options_choice() {
    let o = context_options(None, None, Some("/p".into()), Some("repo".into()));
    assert!(o.here);
    assert_eq!(o.current_dir.as_deref(), Some("/p"));
    let o = context_options(Some("myapp".into()), None, None, None);
    assert!(!o.here);
    assert_eq!(o.repo.as_deref(), Some("myapp"));
}

#[test]
fn note_body_trims_and_rejects_empty() {
    assert_eq!(note_body("  hello \n").as_deref(), Some("hello"));
    assert!(note_body("").is_none());
    assert!(note_body(" \n\t ").is_none());
}

#[test]
fn confirmation_answers() {
    assert!(is_confirmation("y\n"));
    assert!(is_confirmation(" YES "));
    assert!(!is_confirmation("n"));
    assert!(!is_confirmation(""));
    assert!(!is_confirmation("yess"));
}

#[test]
fn note_from_context() {
    let git = GitContext {
        repo_name: "repo".into(),
        branch: "main".into(),
        commit_hash: "abc".into(),
        staged: vec!["a.rs".into()],
        unstaged: vec![],
        untracked: vec!["n.rs".into()],
    };
    let ctx = NoteContext::from_parts("2026-03-05T10:00:00".into(), "/tmp".into(), Some(git));
    let n = Note::from_context(ctx, "deadbeef".into(), "body".into(), "/x/deadbeef.md".into());
    assert_eq!(n.frontmatter.git_repo, "repo");
    assert_eq!(n.frontmatter.changed_files, vec!["a.rs".to_string()]);
    assert!(n.frontmatter.tags.is_empty());
    let ctx = NoteContext::from_parts("t".into(), "/tmp".into(), None);
    assert_eq!(ctx.git_repo, "none");
    assert_eq!(ctx.git_branch, "none");
    assert_eq!(ctx.commit_hash, "none");
    assert!(ctx.changed_files.is_empty());
}
