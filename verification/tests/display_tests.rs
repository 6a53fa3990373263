use nota::display::{format_timestamp, truncate_body};

#[test]
fn truncate_body_short_string() {
    let s = truncate_body("hello", 80);
    assert_eq!(s, "hello");
}

#[test]
fn truncate_body_at_boundary() {
    let s = truncate_body("abcde", 5);
    assert_eq!(s, "abcde");
}

#[test]
fn truncate_body_over_limit() {
    let s = truncate_body("abcdef", 5);
    assert_eq!(s, "abcde…");
}

#[test]
fn truncate_body_uses_first_line_only() {
    let s = truncate_body("line one\nline two", 80);
    assert_eq!(s, "line one");
}

#[test]
fn format_timestamp_valid() {
    let s = format_timestamp("2026-03-05T14:32:00");
    assert_eq!(s, "2026-03-05 14:32");
}

#[test]
fn format_timestamp_invalid_passthrough() {
    let s = format_timestamp("not-a-date");
    assert_eq!(s, "not-a-date");
}

use nota::display::{
    highlight_matches, highlight_row_spans, log_row_spans, note_row, notes_table, show_spans,
    stats_spans, DisplayConfig, Span, Style,
};
use nota::note::{Note, NoteFrontmatter};
use nota::search::{NoteStats, RepoGroup};

fn text_of(spans: &[Span]) -> String {
    spans.iter().map(|s| s.text.as_str()).collect()
}

fn note(id: &str, tags: Vec<&str>, body: &str) -> Note {
    Note {
        frontmatter: NoteFrontmatter {
            id: id.to_string(),
            timestamp: "2026-03-05T14:32:00".to_string(),
            directory: "/d".to_string(),
            git_repo: "proj".to_string(),
            git_branch: "main".to_string(),
            commit_hash: "none".to_string(),
            tags: tags.into_iter().map(String::from).collect(),
            changed_files: Vec::new(),
            unstaged_files: Vec::new(),
            untracked_files: Vec::new(),
        },
        body: body.to_string(),
        file_path: format!("/tmp/{}.md", id),
    }
}

#[test]
fn highlight_matches_wraps_term() {
    let result = highlight_matches("Check the Auth middleware", "auth");
    assert!(text_of(&result).contains("Auth"));
    let marked: Vec<&str> = result
        .iter()
        .filter(|s| matches!(s.style, Style::Match))
        .map(|s| s.text.as_str())
        .collect();
    assert_eq!(marked, vec!["Auth"]);
}

#[test]
fn highlight_matches_no_match() {
    let result = highlight_matches("nothing here", "xyz");
    assert_eq!(text_of(&result), "nothing here");
}

#[test]
fn highlight_matches_several_and_empty_query() {
    let result = highlight_matches("aXa xa", "a");
    assert_eq!(text_of(&result), "aXa xa");
    let n = result.iter().filter(|s| matches!(s.style, Style::Match)).count();
    assert_eq!(n, 3);
}

#[test]
fn highlight_matches_empty_query_leaves_text_unmarked() {
    let result = highlight_matches("abc", "");
    assert_eq!(result.len(), 1);
    assert_eq!(result[0].text, "abc");
    assert!(matches!(result[0].style, Style::Plain));
}

#[test]
fn highlight_matches_length_changing_lowercase_leaves_text_unmarked() {
    // 'İ' lowercases to two characters, so positions would not line up.
    let result = highlight_matches("İa", "a");
    assert_eq!(result.len(), 1);
    assert_eq!(result[0].text, "İa");
    assert!(matches!(result[0].style, Style::Plain));
}

#[test]
fn table_row_text() {
    let config = DisplayConfig::default();
    assert_eq!(config.body_width, 80);
    let row = note_row(&note("abcd1234", vec![], "Hello\nsecond"), &config);
    assert_eq!(text_of(&row), "2026-03-05 14:32  proj/main  Hello  [abcd1234]");
    let row = note_row(&note("abcd1234", vec!["rust", "cli"], "Hello"), &config);
    assert_eq!(
        text_of(&row),
        "2026-03-05 14:32  proj/main  Hello  #rust #cli  [abcd1234]"
    );
    assert_eq!(notes_table(&[note("a", vec![], "x")], &config).len(), 1);
}

#[test]
fn highlight_row_text() {
    let config = DisplayConfig::default();
    let row = highlight_row_spans(&note("abcd1234", vec![], "the quick fox"), "QUICK", &config);
    assert_eq!(text_of(&row), "2026-03-05 14:32  proj/main  the quick fox  [abcd1234]");
}

#[test]
fn log_row_text() {
    let g = RepoGroup {
        repo: "alpha".to_string(),
        note_count: 1,
        last_activity: "2026-03-01 10:00".to_string(),
    };
    assert_eq!(
        text_of(&log_row_spans(&g)),
        format!("{:<30}  {:<10}  last: 2026-03-01 10:00", "alpha", "1 note ")
    );
    let g = RepoGroup {
        repo: "beta".to_string(),
        note_count: 12,
        last_activity: "unknown".to_string(),
    };
    assert_eq!(
        text_of(&log_row_spans(&g)),
        format!("{:<30}  {:<10}  last: unknown", "beta", "12 notes")
    );
}

#[test]
fn show_output_plain_body() {
    let out = text_of(&show_spans(&note("a", vec![], "show me this body")));
    assert_eq!(out, "show me this body");
    assert!(!out.contains("staged files"));
}

#[test]
fn show_output_with_commit_and_staged() {
    let mut n = note("a", vec![], "Fix it");
    n.frontmatter.commit_hash = "a7f3c2d1e5f6a7b8c9d0".to_string();
    n.frontmatter.changed_files = vec!["src/db/users.rs".to_string(), "hello.rs".to_string()];
    let out = text_of(&show_spans(&n));
    assert!(out.starts_with("Fix it\n\n── commit a7f3c2d1\n"));
    assert!(out.contains("── staged "));
    assert!(out.contains("  hello.rs\n"));
    assert!(!out.contains("untracked"));
}

#[test]
fn stats_lines_text() {
    let st = NoteStats {
        total: 142,
        today: 3,
        this_week: 17,
        this_month: 41,
        most_active_repo: Some("myapp".to_string()),
        most_active_repo_count: 58,
    };
    let lines: Vec<String> = stats_spans(&st).iter().map(|l| text_of(l)).collect();
    assert_eq!(lines.len(), 7);
    assert_eq!(lines[1], format!("  {:<18} {}", "Total notes", 142));
    assert_eq!(lines[2], format!("  {:<18} {}", "Today", 3));
    assert_eq!(lines[6], format!("  {:<18} {} · 58 notes", "Most active repo", "myapp"));
    let empty = NoteStats {
        total: 0,
        today: 0,
        this_week: 0,
        this_month: 0,
        most_active_repo: None,
        most_active_repo_count: 0,
    };
    let lines: Vec<String> = stats_spans(&empty).iter().map(|l| text_of(l)).collect();
    assert!(lines[1].contains('0'));
    assert_eq!(lines[6], format!("  {:<18} —", "Most active repo"));
}

#[test]
fn format_timestamp_year_padding() {
    assert_eq!(format_timestamp("0042-01-02T03:04:05"), "0042-01-02 03:04");
}
