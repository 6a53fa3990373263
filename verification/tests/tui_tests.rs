use nota::note::{Note, NoteFrontmatter};
use nota::display::{Span, Style};
use nota::tui::{
    help_lines, help_rect, list_label, list_rows, preview_commit, preview_lines, App, Key, KeyInput,
};

fn texts(lines: &[Vec<Span>]) -> Vec<String> {
    lines
        .iter()
        .map(|l| l.iter().map(|s| s.text.as_str()).collect::<String>())
        .collect()
}

fn note(id: &str, body: &str) -> Note {
    Note {
        frontmatter: NoteFrontmatter {
            id: id.to_string(),
            timestamp: "2026-03-05T14:32:00".to_string(),
            directory: "/d".to_string(),
            git_repo: "proj".to_string(),
            git_branch: "main".to_string(),
            commit_hash: "none".to_string(),
            tags: Vec::new(),
            changed_files: Vec::new(),
            unstaged_files: Vec::new(),
            untracked_files: Vec::new(),
        },
        body: body.to_string(),
        file_path: String::new(),
    }
}

fn key(code: Key) -> KeyInput {
    KeyInput { code, plain: true }
}

fn app() -> App {
    App::new(vec![
        note("a", "first note about Rust"),
        note("b", "second note"),
        note("c", "third: rust again"),
    ])
}

#[test]
fn new_shows_everything() {
    let a = app();
    assert_eq!(a.filtered_indices(), &vec![0, 1, 2]);
    assert_eq!(a.selected(), 0);
    assert_eq!(a.selected_note().unwrap().frontmatter.id, "a");
}

#[test]
fn navigation_stays_in_bounds() {
    let mut a = app();
    assert!(a.handle_input(key(Key::Up)));
    assert_eq!(a.selected(), 0);
    a.handle_input(key(Key::Char('j')));
    a.handle_input(key(Key::Down));
    a.handle_input(key(Key::Down));
    assert_eq!(a.selected(), 2);
    a.handle_input(key(Key::Home));
    assert_eq!(a.selected(), 0);
    a.handle_input(key(Key::End));
    assert_eq!(a.selected(), 2);
    a.handle_input(key(Key::Char('k')));
    assert_eq!(a.selected(), 1);
    a.handle_input(KeyInput { code: Key::Char('k'), plain: false });
    assert_eq!(a.selected(), 1);
}

#[test]
fn quit_keys() {
    let mut a = app();
    assert!(!a.handle_input(key(Key::Char('q'))));
    assert!(!a.handle_input(key(Key::Esc)));
}

#[test]
fn search_mode_filters() {
    let mut a = app();
    a.handle_input(key(Key::Char('/')));
    assert!(a.search_mode());
    for c in "RUST".chars() {
        a.handle_input(key(Key::Char(c)));
    }
    assert_eq!(a.filtered_indices(), &vec![0, 2]);
    a.handle_input(key(Key::Backspace));
    a.handle_input(key(Key::Enter));
    assert!(!a.search_mode());
    assert_eq!(a.filtered_indices(), &vec![0, 2]);
    a.handle_input(key(Key::Char('/')));
    a.handle_input(key(Key::Char('z')));
    assert!(a.filtered_indices().is_empty());
    assert!(a.selected_note().is_none());
    a.handle_input(key(Key::Esc));
    assert_eq!(a.filtered_indices(), &vec![0, 1, 2]);
}

#[test]
fn tag_mode_adds_lowercase_words() {
    let mut a = app();
    a.handle_input(key(Key::Down));
    a.handle_input(key(Key::Char('t')));
    assert!(a.tag_input_mode());
    assert_eq!(a.message().0, "Enter tag (space-separated):");
    for c in "Foo  bar foo".chars() {
        a.handle_input(key(Key::Char(c)));
    }
    assert_eq!(a.tag_input(), "Foo  bar foo");
    a.handle_input(key(Key::Enter));
    assert!(!a.tag_input_mode());
    assert_eq!(a.notes()[1].frontmatter.tags, vec!["foo".to_string(), "bar".to_string()]);
    assert_eq!(a.message().0, "Added tags to note b");
    assert_eq!(a.message().1, 60);
    a.tick();
    assert_eq!(a.message().1, 59);
}

#[test]
fn tag_mode_escape_clears() {
    let mut a = app();
    a.handle_input(key(Key::Char('t')));
    a.handle_input(key(Key::Char('x')));
    a.handle_input(key(Key::Backspace));
    assert_eq!(a.tag_input(), "");
    a.handle_input(key(Key::Char('y')));
    a.handle_input(key(Key::Esc));
    assert!(!a.tag_input_mode());
    assert_eq!(a.tag_input(), "");
    assert_eq!(a.message().0, "");
    assert!(a.notes()[0].frontmatter.tags.is_empty());
}

#[test]
fn labels() {
    assert_eq!(list_label("short line\nmore"), "short line");
    assert_eq!(list_label(""), "(empty)");
    let long = "a".repeat(40);
    assert_eq!(list_label(&long), format!("{}…", "a".repeat(35)));
    assert_eq!(preview_commit("a7f3c2d1e5f6"), "a7f3c2d1");
    assert_eq!(preview_commit("abc"), "abc");
}

#[test]
fn labels_cut_at_char_boundaries() {
    // Byte 35 falls inside the 'é' (bytes 34 and 35).
    let body = format!("{}é", "a".repeat(34));
    assert_eq!(list_label(&body), format!("{}…", "a".repeat(34)));
    // Byte 8 falls inside the 'é' (bytes 7 and 8).
    assert_eq!(preview_commit("abcdefgé12"), "abcdefg");
}

#[test]
fn preview_shows_fields_and_body() {
    let mut n = note("abcd1234", "line one\nline two");
    n.frontmatter.commit_hash = "a7f3c2d1e5f6".to_string();
    n.frontmatter.tags = vec!["rust".to_string(), "cli".to_string()];
    let a = App::new(vec![n]);
    let p = preview_lines(&a);
    assert_eq!(
        texts(&p),
        vec![
            "ID: abcd1234",
            "",
            "Timestamp: 2026-03-05T14:32:00",
            "Repo: proj",
            "Commit: a7f3c2d1",
            "Tags: rust, cli",
            "",
            "─── Body ───",
            "",
            "line one",
            "line two",
        ]
    );
    assert!(matches!(p[0][0].style, Style::Label));
}

#[test]
fn preview_skips_absent_commit_and_tags() {
    let a = App::new(vec![note("a", "body")]);
    assert_eq!(
        texts(&preview_lines(&a)),
        vec!["ID: a", "", "Timestamp: 2026-03-05T14:32:00", "Repo: proj", "", "─── Body ───", "", "body"]
    );
}

#[test]
fn preview_without_notes() {
    let a = App::new(Vec::new());
    let p = preview_lines(&a);
    assert_eq!(texts(&p), vec!["No notes"]);
    assert!(matches!(p[0][0].style, Style::Alert));
}

#[test]
fn help_follows_mode_and_message() {
    let mut a = app();
    assert_eq!(
        texts(&help_lines(&a)),
        vec!["", "─── Keybinds ───", "j/k, ↑/↓  Navigate", "/         Search", "t         Add tags", "q, Esc    Quit"]
    );
    a.handle_input(key(Key::Char('/')));
    assert_eq!(texts(&help_lines(&a)), vec!["", "Search mode: Type to filter, Enter/Esc to exit"]);
    a.handle_input(key(Key::Esc));
    a.handle_input(key(Key::Char('t')));
    a.handle_input(key(Key::Char('x')));
    let h = help_lines(&a);
    assert_eq!(
        texts(&h),
        vec![
            "Enter tag (space-separated):",
            "",
            "",
            "Tag mode: Type tags (space-separated), Enter to add, Esc to cancel",
            "> x",
        ]
    );
    assert!(matches!(h[0][0].style, Style::Notice));
    assert!(matches!(h[4][1].style, Style::Input));
}

#[test]
fn list_rows_label_and_mark_selection() {
    let mut a = app();
    a.handle_input(key(Key::Down));
    let rows = list_rows(&a);
    let labels: Vec<&str> = rows.iter().map(|r| r.label.as_str()).collect();
    assert_eq!(labels, vec!["first note about Rust", "second note", "third: rust again"]);
    let marks: Vec<bool> = rows.iter().map(|r| r.selected).collect();
    assert_eq!(marks, vec![false, true, false]);
    assert!(list_rows(&App::new(Vec::new())).is_empty());
}

#[test]
fn help_rect_sits_at_pane_bottom() {
    // Pane rows 2..42: six help lines start at row 2 + 40 - 7.
    assert_eq!(help_rect(5, 2, 30, 40, 6), (5, 35, 30, 6));
    // At most ten rows high.
    assert_eq!(help_rect(0, 0, 10, 40, 12), (0, 27, 10, 10));
    // A pane too short for the block keeps it at the pane's top.
    assert_eq!(help_rect(0, 4, 10, 3, 6), (0, 4, 10, 6));
}
