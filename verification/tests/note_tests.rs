use nota::note::{
    compose_note_file, generate_id, id_from_uuid, has_md_extension, join_path, note_path, parse_timestamp,
    resolve_notes_dir, split_note_file, NoteParseError,
};

fn valid_note_content(tags: &str) -> String {
    format!(
        "---\nid: abcd1234\ntimestamp: 2026-03-05T14:32:00\ndirectory: /home/user/proj\ngit_repo: proj\ngit_branch: main\n{tags}---\n\nThis is the body.\n",
        tags = tags
    )
}

#[test]
fn split_valid_note_no_tags() {
    let content = valid_note_content("");
    let parts = split_note_file(&content).unwrap();
    assert_eq!(
        parts.yaml,
        "id: abcd1234\ntimestamp: 2026-03-05T14:32:00\ndirectory: /home/user/proj\ngit_repo: proj\ngit_branch: main"
    );
    assert_eq!(parts.body, "This is the body.");
}

#[test]
fn split_valid_note_with_tags() {
    let content = valid_note_content("tags:\n- rust\n- cli\n");
    let parts = split_note_file(&content).unwrap();
    assert!(parts.yaml.ends_with("tags:\n- rust\n- cli"));
}

#[test]
fn split_missing_frontmatter() {
    let content = "No frontmatter here\njust plain text\n";
    let result = split_note_file(content);
    assert!(matches!(result, Err(NoteParseError::MissingFrontmatter)));
}

#[test]
fn split_unclosed_frontmatter() {
    let content = "---\nid: abcd1234\ntimestamp: 2026-03-05T14:32:00\n";
    let result = split_note_file(content);
    assert!(matches!(result, Err(NoteParseError::MissingFrontmatter)));
}

#[test]
fn split_fence_with_surrounding_whitespace() {
    let parts = split_note_file("  ---  \r\na: 1\n --- \n\n\nbody line\n  \n").unwrap();
    assert_eq!(parts.yaml, "a: 1");
    assert_eq!(parts.body, "body line");
}

#[test]
fn split_empty_content_is_missing_frontmatter() {
    assert!(matches!(
        split_note_file(""),
        Err(NoteParseError::MissingFrontmatter)
    ));
}

#[test]
fn invalid_yaml_error_message() {
    let err = serde_yaml::from_str::<serde_yaml::Value>(": bad: yaml: [").unwrap_err();
    let e = NoteParseError::from(err);
    assert!(matches!(e, NoteParseError::InvalidYaml(_)));
    assert!(e.message().starts_with("invalid YAML: "));
    assert!(e.message().len() > "invalid YAML: ".len());
}

#[test]
fn missing_frontmatter_message() {
    assert_eq!(
        NoteParseError::MissingFrontmatter.message(),
        "missing or malformed frontmatter"
    );
}

#[test]
fn generate_id_is_8_chars_hex() {
    for _ in 0..20 {
        let id = generate_id();
        assert_eq!(id.len(), 8, "ID should be 8 chars");
        assert!(
            id.chars().all(|c| c.is_ascii_hexdigit()),
            "ID should be hex: {}",
            id
        );
    }
}

#[test]
fn generate_id_varies() {
    let a = generate_id();
    let b = generate_id();
    let c = generate_id();
    assert!(a != b || b != c);
}

#[test]
fn parse_timestamp_valid() {
    let ts = parse_timestamp("2026-03-05T14:32:00");
    assert!(ts.is_some());
    let t = ts.unwrap().stamp();
    assert_eq!(t, (2026, 3, 5, 14, 32, 0, 0));
}

#[test]
fn parse_timestamp_invalid() {
    let ts = parse_timestamp("not-a-date");
    assert!(ts.is_none());
}

#[test]
fn compose_then_split_roundtrip() {
    let yaml = "---\nid: deadbeef\ntimestamp: 2026-03-05T10:00:00\ntags:\n- rust\n- test\n";
    let content = compose_note_file(yaml, "Round-trip test body.\n\n  ");
    assert_eq!(
        content,
        "---\nid: deadbeef\ntimestamp: 2026-03-05T10:00:00\ntags:\n- rust\n- test\n---\n\nRound-trip test body.\n"
    );
    let parts = split_note_file(&content).unwrap();
    assert_eq!(
        parts.yaml,
        "id: deadbeef\ntimestamp: 2026-03-05T10:00:00\ntags:\n- rust\n- test"
    );
    assert_eq!(parts.body, "Round-trip test body.");
}

#[test]
fn compose_multiline_body_roundtrip() {
    let content = compose_note_file("a: 1\n", "line one\n\nline three");
    let parts = split_note_file(&content).unwrap();
    assert_eq!(parts.yaml, "a: 1");
    assert_eq!(parts.body, "line one\n\nline three");
}

#[test]
fn join_path_rules() {
    assert_eq!(join_path("/home/u", ".notes"), "/home/u/.notes");
    assert_eq!(join_path("/home/u/", ".notes"), "/home/u/.notes");
    assert_eq!(join_path("", ".notes"), ".notes");
    assert_eq!(join_path("/home/u", "/abs"), "/abs");
}

#[test]
fn note_path_appends_md() {
    assert_eq!(note_path("/tmp/notes", "abcd1234"), "/tmp/notes/abcd1234.md");
}

#[test]
fn notes_dir_resolution() {
    assert_eq!(resolve_notes_dir(Some("/x/y"), Some("/home/u"), None), "/x/y");
    assert_eq!(resolve_notes_dir(None, Some("/home/u"), Some("C:/p")), "/home/u/.notes");
    assert_eq!(resolve_notes_dir(None, None, Some("/p")), "/p/.notes");
    assert_eq!(resolve_notes_dir(None, None, None), "./.notes");
}

#[test]
fn md_extension() {
    assert!(has_md_extension("a.md"));
    assert!(has_md_extension("x.tar.md"));
    assert!(!has_md_extension(".md"));
    assert!(!has_md_extension("md"));
    assert!(!has_md_extension("a.mdx"));
    assert!(!has_md_extension("a.txt"));
}

#[test]
fn id_is_first_group_of_uuid() {
    assert_eq!(id_from_uuid("3f2a9c1b-7d4e-4a8b-9c0d-1e2f3a4b5c6d"), "3f2a9c1b");
}
