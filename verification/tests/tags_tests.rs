use nota::tags::{add_tags, remove_tags, tag_add_message, tag_remove_message};

fn strings(v: &[&str]) -> Vec<String> {
    v.iter().map(|s| s.to_string()).collect()
}

#[test]
fn add_tags_lowercases_trims_and_dedups() {
    let mut tags = strings(&["rust"]);
    let changed = add_tags(&mut tags, &strings(&["  CLI ", "Rust", "", "cli", "perf"]));
    assert!(changed);
    assert_eq!(tags, strings(&["rust", "cli", "perf"]));
}

#[test]
fn add_tags_nothing_new() {
    let mut tags = strings(&["rust"]);
    let changed = add_tags(&mut tags, &strings(&["RUST", "   "]));
    assert!(!changed);
    assert_eq!(tags, strings(&["rust"]));
    assert_eq!(
        tag_add_message("deadbeef", &tags, false),
        "No new tags added (already present)."
    );
}

#[test]
fn add_then_remove() {
    let mut tags = Vec::new();
    add_tags(&mut tags, &strings(&["rust", "cli"]));
    assert_eq!(tag_add_message("abc", &tags, true), "Tagged note abc with: rust, cli");
    let removed = remove_tags(&mut tags, &strings(&["RUST"]));
    assert_eq!(removed, 1);
    assert_eq!(tags, strings(&["cli"]));
    assert_eq!(tag_remove_message(removed, &tags), "Removed 1 tag(s). Remaining: cli");
}

#[test]
fn remove_all_and_none() {
    let mut tags = strings(&["a", "b"]);
    let removed = remove_tags(&mut tags, &strings(&["a", "B"]));
    assert_eq!(removed, 2);
    assert_eq!(tag_remove_message(removed, &tags), "Removed 2 tag(s). Remaining: none");
    let removed = remove_tags(&mut tags, &strings(&["zzz"]));
    assert_eq!(removed, 0);
    assert_eq!(tag_remove_message(removed, &tags), "No matching tags found.");
}

#[test]
fn add_tags_twice_changes_nothing() {
    let mut tags = strings(&["rust"]);
    assert!(add_tags(&mut tags, &strings(&[" Perf ", "DB"])));
    let once = tags.clone();
    assert!(!add_tags(&mut tags, &strings(&[" Perf ", "DB"])));
    assert_eq!(tags, once);
    assert_eq!(tags, strings(&["rust", "perf", "db"]));
}
