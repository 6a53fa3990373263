use nota::note::{Note, NoteFrontmatter};
use nota::search::{
    apply_filters, compute_stats, filter_by_commit, fuzzy_search, group_by_repo,
    group_by_repo_since, search_notes, sort_by_recency, Cutoff, FilterOptions,
};

fn make_note(
    id: &str,
    repo: &str,
    branch: &str,
    dir: &str,
    ts: &str,
    tags: Vec<&str>,
    body: &str,
) -> Note {
    Note {
        frontmatter: NoteFrontmatter {
            id: id.to_string(),
            timestamp: ts.to_string(),
            directory: dir.to_string(),
            git_repo: repo.to_string(),
            git_branch: branch.to_string(),
            commit_hash: "none".to_string(),
            tags: tags.into_iter().map(String::from).collect(),
            changed_files: Vec::new(),
            unstaged_files: Vec::new(),
            untracked_files: Vec::new(),
        },
        body: body.to_string(),
        file_path: format!("/tmp/{}.md", id),
    }
}

fn ids(notes: &[Note]) -> Vec<String> {
    notes.iter().map(|n| n.frontmatter.id.clone()).collect()
}

#[test]
fn sort_by_recency_orders_most_recent_first() {
    let mut notes = vec![
        make_note("a", "r", "m", "/d", "2026-01-01T10:00:00", vec![], "old"),
        make_note("b", "r", "m", "/d", "2026-03-01T10:00:00", vec![], "new"),
        make_note("c", "r", "m", "/d", "2026-02-01T10:00:00", vec![], "mid"),
    ];
    sort_by_recency(&mut notes);
    assert_eq!(notes[0].frontmatter.id, "b");
    assert_eq!(notes[1].frontmatter.id, "c");
    assert_eq!(notes[2].frontmatter.id, "a");
}

#[test]
fn sort_by_recency_unparseable_last_and_stable() {
    let mut notes = vec![
        make_note("x", "r", "m", "/d", "garbage", vec![], ""),
        make_note("a", "r", "m", "/d", "2026-01-01T10:00:00", vec![], ""),
        make_note("b", "r", "m", "/d", "2026-01-01T10:00:00", vec![], ""),
        make_note("y", "r", "m", "/d", "also bad", vec![], ""),
        make_note("c", "r", "m", "/d", "2027-01-01T10:00:00", vec![], ""),
    ];
    sort_by_recency(&mut notes);
    assert_eq!(ids(&notes), vec!["c", "a", "b", "x", "y"]);
}

#[test]
fn apply_filters_repo() {
    let notes = vec![
        make_note("a", "alpha", "main", "/d", "2026-01-01T00:00:00", vec![], ""),
        make_note("b", "beta", "main", "/d", "2026-01-01T00:00:00", vec![], ""),
    ];
    let opts = FilterOptions {
        repo: Some("alpha".into()),
        ..Default::default()
    };
    let result = apply_filters(notes, &opts);
    assert_eq!(result.len(), 1);
    assert_eq!(result[0].frontmatter.id, "a");
}

#[test]
fn apply_filters_branch() {
    let notes = vec![
        make_note("a", "r", "main", "/d", "2026-01-01T00:00:00", vec![], ""),
        make_note("b", "r", "feature", "/d", "2026-01-01T00:00:00", vec![], ""),
    ];
    let opts = FilterOptions {
        branch: Some("feature".into()),
        ..Default::default()
    };
    let result = apply_filters(notes, &opts);
    assert_eq!(result.len(), 1);
    assert_eq!(result[0].frontmatter.id, "b");
}

#[test]
fn apply_filters_tag_case_insensitive() {
    let notes = vec![
        make_note("a", "r", "m", "/d", "2026-01-01T00:00:00", vec!["Rust"], ""),
        make_note("b", "r", "m", "/d", "2026-01-01T00:00:00", vec!["cli"], ""),
    ];
    let opts = FilterOptions {
        tag: Some("rust".into()),
        ..Default::default()
    };
    let result = apply_filters(notes, &opts);
    assert_eq!(result.len(), 1);
    assert_eq!(result[0].frontmatter.id, "a");
}

#[test]
fn apply_filters_here() {
    let notes = vec![
        make_note("a", "myrepo", "m", "/projects/myrepo", "2026-01-01T00:00:00", vec![], ""),
        make_note("b", "myrepo", "m", "/other/dir", "2026-01-01T00:00:00", vec![], ""),
        make_note("c", "other", "m", "/projects/myrepo", "2026-01-01T00:00:00", vec![], ""),
    ];
    let opts = FilterOptions {
        here: true,
        current_repo: Some("myrepo".into()),
        current_dir: Some("/projects/myrepo".into()),
        ..Default::default()
    };
    let result = apply_filters(notes, &opts);
    assert_eq!(result.len(), 1);
    assert_eq!(result[0].frontmatter.id, "a");
}

#[test]
fn apply_filters_here_without_context_matches_nothing() {
    let notes = vec![make_note("a", "r", "m", "/d", "2026-01-01T00:00:00", vec![], "")];
    let opts = FilterOptions {
        here: true,
        ..Default::default()
    };
    assert!(apply_filters(notes, &opts).is_empty());
}

#[test]
fn apply_filters_limit() {
    let notes = (0..10)
        .map(|i| {
            make_note(
                &format!("{:08}", i),
                "r",
                "m",
                "/d",
                "2026-01-01T00:00:00",
                vec![],
                "",
            )
        })
        .collect();
    let opts = FilterOptions {
        limit: 3,
        ..Default::default()
    };
    let result = apply_filters(notes, &opts);
    assert_eq!(result.len(), 3);
    assert_eq!(ids(&result), vec!["00000000", "00000001", "00000002"]);
}

#[test]
fn default_filter_options() {
    let o = FilterOptions::default();
    assert_eq!(o.limit, 20);
    assert!(!o.here);
    assert!(o.repo.is_none() && o.branch.is_none() && o.tag.is_none());
}

#[test]
fn search_notes_case_insensitive() {
    let notes = vec![
        make_note("a", "r", "m", "/d", "2026-01-01T00:00:00", vec![], "Check the Auth middleware"),
        make_note("b", "r", "m", "/d", "2026-01-01T00:00:00", vec![], "unrelated note"),
    ];
    let result = search_notes(notes, "auth");
    assert_eq!(result.len(), 1);
    assert_eq!(result[0].frontmatter.id, "a");
}

#[test]
fn search_notes_uppercase_query() {
    let notes = vec![make_note("a", "r", "m", "/d", "t", vec![], "Check the Auth middleware")];
    assert_eq!(search_notes(notes, "AUTH").len(), 1);
}

#[test]
fn group_by_repo_counts() {
    let notes = vec![
        make_note("a", "alpha", "m", "/d", "2026-03-01T00:00:00", vec![], ""),
        make_note("b", "alpha", "m", "/d", "2026-03-02T00:00:00", vec![], ""),
        make_note("c", "beta", "m", "/d", "2026-03-01T00:00:00", vec![], ""),
    ];
    let groups = group_by_repo(&notes, None);
    let alpha = groups.iter().find(|g| g.repo == "alpha").unwrap();
    let beta = groups.iter().find(|g| g.repo == "beta").unwrap();
    assert_eq!(alpha.note_count, 2);
    assert_eq!(beta.note_count, 1);
}

#[test]
fn group_by_repo_order_and_last_activity() {
    let notes = vec![
        make_note("a", "alpha", "m", "/d", "2026-03-01T00:00:00", vec![], ""),
        make_note("b", "alpha", "m", "/d", "2026-03-02T09:05:00", vec![], ""),
        make_note("c", "beta", "m", "/d", "2026-04-01T00:00:00", vec![], ""),
        make_note("d", "gamma", "m", "/d", "not a time", vec![], ""),
    ];
    let groups = group_by_repo(&notes, None);
    let names: Vec<&str> = groups.iter().map(|g| g.repo.as_str()).collect();
    assert_eq!(names, vec!["gamma", "beta", "alpha"]);
    assert_eq!(groups[0].last_activity, "unknown");
    assert_eq!(groups[1].last_activity, "2026-04-01 00:00");
    assert_eq!(groups[2].last_activity, "2026-03-02 09:05");
    let total: usize = groups.iter().map(|g| g.note_count).sum();
    assert_eq!(total, notes.len());
}

#[test]
fn group_by_repo_with_days_window() {
    let recent = chrono::Local::now().format("%Y-%m-%dT%H:%M:%S").to_string();
    let notes = vec![
        make_note("a", "alpha", "m", "/d", &recent, vec![], ""),
        make_note("b", "beta", "m", "/d", "2000-01-01T00:00:00", vec![], ""),
        make_note("c", "gamma", "m", "/d", "bad", vec![], ""),
    ];
    let groups = group_by_repo(&notes, Some(7));
    assert_eq!(groups.len(), 1);
    assert_eq!(groups[0].repo, "alpha");
}

#[test]
fn group_by_repo_since_earliest_keeps_parsed_only() {
    let notes = vec![
        make_note("a", "alpha", "m", "/d", "1900-01-01T00:00:00", vec![], ""),
        make_note("c", "gamma", "m", "/d", "bad", vec![], ""),
    ];
    let groups = group_by_repo_since(&notes, Cutoff::Earliest);
    assert_eq!(groups.len(), 1);
    assert_eq!(groups[0].repo, "alpha");
}

#[test]
fn compute_stats_counts() {
    let now = chrono::Local::now().format("%Y-%m-%dT%H:%M:%S").to_string();
    let notes = vec![
        make_note("a", "alpha", "m", "/d", &now, vec![], ""),
        make_note("b", "alpha", "m", "/d", "2000-01-01T00:00:00", vec![], ""),
        make_note("c", "beta", "m", "/d", "bad", vec![], ""),
        make_note("d", "none", "m", "/d", &now, vec![], ""),
    ];
    let st = compute_stats(&notes);
    assert_eq!(st.total, 4);
    assert_eq!(st.today, 2);
    assert_eq!(st.this_week, 2);
    assert_eq!(st.this_month, 2);
    assert_eq!(st.most_active_repo.as_deref(), Some("alpha"));
    assert_eq!(st.most_active_repo_count, 2);
}

#[test]
fn compute_stats_empty() {
    let st = compute_stats(&[]);
    assert_eq!(st.total, 0);
    assert_eq!(st.today, 0);
    assert!(st.most_active_repo.is_none());
    assert_eq!(st.most_active_repo_count, 0);
}

#[test]
fn fuzzy_finds_typo_and_ranks() {
    let notes = vec![
        make_note("a", "r", "m", "/d", "t", vec![], "debugging database performance"),
        make_note("b", "r", "m", "/d", "t", vec![], "unrelated note"),
        make_note("c", "r", "m", "/d", "t", vec![], "the datbase is down"),
    ];
    let result = fuzzy_search(notes, "datbase");
    assert_eq!(ids(&result), vec!["c", "a"]);
}

#[test]
fn fuzzy_skipped_letters_and_word_order() {
    let notes = vec![
        make_note("a", "r", "m", "/d", "t", vec![], "the quick brown fox"),
        make_note("b", "r", "m", "/d", "t", vec![], "slower animals run"),
    ];
    assert_eq!(ids(&fuzzy_search(notes.clone(), "qck")), vec!["a"]);
    assert_eq!(ids(&fuzzy_search(notes.clone(), "fox QUICK")), vec!["a"]);
    assert!(fuzzy_search(notes.clone(), "zzzzz").is_empty());
    assert!(search_notes(notes, "qck").is_empty());
}

#[test]
fn filter_by_commit_prefix() {
    let mut a = make_note("a", "r", "m", "/d", "t", vec![], "one");
    a.frontmatter.commit_hash = "a7f3c2d1e5".to_string();
    let mut b = make_note("b", "r", "m", "/d", "t", vec![], "two");
    b.frontmatter.commit_hash = "b1234567".to_string();
    let c = make_note("c", "r", "m", "/d", "t", vec![], "three");
    let result = filter_by_commit(vec![a, b, c], "a7f3c2d");
    assert_eq!(ids(&result), vec!["a"]);
}

#[test]
fn search_notes_empty_query_keeps_every_note() {
    let notes = vec![
        make_note("a", "r", "m", "/d", "2026-03-01T10:00:00", vec![], "one"),
        make_note("b", "r", "m", "/d", "2026-03-02T10:00:00", vec![], ""),
    ];
    assert_eq!(ids(&search_notes(notes, "")), vec!["a", "b"]);
}
