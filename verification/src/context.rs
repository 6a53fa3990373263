//! The context recorded with a note: where and when it was written, and the
//! decisions that turn raw git facts into that context.
use vstd::prelude::*;
use crate::text::{
    chars_of, contains, contains_chars, index_of, index_of_from, is_prefix, is_suffix, push_char,
    starts_with_chars, slice_chars, string_from, string_views, strip_trailing,
    strip_trailing_chars,
};
use crate::order::{sort_strings, sorted_strings};

verus! {

/// What is captured when a note is written.
pub struct NoteContext {
    pub timestamp: String,
    pub directory: String,
    pub git_repo: String,
    pub git_branch: String,
    /// Current commit hash (40-char SHA-1) or `none`.
    pub commit_hash: String,
    /// Staged files (index vs HEAD).
    pub changed_files: Vec<String>,
    /// Tracked files modified in the working tree but not staged.
    pub unstaged_files: Vec<String>,
    /// Files not yet known to git.
    pub untracked_files: Vec<String>,
}

/// What git reported for the current directory.
pub struct GitContext {
    pub repo_name: String,
    pub branch: String,
    pub commit_hash: String,
    pub staged: Vec<String>,
    pub unstaged: Vec<String>,
    pub untracked: Vec<String>,
}

pub open spec fn none_text() -> Seq<char> {
    seq!['n', 'o', 'n', 'e']
}

/// The string `none`.
pub fn none_string() -> (r: String)
    ensures
        r@ == none_text(),
{
    let mut r = String::new();
    push_char(&mut r, 'n');
    push_char(&mut r, 'o');
    push_char(&mut r, 'n');
    push_char(&mut r, 'e');
    r
}

impl NoteContext {
    /// Assembles the context; without git information, repo, branch and
    /// commit are `none` and the file lists are empty.
    pub fn from_parts(timestamp: String, directory: String, git: Option<GitContext>) -> (r:
        NoteContext)
        ensures
            r.timestamp == timestamp,
            r.directory == directory,
            git matches Some(g) ==> r.git_repo == g.repo_name && r.git_branch == g.branch
                && r.commit_hash == g.commit_hash && r.changed_files == g.staged
                && r.unstaged_files == g.unstaged && r.untracked_files == g.untracked,
            git is None ==> r.git_repo@ == none_text() && r.git_branch@ == none_text()
                && r.commit_hash@ == none_text() && r.changed_files@.len() == 0
                && r.unstaged_files@.len() == 0 && r.untracked_files@.len() == 0,
    {
        match git {
            Some(g) => NoteContext {
                timestamp,
                directory,
                git_repo: g.repo_name,
                git_branch: g.branch,
                commit_hash: g.commit_hash,
                changed_files: g.staged,
                unstaged_files: g.unstaged,
                untracked_files: g.untracked,
            },
            None => NoteContext {
                timestamp,
                directory,
                git_repo: none_string(),
                git_branch: none_string(),
                commit_hash: none_string(),
                changed_files: Vec::new(),
                unstaged_files: Vec::new(),
                untracked_files: Vec::new(),
            },
        }
    }
}

// ── Repository name from a remote URL ────────────────────────────────────────

/// The part of `s` after its last `c` (all of `s` when there is none).
pub open spec fn after_last(s: Seq<char>, c: char) -> Seq<char>
    decreases s.len(),
{
    if s.len() == 0 {
        s
    } else if s.last() == c {
        seq![]
    } else {
        after_last(s.drop_last(), c).push(s.last())
    }
}

/// `s` without its trailing copies of `p` (`trim_end_matches(p)`).
pub open spec fn strip_suffix_all(s: Seq<char>, p: Seq<char>) -> Seq<char>
    decreases s.len(),
{
    if p.len() > 0 && p.len() <= s.len() && s.skip(s.len() - p.len()) == p {
        strip_suffix_all(s.take(s.len() - p.len()), p)
    } else {
        s
    }
}

pub open spec fn git_at() -> Seq<char> {
    seq!['g', 'i', 't', '@']
}

pub open spec fn http() -> Seq<char> {
    seq!['h', 't', 't', 'p']
}

pub open spec fn dot_git() -> Seq<char> {
    seq!['.', 'g', 'i', 't']
}

/// A URL in scp-like SSH form (`git@host:path`, or any non-HTTP URL with a
/// colon).
pub open spec fn is_ssh_url(url: Seq<char>) -> bool {
    is_prefix(git_at(), url) || (!is_prefix(http(), url) && contains(url, seq![':']))
}

/// The last path segment of a remote URL, or `None` for an SSH-form URL
/// without a colon.
pub open spec fn url_last_segment(url: Seq<char>) -> Option<Seq<char>> {
    if is_ssh_url(url) {
        let i = index_of(url, ':');
        if i >= url.len() {
            None
        } else {
            Some(after_last(strip_trailing(url.skip((i + 1) as int), '/'), '/'))
        }
    } else {
        Some(after_last(strip_trailing(url, '/'), '/'))
    }
}

/// The repository name a remote URL names: its last path segment without a
/// `.git` suffix, or `None` when that is empty.
pub open spec fn repo_name_from_url(url: Seq<char>) -> Option<Seq<char>> {
    match url_last_segment(url) {
        None => None,
        Some(seg) => {
            let name = strip_suffix_all(seg, dot_git());
            if name.len() == 0 {
                None
            } else {
                Some(name)
            }
        },
    }
}

/// `k` copies of `.git`.
pub open spec fn git_suffixes(k: nat) -> Seq<char>
    decreases k,
{
    if k == 0 {
        seq![]
    } else {
        git_suffixes((k - 1) as nat) + dot_git()
    }
}

proof fn lemma_strip_git(s: Seq<char>)
    ensures
        !is_suffix(dot_git(), strip_suffix_all(s, dot_git())),
        exists|k: nat| s == strip_suffix_all(s, dot_git()) + git_suffixes(k),
    decreases s.len(),
{
    let p = dot_git();
    if p.len() <= s.len() && s.skip(s.len() - p.len()) == p {
        let u = s.take(s.len() - p.len());
        lemma_strip_git(u);
        let k = choose|k: nat| u == strip_suffix_all(u, p) + git_suffixes(k);
        assert(s =~= u + p);
        assert(git_suffixes(k + 1) == git_suffixes(k) + p);
        assert(s =~= strip_suffix_all(s, p) + git_suffixes(k + 1));
    } else {
        assert(s =~= s + git_suffixes(0));
    }
}

/// The name read from a remote URL is its last path segment with only the
/// `.git` suffixes at its end removed: the segment is the name followed by
/// some copies of `.git`, and the name does not end in `.git`; a non-empty
/// segment that does not end in `.git` is the name itself (dots and all).
pub proof fn law_repo_name_strips_only_git(url: Seq<char>)
    ensures
        repo_name_from_url(url) matches Some(name) ==> {
            &&& url_last_segment(url) matches Some(seg) && exists|k: nat| seg == name + git_suffixes(k)
            &&& name.len() > 0
            &&& !is_suffix(dot_git(), name)
        },
        url_last_segment(url) matches Some(seg) ==> (seg.len() > 0 && !is_suffix(dot_git(), seg)
            ==> repo_name_from_url(url) == Some(seg)),
{
    if let Some(seg) = url_last_segment(url) {
        lemma_strip_git(seg);
    }
}

proof fn lemma_after_last(s: Seq<char>, c: char, j: int)
    requires
        0 <= j <= s.len(),
        forall|k: int| j <= k < s.len() ==> #[trigger] s[k] != c,
        j == 0 || s[j - 1] == c,
    ensures
        after_last(s, c) == s.skip(j),
    decreases s.len(),
{
    if s.len() > j {
        lemma_after_last(s.drop_last(), c, j);
        assert(s.drop_last().skip(j).push(s.last()) =~= s.skip(j));
    } else if s.len() > 0 {
        assert(s.skip(j) =~= seq![]);
    }
}

fn after_last_chars(v: &Vec<char>, c: char) -> (r: Vec<char>)
    ensures
        r@ == after_last(v@, c),
{
    let mut j: usize = v.len();
    while j > 0 && v[j - 1] != c
        invariant
            j <= v.len(),
            forall|k: int| j <= k < v.len() ==> #[trigger] v@[k] != c,
        decreases j,
    {
        j -= 1;
    }
    proof {
        lemma_after_last(v@, c, j as int);
    }
    slice_chars(v, j, v.len())
}

fn strip_suffix_all_chars(v: &Vec<char>, p: &Vec<char>) -> (r: Vec<char>)
    ensures
        r@ == strip_suffix_all(v@, p@),
{
    let mut n: usize = v.len();
    assert(v@.take(n as int) == v@);
    loop
        invariant
            n <= v.len(),
            strip_suffix_all(v@, p@) == strip_suffix_all(v@.take(n as int), p@),
        decreases n,
    {
        let cur = slice_chars(v, 0, n);
        if p.len() > 0 && p.len() <= n && crate::text::ends_with_chars(&cur, p) {
            proof {
                assert(cur@.take(n - p.len()) == v@.take(n - p.len()));
            }
            n = n - p.len();
        } else {
            return cur;
        }
    }
}

fn git_at_chars() -> (r: Vec<char>)
    ensures
        r@ == git_at(),
{
    let mut r: Vec<char> = Vec::new();
    r.push('g');
    r.push('i');
    r.push('t');
    r.push('@');
    r
}

fn http_chars() -> (r: Vec<char>)
    ensures
        r@ == http(),
{
    let mut r: Vec<char> = Vec::new();
    r.push('h');
    r.push('t');
    r.push('t');
    r.push('p');
    r
}

fn dot_git_chars() -> (r: Vec<char>)
    ensures
        r@ == dot_git(),
{
    let mut r: Vec<char> = Vec::new();
    r.push('.');
    r.push('g');
    r.push('i');
    r.push('t');
    r
}

/// Extracts a repository name from a remote URL, in SSH
/// (`git@github.com:user/repo.git`) or HTTPS
/// (`https://github.com/user/repo.git`) form.
pub fn parse_repo_name_from_url(url: &str) -> (r: Option<String>)
    ensures
        match repo_name_from_url(url@) {
            Some(n) => r matches Some(s) && s@ == n,
            None => r is None,
        },
{
    let v = chars_of(url);
    let mut colon: Vec<char> = Vec::new();
    colon.push(':');
    let ssh = starts_with_chars(&v, &git_at_chars()) || (!starts_with_chars(&v, &http_chars())
        && contains_chars(&v, &colon));
    let seg = if ssh {
        let i = index_of_from(&v, ':', 0);
        assert(v@.skip(0) == v@);
        if i >= v.len() {
            return None;
        }
        let rest = slice_chars(&v, i + 1, v.len());
        let rest = strip_trailing_chars(&rest, '/');
        after_last_chars(&rest, '/')
    } else {
        let rest = strip_trailing_chars(&v, '/');
        after_last_chars(&rest, '/')
    };
    let name = strip_suffix_all_chars(&seg, &dot_git_chars());
    if name.len() == 0 {
        None
    } else {
        Some(string_from(&name))
    }
}

// ── Choosing the remote and the repository name ──────────────────────────────

pub open spec fn origin() -> Seq<char> {
    seq!['o', 'r', 'i', 'g', 'i', 'n']
}

/// The remote to take the repository name from: `origin` when there is one,
/// otherwise the alphabetically first remote.
pub open spec fn chosen_remote(names: Seq<Seq<char>>) -> Option<Seq<char>> {
    if names.contains(origin()) {
        Some(origin())
    } else if names.len() == 0 {
        None
    } else {
        Some(sorted_strings(names)[0])
    }
}

/// Picks the remote whose URL names the repository.
pub fn select_remote(names: &Vec<String>) -> (r: Option<String>)
    ensures
        match chosen_remote(string_views(names@)) {
            Some(n) => r matches Some(s) && s@ == n,
            None => r is None,
        },
{
    let o = chars_of("origin");
    proof {
        reveal_strlit("origin");
    }
    let mut i: usize = 0;
    while i < names.len()
        invariant
            i <= names.len(),
            o@ == origin(),
            forall|k: int| 0 <= k < i ==> names@[k]@ != origin(),
        decreases names.len() - i,
    {
        let c = chars_of(names[i].as_str());
        if crate::text::chars_eq(&c, &o) {
            proof {
                assert(string_views(names@)[i as int] == origin());
            }
            return Some(string_from(&o));
        }
        i += 1;
    }
    proof {
        assert(!string_views(names@).contains(origin()));
    }
    if names.len() == 0 {
        return None;
    }
    let mut copy: Vec<String> = Vec::new();
    for k in 0..names.len()
        invariant
            copy@.len() == k,
            forall|j: int| 0 <= j < k ==> copy@[j]@ == names@[j]@,
    {
        let s = chars_of(names[k].as_str());
        copy.push(string_from(&s));
    }
    assert(string_views(copy@) == string_views(names@));
    let sorted = sort_strings(copy);
    let first = chars_of(sorted[0].as_str());
    Some(string_from(&first))
}

/// The repository name: the one the remote URL gives, else the name of the
/// working directory, else `none`.
pub fn resolve_repo_name(remote_url: Option<&str>, workdir_name: Option<&str>) -> (r: String)
    ensures
        match remote_url {
            Some(u) if repo_name_from_url(u@) is Some => r@ == repo_name_from_url(u@)->0,
            _ => match workdir_name {
                Some(w) => r@ == w@,
                None => r@ == none_text(),
            },
        },
{
    if let Some(u) = remote_url {
        if let Some(n) = parse_repo_name_from_url(u) {
            return n;
        }
    }
    match workdir_name {
        Some(w) => {
            let c = chars_of(w);
            string_from(&c)
        },
        None => none_string(),
    }
}

// ── Changed files ────────────────────────────────────────────────────────────

/// One entry of a git diff: its status and the path on the new side.
pub struct DiffEntry {
    pub untracked: bool,
    pub new_path: Option<String>,
}

/// The paths a diff lists, keeping only untracked entries when asked.
pub open spec fn diff_paths(entries: Seq<DiffEntry>, only_untracked: bool) -> Seq<Seq<char>>
    decreases entries.len(),
{
    if entries.len() == 0 {
        seq![]
    } else {
        let e = entries.last();
        let rest = diff_paths(entries.drop_last(), only_untracked);
        match e.new_path {
            Some(p) if !only_untracked || e.untracked => rest.push(p@),
            _ => rest,
        }
    }
}

/// The paths of a diff, sorted.
pub fn collect_diff_paths(entries: Vec<DiffEntry>, only_untracked: bool) -> (r: Vec<String>)
    ensures
        string_views(r@) == sorted_strings(diff_paths(entries@, only_untracked)),
{
    let mut files: Vec<String> = Vec::new();
    let ghost all = entries@;
    let ghost mut n: int = 0;
    assert(diff_paths(all.take(0), only_untracked) =~= seq![]);
    assert(string_views(files@) =~= seq![]);
    for e in it: entries.into_iter()
        invariant
            n == it.index(),
            it.seq() == all,
            string_views(files@) == diff_paths(all.take(n), only_untracked),
    {
        proof {
            assert(all.take(n + 1).drop_last() == all.take(n));
        }
        if !only_untracked || e.untracked {
            if let Some(p) = e.new_path {
                files.push(p);
            }
        }
        proof {
            n = n + 1;
        }
    }
    assert(all.take(n) == all);
    sort_strings(files)
}

} // verus!
