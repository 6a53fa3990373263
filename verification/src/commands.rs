//! What each command computes between reading the notes and printing:
//! the options it filters by and the notes it shows.
use vstd::prelude::*;
use crate::context::NoteContext;
use crate::note::{Note, NoteFrontmatter};
use crate::search::{
    apply_filters, by_recency, filter_by_commit, filtered, fuzzy_results, fuzzy_search,
    matching, of_commit, search_notes, sort_by_recency, FilterOptions,
};
use crate::text::{chars_eq, chars_of, lowercase, lowercase_chars, string_from, trim, trim_chars};

verus! {

/// The notes `list` shows: most recent first, filtered, up to the limit.
pub fn list_notes(notes: Vec<Note>, opts: &FilterOptions) -> (r: Vec<Note>)
    ensures
        r@ == filtered(by_recency(notes@), *opts),
{
    let mut notes = notes;
    sort_by_recency(&mut notes);
    apply_filters(notes, opts)
}

/// The notes `search` shows: most recent first (or, for a fuzzy search,
/// best match first), then filtered up to the limit.
pub fn search_results(notes: Vec<Note>, query: &str, opts: &FilterOptions, fuzzy: bool) -> (r:
    Vec<Note>)
    ensures
        !fuzzy ==> r@ == filtered(matching(by_recency(notes@), query@), *opts),
        fuzzy ==> r@ == filtered(fuzzy_results(by_recency(notes@), query@), *opts),
{
    let mut notes = notes;
    sort_by_recency(&mut notes);
    let found = if fuzzy {
        fuzzy_search(notes, query)
    } else {
        search_notes(notes, query)
    };
    apply_filters(found, opts)
}

/// The notes `commits` shows: those written at the commit, most recent
/// first.
pub fn commit_notes(notes: Vec<Note>, hash: &str) -> (r: Vec<Note>)
    ensures
        r@ == of_commit(by_recency(notes@), hash@),
{
    let mut notes = notes;
    sort_by_recency(&mut notes);
    filter_by_commit(notes, hash)
}

/// The options `context` filters by: with neither repo nor branch given,
/// the current repo and directory; otherwise just the given ones.
pub fn context_options(
    repo: Option<String>,
    branch: Option<String>,
    current_dir: Option<String>,
    current_repo: Option<String>,
) -> (r: FilterOptions)
    ensures
        r.limit == 20,
        r.tag is None,
        repo is None && branch is None ==> r.here && r.current_dir == current_dir
            && r.current_repo == current_repo && r.repo is None && r.branch is None,
        !(repo is None && branch is None) ==> !r.here && r.repo == repo && r.branch == branch
            && r.current_dir is None && r.current_repo is None,
{
    if repo.is_none() && branch.is_none() {
        FilterOptions {
            limit: 20,
            here: true,
            repo: None,
            branch: None,
            tag: None,
            current_dir,
            current_repo,
        }
    } else {
        FilterOptions {
            limit: 20,
            here: false,
            repo,
            branch,
            tag: None,
            current_dir: None,
            current_repo: None,
        }
    }
}

/// The body of a new note: the text trimmed, or `None` when nothing is
/// left.
pub fn note_body(text: &str) -> (r: Option<String>)
    ensures
        trim(text@).len() == 0 ==> r is None,
        trim(text@).len() > 0 ==> (r matches Some(b) && b@ == trim(text@)),
{
    let v = chars_of(text);
    let t = trim_chars(&v);
    if t.len() == 0 {
        None
    } else {
        Some(string_from(&t))
    }
}

/// A confirmation answer: `y` or `yes`, ignoring surrounding whitespace
/// and case.
pub open spec fn is_yes(input: Seq<char>) -> bool {
    lowercase(trim(input)) == seq!['y'] || lowercase(trim(input)) == seq!['y', 'e', 's']
}

/// Whether the answer to a yes/no prompt is yes.
pub fn is_confirmation(input: &str) -> (r: bool)
    ensures
        r == is_yes(input@),
{
    let v = chars_of(input);
    let t = trim_chars(&v);
    let l = lowercase_chars(&t);
    let mut y: Vec<char> = Vec::new();
    y.push('y');
    let mut yes: Vec<char> = Vec::new();
    yes.push('y');
    yes.push('e');
    yes.push('s');
    assert(y@ =~= seq!['y']);
    assert(yes@ =~= seq!['y', 'e', 's']);
    chars_eq(&l, &y) || chars_eq(&l, &yes)
}

impl Note {
    /// A new note written in the given context, with no tags yet.
    pub fn from_context(ctx: NoteContext, id: String, body: String, file_path: String) -> (r:
        Note)
        ensures
            r.frontmatter.id == id,
            r.frontmatter.timestamp == ctx.timestamp,
            r.frontmatter.directory == ctx.directory,
            r.frontmatter.git_repo == ctx.git_repo,
            r.frontmatter.git_branch == ctx.git_branch,
            r.frontmatter.commit_hash == ctx.commit_hash,
            r.frontmatter.tags@.len() == 0,
            r.frontmatter.changed_files == ctx.changed_files,
            r.frontmatter.unstaged_files == ctx.unstaged_files,
            r.frontmatter.untracked_files == ctx.untracked_files,
            r.body == body,
            r.file_path == file_path,
    {
        Note {
            frontmatter: NoteFrontmatter {
                id,
                timestamp: ctx.timestamp,
                directory: ctx.directory,
                git_repo: ctx.git_repo,
                git_branch: ctx.git_branch,
                commit_hash: ctx.commit_hash,
                tags: Vec::new(),
                changed_files: ctx.changed_files,
                unstaged_files: ctx.unstaged_files,
                untracked_files: ctx.untracked_files,
            },
            body,
            file_path,
        }
    }
}

} // verus!
