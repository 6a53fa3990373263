//! Selecting, ordering, searching, grouping and counting notes.
use vstd::prelude::*;
use crate::note::{parse_timestamp, Note};
use crate::text::{chars_eq, chars_of, contains, contains_chars, lowercase, lowercase_chars, match_at};
use crate::time::{
    chrono_days_from_monday, chrono_minus_days, chrono_parse_iso, day_start, days_from_monday,
    local_now, minus_days, minutes_text, month_start, stamp_le, stamp_le_exec,
    stamp_lt, start_of_day, valid_stamp, DateTime, Stamp,
};
use crate::order::{chars_le, seq_le};
use crate::context::none_text;
use crate::text::{is_prefix, starts_with_chars, string_from, views, words, words_of};

verus! {

// ── Options ──────────────────────────────────────────────────────────────────

/// Which notes a listing shows.
pub struct FilterOptions {
    pub limit: usize,
    pub here: bool,
    pub repo: Option<String>,
    pub branch: Option<String>,
    pub tag: Option<String>,
    pub current_dir: Option<String>,
    pub current_repo: Option<String>,
}

impl Default for FilterOptions {
    fn default() -> (r: Self)
        ensures
            r.limit == 20,
            !r.here,
            r.repo is None,
            r.branch is None,
            r.tag is None,
            r.current_dir is None,
            r.current_repo is None,
    {
        FilterOptions {
            limit: 20,
            here: false,
            repo: None,
            branch: None,
            tag: None,
            current_dir: None,
            current_repo: None,
        }
    }
}

// ── Filtering ────────────────────────────────────────────────────────────────

/// Some tag of the note equals `tag` once both are lowercased.
pub open spec fn has_tag(n: Note, tag: Seq<char>) -> bool {
    exists|i: int|
        0 <= i < n.frontmatter.tags@.len() && lowercase(#[trigger] n.frontmatter.tags@[i]@)
            == lowercase(tag)
}

/// Whether a note passes every filter of the options (the limit aside).
pub open spec fn passes(n: Note, o: FilterOptions) -> bool {
    &&& o.here ==> {
        &&& o.current_repo matches Some(r) && n.frontmatter.git_repo@ == r@
        &&& o.current_dir matches Some(d) && n.frontmatter.directory@ == d@
    }
    &&& o.repo matches Some(r) ==> n.frontmatter.git_repo@ == r@
    &&& o.branch matches Some(b) ==> n.frontmatter.git_branch@ == b@
    &&& o.tag matches Some(t) ==> has_tag(n, t@)
}

/// The tag filter keeps a note exactly when one of its tags, at any
/// position, equals the requested tag once both are lowercased: a note
/// that passes has such a tag, and a note that passes the other filters
/// and has such a tag passes.
pub proof fn law_tag_filter(n: Note, o: FilterOptions)
    requires
        o.tag is Some,
    ensures
        passes(n, o) ==> exists|i: int|
            0 <= i < n.frontmatter.tags@.len() && lowercase(n.frontmatter.tags@[i]@) == lowercase(o.tag->0@),
        passes(n, (FilterOptions { tag: None, ..o })) ==> forall|i: int|
            0 <= i < n.frontmatter.tags@.len() && lowercase(#[trigger] n.frontmatter.tags@[i]@)
                == lowercase(o.tag->0@) ==> passes(n, o),
{
}

/// The notes that pass the filters, in order.
pub open spec fn passing(s: Seq<Note>, o: FilterOptions) -> Seq<Note>
    decreases s.len(),
{
    if s.len() == 0 {
        seq![]
    } else if passes(s.last(), o) {
        passing(s.drop_last(), o).push(s.last())
    } else {
        passing(s.drop_last(), o)
    }
}

/// At most the first `n` elements.
pub open spec fn at_most<A>(s: Seq<A>, n: nat) -> Seq<A> {
    if s.len() <= n {
        s
    } else {
        s.take(n as int)
    }
}

/// What a listing shows: the first `limit` notes that pass the filters.
pub open spec fn filtered(s: Seq<Note>, o: FilterOptions) -> Seq<Note> {
    at_most(passing(s, o), o.limit as nat)
}

fn opt_eq(a: &String, b: &String) -> (r: bool)
    ensures
        r == (a@ == b@),
{
    let x = chars_of(a.as_str());
    let y = chars_of(b.as_str());
    chars_eq(&x, &y)
}

/// Whether a note carries a tag, compared lowercased.
pub fn note_has_tag(n: &Note, tag: &str) -> (r: bool)
    ensures
        r == has_tag(*n, tag@),
{
    let t = chars_of(tag);
    let want = lowercase_chars(&t);
    let tags = &n.frontmatter.tags;
    let mut i: usize = 0;
    while i < tags.len()
        invariant
            i <= tags.len(),
            tags == &n.frontmatter.tags,
            want@ == lowercase(tag@),
            forall|k: int| 0 <= k < i ==> lowercase(#[trigger] tags@[k]@) != lowercase(tag@),
        decreases tags.len() - i,
    {
        let c = chars_of(tags[i].as_str());
        let l = lowercase_chars(&c);
        if chars_eq(&l, &want) {
            return true;
        }
        i += 1;
    }
    false
}

/// Whether a note passes every filter of the options.
pub fn note_passes(n: &Note, o: &FilterOptions) -> (r: bool)
    ensures
        r == passes(*n, *o),
{
    if o.here {
        let repo_match = match &o.current_repo {
            Some(r) => opt_eq(&n.frontmatter.git_repo, r),
            None => false,
        };
        let dir_match = match &o.current_dir {
            Some(d) => opt_eq(&n.frontmatter.directory, d),
            None => false,
        };
        if !(repo_match && dir_match) {
            return false;
        }
    }
    if let Some(repo) = &o.repo {
        if !opt_eq(&n.frontmatter.git_repo, repo) {
            return false;
        }
    }
    if let Some(branch) = &o.branch {
        if !opt_eq(&n.frontmatter.git_branch, branch) {
            return false;
        }
    }
    if let Some(tag) = &o.tag {
        if !note_has_tag(n, tag.as_str()) {
            return false;
        }
    }
    true
}

proof fn lemma_passing_len(s: Seq<Note>, o: FilterOptions)
    ensures
        passing(s, o).len() <= s.len(),
    decreases s.len(),
{
    if s.len() > 0 {
        lemma_passing_len(s.drop_last(), o);
    }
}

/// Keeps the notes that pass the filters, up to the limit, in order.
pub fn apply_filters(notes: Vec<Note>, opts: &FilterOptions) -> (r: Vec<Note>)
    ensures
        r@ == filtered(notes@, *opts),
{
    let ghost all = notes@;
    let mut r: Vec<Note> = Vec::new();
    let ghost mut n: int = 0;
    assert(passing(all.take(0), *opts) =~= seq![]);
    for x in it: notes.into_iter()
        invariant
            n == it.index(),
            it.seq() == all,
            r@ == at_most(passing(all.take(n), *opts), opts.limit as nat),
    {
        proof {
            assert(all.take(n + 1).drop_last() == all.take(n));
            assert(all.take(n + 1).last() == x);
            lemma_passing_len(all.take(n), *opts);
        }
        if r.len() < opts.limit && note_passes(&x, opts) {
            r.push(x);
        }
        proof {
            n = n + 1;
        }
    }
    assert(all.take(n) == all);
    r
}

// ── Search ───────────────────────────────────────────────────────────────────

/// The body contains the query, both lowercased.
pub open spec fn body_matches(n: Note, query: Seq<char>) -> bool {
    contains(lowercase(n.body@), lowercase(query))
}

/// The notes whose body matches the query, in order.
pub open spec fn matching(s: Seq<Note>, query: Seq<char>) -> Seq<Note>
    decreases s.len(),
{
    if s.len() == 0 {
        seq![]
    } else if body_matches(s.last(), query) {
        matching(s.drop_last(), query).push(s.last())
    } else {
        matching(s.drop_last(), query)
    }
}

/// Whether a text contains a query, case-insensitively.
pub fn matches_query(text: &str, query: &str) -> (r: bool)
    ensures
        r == contains(lowercase(text@), lowercase(query@)),
        query@.len() == 0 ==> r,
{
    let t = chars_of(text);
    let q = chars_of(query);
    let lt = lowercase_chars(&t);
    let lq = lowercase_chars(&q);
    if q.len() == 0 {
        assert(lt@.subrange(0, 0) =~= lq@);
        assert(match_at(lt@, lq@, 0));
    }
    contains_chars(&lt, &lq)
}

/// Case-insensitive substring search over note bodies.
pub fn search_notes(notes: Vec<Note>, query: &str) -> (r: Vec<Note>)
    ensures
        r@ == matching(notes@, query@),
        query@.len() == 0 ==> r@ == notes@,
{
    let ghost all = notes@;
    let mut r: Vec<Note> = Vec::new();
    let ghost mut n: int = 0;
    assert(matching(all.take(0), query@) =~= seq![]);
    for x in it: notes.into_iter()
        invariant
            n == it.index(),
            it.seq() == all,
            r@ == matching(all.take(n), query@),
            query@.len() == 0 ==> r@ == all.take(n),
    {
        proof {
            assert(all.take(n + 1).drop_last() == all.take(n));
            assert(all.take(n + 1).last() == x);
        }
        if matches_query(x.body.as_str(), query) {
            r.push(x);
        }
        proof {
            n = n + 1;
        }
    }
    assert(all.take(n) == all);
    r
}

// ── Ordering by recency ──────────────────────────────────────────────────────

/// The parsed timestamp of a note, if it parses.
pub open spec fn note_key(n: Note) -> Option<Stamp> {
    chrono_parse_iso(n.frontmatter.timestamp@)
}

/// Order on optional timestamps: absent before present, then chronological.
pub open spec fn key_lt(a: Option<Stamp>, b: Option<Stamp>) -> bool {
    match (a, b) {
        (None, Some(_)) => true,
        (Some(x), Some(y)) => stamp_lt(x, y),
        _ => false,
    }
}

/// Index of the first note at or after `i` that is older than `k`.
pub open spec fn first_older(t: Seq<Note>, k: Option<Stamp>, i: int) -> int
    decreases t.len() - i,
{
    if i < 0 || i >= t.len() {
        t.len() as int
    } else if key_lt(note_key(t[i]), k) {
        i
    } else {
        first_older(t, k, i + 1)
    }
}

/// Notes most recent first; notes whose timestamp does not parse last; the
/// order among equal timestamps kept (a stable sort).
pub open spec fn by_recency(s: Seq<Note>) -> Seq<Note>
    decreases s.len(),
{
    if s.len() == 0 {
        s
    } else {
        let t = by_recency(s.drop_last());
        t.insert(first_older(t, note_key(s.last()), 0), s.last())
    }
}

proof fn lemma_first_older(t: Seq<Note>, k: Option<Stamp>, i: int, j: int)
    requires
        0 <= i <= j <= t.len(),
        forall|m: int| i <= m < j ==> !key_lt(#[trigger] note_key(t[m]), k),
        j == t.len() || key_lt(note_key(t[j]), k),
    ensures
        first_older(t, k, i) == j,
    decreases j - i,
{
    if i < j {
        lemma_first_older(t, k, i + 1, j);
    }
}

proof fn lemma_by_recency_len(s: Seq<Note>)
    ensures
        by_recency(s).len() == s.len(),
    decreases s.len(),
{
    if s.len() > 0 {
        lemma_by_recency_len(s.drop_last());
        let t = by_recency(s.drop_last());
        lemma_first_older_bound(t, note_key(s.last()), 0);
    }
}

proof fn lemma_first_older_bound(t: Seq<Note>, k: Option<Stamp>, i: int)
    ensures
        0 <= i ==> i <= first_older(t, k, i) <= t.len() || first_older(t, k, i) == t.len(),
        0 <= first_older(t, k, i) <= t.len(),
    decreases t.len() - i,
{
    if 0 <= i < t.len() && !key_lt(note_key(t[i]), k) {
        lemma_first_older_bound(t, k, i + 1);
    }
}

/// The parsed timestamp of a note.
pub fn key_of(n: &Note) -> (r: Option<Stamp>)
    ensures
        r == note_key(*n),
{
    match parse_timestamp(n.frontmatter.timestamp.as_str()) {
        Some(d) => Some(d.stamp()),
        None => None,
    }
}

fn key_lt_exec(a: Option<Stamp>, b: Option<Stamp>) -> (r: bool)
    ensures
        r == key_lt(a, b),
{
    match (a, b) {
        (None, Some(_)) => true,
        (Some(x), Some(y)) => !stamp_le_exec(y, x),
        _ => false,
    }
}

/// Sorts notes most recent first (stable; unparseable timestamps last).
pub fn sort_by_recency(notes: &mut Vec<Note>)
    ensures
        final(notes)@ == by_recency(old(notes)@),
{
    let mut taken: Vec<Note> = Vec::new();
    std::mem::swap(&mut taken, notes);
    let ghost all = taken@;
    let mut keys: Vec<Option<Stamp>> = Vec::new();
    let ghost mut n: int = 0;
    assert(all.take(0) =~= seq![]);
    for x in it: taken.into_iter()
        invariant
            n == it.index(),
            it.seq() == all,
            notes@ == by_recency(all.take(n)),
            keys@.len() == notes@.len(),
            forall|j: int| 0 <= j < keys@.len() ==> keys@[j] == note_key(#[trigger] notes@[j]),
    {
        let k = key_of(&x);
        let mut pos: usize = 0;
        while pos < keys.len() && !key_lt_exec(keys[pos], k)
            invariant
                pos <= keys.len(),
                keys@.len() == notes@.len(),
                forall|j: int| 0 <= j < keys@.len() ==> keys@[j] == note_key(#[trigger] notes@[j]),
                forall|m: int| 0 <= m < pos ==> !key_lt(#[trigger] note_key(notes@[m]), k),
            decreases keys.len() - pos,
        {
            pos += 1;
        }
        proof {
            assert(all.take(n + 1).drop_last() == all.take(n));
            assert(all.take(n + 1).last() == x);
            if pos < keys.len() {
                assert(keys@[pos as int] == note_key(notes@[pos as int]));
            }
            lemma_first_older(notes@, k, 0, pos as int);
        }
        let ghost old_keys = keys@;
        let ghost old_notes = notes@;
        notes.insert(pos, x);
        keys.insert(pos, k);
        proof {
            assert forall|j: int| 0 <= j < keys@.len() implies keys@[j] == note_key(
                #[trigger] notes@[j],
            ) by {
                if j < pos {
                } else if j == pos {
                } else {
                    assert(keys@[j] == old_keys[j - 1]);
                    assert(notes@[j] == old_notes[j - 1]);
                }
            }
            n = n + 1;
        }
    }
    assert(all.take(n) == all);
}

// ── Laws of listing, searching and ordering ──────────────────────────────────

/// Most recent first: no note is older than one after it.
pub open spec fn recency_sorted(t: Seq<Note>) -> bool {
    forall|i: int, j: int| 0 <= i < j < t.len() ==> !key_lt(note_key(#[trigger] t[i]), note_key(#[trigger] t[j]))
}

/// The order on optional timestamps is a strict total order.
pub proof fn lemma_key_order(a: Option<Stamp>, b: Option<Stamp>, c: Option<Stamp>)
    ensures
        !key_lt(a, a),
        key_lt(a, b) ==> !key_lt(b, a),
        key_lt(a, b) && key_lt(b, c) ==> key_lt(a, c),
        !key_lt(a, b) && !key_lt(b, a) ==> a == b,
{
    match (a, b, c) {
        (Some(x), Some(y), Some(z)) => {
            crate::time::lemma_stamp_order(x, y, z);
            crate::time::lemma_stamp_order(y, z, x);
            crate::time::lemma_stamp_order(x, z, y);
        },
        (Some(x), Some(y), None) => {
            crate::time::lemma_stamp_order(x, y, x);
        },
        (Some(x), None, Some(z)) => {
            crate::time::lemma_stamp_order(x, z, x);
        },
        (None, Some(y), Some(z)) => {
            crate::time::lemma_stamp_order(y, z, y);
        },
        (Some(x), None, None) => {
            crate::time::lemma_stamp_order(x, x, x);
        },
        _ => {},
    }
}

proof fn lemma_first_older_props(t: Seq<Note>, k: Option<Stamp>, i: int)
    requires
        0 <= i <= t.len(),
    ensures
        i <= first_older(t, k, i) <= t.len(),
        forall|j: int| i <= j < first_older(t, k, i) ==> !key_lt(note_key(#[trigger] t[j]), k),
        first_older(t, k, i) < t.len() ==> key_lt(note_key(t[first_older(t, k, i)]), k),
    decreases t.len() - i,
{
    if i < t.len() && !key_lt(note_key(t[i]), k) {
        lemma_first_older_props(t, k, i + 1);
    }
}

/// Sorting by recency puts the most recent notes first and keeps every
/// note (the result is a permutation of the input).
pub proof fn law_by_recency(s: Seq<Note>)
    ensures
        recency_sorted(by_recency(s)),
        by_recency(s).to_multiset() == s.to_multiset(),
        by_recency(s).len() == s.len(),
    decreases s.len(),
{
    broadcast use vstd::seq_lib::group_to_multiset_ensures;
    if s.len() > 0 {
        let t = by_recency(s.drop_last());
        law_by_recency(s.drop_last());
        let x = s.last();
        let k = note_key(x);
        lemma_first_older_props(t, k, 0);
        let p = first_older(t, k, 0);
        let r = t.insert(p, x);
        assert(r == by_recency(s));
        assert forall|i: int, j: int| 0 <= i < j < r.len() implies !key_lt(note_key(#[trigger] r[i]), note_key(#[trigger] r[j])) by {
            if j < p {
                assert(r[i] == t[i] && r[j] == t[j]);
            } else if j == p {
                assert(r[i] == t[i]);
            } else if i < p {
                assert(r[i] == t[i] && r[j] == t[j - 1]);
            } else if i == p {
                assert(r[j] == t[j - 1]);
                assert(key_lt(note_key(t[p]), k));
                lemma_key_order(note_key(t[p]), k, note_key(t[j - 1]));
                lemma_key_order(note_key(t[p]), note_key(t[j - 1]), k);
                if p < j - 1 {
                    assert(!key_lt(note_key(t[p]), note_key(t[j - 1])));
                }
            } else {
                assert(r[i] == t[i - 1] && r[j] == t[j - 1]);
            }
        }
        vstd::seq_lib::to_multiset_insert(t, p, x);
        assert(s == s.drop_last().push(x));
        vstd::seq_lib::to_multiset_build(s.drop_last(), x);
    }
}

/// A listing shows at most `limit` notes, each of them one of the notes
/// given that passes every filter; when at most `limit` notes pass, it
/// shows all of them.
pub proof fn law_filtered(s: Seq<Note>, o: FilterOptions)
    ensures
        filtered(s, o).len() <= o.limit,
        forall|i: int| 0 <= i < filtered(s, o).len() ==> passes(#[trigger] filtered(s, o)[i], o) && s.contains(filtered(s, o)[i]),
        passing(s, o).len() <= o.limit ==> forall|j: int| 0 <= j < s.len() && passes(#[trigger] s[j], o) ==> filtered(s, o).contains(s[j]),
{
    lemma_passing_members(s, o);
    let f = filtered(s, o);
    let p = passing(s, o);
    assert forall|i: int| 0 <= i < f.len() implies passes(#[trigger] f[i], o) && s.contains(f[i]) by {
        assert(f[i] == p[i]);
        assert(p.contains(p[i]));
    }
}

proof fn lemma_passing_members(s: Seq<Note>, o: FilterOptions)
    ensures
        forall|x: Note| passing(s, o).contains(x) <==> (s.contains(x) && passes(x, o)),
    decreases s.len(),
{
    if s.len() > 0 {
        lemma_passing_members(s.drop_last(), o);
        assert forall|x: Note| passing(s, o).contains(x) <==> (s.contains(x) && passes(x, o)) by {
            let p = passing(s.drop_last(), o);
            if s.contains(x) {
                let i = choose|i: int| 0 <= i < s.len() && s[i] == x;
                if i < s.len() - 1 {
                    assert(s.drop_last()[i] == x);
                    assert(s.drop_last().contains(x));
                }
            }
            if s.drop_last().contains(x) {
                let i = choose|i: int| 0 <= i < s.drop_last().len() && s.drop_last()[i] == x;
                assert(s[i] == x);
            }
            if passes(s.last(), o) {
                assert(p.push(s.last()).contains(x) <==> (p.contains(x) || x == s.last())) by {
                    if p.push(s.last()).contains(x) {
                        let i = choose|i: int| 0 <= i < p.len() + 1 && p.push(s.last())[i] == x;
                        if i < p.len() {
                            assert(p[i] == x);
                        }
                    }
                    if p.contains(x) {
                        let i = choose|i: int| 0 <= i < p.len() && p[i] == x;
                        assert(p.push(s.last())[i] == x);
                    }
                    assert(p.push(s.last())[p.len() as int] == s.last());
                }
            }
            assert(s[s.len() - 1] == s.last());
        }
    }
}

/// A search returns exactly the given notes whose body contains the query,
/// compared lowercased.
pub proof fn law_matching(s: Seq<Note>, q: Seq<char>)
    ensures
        forall|x: Note| matching(s, q).contains(x) <==> (s.contains(x) && body_matches(x, q)),
        matching(s, q).len() <= s.len(),
    decreases s.len(),
{
    if s.len() > 0 {
        law_matching(s.drop_last(), q);
        assert forall|x: Note| matching(s, q).contains(x) <==> (s.contains(x) && body_matches(x, q)) by {
            let p = matching(s.drop_last(), q);
            if s.contains(x) {
                let i = choose|i: int| 0 <= i < s.len() && s[i] == x;
                if i < s.len() - 1 {
                    assert(s.drop_last()[i] == x);
                    assert(s.drop_last().contains(x));
                }
            }
            if s.drop_last().contains(x) {
                let i = choose|i: int| 0 <= i < s.drop_last().len() && s.drop_last()[i] == x;
                assert(s[i] == x);
            }
            if body_matches(s.last(), q) {
                if p.push(s.last()).contains(x) {
                    let i = choose|i: int| 0 <= i < p.len() + 1 && p.push(s.last())[i] == x;
                    if i < p.len() {
                        assert(p[i] == x);
                    }
                }
                if p.contains(x) {
                    let i = choose|i: int| 0 <= i < p.len() && p[i] == x;
                    assert(p.push(s.last())[i] == x);
                }
                assert(p.push(s.last())[p.len() as int] == s.last());
            }
            assert(s[s.len() - 1] == s.last());
        }
    }
}

// ── Activity log ─────────────────────────────────────────────────────────────

/// One line of the activity log.
pub struct RepoGroup {
    pub repo: String,
    pub note_count: usize,
    pub last_activity: String,
}

/// A group as plain values: repo, count, last activity text.
pub type GroupView = (Seq<char>, nat, Seq<char>);

pub open spec fn group_view(g: RepoGroup) -> GroupView {
    (g.repo@, g.note_count as nat, g.last_activity@)
}

pub open spec fn group_views(s: Seq<RepoGroup>) -> Seq<GroupView> {
    s.map_values(|g: RepoGroup| group_view(g))
}

/// The start of the log window.
pub enum Cutoff {
    /// No window: every note counts.
    Open,
    /// Notes at or after this time count.
    At(DateTime),
    /// The window starts before the earliest representable time: every
    /// note with a parseable timestamp counts.
    Earliest,
}

/// Whether a note falls in the window.
pub open spec fn in_window(n: Note, c: Cutoff) -> bool {
    match c {
        Cutoff::Open => true,
        Cutoff::At(d) => match note_key(n) {
            Some(t) => stamp_le(d@, t),
            None => false,
        },
        Cutoff::Earliest => note_key(n) is Some,
    }
}

/// The notes in the window, in order.
pub open spec fn windowed(s: Seq<Note>, c: Cutoff) -> Seq<Note>
    decreases s.len(),
{
    if s.len() == 0 {
        seq![]
    } else if in_window(s.last(), c) {
        windowed(s.drop_last(), c).push(s.last())
    } else {
        windowed(s.drop_last(), c)
    }
}

/// The later of two optional timestamps (a present one is later than an
/// absent one).
pub open spec fn later(a: Option<Stamp>, b: Option<Stamp>) -> Option<Stamp> {
    if key_lt(a, b) {
        b
    } else {
        a
    }
}

/// Per-repository tally: repo, number of notes, latest timestamp.
pub type Tally = (Seq<char>, nat, Option<Stamp>);

/// Index of the tally for `r` at or after `i`, or `a.len()`.
pub open spec fn tally_index(a: Seq<Tally>, r: Seq<char>, i: int) -> int
    decreases a.len() - i,
{
    if i < 0 || i >= a.len() {
        a.len() as int
    } else if a[i].0 == r {
        i
    } else {
        tally_index(a, r, i + 1)
    }
}

/// Tallies per repository, in order of first appearance.
pub open spec fn tallies(s: Seq<Note>) -> Seq<Tally>
    decreases s.len(),
{
    if s.len() == 0 {
        seq![]
    } else {
        let a = tallies(s.drop_last());
        let n = s.last();
        let r = n.frontmatter.git_repo@;
        let i = tally_index(a, r, 0);
        if i < a.len() {
            a.update(i, (r, a[i].1 + 1, later(a[i].2, note_key(n))))
        } else {
            a.push((r, 1nat, note_key(n)))
        }
    }
}

pub open spec fn unknown_text() -> Seq<char> {
    seq!['u', 'n', 'k', 'n', 'o', 'w', 'n']
}

/// The last activity as shown.
pub open spec fn activity_text(k: Option<Stamp>) -> Seq<char> {
    match k {
        Some(t) => minutes_text(t),
        None => unknown_text(),
    }
}

pub open spec fn tally_group(t: Tally) -> GroupView {
    (t.0, t.1, activity_text(t.2))
}

/// Index of the first group at or after `i` whose last activity sorts
/// below `a`.
pub open spec fn first_below(t: Seq<GroupView>, a: Seq<char>, i: int) -> int
    decreases t.len() - i,
{
    if i < 0 || i >= t.len() {
        t.len() as int
    } else if !seq_le(a, t[i].2) {
        i
    } else {
        first_below(t, a, i + 1)
    }
}

/// Groups by last activity text, descending; ties keep their order.
pub open spec fn by_activity(s: Seq<GroupView>) -> Seq<GroupView>
    decreases s.len(),
{
    if s.len() == 0 {
        s
    } else {
        let t = by_activity(s.drop_last());
        t.insert(first_below(t, s.last().2, 0), s.last())
    }
}

pub open spec fn tally_groups(a: Seq<Tally>) -> Seq<GroupView> {
    a.map_values(|t: Tally| tally_group(t))
}

/// The activity log: one group per repository among the notes in the
/// window, most recent activity first.
pub open spec fn log_groups(s: Seq<Note>, c: Cutoff) -> Seq<GroupView> {
    by_activity(tally_groups(tallies(windowed(s, c))))
}

fn in_window_exec(n: &Note, c: &Cutoff) -> (r: bool)
    ensures
        r == in_window(*n, *c),
{
    match c {
        Cutoff::Open => true,
        Cutoff::At(d) => match key_of(n) {
            Some(t) => stamp_le_exec(d.stamp(), t),
            None => false,
        },
        Cutoff::Earliest => key_of(n).is_some(),
    }
}

proof fn lemma_tally_index(a: Seq<Tally>, r: Seq<char>, i: int, j: int)
    requires
        0 <= i <= j <= a.len(),
        forall|m: int| i <= m < j ==> (#[trigger] a[m]).0 != r,
        j == a.len() || a[j].0 == r,
    ensures
        tally_index(a, r, i) == j,
    decreases j - i,
{
    if i < j {
        lemma_tally_index(a, r, i + 1, j);
    }
}

proof fn lemma_tallies_bounded(s: Seq<Note>)
    ensures
        forall|i: int| 0 <= i < tallies(s).len() ==> (#[trigger] tallies(s)[i]).1 <= s.len(),
        tallies(s).len() <= s.len(),
    decreases s.len(),
{
    if s.len() > 0 {
        let p = s.drop_last();
        lemma_tallies_bounded(p);
        let a = tallies(p);
        let r = s.last().frontmatter.git_repo@;
        lemma_tally_index_bound(a, r, 0);
        let t = tallies(s);
        assert forall|i: int| 0 <= i < t.len() implies (#[trigger] t[i]).1 <= s.len() by {
            if i < a.len() {
                assert(a[i].1 <= p.len());
            }
        }
    }
}

proof fn lemma_tally_index_bound(a: Seq<Tally>, r: Seq<char>, i: int)
    ensures
        0 <= tally_index(a, r, i) <= a.len(),
        0 <= i ==> i <= tally_index(a, r, i) || tally_index(a, r, i) == a.len(),
    decreases a.len() - i,
{
    if 0 <= i < a.len() && a[i].0 != r {
        lemma_tally_index_bound(a, r, i + 1);
    }
}

proof fn lemma_first_below(t: Seq<GroupView>, a: Seq<char>, i: int, j: int)
    requires
        0 <= i <= j <= t.len(),
        forall|m: int| i <= m < j ==> seq_le(a, (#[trigger] t[m]).2),
        j == t.len() || !seq_le(a, t[j].2),
    ensures
        first_below(t, a, i) == j,
    decreases j - i,
{
    if i < j {
        lemma_first_below(t, a, i + 1, j);
    }
}

fn later_exec(a: Option<Stamp>, b: Option<Stamp>) -> (r: Option<Stamp>)
    ensures
        r == later(a, b),
{
    if key_lt_exec(a, b) {
        b
    } else {
        a
    }
}

fn unknown_string() -> (r: String)
    ensures
        r@ == unknown_text(),
{
    let mut v: Vec<char> = Vec::new();
    v.push('u');
    v.push('n');
    v.push('k');
    v.push('n');
    v.push('o');
    v.push('w');
    v.push('n');
    string_from(&v)
}

/// Groups the notes in the window by repository, most recent activity first.
pub fn group_by_repo_since(notes: &[Note], cutoff: Cutoff) -> (r: Vec<RepoGroup>)
    ensures
        group_views(r@) == log_groups(notes@, cutoff),
{
    // Tally the notes in the window.
    let mut names: Vec<Vec<char>> = Vec::new();
    let mut repos: Vec<String> = Vec::new();
    let mut counts: Vec<usize> = Vec::new();
    let mut lasts: Vec<Option<Stamp>> = Vec::new();
    let ghost mut kept: Seq<Note> = seq![];
    let mut i: usize = 0;
    while i < notes.len()
        invariant
            i <= notes.len(),
            kept == windowed(notes@.take(i as int), cutoff),
            names@.len() == tallies(kept).len(),
            repos@.len() == names@.len(),
            counts@.len() == names@.len(),
            lasts@.len() == names@.len(),
            forall|k: int| 0 <= k < names@.len() ==> (#[trigger] names@[k])@ == tallies(kept)[k].0,
            forall|k: int| 0 <= k < names@.len() ==> (#[trigger] repos@[k])@ == tallies(kept)[k].0,
            forall|k: int| 0 <= k < names@.len() ==> #[trigger] counts@[k] as nat == tallies(kept)[k].1,
            forall|k: int| 0 <= k < names@.len() ==> #[trigger] lasts@[k] == tallies(kept)[k].2,
            kept.len() <= i,
        decreases notes.len() - i,
    {
        proof {
            assert(notes@.take(i + 1).drop_last() == notes@.take(i as int));
            assert(notes@.take(i + 1).last() == notes@[i as int]);
        }
        let n = &notes[i];
        if in_window_exec(n, &cutoff) {
            let ghost prev = kept;
            proof {
                kept = kept.push(*n);
                assert(kept.drop_last() == prev);
                lemma_tallies_bounded(prev);
            }
            let r = chars_of(n.frontmatter.git_repo.as_str());
            let k = key_of(n);
            let ghost on = names@;
            let ghost orp = repos@;
            let ghost oc = counts@;
            let ghost ol = lasts@;
            let mut j: usize = 0;
            while j < names.len() && !chars_eq(&names[j], &r)
                invariant
                    j <= names@.len(),
                    names@.len() == tallies(prev).len(),
                    forall|m: int| 0 <= m < names@.len() ==> (#[trigger] names@[m])@ == tallies(prev)[m].0,
                    forall|m: int| 0 <= m < j ==> tallies(prev)[m].0 != r@,
                decreases names.len() - j,
            {
                j += 1;
            }
            proof {
                lemma_tally_index(tallies(prev), r@, 0, j as int);
                assert(kept.last() == *n);
                if j < names.len() {
                    assert(tallies(kept) == tallies(prev).update(
                        j as int,
                        (r@, tallies(prev)[j as int].1 + 1, later(tallies(prev)[j as int].2, k)),
                    ));
                } else {
                    assert(tallies(kept) == tallies(prev).push((r@, 1nat, k)));
                }
            }
            if j < names.len() {
                let c = counts[j] + 1;
                counts.set(j, c);
                let l = later_exec(lasts[j], k);
                lasts.set(j, l);
            } else {
                names.push(r);
                let s = string_from(&names[names.len() - 1]);
                repos.push(s);
                counts.push(1);
                lasts.push(k);
            }
            proof {
                assert forall|m: int| 0 <= m < names@.len() implies {
                    &&& names@[m]@ == tallies(kept)[m].0
                    &&& repos@[m]@ == tallies(kept)[m].0
                    &&& counts@[m] as nat == tallies(kept)[m].1
                    &&& lasts@[m] == tallies(kept)[m].2
                } by {
                    if m < on.len() {
                        assert(on[m]@ == tallies(prev)[m].0);
                        assert(orp[m]@ == tallies(prev)[m].0);
                        assert(oc[m] as nat == tallies(prev)[m].1);
                        assert(ol[m] == tallies(prev)[m].2);
                    }
                }
                lemma_tallies_bounded(kept);
            }
        }
        i += 1;
    }
    proof {
        assert(notes@.take(notes@.len() as int) == notes@);
    }
    // Build the groups and sort them by last activity, descending.
    let ghost unsorted = tally_groups(tallies(kept));
    let mut groups: Vec<RepoGroup> = Vec::new();
    let mut acts: Vec<Vec<char>> = Vec::new();
    let mut m: usize = 0;
    assert(unsorted.take(0) =~= seq![]);
    while m < names.len()
        invariant
            m <= names@.len(),
            names@.len() == tallies(kept).len(),
            repos@.len() == names@.len(),
            counts@.len() == names@.len(),
            lasts@.len() == names@.len(),
            unsorted == tally_groups(tallies(kept)),
            forall|k: int| 0 <= k < names@.len() ==> (#[trigger] repos@[k])@ == tallies(kept)[k].0,
            forall|k: int| 0 <= k < names@.len() ==> #[trigger] counts@[k] as nat == tallies(kept)[k].1,
            forall|k: int| 0 <= k < names@.len() ==> #[trigger] lasts@[k] == tallies(kept)[k].2,
            group_views(groups@) == by_activity(unsorted.take(m as int)),
            acts@.len() == groups@.len(),
            forall|k: int| 0 <= k < acts@.len() ==> (#[trigger] acts@[k])@ == groups@[k].last_activity@,
        decreases names.len() - m,
    {
        let act = match lasts[m] {
            Some(t) => minutes_chars_of(t),
            None => {
                let u = unknown_string();
                chars_of(u.as_str())
            },
        };
        proof {
            assert(unsorted[m as int] == tally_group(tallies(kept)[m as int]));
            assert(act@ == unsorted[m as int].2);
        }
        let mut pos: usize = 0;
        while pos < acts.len() && chars_le(&act, &acts[pos])
            invariant
                pos <= acts@.len(),
                acts@.len() == groups@.len(),
                forall|k: int| 0 <= k < acts@.len() ==> (#[trigger] acts@[k])@ == groups@[k].last_activity@,
                forall|k: int| 0 <= k < pos ==> seq_le(act@, (#[trigger] group_views(groups@)[k]).2),
            decreases acts.len() - pos,
        {
            pos += 1;
        }
        proof {
            if pos < acts@.len() {
                assert(group_views(groups@)[pos as int].2 == acts@[pos as int]@);
            }
            lemma_first_below(group_views(groups@), act@, 0, pos as int);
            assert(unsorted.take(m + 1).drop_last() == unsorted.take(m as int));
            assert(unsorted.take(m + 1).last() == unsorted[m as int]);
        }
        let repo = {
            let c = chars_of(repos[m].as_str());
            string_from(&c)
        };
        let g = RepoGroup { repo, note_count: counts[m], last_activity: string_from(&act) };
        let ghost old_groups = groups@;
        let ghost old_acts = acts@;
        groups.insert(pos, g);
        acts.insert(pos, act);
        proof {
            assert(group_views(groups@) =~= group_views(old_groups).insert(pos as int, unsorted[m as int]));
            assert forall|k: int| 0 <= k < acts@.len() implies (#[trigger] acts@[k])@ == groups@[k].last_activity@ by {
                if k < pos {
                } else if k == pos {
                } else {
                    assert(acts@[k] == old_acts[k - 1]);
                    assert(groups@[k] == old_groups[k - 1]);
                }
            }
        }
        m += 1;
    }
    proof {
        assert(unsorted.take(m as int) == unsorted);
    }
    groups
}

/// The number of notes a list of tallies counts.
pub open spec fn tally_total(a: Seq<Tally>) -> nat
    decreases a.len(),
{
    if a.len() == 0 {
        0
    } else {
        tally_total(a.drop_last()) + a.last().1
    }
}

/// The number of notes a list of log groups counts.
pub open spec fn groups_total(g: Seq<GroupView>) -> nat
    decreases g.len(),
{
    if g.len() == 0 {
        0
    } else {
        groups_total(g.drop_last()) + g.last().1
    }
}

proof fn lemma_tally_total_update(a: Seq<Tally>, i: int, t: Tally)
    requires
        0 <= i < a.len(),
    ensures
        tally_total(a.update(i, t)) + a[i].1 == tally_total(a) + t.1,
    decreases a.len(),
{
    if i < a.len() - 1 {
        lemma_tally_total_update(a.drop_last(), i, t);
        assert(a.update(i, t).drop_last() =~= a.drop_last().update(i, t));
    } else {
        assert(a.update(i, t).drop_last() =~= a.drop_last());
    }
}

proof fn lemma_tally_total(s: Seq<Note>)
    ensures
        tally_total(tallies(s)) == s.len(),
    decreases s.len(),
{
    if s.len() > 0 {
        lemma_tally_total(s.drop_last());
        let a = tallies(s.drop_last());
        let r = s.last().frontmatter.git_repo@;
        lemma_tally_index_bound(a, r, 0);
        let i = tally_index(a, r, 0);
        if i < a.len() {
            lemma_tally_total_update(a, i, (r, a[i].1 + 1, later(a[i].2, note_key(s.last()))));
        } else {
            assert(a.push((r, 1nat, note_key(s.last()))).drop_last() == a);
        }
    }
}

proof fn lemma_groups_total_map(a: Seq<Tally>)
    ensures
        groups_total(tally_groups(a)) == tally_total(a),
    decreases a.len(),
{
    if a.len() > 0 {
        lemma_groups_total_map(a.drop_last());
        assert(tally_groups(a).drop_last() =~= tally_groups(a.drop_last()));
    }
}

proof fn lemma_groups_total_insert(t: Seq<GroupView>, p: int, x: GroupView)
    requires
        0 <= p <= t.len(),
    ensures
        groups_total(t.insert(p, x)) == groups_total(t) + x.1,
    decreases t.len(),
{
    if p == t.len() {
        assert(t.insert(p, x) =~= t.push(x));
        assert(t.push(x).drop_last() == t);
    } else {
        lemma_groups_total_insert(t.drop_last(), p, x);
        assert(t.insert(p, x).drop_last() =~= t.drop_last().insert(p, x));
        assert(t.insert(p, x).last() == t.last());
    }
}

proof fn lemma_first_below_bound(t: Seq<GroupView>, a: Seq<char>, i: int)
    ensures
        0 <= first_below(t, a, i) <= t.len(),
    decreases t.len() - i,
{
    if 0 <= i < t.len() && seq_le(a, t[i].2) {
        lemma_first_below_bound(t, a, i + 1);
    }
}

proof fn lemma_groups_total_sort(g: Seq<GroupView>)
    ensures
        groups_total(by_activity(g)) == groups_total(g),
        by_activity(g).len() == g.len(),
    decreases g.len(),
{
    if g.len() > 0 {
        lemma_groups_total_sort(g.drop_last());
        let t = by_activity(g.drop_last());
        lemma_first_below_bound(t, g.last().2, 0);
        lemma_groups_total_insert(t, first_below(t, g.last().2, 0), g.last());
    }
}

proof fn lemma_windowed_open(s: Seq<Note>)
    ensures
        windowed(s, Cutoff::Open) == s,
    decreases s.len(),
{
    if s.len() > 0 {
        lemma_windowed_open(s.drop_last());
        assert(s.drop_last().push(s.last()) == s);
    }
}

/// The note is one of the window's notes of repository `r` with a parsed
/// timestamp.
pub open spec fn dated_in(n: Note, r: Seq<char>, c: Cutoff) -> bool {
    in_window(n, c) && n.frontmatter.git_repo@ == r && note_key(n) is Some
}

/// `l` is the latest timestamp among the window's notes of repository `r`:
/// one of them has it, and none is later.
pub open spec fn latest_of(s: Seq<Note>, r: Seq<char>, c: Cutoff, l: Stamp) -> bool {
    &&& exists|j: int| 0 <= j < s.len() && dated_in(s[j], r, c) && note_key(s[j]) == Some(l)
    &&& forall|j: int| 0 <= j < s.len() && dated_in(#[trigger] s[j], r, c) ==> stamp_le(note_key(s[j])->0, l)
}

/// A log entry shows its repository's latest activity: the latest parsed
/// timestamp of its notes in the window, or `unknown` when none parses.
pub open spec fn shows_latest(s: Seq<Note>, c: Cutoff, g: GroupView) -> bool {
    ||| exists|l: Stamp| latest_of(s, g.0, c, l) && g.2 == minutes_text(l)
    ||| g.2 == unknown_text() && forall|j: int| 0 <= j < s.len() ==> !dated_in(#[trigger] s[j], g.0, c)
}

spec fn tally_is_latest(s: Seq<Note>, t: Tally) -> bool {
    &&& forall|j: int|
        0 <= j < s.len() && (#[trigger] s[j]).frontmatter.git_repo@ == t.0 && note_key(s[j]) is Some
            ==> t.2 is Some && stamp_le(note_key(s[j])->0, t.2->0)
    &&& t.2 is Some ==> exists|j: int|
        0 <= j < s.len() && s[j].frontmatter.git_repo@ == t.0 && note_key(s[j]) == t.2
}

proof fn lemma_tally_index_props(a: Seq<Tally>, r: Seq<char>, i: int)
    requires
        0 <= i <= a.len(),
    ensures
        i <= tally_index(a, r, i) <= a.len(),
        forall|m: int| i <= m < tally_index(a, r, i) ==> (#[trigger] a[m]).0 != r,
        tally_index(a, r, i) < a.len() ==> a[tally_index(a, r, i)].0 == r,
    decreases a.len() - i,
{
    if i < a.len() && a[i].0 != r {
        lemma_tally_index_props(a, r, i + 1);
    }
}

proof fn lemma_later(a: Option<Stamp>, b: Option<Stamp>)
    ensures
        later(a, b) == a || later(a, b) == b,
        a matches Some(x) ==> later(a, b) matches Some(z) && stamp_le(x, z),
        b matches Some(y) ==> later(a, b) matches Some(z) && stamp_le(y, z),
{
    match (a, b) {
        (Some(x), Some(y)) => {
            crate::time::lemma_stamp_order(x, y, x);
            crate::time::lemma_stamp_order(y, y, y);
        },
        (Some(x), None) => {
            crate::time::lemma_stamp_order(x, x, x);
        },
        (None, Some(y)) => {
            crate::time::lemma_stamp_order(y, y, y);
        },
        _ => {},
    }
}

/// Tallies name each repository once, and every note's repository has
/// one.
proof fn lemma_tallies_shape(s: Seq<Note>)
    ensures
        forall|k1: int, k2: int|
            0 <= k1 < k2 < tallies(s).len() ==> (#[trigger] tallies(s)[k1]).0 != (#[trigger] tallies(s)[k2]).0,
        forall|j: int| 0 <= j < s.len() ==> exists|k: int|
            0 <= k < tallies(s).len() && tallies(s)[k].0 == (#[trigger] s[j]).frontmatter.git_repo@,
    decreases s.len(),
{
    if s.len() > 0 {
        let p = s.drop_last();
        lemma_tallies_shape(p);
        let a = tallies(p);
        let n = s.last();
        let r = n.frontmatter.git_repo@;
        let i = tally_index(a, r, 0);
        lemma_tally_index_props(a, r, 0);
        let t = tallies(s);
        assert forall|j: int| 0 <= j < p.len() implies s[j] == p[j] by {}
        if i < a.len() {
            assert(t == a.update(i, (r, a[i].1 + 1, later(a[i].2, note_key(n)))));
            assert forall|k1: int, k2: int| 0 <= k1 < k2 < t.len() implies (#[trigger] t[k1]).0 != (#[trigger] t[k2]).0 by {
                assert(a[k1].0 != a[k2].0);
            }
            assert forall|j: int| 0 <= j < s.len() implies exists|k: int|
                0 <= k < t.len() && t[k].0 == (#[trigger] s[j]).frontmatter.git_repo@ by {
                if j < p.len() {
                    let k = choose|k: int| 0 <= k < a.len() && a[k].0 == (#[trigger] p[j]).frontmatter.git_repo@;
                    assert(t[k].0 == a[k].0);
                } else {
                    assert(s[j] == n);
                    assert(t[i].0 == r);
                }
            }
        } else {
            assert(t == a.push((r, 1nat, note_key(n))));
            assert forall|k1: int, k2: int| 0 <= k1 < k2 < t.len() implies (#[trigger] t[k1]).0 != (#[trigger] t[k2]).0 by {
                if k2 < a.len() {
                    assert(a[k1].0 != a[k2].0);
                } else {
                    assert(a[k1].0 != r);
                }
            }
            assert forall|j: int| 0 <= j < s.len() implies exists|k: int|
                0 <= k < t.len() && t[k].0 == (#[trigger] s[j]).frontmatter.git_repo@ by {
                if j < p.len() {
                    let k = choose|k: int| 0 <= k < a.len() && a[k].0 == (#[trigger] p[j]).frontmatter.git_repo@;
                    assert(t[k].0 == a[k].0);
                } else {
                    assert(s[j] == n);
                    assert(t[a.len() as int].0 == r);
                }
            }
        }
    }
}

/// A tally of another repository than the new note's stays latest.
proof fn lemma_latest_kept(s: Seq<Note>, x: Tally)
    requires
        s.len() > 0,
        tally_is_latest(s.drop_last(), x),
        x.0 != s.last().frontmatter.git_repo@,
    ensures
        tally_is_latest(s, x),
{
    let p = s.drop_last();
    assert forall|j: int| 0 <= j < p.len() implies s[j] == p[j] by {}
    assert(s[p.len() as int] == s.last());
    if x.2 is Some {
        let j = choose|j: int| 0 <= j < p.len() && p[j].frontmatter.git_repo@ == x.0 && note_key(p[j]) == x.2;
        assert(s[j] == p[j]);
    }
    assert forall|j: int|
        0 <= j < s.len() && (#[trigger] s[j]).frontmatter.git_repo@ == x.0 && note_key(s[j]) is Some
        implies x.2 is Some && stamp_le(note_key(s[j])->0, x.2->0) by {
        assert(j < p.len());
        assert(p[j] == s[j]);
    }
}

/// The tally of the new note's repository, updated with its timestamp,
/// stays latest.
proof fn lemma_latest_updated(s: Seq<Note>, x: Tally)
    requires
        s.len() > 0,
        tally_is_latest(s.drop_last(), x),
        x.0 == s.last().frontmatter.git_repo@,
    ensures
        tally_is_latest(s, (x.0, x.1 + 1, later(x.2, note_key(s.last())))),
{
    let p = s.drop_last();
    let n = s.last();
    let last = p.len() as int;
    let z = later(x.2, note_key(n));
    let y = (x.0, x.1 + 1, z);
    lemma_later(x.2, note_key(n));
    assert forall|j: int| 0 <= j < p.len() implies s[j] == p[j] by {}
    assert(s[last] == n);
    assert forall|j: int|
        0 <= j < s.len() && (#[trigger] s[j]).frontmatter.git_repo@ == y.0 && note_key(s[j]) is Some
        implies y.2 is Some && stamp_le(note_key(s[j])->0, y.2->0) by {
        if j < p.len() {
            assert(p[j] == s[j]);
            crate::time::lemma_stamp_order(note_key(s[j])->0, x.2->0, z->0);
        }
    }
    if z is Some {
        if z == x.2 {
            let j = choose|j: int| 0 <= j < p.len() && p[j].frontmatter.git_repo@ == x.0 && note_key(p[j]) == x.2;
            assert(s[j] == p[j]);
        } else {
            assert(s[last].frontmatter.git_repo@ == y.0 && note_key(s[last]) == y.2);
        }
    }
}

/// A new tally for a repository no earlier note has stays latest.
proof fn lemma_latest_new(s: Seq<Note>)
    requires
        s.len() > 0,
        forall|j: int| 0 <= j < s.len() - 1 ==> (#[trigger] s[j]).frontmatter.git_repo@ != s.last().frontmatter.git_repo@,
    ensures
        tally_is_latest(s, (s.last().frontmatter.git_repo@, 1nat, note_key(s.last()))),
{
    let n = s.last();
    let last = s.len() - 1;
    assert(s[last] == n);
    if note_key(n) is Some {
        crate::time::lemma_stamp_order(note_key(n)->0, note_key(n)->0, note_key(n)->0);
    }
}

/// Each tally holds the latest timestamp of its repository's notes.
proof fn lemma_tallies_latest(s: Seq<Note>)
    ensures
        forall|k: int| 0 <= k < tallies(s).len() ==> tally_is_latest(s, #[trigger] tallies(s)[k]),
    decreases s.len(),
{
    if s.len() > 0 {
        let p = s.drop_last();
        lemma_tallies_latest(p);
        lemma_tallies_shape(p);
        let a = tallies(p);
        let n = s.last();
        let r = n.frontmatter.git_repo@;
        let i = tally_index(a, r, 0);
        lemma_tally_index_props(a, r, 0);
        let t = tallies(s);
        if i < a.len() {
            assert(t == a.update(i, (r, a[i].1 + 1, later(a[i].2, note_key(n)))));
            assert forall|k: int| 0 <= k < t.len() implies tally_is_latest(s, #[trigger] t[k]) by {
                assert(tally_is_latest(p, a[k]));
                if k == i {
                    lemma_latest_updated(s, a[i]);
                } else {
                    assert(t[k] == a[k]);
                    if k > i {
                        assert(a[i].0 != a[k].0);
                    }
                    lemma_latest_kept(s, a[k]);
                }
            }
        } else {
            assert(t == a.push((r, 1nat, note_key(n))));
            assert forall|k: int| 0 <= k < t.len() implies tally_is_latest(s, #[trigger] t[k]) by {
                if k < a.len() {
                    assert(t[k] == a[k]);
                    assert(tally_is_latest(p, a[k]));
                    assert(a[k].0 != r);
                    lemma_latest_kept(s, a[k]);
                } else {
                    assert forall|j: int| 0 <= j < s.len() - 1 implies (#[trigger] s[j]).frontmatter.git_repo@ != r by {
                        assert(s[j] == p[j]);
                        let m = choose|m: int| 0 <= m < a.len() && a[m].0 == (#[trigger] p[j]).frontmatter.git_repo@;
                        assert(a[m].0 != r);
                    }
                    lemma_latest_new(s);
                }
            }
        }
    }
}

proof fn lemma_windowed_members(s: Seq<Note>, c: Cutoff)
    ensures
        forall|j: int| 0 <= j < windowed(s, c).len() ==> s.contains(#[trigger] windowed(s, c)[j])
            && in_window(windowed(s, c)[j], c),
        forall|m: int| 0 <= m < s.len() && in_window(#[trigger] s[m], c) ==> windowed(s, c).contains(s[m]),
    decreases s.len(),
{
    if s.len() > 0 {
        let p = s.drop_last();
        lemma_windowed_members(p, c);
        let w = windowed(s, c);
        let wp = windowed(p, c);
        let last = p.len() as int;
        assert(s[last] == s.last());
        if in_window(s.last(), c) {
            assert(w == wp.push(s.last()));
        } else {
            assert(w == wp);
        }
        assert forall|j: int| 0 <= j < w.len() implies s.contains(#[trigger] w[j]) && in_window(w[j], c) by {
            if j < wp.len() {
                assert(w[j] == wp[j]);
                assert(p.contains(wp[j]));
                let m = choose|m: int| 0 <= m < p.len() && p[m] == wp[j];
                assert(s[m] == p[m]);
            } else {
                assert(w[j] == s[last]);
            }
        }
        assert forall|m: int| 0 <= m < s.len() && in_window(#[trigger] s[m], c) implies w.contains(s[m]) by {
            if m < p.len() {
                assert(s[m] == p[m]);
                assert(wp.contains(p[m]));
                let j = choose|j: int| 0 <= j < wp.len() && wp[j] == p[m];
                assert(w[j] == wp[j]);
            } else {
                assert(w[wp.len() as int] == s[m]);
            }
        }
    }
}

proof fn lemma_by_activity_members(g: Seq<GroupView>)
    ensures
        forall|x: GroupView| #[trigger] by_activity(g).contains(x) ==> g.contains(x),
    decreases g.len(),
{
    if g.len() > 0 {
        let p = g.drop_last();
        lemma_by_activity_members(p);
        let t = by_activity(p);
        let i = first_below(t, g.last().2, 0);
        lemma_first_below_bound(t, g.last().2, 0);
        let u = t.insert(i, g.last());
        assert forall|x: GroupView| #[trigger] by_activity(g).contains(x) implies g.contains(x) by {
            let j = choose|j: int| 0 <= j < u.len() && u[j] == x;
            if j < i {
                assert(t[j] == x);
                assert(t.contains(x));
            } else if j == i {
                assert(g[g.len() - 1] == x);
            } else {
                assert(t[j - 1] == x);
                assert(t.contains(x));
            }
            if x != g.last() {
                let m = choose|m: int| 0 <= m < p.len() && p[m] == x;
                assert(g[m] == x);
            } else {
                assert(g[g.len() - 1] == x);
            }
        }
    }
}

/// Every entry of the activity log shows its repository's latest activity
/// in the window: the latest parsed timestamp among that repository's
/// notes there (shown as `YYYY-MM-DD HH:MM`), or `unknown` when none of
/// them has a parsed timestamp.
pub proof fn law_log_last_activity(s: Seq<Note>, c: Cutoff)
    ensures
        forall|g: GroupView| #[trigger] log_groups(s, c).contains(g) ==> shows_latest(s, c, g),
{
    let w = windowed(s, c);
    let t = tallies(w);
    lemma_tallies_latest(w);
    lemma_windowed_members(s, c);
    lemma_by_activity_members(tally_groups(t));
    assert forall|g: GroupView| #[trigger] log_groups(s, c).contains(g) implies shows_latest(s, c, g) by {
        let gs = tally_groups(t);
        assert(gs.contains(g));
        let k = choose|k: int| 0 <= k < gs.len() && gs[k] == g;
        let tk = t[k];
        assert(g == tally_group(tk));
        assert(tally_is_latest(w, tk));
        match tk.2 {
            Some(l) => {
                let j = choose|j: int|
                    0 <= j < w.len() && w[j].frontmatter.git_repo@ == tk.0 && note_key(w[j]) == tk.2;
                assert(s.contains(w[j]) && in_window(w[j], c));
                let m = choose|m: int| 0 <= m < s.len() && s[m] == w[j];
                assert(dated_in(s[m], g.0, c) && note_key(s[m]) == Some(l));
                assert forall|q: int| 0 <= q < s.len() && dated_in(#[trigger] s[q], g.0, c)
                    implies stamp_le(note_key(s[q])->0, l) by {
                    assert(w.contains(s[q]));
                    let jj = choose|jj: int| 0 <= jj < w.len() && w[jj] == s[q];
                    assert(w[jj].frontmatter.git_repo@ == tk.0);
                }
                assert(latest_of(s, g.0, c, l));
            },
            None => {
                assert forall|q: int| 0 <= q < s.len() implies !dated_in(#[trigger] s[q], g.0, c) by {
                    if dated_in(s[q], g.0, c) {
                        assert(w.contains(s[q]));
                        let jj = choose|jj: int| 0 <= jj < w.len() && w[jj] == s[q];
                        assert(w[jj].frontmatter.git_repo@ == tk.0);
                    }
                }
            },
        }
    }
}

/// The counts in the activity log add up to the number of notes in the
/// window; without a window, to the number of notes.
pub proof fn law_log_counts(s: Seq<Note>, c: Cutoff)
    ensures
        groups_total(log_groups(s, c)) == windowed(s, c).len(),
        c is Open ==> groups_total(log_groups(s, c)) == s.len(),
{
    let w = windowed(s, c);
    lemma_tally_total(w);
    lemma_groups_total_map(tallies(w));
    lemma_groups_total_sort(tally_groups(tallies(w)));
    if c is Open {
        lemma_windowed_open(s);
    }
}

fn minutes_chars_of(t: Stamp) -> (r: Vec<char>)
    ensures
        r@ == minutes_text(t),
{
    crate::time::stamp_minutes_chars(t)
}

/// The window of the last `days` days seen from `now`: it starts `days`
/// days before `now` as chrono subtracts them, or before every
/// representable time where chrono cannot.
pub open spec fn window_from(now: Stamp, days: u64, c: Cutoff) -> bool {
    match chrono_minus_days(now, days as i64) {
        Some(x) => c matches Cutoff::At(d) && d@ == x,
        None => c is Earliest,
    }
}

/// The activity log, optionally limited to the last `days` days. Which
/// moment "now" is depends on the clock.
pub fn group_by_repo(notes: &[Note], days: Option<u64>) -> (r: Vec<RepoGroup>)
    ensures
        days is None ==> group_views(r@) == log_groups(notes@, Cutoff::Open),
        days matches Some(d) ==> exists|now: Stamp, c: Cutoff|
            valid_stamp(now) && window_from(now, d, c) && group_views(r@) == log_groups(notes@, c),
{
    match days {
        None => group_by_repo_since(notes, Cutoff::Open),
        Some(d) => {
            let now = local_now();
            #[verifier::truncate]
            let back: i64 = d as i64;
            let c = match minus_days(&now, back) {
                Some(x) => Cutoff::At(x),
                None => Cutoff::Earliest,
            };
            let ghost gc = c;
            let r = group_by_repo_since(notes, c);
            assert(valid_stamp(now@) && window_from(now@, d, gc) && group_views(r@) == log_groups(notes@, gc));
            r
        },
    }
}

// ── Stats ────────────────────────────────────────────────────────────────────

/// An overview of the notes.
pub struct NoteStats {
    pub total: usize,
    pub today: usize,
    pub this_week: usize,
    pub this_month: usize,
    pub most_active_repo: Option<String>,
    pub most_active_repo_count: usize,
}

/// The note's timestamp parses and is at or after `start` (an absent start
/// lies before every representable time).
pub open spec fn since(n: Note, start: Option<Stamp>) -> bool {
    match note_key(n) {
        Some(t) => match start {
            Some(c) => stamp_le(c, t),
            None => true,
        },
        None => false,
    }
}

/// Number of notes since `start`.
pub open spec fn count_since(s: Seq<Note>, start: Option<Stamp>) -> nat
    decreases s.len(),
{
    if s.len() == 0 {
        0
    } else {
        count_since(s.drop_last(), start) + if since(s.last(), start) {
            1nat
        } else {
            0nat
        }
    }
}

/// Number of notes written in repository `r`.
pub open spec fn repo_count(s: Seq<Note>, r: Seq<char>) -> nat
    decreases s.len(),
{
    if s.len() == 0 {
        0
    } else {
        repo_count(s.drop_last(), r) + if s.last().frontmatter.git_repo@ == r {
            1nat
        } else {
            0nat
        }
    }
}

/// A note written inside a repository (its repo is not `none`).
pub open spec fn in_repo(n: Note) -> bool {
    n.frontmatter.git_repo@ != none_text()
}

/// Midnight on the Monday of the week of `now`, as chrono computes it
/// (`None` when chrono cannot represent it).
pub open spec fn week_start(now: Stamp) -> Option<Stamp> {
    chrono_minus_days(day_start(now), chrono_days_from_monday(now.0, now.1, now.2) as i64)
}

/// The timestamp falls on day `(y, m, d)` or later (parsed days are never
/// 0, so `d == 1` means "in month `(y, m)` or later").
pub open spec fn on_or_after_day(t: Stamp, y: i32, m: u32, d: u32) -> bool {
    t.0 > y || (t.0 == y && (t.1 > m || (t.1 == m && t.2 >= d)))
}

/// Number of notes with a parsed timestamp on day `(y, m, d)` or later.
pub open spec fn count_from_day(s: Seq<Note>, y: i32, m: u32, d: u32) -> nat
    decreases s.len(),
{
    if s.len() == 0 {
        0
    } else {
        count_from_day(s.drop_last(), y, m, d) + if note_key(s.last()) matches Some(t) && on_or_after_day(t, y, m, d) {
            1nat
        } else {
            0nat
        }
    }
}

proof fn lemma_count_from_midnight(s: Seq<Note>, y: i32, m: u32, d: u32)
    ensures
        count_since(s, Some((y, m, d, 0u32, 0u32, 0u32, 0u32))) == count_from_day(s, y, m, d),
    decreases s.len(),
{
    if s.len() > 0 {
        lemma_count_from_midnight(s.drop_last(), y, m, d);
    }
}

/// The stats' day and month counts: `today` counts the notes whose parsed
/// timestamp falls on `now`'s date or later, and `this_month` those in
/// `now`'s month or later (not those of earlier months of the same year).
pub proof fn law_stats_day_and_month(s: Seq<Note>, now: Stamp, r: NoteStats)
    requires
        stats_at(s, now, r),
    ensures
        r.today == count_from_day(s, now.0, now.1, now.2),
        r.this_month == count_from_day(s, now.0, now.1, 1),
{
    lemma_count_from_midnight(s, now.0, now.1, now.2);
    lemma_count_from_midnight(s, now.0, now.1, 1);
}

/// This week starts no later than today (or before every representable
/// time).
pub open spec fn week_starts_by_today(now: Stamp) -> bool {
    match week_start(now) {
        Some(w) => stamp_le(w, day_start(now)),
        None => true,
    }
}

/// What the stats report for the notes at time `now`.
pub open spec fn stats_at(s: Seq<Note>, now: Stamp, r: NoteStats) -> bool {
    &&& r.total == s.len()
    &&& r.today == count_since(s, Some(day_start(now)))
    &&& r.this_week == count_since(s, week_start(now))
    &&& r.this_month == count_since(s, Some(month_start(now)))
    &&& (r.most_active_repo is None <==> forall|i: int| 0 <= i < s.len() ==> !in_repo(#[trigger] s[i]))
    &&& r.most_active_repo is None ==> r.most_active_repo_count == 0
    &&& r.most_active_repo matches Some(name) ==> {
        &&& name@ != none_text()
        &&& r.most_active_repo_count == repo_count(s, name@)
        &&& r.most_active_repo_count >= 1
        &&& forall|i: int|
            0 <= i < s.len() && in_repo(#[trigger] s[i]) ==> repo_count(s, s[i].frontmatter.git_repo@)
                <= r.most_active_repo_count
    }
}

proof fn lemma_count_since_le(s: Seq<Note>, start: Option<Stamp>)
    ensures
        count_since(s, start) <= s.len(),
    decreases s.len(),
{
    if s.len() > 0 {
        lemma_count_since_le(s.drop_last(), start);
    }
}

proof fn lemma_repo_count_le(s: Seq<Note>, r: Seq<char>)
    ensures
        repo_count(s, r) <= s.len(),
    decreases s.len(),
{
    if s.len() > 0 {
        lemma_repo_count_le(s.drop_last(), r);
    }
}

proof fn lemma_repo_count_pos(s: Seq<Note>, i: int)
    requires
        0 <= i < s.len(),
    ensures
        repo_count(s, s[i].frontmatter.git_repo@) >= 1,
    decreases s.len(),
{
    if i < s.len() - 1 {
        lemma_repo_count_pos(s.drop_last(), i);
    }
}

fn since_exec(k: Option<Stamp>, start: Option<Stamp>) -> (r: bool)
    ensures
        forall|n: Note| note_key(n) == k ==> r == since(n, start),
{
    match k {
        Some(t) => match start {
            Some(c) => stamp_le_exec(c, t),
            None => true,
        },
        None => false,
    }
}

/// Counts the notes by period and finds the most active repository, as
/// of `now`.
fn tally_stats(notes: &[Note], now: &DateTime) -> (r: NoteStats)
    requires
        valid_stamp(now@),
    ensures
        stats_at(notes@, now@, r),
        week_starts_by_today(now@),
{
    let today_dt = start_of_day(now);
    let today_start = today_dt.stamp();
    let wd = days_from_monday(now);
    let week = match minus_days(&today_dt, wd as i64) {
        Some(w) => Some(w.stamp()),
        None => None,
    };
    assert(week_starts_by_today(now@));
    let month = (today_start.0, today_start.1, 1u32, 0u32, 0u32, 0u32, 0u32);
    assert(month == month_start(now@));
    let mut today: usize = 0;
    let mut this_week: usize = 0;
    let mut this_month: usize = 0;
    let mut names: Vec<Vec<char>> = Vec::new();
    let mut counts: Vec<usize> = Vec::new();
    let none = chars_of("none");
    proof {
        reveal_strlit("none");
    }
    let mut i: usize = 0;
    while i < notes.len()
        invariant
            i <= notes.len(),
            none@ == none_text(),
            today as nat == count_since(notes@.take(i as int), Some(day_start(now@))),
            this_week as nat == count_since(notes@.take(i as int), week_start(now@)),
            this_month as nat == count_since(notes@.take(i as int), Some(month_start(now@))),
            today_start == day_start(now@),
            week == week_start(now@),
            month == month_start(now@),
            counts@.len() == names@.len(),
            forall|k: int| 0 <= k < names@.len() ==> (#[trigger] names@[k])@ != none_text(),
            forall|k: int| 0 <= k < names@.len() ==> #[trigger] counts@[k] as nat == repo_count(notes@.take(i as int), names@[k]@),
            forall|k: int| 0 <= k < names@.len() ==> #[trigger] counts@[k] >= 1,
            forall|a: int, b: int| 0 <= a < b < names@.len() ==> (#[trigger] names@[a])@ != (#[trigger] names@[b])@,
            forall|j: int| 0 <= j < i && in_repo(#[trigger] notes@[j]) ==> exists|k: int| 0 <= k < names@.len() && (#[trigger] names@[k])@ == notes@[j].frontmatter.git_repo@,
            names@.len() == 0 ==> forall|j: int| 0 <= j < i ==> !in_repo(#[trigger] notes@[j]),
        decreases notes.len() - i,
    {
        let ghost pre = notes@.take(i as int);
        let ghost post = notes@.take(i + 1);
        proof {
            assert(post.drop_last() == pre);
            assert(post.last() == notes@[i as int]);
            lemma_count_since_le(pre, Some(day_start(now@)));
            lemma_count_since_le(pre, week_start(now@));
            lemma_count_since_le(pre, Some(month_start(now@)));
        }
        let n = &notes[i];
        let k = key_of(n);
        if since_exec(k, Some(today_start)) {
            today += 1;
        }
        if since_exec(k, week) {
            this_week += 1;
        }
        if since_exec(k, Some(month)) {
            this_month += 1;
        }
        let r = chars_of(n.frontmatter.git_repo.as_str());
        let ghost old_names = names@;
        let ghost old_counts = counts@;
        proof {
            assert forall|x: Seq<char>| #[trigger] repo_count(post, x) == repo_count(pre, x) + if r@ == x { 1nat } else { 0nat } by {
            }
        }
        if !chars_eq(&r, &none) {
            let mut j: usize = 0;
            while j < names.len() && !chars_eq(&names[j], &r)
                invariant
                    j <= names@.len(),
                    forall|m: int| 0 <= m < j ==> (#[trigger] names@[m])@ != r@,
                decreases names.len() - j,
            {
                j += 1;
            }
            if j < names.len() {
                proof {
                    lemma_repo_count_le(pre, r@);
                    assert(old_counts[j as int] as nat == repo_count(pre, old_names[j as int]@));
                }
                let c = counts[j] + 1;
                counts.set(j, c);
                proof {
                    assert forall|m: int| 0 <= m < names@.len() implies #[trigger] counts@[m] as nat
                        == repo_count(post, names@[m]@) by {
                        assert(old_counts[m] as nat == repo_count(pre, old_names[m]@));
                        if m != j {
                            assert(old_names[m] != old_names[j as int]);
                        }
                    }
                    assert forall|q: int| 0 <= q < i + 1 && in_repo(#[trigger] notes@[q]) implies exists|k: int| 0 <= k < names@.len() && (#[trigger] names@[k])@ == notes@[q].frontmatter.git_repo@ by {
                        if q == i {
                            assert(names@[j as int]@ == r@);
                        }
                    }
                }
            } else {
                names.push(r);
                counts.push(1);
                proof {
                    if repo_count(pre, r@) > 0 {
                        lemma_repo_count_zero(pre, r@);
                        let q = choose|q: int| 0 <= q < pre.len() && pre[q].frontmatter.git_repo@ == r@;
                        assert(pre[q] == notes@[q]);
                        assert(in_repo(notes@[q]));
                        let k = choose|k: int| 0 <= k < old_names.len() && (#[trigger] old_names[k])@ == notes@[q].frontmatter.git_repo@;
                        assert(old_names[k]@ != r@);
                    }
                    assert forall|m: int| 0 <= m < names@.len() implies #[trigger] counts@[m] as nat
                        == repo_count(post, names@[m]@) by {
                        if m < old_names.len() {
                            assert(old_counts[m] as nat == repo_count(pre, old_names[m]@));
                            assert(old_names[m]@ != r@);
                        }
                    }
                    assert forall|q: int| 0 <= q < i + 1 && in_repo(#[trigger] notes@[q]) implies exists|k: int| 0 <= k < names@.len() && (#[trigger] names@[k])@ == notes@[q].frontmatter.git_repo@ by {
                        if q == i {
                            assert(names@[old_names.len() as int]@ == r@);
                        } else {
                            let k = choose|k: int| 0 <= k < old_names.len() && (#[trigger] old_names[k])@ == notes@[q].frontmatter.git_repo@;
                            assert(names@[k] == old_names[k]);
                        }
                    }
                    assert forall|a: int, b: int| 0 <= a < b < names@.len() implies (#[trigger] names@[a])@ != (#[trigger] names@[b])@ by {
                        if b < old_names.len() {
                            assert(old_names[a]@ != old_names[b]@);
                        }
                    }
                }
            }
        } else {
            proof {
                assert forall|m: int| 0 <= m < names@.len() implies #[trigger] counts@[m] as nat
                    == repo_count(post, names@[m]@) by {
                    assert(old_counts[m] as nat == repo_count(pre, old_names[m]@));
                }
                assert(!in_repo(notes@[i as int]));
            }
        }
        i += 1;
    }
    proof {
        assert(notes@.take(notes@.len() as int) == notes@);
    }
    if names.len() == 0 {
        return NoteStats {
            total: notes.len(),
            today,
            this_week,
            this_month,
            most_active_repo: None,
            most_active_repo_count: 0,
        };
    }
    let mut best: usize = 0;
    let mut m: usize = 1;
    while m < names.len()
        invariant
            1 <= m <= names@.len(),
            best < m,
            counts@.len() == names@.len(),
            forall|k: int| 0 <= k < m ==> #[trigger] counts@[k] <= counts@[best as int],
        decreases names.len() - m,
    {
        if counts[m] > counts[best] {
            best = m;
        }
        m += 1;
    }
    let name = string_from(&names[best]);
    proof {
        assert forall|j: int| 0 <= j < notes@.len() && in_repo(#[trigger] notes@[j]) implies repo_count(notes@, notes@[j].frontmatter.git_repo@) <= counts@[best as int] by {
            let k = choose|k: int| 0 <= k < names@.len() && (#[trigger] names@[k])@ == notes@[j].frontmatter.git_repo@;
            assert(counts@[k] <= counts@[best as int]);
        }
        assert(exists|j: int| 0 <= j < notes@.len() && in_repo(notes@[j])) by {
            assert(counts@[0] >= 1);
            lemma_repo_count_zero(notes@, names@[0]@);
            let q = choose|q: int| 0 <= q < notes@.len() && notes@[q].frontmatter.git_repo@ == names@[0]@;
            assert(in_repo(notes@[q]));
        }
    }
    NoteStats {
        total: notes.len(),
        today,
        this_week,
        this_month,
        most_active_repo: Some(name),
        most_active_repo_count: counts[best],
    }
}

proof fn lemma_count_since_mono(s: Seq<Note>, a: Stamp, b: Stamp)
    requires
        stamp_le(a, b),
    ensures
        count_since(s, Some(b)) <= count_since(s, Some(a)),
        count_since(s, Some(a)) <= count_since(s, None),
    decreases s.len(),
{
    if s.len() > 0 {
        lemma_count_since_mono(s.drop_last(), a, b);
        if let Some(t) = note_key(s.last()) {
            crate::time::lemma_stamp_order(a, b, t);
        }
    }
}

/// The stats count each period within the next longer one: notes of
/// today are among those of this month, and those among all notes; this
/// week's are among all notes, and include today's when the week starts no
/// later than today (which `compute_stats_at` states it does).
pub proof fn law_stats_periods(s: Seq<Note>, now: Stamp, r: NoteStats)
    requires
        valid_stamp(now),
        stats_at(s, now, r),
    ensures
        r.today <= r.this_month,
        r.this_month <= r.total,
        r.this_week <= r.total,
        week_starts_by_today(now) ==> r.today <= r.this_week,
{
    if let Some(w) = week_start(now) {
        if stamp_le(w, day_start(now)) {
            lemma_count_since_mono(s, w, day_start(now));
        }
    } else {
        lemma_count_since_mono(s, day_start(now), day_start(now));
    }
    lemma_count_since_mono(s, month_start(now), day_start(now));
    lemma_count_since_le(s, None);
    lemma_count_since_le(s, week_start(now));
}

proof fn lemma_repo_count_zero(s: Seq<Note>, r: Seq<char>)
    ensures
        repo_count(s, r) > 0 ==> exists|q: int| 0 <= q < s.len() && s[q].frontmatter.git_repo@ == r,
    decreases s.len(),
{
    if s.len() > 0 {
        lemma_repo_count_zero(s.drop_last(), r);
        if repo_count(s.drop_last(), r) > 0 {
            let q = choose|q: int| 0 <= q < s.drop_last().len() && s.drop_last()[q].frontmatter.git_repo@ == r;
            assert(s[q] == s.drop_last()[q]);
        }
    }
}

/// Counts the notes by period as of `now`, and finds the most active
/// repository.
pub fn compute_stats_at(notes: &[Note], now: &DateTime) -> (r: NoteStats)
    requires
        valid_stamp(now@),
    ensures
        stats_at(notes@, now@, r),
        week_starts_by_today(now@),
        r.today <= r.this_week <= r.total,
        r.today <= r.this_month <= r.total,
{
    let r = tally_stats(notes, now);
    proof {
        law_stats_periods(notes@, now@, r);
    }
    r
}

/// Counts the notes by period, as of the local time now, and finds the
/// most active repository.
pub fn compute_stats(notes: &[Note]) -> (r: NoteStats)
    ensures
        exists|now: Stamp| valid_stamp(now) && week_starts_by_today(now) && stats_at(notes@, now, r),
        r.today <= r.this_week <= r.total,
        r.today <= r.this_month <= r.total,
{
    let now = local_now();
    let r = compute_stats_at(notes, &now);
    assert(valid_stamp(now@) && week_starts_by_today(now@) && stats_at(notes@, now@, r));
    r
}

// ── Fuzzy search ─────────────────────────────────────────────────────────────

/// The characters of `w` occur in `t` in order, possibly with others in
/// between.
pub open spec fn is_subseq(w: Seq<char>, t: Seq<char>) -> bool
    decreases t.len(),
{
    if w.len() == 0 {
        true
    } else if t.len() == 0 {
        false
    } else if w[0] == t[0] {
        is_subseq(w.drop_first(), t.drop_first())
    } else {
        is_subseq(w, t.drop_first())
    }
}

/// How well one query word matches a text: 2 when it occurs as is, 1 when
/// its characters occur in order with gaps (skipped or mistyped letters),
/// 0 otherwise.
pub open spec fn word_score(w: Seq<char>, t: Seq<char>) -> nat {
    if contains(t, w) {
        2
    } else if is_subseq(w, t) {
        1
    } else {
        0
    }
}

/// The score of a text for a list of query words: `None` when some word
/// does not match, else the sum of the word scores. Words may match in any
/// order.
pub open spec fn words_score(ws: Seq<Seq<char>>, t: Seq<char>) -> Option<nat>
    decreases ws.len(),
{
    if ws.len() == 0 {
        Some(0)
    } else {
        match words_score(ws.drop_last(), t) {
            None => None,
            Some(s) => {
                let w = word_score(ws.last(), t);
                if w == 0 {
                    None
                } else {
                    Some(s + w)
                }
            },
        }
    }
}

/// The fuzzy score of a note for a query (both lowercased).
pub open spec fn fuzzy_score(n: Note, query: Seq<char>) -> Option<nat> {
    words_score(words(lowercase(query)), lowercase(n.body@))
}

/// The notes that match, each with its score, in order.
pub open spec fn scored(s: Seq<Note>, query: Seq<char>) -> Seq<(Note, nat)>
    decreases s.len(),
{
    if s.len() == 0 {
        seq![]
    } else {
        let rest = scored(s.drop_last(), query);
        match fuzzy_score(s.last(), query) {
            Some(sc) => rest.push((s.last(), sc)),
            None => rest,
        }
    }
}

/// Index of the first entry at or after `i` with a score below `sc`.
pub open spec fn first_lower(t: Seq<(Note, nat)>, sc: nat, i: int) -> int
    decreases t.len() - i,
{
    if i < 0 || i >= t.len() {
        t.len() as int
    } else if t[i].1 < sc {
        i
    } else {
        first_lower(t, sc, i + 1)
    }
}

/// Entries by score, best first; equal scores keep their order.
pub open spec fn by_score(s: Seq<(Note, nat)>) -> Seq<(Note, nat)>
    decreases s.len(),
{
    if s.len() == 0 {
        s
    } else {
        let t = by_score(s.drop_last());
        t.insert(first_lower(t, s.last().1, 0), s.last())
    }
}

/// The notes a fuzzy search returns: the matching ones, best score first.
pub open spec fn fuzzy_results(s: Seq<Note>, query: Seq<char>) -> Seq<Note> {
    by_score(scored(s, query)).map_values(|e: (Note, nat)| e.0)
}

proof fn lemma_all_contained_score(ws: Seq<Seq<char>>, t: Seq<char>)
    requires
        forall|i: int| 0 <= i < ws.len() ==> contains(t, #[trigger] ws[i]),
    ensures
        words_score(ws, t) == Some(2 * ws.len()),
    decreases ws.len(),
{
    if ws.len() > 0 {
        assert forall|i: int| 0 <= i < ws.drop_last().len() implies contains(t, #[trigger] ws.drop_last()[i]) by {
            assert(ws.drop_last()[i] == ws[i]);
        }
        lemma_all_contained_score(ws.drop_last(), t);
        assert(contains(t, ws[ws.len() - 1]));
    }
}

/// A fuzzy search finds every note an exact search finds: a body that
/// contains the whole query contains each of its words.
pub proof fn law_fuzzy_finds_exact(n: Note, query: Seq<char>)
    requires
        body_matches(n, query),
    ensures
        fuzzy_score(n, query) is Some,
{
    let lq = lowercase(query);
    let lb = lowercase(n.body@);
    crate::text::lemma_words_occur(lq);
    let ws = words(lq);
    assert forall|i: int| 0 <= i < ws.len() implies contains(lb, #[trigger] ws[i]) by {
        crate::text::lemma_contains_trans(lb, lq, ws[i]);
    }
    lemma_all_contained_score(ws, lb);
}

/// Whether `w` is a subsequence of `t`.
pub fn subseq_chars(w: &Vec<char>, t: &Vec<char>) -> (r: bool)
    ensures
        r == is_subseq(w@, t@),
{
    let mut i: usize = 0;
    let mut j: usize = 0;
    assert(w@.skip(0) == w@ && t@.skip(0) == t@);
    while i < w.len() && j < t.len()
        invariant
            i <= w.len(),
            j <= t.len(),
            is_subseq(w@, t@) == is_subseq(w@.skip(i as int), t@.skip(j as int)),
        decreases t.len() - j,
    {
        proof {
            assert(w@.skip(i as int).drop_first() == w@.skip(i + 1));
            assert(t@.skip(j as int).drop_first() == t@.skip(j + 1));
        }
        if w[i] == t[j] {
            i += 1;
        }
        j += 1;
    }
    i == w.len()
}

proof fn lemma_first_lower(t: Seq<(Note, nat)>, sc: nat, i: int, j: int)
    requires
        0 <= i <= j <= t.len(),
        forall|m: int| i <= m < j ==> !((#[trigger] t[m]).1 < sc),
        j == t.len() || t[j].1 < sc,
    ensures
        first_lower(t, sc, i) == j,
    decreases j - i,
{
    if i < j {
        lemma_first_lower(t, sc, i + 1, j);
    }
}

proof fn lemma_words_score_bound(ws: Seq<Seq<char>>, t: Seq<char>)
    ensures
        words_score(ws, t) matches Some(s) ==> s <= 2 * ws.len(),
    decreases ws.len(),
{
    if ws.len() > 0 {
        lemma_words_score_bound(ws.drop_last(), t);
    }
}

/// The fuzzy score of a body for query words (already lowercased).
fn score_of(ws: &Vec<Vec<char>>, body: &str) -> (r: Option<u128>)
    ensures
        match r {
            Some(x) => words_score(views(ws@), lowercase(body@)) == Some(x as nat),
            None => words_score(views(ws@), lowercase(body@)) is None,
        },
{
    let b = chars_of(body);
    let lb = lowercase_chars(&b);
    let mut total: u128 = 0;
    let mut i: usize = 0;
    assert(views(ws@).take(0) =~= seq![]);
    while i < ws.len()
        invariant
            i <= ws.len(),
            lb@ == lowercase(body@),
            words_score(views(ws@).take(i as int), lb@) == Some(total as nat),
            total <= 2 * i,
        decreases ws.len() - i,
    {
        proof {
            assert(views(ws@).take(i + 1).drop_last() == views(ws@).take(i as int));
            assert(views(ws@).take(i + 1).last() == ws@[i as int]@);
        }
        let w = if contains_chars(&lb, &ws[i]) {
            2
        } else if subseq_chars(&ws[i], &lb) {
            1
        } else {
            0
        };
        if w == 0 {
            proof {
                lemma_words_none(views(ws@), lb@, (i + 1) as int);
            }
            return None;
        }
        total = total + w;
        i += 1;
    }
    assert(views(ws@).take(ws.len() as int) == views(ws@));
    Some(total)
}

proof fn lemma_words_none(ws: Seq<Seq<char>>, t: Seq<char>, k: int)
    requires
        0 < k <= ws.len(),
        words_score(ws.take(k), t) is None,
    ensures
        words_score(ws, t) is None,
    decreases ws.len() - k,
{
    if k < ws.len() {
        assert(ws.take(k + 1).drop_last() == ws.take(k));
        lemma_words_none(ws, t, k + 1);
    } else {
        assert(ws.take(k) == ws);
    }
}

/// Fuzzy search: notes whose body matches every query word exactly or
/// with skipped characters, best matches first.
pub fn fuzzy_search(notes: Vec<Note>, query: &str) -> (r: Vec<Note>)
    ensures
        r@ == fuzzy_results(notes@, query@),
{
    let q = chars_of(query);
    let lq = lowercase_chars(&q);
    let ws = words_of(&lq);
    let ghost all = notes@;
    let mut out: Vec<Note> = Vec::new();
    let mut scores: Vec<u128> = Vec::new();
    let ghost mut entries: Seq<(Note, nat)> = seq![];
    let ghost mut n: int = 0;
    assert(all.take(0) =~= seq![]);
    for x in it: notes.into_iter()
        invariant
            n == it.index(),
            it.seq() == all,
            views(ws@) == words(lowercase(query@)),
            entries == by_score(scored(all.take(n), query@)),
            out@.len() == entries.len(),
            scores@.len() == entries.len(),
            forall|k: int| 0 <= k < entries.len() ==> #[trigger] out@[k] == entries[k].0,
            forall|k: int| 0 <= k < entries.len() ==> #[trigger] scores@[k] as nat == entries[k].1,
    {
        proof {
            assert(all.take(n + 1).drop_last() == all.take(n));
            assert(all.take(n + 1).last() == x);
        }
        match score_of(&ws, x.body.as_str()) {
            Some(sc) => {
                let mut pos: usize = 0;
                while pos < scores.len() && !(scores[pos] < sc)
                    invariant
                        pos <= scores@.len(),
                        scores@.len() == entries.len(),
                        forall|k: int| 0 <= k < entries.len() ==> #[trigger] scores@[k] as nat == entries[k].1,
                        forall|m: int| 0 <= m < pos ==> !((#[trigger] entries[m]).1 < sc),
                    decreases scores.len() - pos,
                {
                    pos += 1;
                }
                proof {
                    if pos < scores@.len() {
                        assert(scores@[pos as int] as nat == entries[pos as int].1);
                    }
                    lemma_first_lower(entries, sc as nat, 0, pos as int);
                    let ghost prev = entries;
                    entries = entries.insert(pos as int, (x, sc as nat));
                    assert(fuzzy_score(x, query@) == Some(sc as nat));
                    assert(scored(all.take(n + 1), query@) == scored(all.take(n), query@).push((x, sc as nat)));
                    assert(scored(all.take(n + 1), query@).drop_last() == scored(all.take(n), query@));
                }
                let ghost old_out = out@;
                let ghost old_scores = scores@;
                out.insert(pos, x);
                scores.insert(pos, sc);
                proof {
                    assert forall|k: int| 0 <= k < entries.len() implies #[trigger] out@[k] == entries[k].0 by {
                        if k > pos {
                            assert(out@[k] == old_out[k - 1]);
                        }
                    }
                    assert forall|k: int| 0 <= k < entries.len() implies #[trigger] scores@[k] as nat == entries[k].1 by {
                        if k > pos {
                            assert(scores@[k] == old_scores[k - 1]);
                        }
                    }
                }
            },
            None => {
                proof {
                    assert(fuzzy_score(x, query@) is None);
                    assert(scored(all.take(n + 1), query@) == scored(all.take(n), query@));
                }
            },
        }
        proof {
            n = n + 1;
        }
    }
    proof {
        assert(all.take(n) == all);
        assert(out@ =~= entries.map_values(|e: (Note, nat)| e.0));
    }
    out
}

// ── Notes of a commit ────────────────────────────────────────────────────────

/// The note was written at a commit whose hash starts with `prefix`.
pub open spec fn at_commit(n: Note, prefix: Seq<char>) -> bool {
    n.frontmatter.commit_hash@ != none_text() && is_prefix(prefix, n.frontmatter.commit_hash@)
}

/// The notes written at a commit, in order.
pub open spec fn of_commit(s: Seq<Note>, prefix: Seq<char>) -> Seq<Note>
    decreases s.len(),
{
    if s.len() == 0 {
        seq![]
    } else if at_commit(s.last(), prefix) {
        of_commit(s.drop_last(), prefix).push(s.last())
    } else {
        of_commit(s.drop_last(), prefix)
    }
}

/// Keeps the notes written at the commit whose (full or short) hash is
/// given.
pub fn filter_by_commit(notes: Vec<Note>, hash: &str) -> (r: Vec<Note>)
    ensures
        r@ == of_commit(notes@, hash@),
{
    let p = chars_of(hash);
    let none = chars_of("none");
    proof {
        reveal_strlit("none");
    }
    let ghost all = notes@;
    let mut r: Vec<Note> = Vec::new();
    let ghost mut n: int = 0;
    assert(all.take(0) =~= seq![]);
    for x in it: notes.into_iter()
        invariant
            n == it.index(),
            it.seq() == all,
            p@ == hash@,
            none@ == none_text(),
            r@ == of_commit(all.take(n), hash@),
    {
        proof {
            assert(all.take(n + 1).drop_last() == all.take(n));
            assert(all.take(n + 1).last() == x);
        }
        let h = chars_of(x.frontmatter.commit_hash.as_str());
        if !chars_eq(&h, &none) && starts_with_chars(&h, &p) {
            r.push(x);
        }
        proof {
            n = n + 1;
        }
    }
    assert(all.take(n) == all);
    r
}

} // verus!
