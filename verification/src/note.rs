//! Notes: the frontmatter record, the note file layout (a `---` fenced YAML
//! block followed by the body), note paths and note identifiers.
use vstd::prelude::*;
use crate::time::{chrono_parse_iso, parse_iso, DateTime};
use crate::text::{
    lead_char, lemma_index_of, lemma_join_cons, lemma_join_lines, lemma_lead_ws, lemma_lines_concat,
    lemma_trail_ws, no_cr, strip_cr,
    chars_eq, chars_of, is_prefix, join, join_range, lines, lines_of, matches_at, push_char,
    push_chars, push_str, slice_chars, string_from, strip_leading, strip_leading_chars, trim,
    trim_chars, trim_end, trim_end_chars, views,
};

verus! {

// ── Types ────────────────────────────────────────────────────────────────────

/// The metadata block at the top of a note file.
#[derive(Debug, Clone)]
pub struct NoteFrontmatter {
    pub id: String,
    pub timestamp: String,
    pub directory: String,
    pub git_repo: String,
    pub git_branch: String,
    /// HEAD commit (40-char SHA-1) when the note was saved, or `none`.
    pub commit_hash: String,
    /// Freeform tags, stored lowercase.
    pub tags: Vec<String>,
    /// Staged files when the note was saved (relative to the repo root).
    pub changed_files: Vec<String>,
    /// Modified but unstaged files when the note was saved.
    pub unstaged_files: Vec<String>,
    /// Untracked files when the note was saved.
    pub untracked_files: Vec<String>,
}

/// A note: its frontmatter, its body and the file it lives in.
#[derive(Debug, Clone)]
pub struct Note {
    pub frontmatter: NoteFrontmatter,
    pub body: String,
    pub file_path: String,
}

/// The two parts of a note file: the raw YAML block and the body.
#[derive(Debug)]
pub struct NoteParts {
    pub yaml: String,
    pub body: String,
}

#[verifier::external_type_specification]
#[verifier::external_body]
pub struct ExYamlError(serde_yaml::Error);

/// Why a note file could not be read.
#[derive(Debug)]
pub enum NoteParseError {
    MissingFrontmatter,
    InvalidYaml(serde_yaml::Error),
}

/// The text of a YAML error, from `serde_yaml::Error`'s `Display`. Nothing
/// is claimed of that text.
#[verifier::external_body]
fn yaml_error_text(e: &serde_yaml::Error) -> String {
    e.to_string()
}

impl NoteParseError {
    /// The message this error displays.
    pub fn message(&self) -> (r: String)
        ensures
            self is MissingFrontmatter ==> r@ == "missing or malformed frontmatter"@,
            self is InvalidYaml ==> "invalid YAML: "@.is_prefix_of(r@),
    {
        match self {
            NoteParseError::MissingFrontmatter => String::from_str("missing or malformed frontmatter"),
            NoteParseError::InvalidYaml(e) => {
                let mut r = String::from_str("invalid YAML: ");
                let t = yaml_error_text(e);
                push_str(&mut r, t.as_str());
                r
            },
        }
    }
}

impl From<serde_yaml::Error> for NoteParseError {
    fn from(e: serde_yaml::Error) -> (r: Self) {
        NoteParseError::InvalidYaml(e)
    }
}

impl vstd::std_specs::convert::FromSpecImpl<serde_yaml::Error> for NoteParseError {
    open spec fn obeys_from_spec() -> bool {
        true
    }

    open spec fn from_spec(e: serde_yaml::Error) -> Self {
        NoteParseError::InvalidYaml(e)
    }
}

// ── File layout ──────────────────────────────────────────────────────────────

pub open spec fn fence() -> Seq<char> {
    seq!['-', '-', '-']
}

pub open spec fn newline() -> Seq<char> {
    seq!['\n']
}

/// A line that opens or closes the frontmatter block.
pub open spec fn is_fence(line: Seq<char>) -> bool {
    trim(line) == fence()
}

/// Index of the first fence line at or after `i`, or `ls.len()`.
pub open spec fn next_fence(ls: Seq<Seq<char>>, i: int) -> int
    decreases ls.len() - i,
{
    if i < 0 || i >= ls.len() {
        ls.len() as int
    } else if is_fence(ls[i]) {
        i
    } else {
        next_fence(ls, i + 1)
    }
}

/// How a note file splits into its YAML block and its body, or `None` when
/// its first line is not a fence or no closing fence follows.
pub open spec fn split_spec(content: Seq<char>) -> Option<(Seq<char>, Seq<char>)> {
    let ls = lines(content);
    if ls.len() == 0 || !is_fence(ls[0]) {
        None
    } else {
        let k = next_fence(ls, 1);
        if k >= ls.len() {
            None
        } else {
            Some(
                (
                    join(ls.subrange(1, k), newline()),
                    trim_end(strip_leading(join(ls.skip(k + 1), newline()), '\n')),
                ),
            )
        }
    }
}

proof fn lemma_next_fence(ls: Seq<Seq<char>>, i: int, k: int)
    requires
        0 <= i <= k <= ls.len(),
        forall|j: int| i <= j < k ==> !is_fence(#[trigger] ls[j]),
        k == ls.len() || is_fence(ls[k]),
    ensures
        next_fence(ls, i) == k,
    decreases k - i,
{
    if i < k {
        lemma_next_fence(ls, i + 1, k);
    }
}

fn fence_chars() -> (r: Vec<char>)
    ensures
        r@ == fence(),
{
    let mut r: Vec<char> = Vec::new();
    r.push('-');
    r.push('-');
    r.push('-');
    r
}

fn is_fence_line(line: &Vec<char>) -> (b: bool)
    ensures
        b == is_fence(line@),
{
    let t = trim_chars(line);
    let f = fence_chars();
    chars_eq(&t, &f)
}

/// Splits a note file into its YAML frontmatter block and its body.
///
/// The first line must be `---` (surrounding whitespace allowed); the block
/// runs up to the next such line. The body is everything after it, with
/// leading newlines and trailing whitespace removed.
pub fn split_note_file(content: &str) -> (r: Result<NoteParts, NoteParseError>)
    ensures
        match split_spec(content@) {
            Some((y, b)) => r matches Ok(p) && p.yaml@ == y && p.body@ == b,
            None => r matches Err(e) && e is MissingFrontmatter,
        },
{
    let v = chars_of(content);
    let ls = lines_of(&v);
    let ghost sl = lines(content@);
    assert(views(ls@).len() == ls@.len());
    if ls.len() == 0 || !is_fence_line(&ls[0]) {
        return Err(NoteParseError::MissingFrontmatter);
    }
    let mut k: usize = 1;
    while k < ls.len() && !is_fence_line(&ls[k])
        invariant
            1 <= k <= ls.len(),
            views(ls@) == sl,
            forall|j: int| 1 <= j < k ==> !is_fence(#[trigger] sl[j]),
        decreases ls.len() - k,
    {
        k += 1;
    }
    proof {
        lemma_next_fence(sl, 1, k as int);
    }
    if k >= ls.len() {
        return Err(NoteParseError::MissingFrontmatter);
    }
    let mut nl: Vec<char> = Vec::new();
    nl.push('\n');
    let yaml = join_range(&ls, 1, k, &nl);
    let raw = join_range(&ls, k + 1, ls.len(), &nl);
    let body = strip_leading_chars(&raw, '\n');
    let body = trim_end_chars(&body);
    proof {
        assert(views(ls@.subrange(1, k as int)) == sl.subrange(1, k as int));
        assert(views(ls@.subrange(k + 1, ls@.len() as int)) == sl.skip(k + 1));
    }
    Ok(NoteParts { yaml: string_from(&yaml), body: string_from(&body) })
}

/// Number of leading copies of `p` in `s` (`trim_start_matches(p)`).
pub open spec fn strip_prefix_all(s: Seq<char>, p: Seq<char>) -> Seq<char>
    decreases s.len(),
{
    if p.len() > 0 && is_prefix(p, s) {
        strip_prefix_all(s.skip(p.len() as int), p)
    } else {
        s
    }
}

pub open spec fn fence_line() -> Seq<char> {
    seq!['-', '-', '-', '\n']
}

/// The file text written for a note: the YAML (without a leading document
/// marker) between fences, a blank line, the body without trailing
/// whitespace, and a final newline.
pub open spec fn compose_spec(yaml: Seq<char>, body: Seq<char>) -> Seq<char> {
    fence_line() + strip_prefix_all(yaml, fence_line()) + fence_line() + newline() + trim_end(body)
        + newline()
}

fn strip_prefix_all_chars(s: &Vec<char>, p: &Vec<char>) -> (r: Vec<char>)
    ensures
        r@ == strip_prefix_all(s@, p@),
{
    let mut i: usize = 0;
    assert(s@.skip(0) == s@);
    while p.len() > 0 && i <= s.len() && matches_at(s, p, i)
        invariant
            i <= s.len(),
            strip_prefix_all(s@, p@) == strip_prefix_all(s@.skip(i as int), p@),
        decreases s.len() - i,
    {
        proof {
            let t = s@.skip(i as int);
            assert(t.take(p@.len() as int) == s@.subrange(i as int, i + p@.len()));
            assert(t.skip(p@.len() as int) == s@.skip(i + p@.len()));
        }
        i = i + p.len();
    }
    proof {
        let t = s@.skip(i as int);
        if p@.len() > 0 && is_prefix(p@, t) {
            assert(t.take(p@.len() as int) == s@.subrange(i as int, i + p@.len()));
        }
    }
    slice_chars(s, i, s.len())
}

/// The text of a note file, given the YAML serialization of its
/// frontmatter and its body.
pub fn compose_note_file(yaml: &str, body: &str) -> (r: String)
    ensures
        r@ == compose_spec(yaml@, body@),
{
    let mut fl: Vec<char> = Vec::new();
    fl.push('-');
    fl.push('-');
    fl.push('-');
    fl.push('\n');
    let y = chars_of(yaml);
    let y = strip_prefix_all_chars(&y, &fl);
    let b = chars_of(body);
    let b = trim_end_chars(&b);
    let mut r = string_from(&fl);
    push_chars(&mut r, &y);
    push_chars(&mut r, &fl);
    push_char(&mut r, '\n');
    push_chars(&mut r, &b);
    push_char(&mut r, '\n');
    assert(fl@ == fence_line());
    r
}

// ── Writing and reading back ─────────────────────────────────────────────────

/// The YAML text between the fences of a written file.
pub open spec fn yaml_body(yaml: Seq<char>) -> Seq<char> {
    strip_prefix_all(yaml, fence_line())
}

/// The YAML block read back from a written file: the written YAML text
/// without its final newline.
pub open spec fn yaml_back(yaml: Seq<char>) -> Seq<char> {
    let y = yaml_body(yaml);
    if y.len() == 0 {
        y
    } else {
        y.drop_last()
    }
}

/// YAML text that survives the round trip: no carriage returns, a final
/// newline (when not empty), and no line that reads as a fence.
pub open spec fn writable_yaml(yaml: Seq<char>) -> bool {
    let y = yaml_body(yaml);
    &&& no_cr(y)
    &&& y.len() == 0 || y.last() == '\n'
    &&& forall|i: int| 0 <= i < lines(y).len() ==> !is_fence(#[trigger] lines(y)[i])
}

/// The body read back from a written file.
pub open spec fn body_back(body: Seq<char>) -> Seq<char> {
    trim_end(strip_leading(trim_end(body), '\n'))
}

proof fn lemma_lines_fence()
    ensures
        lines(fence_line()) == seq![fence()],
        is_fence(fence()),
        lines(newline()) == seq![Seq::<char>::empty()],
        !is_fence(Seq::<char>::empty()),
{
    let f = fence_line();
    lemma_index_of(f, '\n', 3);
    assert(f.take(3) =~= fence());
    assert(f.skip(4) =~= seq![]);
    assert(strip_cr(fence()) == fence());
    assert(lines(Seq::<char>::empty()) =~= seq![]);
    assert(lines(f) =~= seq![fence()]);
    let n = newline();
    lemma_index_of(n, '\n', 0);
    assert(n.take(0) =~= seq![]);
    assert(n.skip(1) =~= seq![]);
    assert(lines(n) =~= seq![Seq::<char>::empty()]);
    lemma_lead_ws(fence(), 0);
    assert(fence().skip(0) == fence());
    lemma_trail_ws(fence(), 0);
    assert(fence().take(3) == fence());
    lemma_lead_ws(Seq::<char>::empty(), 0);
    lemma_trail_ws(Seq::<char>::empty(), 0);
    assert(trim(Seq::<char>::empty()) =~= seq![]);
}

proof fn lemma_compose_lines(yaml: Seq<char>, body: Seq<char>)
    requires
        yaml_body(yaml).len() == 0 || yaml_body(yaml).last() == '\n',
    ensures
        lines(compose_spec(yaml, body)) == seq![fence()] + lines(yaml_body(yaml)) + seq![fence()]
            + seq![Seq::<char>::empty()] + lines(trim_end(body) + newline()),
{
    let f = fence_line();
    let n = newline();
    let y = yaml_body(yaml);
    let z = trim_end(body) + n;
    lemma_lines_fence();
    assert(compose_spec(yaml, body) =~= f + (y + (f + (n + z))));
    lemma_lines_concat(n, z);
    lemma_lines_concat(f, n + z);
    let tail = f + (n + z);
    assert(lines(tail) =~= seq![fence()] + (seq![Seq::<char>::empty()] + lines(z)));
    if y.len() > 0 {
        lemma_lines_concat(y, tail);
    } else {
        assert(y + tail =~= tail);
        assert(lines(y) =~= seq![]);
    }
    assert(lines(y + tail) =~= lines(y) + lines(tail));
    lemma_lines_concat(f, y + tail);
    assert(lines(compose_spec(yaml, body)) =~= seq![fence()] + lines(y) + seq![fence()] + seq![
        Seq::<char>::empty(),
    ] + lines(z));
}

proof fn lemma_body_part(body: Seq<char>)
    requires
        no_cr(body),
    ensures
        trim_end(strip_leading(join(seq![Seq::<char>::empty()] + lines(trim_end(body) + newline()), newline()), '\n')) == body_back(body),
{
    let n = newline();
    let bt = trim_end(body);
    let z = bt + n;
    crate::text::lemma_ws_bounds(body);
    assert(forall|i: int| 0 <= i < bt.len() ==> bt[i] == body[i]);
    assert(z.last() == '\n');
    assert forall|i: int| 0 <= i < z.len() implies z[i] != '\r' by {
        if i < bt.len() {
            assert(z[i] == bt[i]);
            assert(bt[i] == body[i]);
        }
    }
    lemma_join_lines(z);
    assert(z.drop_last() =~= bt);
    lemma_join_cons(Seq::<char>::empty(), lines(z), n);
    let raw = join(seq![Seq::<char>::empty()] + lines(z), n);
    assert(raw =~= n + bt);
    assert(raw.drop_first() =~= bt);
    assert(lead_char(raw, '\n') == 1 + lead_char(bt, '\n'));
    crate::text::lemma_lead_char_bound(bt, '\n');
    assert(strip_leading(raw, '\n') =~= strip_leading(bt, '\n'));
}

/// Reading back a written note file gives the YAML text that was written
/// (without its final newline) and the body without leading newlines and
/// trailing whitespace, for YAML without fence lines or carriage returns
/// and a body without carriage returns.
pub proof fn law_note_file_roundtrip(yaml: Seq<char>, body: Seq<char>)
    requires
        writable_yaml(yaml),
        no_cr(body),
    ensures
        split_spec(compose_spec(yaml, body)) == Some((yaml_back(yaml), body_back(body))),
{
    let y = yaml_body(yaml);
    lemma_lines_fence();
    lemma_compose_lines(yaml, body);
    let ly = lines(y);
    let ls = lines(compose_spec(yaml, body));
    let m = ly.len() as int;
    assert forall|j: int| 1 <= j < 1 + m implies !is_fence(#[trigger] ls[j]) by {
        assert(ls[j] == ly[j - 1]);
    }
    assert(ls[1 + m] == fence());
    lemma_next_fence(ls, 1, 1 + m);
    assert(ls[0] == fence());
    assert(ls.subrange(1, 1 + m) =~= ly);
    if y.len() > 0 {
        lemma_join_lines(y);
    }
    assert(join(ly, newline()) == yaml_back(yaml));
    assert(ls.skip(1 + m + 1) =~= seq![Seq::<char>::empty()] + lines(trim_end(body) + newline()));
    lemma_body_part(body);
}

// ── Timestamps ───────────────────────────────────────────────────────────────

/// Parses a note timestamp (`YYYY-MM-DDTHH:MM:SS`).
pub fn parse_timestamp(ts: &str) -> (r: Option<DateTime>)
    ensures
        match r {
            Some(d) => chrono_parse_iso(ts@) == Some(d@),
            None => chrono_parse_iso(ts@) is None,
        },
{
    parse_iso(ts)
}

// ── Identifiers ──────────────────────────────────────────────────────────────

pub open spec fn is_lower_hex(c: char) -> bool {
    ('0' <= c <= '9') || ('a' <= c <= 'f')
}

/// The layout of a hyphenated lowercase UUID: 36 characters, hyphens at
/// 8, 13, 18 and 23, lowercase hex digits elsewhere.
pub open spec fn is_hyphenated_uuid(s: Seq<char>) -> bool {
    &&& s.len() == 36
    &&& forall|i: int|
        0 <= i < 36 ==> if i == 8 || i == 13 || i == 18 || i == 23 {
            s[i] == '-'
        } else {
            is_lower_hex(#[trigger] s[i])
        }
}

/// A fresh random version-4 UUID in hyphenated form (`Uuid::new_v4()`
/// rendered by its `Display`, which is lowercase hyphenated). The claim:
/// the text has that layout; which UUID it is is left open.
#[verifier::external_body]
fn new_uuid_text() -> (r: String)
    ensures
        is_hyphenated_uuid(r@),
{
    uuid::Uuid::new_v4().to_string()
}

/// The note identifier taken from a hyphenated UUID: its first 8
/// characters (the first group of hex digits).
pub fn id_from_uuid(u: &str) -> (r: String)
    requires
        is_hyphenated_uuid(u@),
    ensures
        r@ == u@.subrange(0, 8),
        forall|i: int| 0 <= i < 8 ==> is_lower_hex(#[trigger] r@[i]),
{
    let v = chars_of(u);
    let p = slice_chars(&v, 0, 8);
    assert forall|i: int| 0 <= i < 8 implies is_lower_hex(#[trigger] p@[i]) by {
        assert(p@[i] == u@[i]);
    }
    string_from(&p)
}

/// A new note identifier: the first 8 characters of a random UUID v4.
/// Which UUID is drawn is left open; the identifier is 8 lowercase hex
/// digits whatever it is.
pub fn generate_id() -> (r: String)
    ensures
        r@.len() == 8,
        forall|i: int| 0 <= i < 8 ==> is_lower_hex(#[trigger] r@[i]),
{
    let u = new_uuid_text();
    id_from_uuid(u.as_str())
}

// ── Paths ────────────────────────────────────────────────────────────────────

/// `PathBuf::join` on Unix: an absolute `p` replaces the base; otherwise a
/// `/` is inserted unless the base is empty or already ends with one.
pub open spec fn path_join(base: Seq<char>, p: Seq<char>) -> Seq<char> {
    if p.len() > 0 && p[0] == '/' {
        p
    } else if base.len() == 0 || base.last() == '/' {
        base + p
    } else {
        base + seq!['/'] + p
    }
}

/// Joins a path and a relative or absolute component.
pub fn join_path(base: &str, p: &str) -> (r: String)
    ensures
        r@ == path_join(base@, p@),
{
    let b = chars_of(base);
    let q = chars_of(p);
    if q.len() > 0 && q[0] == '/' {
        return string_from(&q);
    }
    let mut r = string_from(&b);
    if !(b.len() == 0 || b[b.len() - 1] == '/') {
        push_char(&mut r, '/');
    }
    push_chars(&mut r, &q);
    r
}

pub open spec fn md_suffix() -> Seq<char> {
    seq!['.', 'm', 'd']
}

/// The file name of a note: `<id>.md`.
pub open spec fn note_file_name(id: Seq<char>) -> Seq<char> {
    id + md_suffix()
}

/// The path of the note with the given id in the notes directory.
pub fn note_path(dir: &str, id: &str) -> (r: String)
    ensures
        r@ == path_join(dir@, note_file_name(id@)),
{
    let mut name = String::new();
    push_str(&mut name, id);
    push_char(&mut name, '.');
    push_char(&mut name, 'm');
    push_char(&mut name, 'd');
    join_path(dir, name.as_str())
}

pub open spec fn dot_notes() -> Seq<char> {
    seq!['.', 'n', 'o', 't', 'e', 's']
}

/// Where notes live: the override when given; otherwise `.notes` under
/// the home directory (`HOME`, then `USERPROFILE`, then `.`).
pub open spec fn notes_dir_spec(
    override_dir: Option<Seq<char>>,
    home: Option<Seq<char>>,
    profile: Option<Seq<char>>,
) -> Seq<char> {
    match override_dir {
        Some(d) => d,
        None => {
            let h = match home {
                Some(h) => h,
                None => match profile {
                    Some(p) => p,
                    None => seq!['.'],
                },
            };
            path_join(h, dot_notes())
        },
    }
}

/// Resolves the notes directory from the values of `NOTA_NOTES_DIR`,
/// `HOME` and `USERPROFILE`.
pub fn resolve_notes_dir(
    override_dir: Option<&str>,
    home: Option<&str>,
    profile: Option<&str>,
) -> (r: String)
    ensures
        r@ == notes_dir_spec(
            match override_dir {
                Some(d) => Some(d@),
                None => None,
            },
            match home {
                Some(h) => Some(h@),
                None => None,
            },
            match profile {
                Some(p) => Some(p@),
                None => None,
            },
        ),
{
    if let Some(d) = override_dir {
        let v = chars_of(d);
        return string_from(&v);
    }
    let base = match home {
        Some(h) => {
            let v = chars_of(h);
            string_from(&v)
        },
        None => match profile {
            Some(p) => {
                let v = chars_of(p);
                string_from(&v)
            },
            None => {
                let mut s = String::new();
                push_char(&mut s, '.');
                s
            },
        },
    };
    let mut name = String::new();
    push_char(&mut name, '.');
    push_char(&mut name, 'n');
    push_char(&mut name, 'o');
    push_char(&mut name, 't');
    push_char(&mut name, 'e');
    push_char(&mut name, 's');
    join_path(base.as_str(), name.as_str())
}

/// `Path::extension` of a file name is `md`: the text after the last dot,
/// where that dot is not the first character.
pub open spec fn has_md_extension_spec(name: Seq<char>) -> bool {
    exists|i: int|
        0 < i < name.len() && name[i] == '.' && (forall|k: int| i < k < name.len() ==> name[k]
            != '.') && name.skip(i + 1) == seq!['m', 'd']
}

/// Whether a file name has the `md` extension.
pub fn has_md_extension(name: &str) -> (r: bool)
    ensures
        r == has_md_extension_spec(name@),
{
    let v = chars_of(name);
    let n = v.len();
    if n < 4 {
        assert forall|i: int| 0 < i < name@.len() && name@[i] == '.' implies !(name@.skip(i + 1)
            == seq!['m', 'd']) by {
            if name@.skip(i + 1) == seq!['m', 'd'] {
                assert(name@.skip(i + 1).len() == 2);
                assert(name@.skip(i + 1).len() == n - i - 1);
            }
        }
        return false;
    }
    let r = v[n - 3] == '.' && v[n - 2] == 'm' && v[n - 1] == 'd';
    if r {
        assert(name@.skip(n - 2) =~= seq!['m', 'd']);
        assert(forall|k: int| n - 3 < k < n ==> name@[k] != '.');
    } else {
        assert forall|i: int|
            0 < i < name@.len() && name@[i] == '.' && (forall|k: int|
                i < k < name@.len() ==> name@[k] != '.') implies !(name@.skip(i + 1) == seq![
            'm',
            'd',
        ]) by {
            if name@.skip(i + 1) == seq!['m', 'd'] {
                assert(name@.skip(i + 1).len() == 2);
                assert(name@.skip(i + 1).len() == n - i - 1);
                assert(i == n - 3);
                assert(name@.skip(i + 1)[0] == name@[n - 2]);
                assert(name@.skip(i + 1)[1] == name@[n - 1]);
            }
        }
    }
    r
}

} // verus!
