//! What the terminal shows: timestamps, truncated bodies, and the rows and
//! blocks of text the commands print, as spans of text with a style.
use vstd::prelude::*;
use crate::note::{parse_timestamp, Note};
use crate::search::{GroupView, NoteStats, RepoGroup};
use crate::text::{
    chars_of, find_from, lines, lines_of, lowercase, lowercase_chars, match_at,
    push_char, push_chars, push_str, slice_chars, string_from, string_views, trim, trim_chars,
};
use crate::time::{decimal, decimal_chars};
use crate::time::{chrono_parse_iso, minutes_chars, minutes_text};

verus! {

/// Display settings.
pub struct DisplayConfig {
    pub body_width: usize,
}

impl Default for DisplayConfig {
    fn default() -> (r: Self)
        ensures
            r.body_width == 80,
    {
        DisplayConfig { body_width: 80 }
    }
}

/// A timestamp as shown: `YYYY-MM-DD HH:MM` when it parses, else the text
/// itself.
pub open spec fn shown_timestamp(ts: Seq<char>) -> Seq<char> {
    match chrono_parse_iso(ts) {
        Some(s) => minutes_text(s),
        None => ts,
    }
}

/// Renders a note timestamp for display.
pub fn format_timestamp(ts: &str) -> (r: String)
    ensures
        r@ == shown_timestamp(ts@),
{
    match parse_timestamp(ts) {
        Some(dt) => {
            let v = minutes_chars(&dt);
            string_from(&v)
        },
        None => {
            let v = chars_of(ts);
            string_from(&v)
        },
    }
}

/// The first line of a text, or empty.
pub open spec fn first_line(s: Seq<char>) -> Seq<char> {
    if lines(s).len() > 0 {
        lines(s)[0]
    } else {
        seq![]
    }
}

/// The first line, trimmed, cut to `width` characters with `…` appended
/// when it was longer.
pub open spec fn truncated(body: Seq<char>, width: nat) -> Seq<char> {
    let t = trim(first_line(body));
    if t.len() > width {
        t.take(width as int).push('…')
    } else {
        t
    }
}

/// Shortens a note body to its first line for table display.
pub fn truncate_body(body: &str, width: usize) -> (r: String)
    ensures
        r@ == truncated(body@, width as nat),
{
    let v = chars_of(body);
    let ls = lines_of(&v);
    let first = if ls.len() > 0 {
        assert(crate::text::views(ls@)[0] == ls@[0]@);
        slice_chars(&ls[0], 0, ls[0].len())
    } else {
        Vec::new()
    };
    assert(first@ == first_line(body@));
    let t = trim_chars(&first);
    if t.len() > width {
        let mut c = slice_chars(&t, 0, width);
        c.push('…');
        string_from(&c)
    } else {
        string_from(&t)
    }
}

// ── Styled text ──────────────────────────────────────────────────────────────

/// How a piece of terminal text is colored.
#[derive(Debug, Clone, Copy)]
pub enum Style {
    Plain,
    Dimmed,
    Blue,
    BlueBold,
    White,
    WhiteBold,
    /// Tag labels: cyan, dimmed.
    Tag,
    /// Search matches: yellow, bold.
    Match,
    /// Field labels that lead a block: cyan, bold.
    Label,
    /// Field labels: cyan.
    Field,
    /// Separator rules: gray.
    Rule,
    /// Warnings: red.
    Alert,
    /// Status messages: green, bold.
    Notice,
    /// Text being typed: yellow.
    Input,
}

/// A piece of text and its style.
pub struct Span {
    pub text: String,
    pub style: Style,
}

pub type SpanView = (Seq<char>, Style);

pub open spec fn span_view(s: Span) -> SpanView {
    (s.text@, s.style)
}

pub open spec fn span_views(s: Seq<Span>) -> Seq<SpanView> {
    s.map_values(|x: Span| span_view(x))
}

/// The characters of a line of spans.
pub open spec fn line_text(s: Seq<SpanView>) -> Seq<char>
    decreases s.len(),
{
    if s.len() == 0 {
        seq![]
    } else {
        line_text(s.drop_last()) + s.last().0
    }
}

fn span(text: String, style: Style) -> (r: Span)
    ensures
        r.text == text,
        r.style == style,
{
    Span { text, style }
}

pub(crate) fn chars_span(v: &Vec<char>, style: Style) -> (r: Span)
    ensures
        r.text@ == v@,
        r.style == style,
{
    Span { text: string_from(v), style }
}

fn push_span(line: &mut Vec<Span>, text: String, style: Style)
    ensures
        span_views(final(line)@) == span_views(old(line)@).push((text@, style)),
{
    let ghost before = line@;
    line.push(Span { text, style });
    assert(span_views(line@) =~= span_views(before).push((text@, style)));
}

fn push_gap(line: &mut Vec<Span>)
    ensures
        span_views(final(line)@) == span_views(old(line)@).push(gap()),
{
    let mut t = String::new();
    push_char(&mut t, ' ');
    push_char(&mut t, ' ');
    push_span(line, t, Style::Plain);
    assert(seq![' '].push(' ') =~= seq![' ', ' ']);
}

fn push_lit(line: &mut Vec<Span>, text: &str, style: Style)
    ensures
        span_views(final(line)@) == span_views(old(line)@).push((text@, style)),
{
    let v = chars_of(text);
    push_span(line, string_from(&v), style);
}

pub open spec fn spaces(n: nat) -> Seq<char> {
    Seq::new(n, |_i: int| ' ')
}

/// `format!("{:<w}", s)`: padded with spaces on the right to `w`
/// characters.
pub open spec fn pad_right(s: Seq<char>, w: nat) -> Seq<char> {
    if s.len() >= w {
        s
    } else {
        s + spaces((w - s.len()) as nat)
    }
}

fn pad_right_chars(v: &Vec<char>, w: usize) -> (r: Vec<char>)
    ensures
        r@ == pad_right(v@, w as nat),
{
    let mut r = slice_chars(v, 0, v.len());
    if v.len() < w {
        let k = w - v.len();
        let mut i: usize = 0;
        while i < k
            invariant
                i <= k,
                k == w - v.len(),
                r@ == v@ + spaces(i as nat),
            decreases k - i,
        {
            r.push(' ');
            assert(v@ + spaces((i + 1) as nat) =~= (v@ + spaces(i as nat)).push(' '));
            i += 1;
        }
    }
    r
}

// ── Note rows ────────────────────────────────────────────────────────────────

pub open spec fn gap() -> SpanView {
    (seq![' ', ' '], Style::Plain)
}

/// The tag labels of a note: `#tag`, separated by single spaces.
pub open spec fn tag_spans(tags: Seq<Seq<char>>) -> Seq<SpanView>
    decreases tags.len(),
{
    if tags.len() == 0 {
        seq![]
    } else if tags.len() == 1 {
        seq![(seq!['#'] + tags[0], Style::Tag)]
    } else {
        tag_spans(tags.drop_last()) + seq![(seq![' '], Style::Plain), (seq!['#'] + tags.last(), Style::Tag)]
    }
}

/// The spans of a note row around a given body part: timestamp,
/// `repo/branch`, body, tags when there are any, and `[id]`.
pub open spec fn row_spans(n: Note, body: Seq<SpanView>) -> Seq<SpanView> {
    let f = n.frontmatter;
    let head = seq![
        (shown_timestamp(f.timestamp@), Style::Dimmed),
        gap(),
        (f.git_repo@ + seq!['/'] + f.git_branch@, Style::Blue),
        gap(),
    ];
    let tags = string_views(f.tags@);
    let id = (seq!['['] + f.id@ + seq![']'], Style::Dimmed);
    if tags.len() == 0 {
        head + body + seq![gap(), id]
    } else {
        head + body + seq![gap()] + tag_spans(tags) + seq![gap(), id]
    }
}

/// A row of the notes table.
pub open spec fn table_row(n: Note, width: nat) -> Seq<SpanView> {
    row_spans(n, seq![(truncated(n.body@, width), Style::White)])
}

fn push_tag_spans(line: &mut Vec<Span>, tags: &Vec<String>)
    ensures
        span_views(final(line)@) == span_views(old(line)@) + tag_spans(string_views(tags@)),
{
    let ghost start = span_views(line@);
    assert(string_views(tags@).take(0) =~= seq![]);
    for i in 0..tags.len()
        invariant
            span_views(line@) == start + tag_spans(string_views(tags@).take(i as int)),
    {
        proof {
            let v = string_views(tags@);
            assert(v.take(i + 1).drop_last() == v.take(i as int));
            assert(v.take(i + 1).last() == tags@[i as int]@);
            if i == 0 {
                assert(v.take(1)[0] == tags@[0]@);
            }
        }
        if i > 0 {
            let mut sp = String::new();
            push_char(&mut sp, ' ');
            push_span(line, sp, Style::Plain);
        }
        let mut t = String::new();
        push_char(&mut t, '#');
        push_str(&mut t, tags[i].as_str());
        push_span(line, t, Style::Tag);
    }
    assert(string_views(tags@).take(tags.len() as int) == string_views(tags@));
}

fn row_head(n: &Note) -> (r: Vec<Span>)
    ensures
        span_views(r@) == seq![
            (shown_timestamp(n.frontmatter.timestamp@), Style::Dimmed),
            gap(),
            (n.frontmatter.git_repo@ + seq!['/'] + n.frontmatter.git_branch@, Style::Blue),
            gap(),
        ],
{
    let mut r: Vec<Span> = Vec::new();
    push_span(&mut r, format_timestamp(n.frontmatter.timestamp.as_str()), Style::Dimmed);
    push_gap(&mut r);
    let mut ctx = String::new();
    push_str(&mut ctx, n.frontmatter.git_repo.as_str());
    push_char(&mut ctx, '/');
    push_str(&mut ctx, n.frontmatter.git_branch.as_str());
    push_span(&mut r, ctx, Style::Blue);
    push_gap(&mut r);
    assert(span_views(r@) =~~= seq![
        (shown_timestamp(n.frontmatter.timestamp@), Style::Dimmed),
        gap(),
        (n.frontmatter.git_repo@ + seq!['/'] + n.frontmatter.git_branch@, Style::Blue),
        gap(),
    ]);
    r
}

fn row_tail(r: &mut Vec<Span>, n: &Note)
    ensures
        span_views(final(r)@) == span_views(old(r)@) + if n.frontmatter.tags@.len() == 0 {
            seq![gap(), (seq!['['] + n.frontmatter.id@ + seq![']'], Style::Dimmed)]
        } else {
            seq![gap()] + tag_spans(string_views(n.frontmatter.tags@)) + seq![gap(), (seq!['['] + n.frontmatter.id@ + seq![']'], Style::Dimmed)]
        },
{
    let ghost start = span_views(r@);
    push_gap(r);
    if n.frontmatter.tags.len() > 0 {
        push_tag_spans(r, &n.frontmatter.tags);
        push_gap(r);
    }
    let mut id = String::new();
    push_char(&mut id, '[');
    push_str(&mut id, n.frontmatter.id.as_str());
    push_char(&mut id, ']');
    push_span(r, id, Style::Dimmed);
    proof {
        if n.frontmatter.tags@.len() == 0 {
            assert(span_views(r@) =~~= start + seq![gap(), (seq!['['] + n.frontmatter.id@ + seq![']'], Style::Dimmed)]);
        } else {
            assert(span_views(r@) =~~= start + (seq![gap()] + tag_spans(string_views(n.frontmatter.tags@)) + seq![gap(), (seq!['['] + n.frontmatter.id@ + seq![']'], Style::Dimmed)]));
        }
    }
}

/// One row of the notes table.
pub fn note_row(n: &Note, config: &DisplayConfig) -> (r: Vec<Span>)
    ensures
        span_views(r@) == table_row(*n, config.body_width as nat),
{
    let mut r = row_head(n);
    let ghost head = span_views(r@);
    push_span(&mut r, truncate_body(n.body.as_str(), config.body_width), Style::White);
    row_tail(&mut r, n);
    proof {
        let body = seq![(truncated(n.body@, config.body_width as nat), Style::White)];
        assert(string_views(n.frontmatter.tags@).len() == n.frontmatter.tags@.len());
        if n.frontmatter.tags@.len() == 0 {
            assert(span_views(r@) =~= head + body + seq![gap(), (seq!['['] + n.frontmatter.id@ + seq![']'], Style::Dimmed)]);
        } else {
            assert(span_views(r@) =~= head + body + seq![gap()] + tag_spans(string_views(n.frontmatter.tags@)) + seq![gap(), (seq!['['] + n.frontmatter.id@ + seq![']'], Style::Dimmed)]);
        }
    }
    r
}

/// The rows of the notes table.
pub fn notes_table(notes: &[Note], config: &DisplayConfig) -> (r: Vec<Vec<Span>>)
    ensures
        r@.len() == notes@.len(),
        forall|i: int| 0 <= i < notes@.len() ==> span_views((#[trigger] r@[i])@) == table_row(notes@[i], config.body_width as nat),
{
    let mut r: Vec<Vec<Span>> = Vec::new();
    for i in 0..notes.len()
        invariant
            r@.len() == i,
            forall|k: int| 0 <= k < i ==> span_views((#[trigger] r@[k])@) == table_row(notes@[k], config.body_width as nat),
    {
        r.push(note_row(&notes[i], config));
    }
    r
}

// ── Highlighted matches ──────────────────────────────────────────────────────

/// The first match of `p` in `t` at or after `i`.
pub open spec fn first_match(t: Seq<char>, p: Seq<char>, i: int) -> Option<int>
    decreases t.len() + 1 - i,
{
    if i < 0 || i > t.len() {
        None
    } else if match_at(t, p, i) {
        Some(i)
    } else {
        first_match(t, p, i + 1)
    }
}

/// The text from `start` split into unmatched (plain) and matched pieces,
/// where matches of `lq` are sought in `lt`, the lowercased text.
pub open spec fn highlight_from(text: Seq<char>, lt: Seq<char>, lq: Seq<char>, start: int) -> Seq<SpanView>
    decreases text.len() - start,
{
    if lq.len() == 0 || start < 0 || start >= lt.len() || text.len() != lt.len() {
        seq![]
    } else {
        match first_match(lt, lq, start) {
            None => seq![(text.subrange(start, text.len() as int), Style::Plain)],
            Some(p) => if p < start || p + lq.len() > text.len() {
                seq![]
            } else {
                seq![
                    (text.subrange(start, p), Style::Plain),
                    (text.subrange(p, p + lq.len()), Style::Match),
                ] + highlight_from(text, lt, lq, p + lq.len())
            },
        }
    }
}

/// The text with the matches of the query (compared lowercased) marked.
pub open spec fn highlighted(text: Seq<char>, query: Seq<char>) -> Seq<SpanView> {
    highlight_from(text, lowercase(text), lowercase(query), 0)
}

/// Highlighting lines up with the text: lowercasing keeps the length of
/// text and query, and the query is not empty.
pub open spec fn highlight_ok(text: Seq<char>, query: Seq<char>) -> bool {
    &&& lowercase(text).len() == text.len()
    &&& lowercase(query).len() == query.len()
    &&& query.len() > 0
}

proof fn lemma_first_match(t: Seq<char>, p: Seq<char>, from: int, i: int)
    requires
        0 <= from <= i,
        match_at(t, p, i),
        forall|k: int| from <= k < i ==> !match_at(t, p, k),
    ensures
        first_match(t, p, from) == Some(i),
    decreases i - from,
{
    if from < i {
        lemma_first_match(t, p, from + 1, i);
    }
}

proof fn lemma_first_match_none(t: Seq<char>, p: Seq<char>, from: int)
    requires
        0 <= from,
        forall|k: int| from <= k ==> !match_at(t, p, k),
    ensures
        first_match(t, p, from) is None,
    decreases t.len() + 1 - from,
{
    if from <= t.len() {
        lemma_first_match_none(t, p, from + 1);
    }
}

/// The text with the query's matches marked where highlighting lines up
/// with the text; otherwise (an empty query, or lowercasing that changes
/// the length of text or query) the text unmarked, as one plain piece.
pub open spec fn marked(text: Seq<char>, query: Seq<char>) -> Seq<SpanView> {
    if highlight_ok(text, query) {
        highlighted(text, query)
    } else {
        seq![(text, Style::Plain)]
    }
}

/// Marks the matches of the query in the text (compared lowercased). An
/// empty query, or a text or query whose lowercase has another length,
/// leaves the text unmarked.
pub fn highlight_matches(text: &str, query: &str) -> (r: Vec<Span>)
    ensures
        span_views(r@) == marked(text@, query@),
{
    let t = chars_of(text);
    let q = chars_of(query);
    let lt = lowercase_chars(&t);
    let lq = lowercase_chars(&q);
    if lt.len() != t.len() || lq.len() != q.len() || q.len() == 0 {
        let mut r: Vec<Span> = Vec::new();
        r.push(chars_span(&t, Style::Plain));
        assert(span_views(r@) =~= seq![(text@, Style::Plain)]);
        return r;
    }
    let mut r: Vec<Span> = Vec::new();
    let mut start: usize = 0;
    while start < lt.len()
        invariant
            lt@ == lowercase(text@),
            lq@ == lowercase(query@),
            t@ == text@,
            lt.len() == t.len(),
            lq.len() > 0,
            start <= lt.len(),
            highlighted(text@, query@) == span_views(r@) + highlight_from(t@, lt@, lq@, start as int),
        decreases lt.len() - start,
    {
        match find_from(&lt, &lq, start) {
            None => {
                proof {
                    lemma_first_match_none(lt@, lq@, start as int);
                }
                let rest = slice_chars(&t, start, t.len());
                let ghost before = span_views(r@);
                r.push(chars_span(&rest, Style::Plain));
                assert(span_views(r@) =~= before.push((rest@, Style::Plain)));
                proof {
                    assert(highlight_from(t@, lt@, lq@, t.len() as int) =~= seq![]);
                }
                start = lt.len();
            },
            Some(p) => {
                proof {
                    lemma_first_match(lt@, lq@, start as int, p as int);
                }
                let end = p + lq.len();
                let before_part = slice_chars(&t, start, p);
                let matched = slice_chars(&t, p, end);
                let ghost before = span_views(r@);
                r.push(chars_span(&before_part, Style::Plain));
                r.push(chars_span(&matched, Style::Match));
                assert(span_views(r@) =~= before + seq![(before_part@, Style::Plain), (matched@, Style::Match)]);
                start = end;
            },
        }
    }
    proof {
        assert(highlight_from(t@, lt@, lq@, start as int) =~= seq![]);
    }
    r
}

proof fn lemma_line_text_concat(a: Seq<SpanView>, b: Seq<SpanView>)
    ensures
        line_text(a + b) == line_text(a) + line_text(b),
    decreases b.len(),
{
    if b.len() == 0 {
        assert(a + b =~= a);
    } else {
        lemma_line_text_concat(a, b.drop_last());
        assert((a + b).drop_last() =~= a + b.drop_last());
    }
}

proof fn lemma_first_match_props(t: Seq<char>, p: Seq<char>, i: int)
    ensures
        first_match(t, p, i) matches Some(j) ==> i <= j && match_at(t, p, j),
    decreases t.len() + 1 - i,
{
    if 0 <= i <= t.len() && !match_at(t, p, i) {
        lemma_first_match_props(t, p, i + 1);
    }
}

proof fn lemma_highlight_text(text: Seq<char>, lt: Seq<char>, lq: Seq<char>, start: int)
    requires
        lq.len() > 0,
        text.len() == lt.len(),
        0 <= start <= text.len(),
    ensures
        line_text(highlight_from(text, lt, lq, start)) == text.subrange(start, text.len() as int),
    decreases text.len() - start,
{
    if start >= lt.len() {
        assert(text.subrange(start, text.len() as int) =~= seq![]);
    } else {
        lemma_first_match_props(lt, lq, start);
        match first_match(lt, lq, start) {
            None => {
                let v = seq![(text.subrange(start, text.len() as int), Style::Plain)];
                assert(v.drop_last() =~= seq![]);
                assert(line_text(v.drop_last()) =~= seq![]);
                assert(line_text(v) =~= text.subrange(start, text.len() as int));
            },
            Some(p) => {
                let head = seq![
                    (text.subrange(start, p), Style::Plain),
                    (text.subrange(p, p + lq.len()), Style::Match),
                ];
                lemma_highlight_text(text, lt, lq, p + lq.len());
                lemma_line_text_concat(head, highlight_from(text, lt, lq, p + lq.len()));
                assert(head.drop_last().drop_last() =~= seq![]);
                assert(head.drop_last() =~= seq![(text.subrange(start, p), Style::Plain)]);
                assert(line_text(head.drop_last().drop_last()) =~= seq![]);
                assert(line_text(head.drop_last()) =~= text.subrange(start, p));
                assert(line_text(head) =~= text.subrange(start, p) + text.subrange(p, p + lq.len()));
                assert(text.subrange(start, text.len() as int) =~= text.subrange(start, p) + text.subrange(p, p + lq.len()) + text.subrange(p + lq.len(), text.len() as int));
            },
        }
    }
}

/// Highlighting only marks text: the pieces, put together, are the text
/// itself, in its original case.
pub proof fn law_highlight_keeps_text(text: Seq<char>, query: Seq<char>)
    ensures
        line_text(marked(text, query)) == text,
{
    if highlight_ok(text, query) {
        lemma_highlight_text(text, lowercase(text), lowercase(query), 0);
        assert(text.subrange(0, text.len() as int) =~= text);
    } else {
        let v = seq![(text, Style::Plain)];
        assert(v.drop_last() =~= seq![]);
        assert(line_text(v.drop_last()) =~= seq![]);
        assert(v.last().0 == text);
        assert(line_text(v) =~= text);
    }
}

/// A row of search results: like a table row, with the matches in the
/// truncated body marked.
pub open spec fn highlight_row(n: Note, query: Seq<char>, width: nat) -> Seq<SpanView> {
    row_spans(n, marked(truncated(n.body@, width), query))
}

/// One row of search results, with the query's matches in the truncated
/// body marked (see `highlight_matches`).
pub fn highlight_row_spans(n: &Note, query: &str, config: &DisplayConfig) -> (r: Vec<Span>)
    ensures
        span_views(r@) == highlight_row(*n, query@, config.body_width as nat),
{
    let body = truncate_body(n.body.as_str(), config.body_width);
    let hl = highlight_matches(body.as_str(), query);
    let mut r = row_head(n);
    let ghost head = span_views(r@);
    let ghost hv = span_views(hl@);
    for i in 0..hl.len()
        invariant
            span_views(r@) == head + hv.take(i as int),
            hv == span_views(hl@),
    {
        let s = chars_of(hl[i].text.as_str());
        push_span(&mut r, string_from(&s), hl[i].style);
        assert(hv.take(i + 1) == hv.take(i as int).push(hv[i as int]));
    }
    assert(hv.take(hl.len() as int) == hv);
    row_tail(&mut r, n);
    proof {
        if n.frontmatter.tags@.len() == 0 {
            assert(span_views(r@) =~= head + hv + seq![gap(), (seq!['['] + n.frontmatter.id@ + seq![']'], Style::Dimmed)]);
        } else {
            assert(span_views(r@) =~= head + hv + seq![gap()] + tag_spans(string_views(n.frontmatter.tags@)) + seq![gap(), (seq!['['] + n.frontmatter.id@ + seq![']'], Style::Dimmed)]);
        }
    }
    r
}

// ── Activity log rows ────────────────────────────────────────────────────────

/// `1 note ` for one note, else `<n> notes`.
pub open spec fn count_text(n: nat) -> Seq<char> {
    if n == 1 {
        "1 note "@
    } else {
        decimal(n) + " notes"@
    }
}

/// A row of the activity log: the repository padded to 30 characters, the
/// count padded to 10, and the last activity.
pub open spec fn log_row(g: GroupView) -> Seq<SpanView> {
    seq![
        (g.0, Style::Blue),
        (spaces(if g.0.len() < 30 { (30 - g.0.len()) as nat } else { 0 }), Style::Plain),
        gap(),
        (pad_right(count_text(g.1), 10), Style::Plain),
        gap(),
        ("last: "@ + g.2, Style::Dimmed),
    ]
}

fn count_chars(n: usize) -> (r: Vec<char>)
    ensures
        r@ == count_text(n as nat),
{
    if n == 1 {
        chars_of("1 note ")
    } else {
        let mut v = decimal_chars(n as u64);
        let t = chars_of(" notes");
        let ghost d = v@;
        let mut i: usize = 0;
        while i < t.len()
            invariant
                i <= t.len(),
                v@ == d + t@.take(i as int),
            decreases t.len() - i,
        {
            v.push(t[i]);
            assert(t@.take(i + 1) == t@.take(i as int).push(t@[i as int]));
            i += 1;
        }
        assert(t@.take(t.len() as int) == t@);
        v
    }
}

/// One row of the activity log.
pub fn log_row_spans(g: &RepoGroup) -> (r: Vec<Span>)
    ensures
        span_views(r@) == log_row((g.repo@, g.note_count as nat, g.last_activity@)),
{
    let mut r: Vec<Span> = Vec::new();
    let repo = chars_of(g.repo.as_str());
    push_span(&mut r, string_from(&repo), Style::Blue);
    let empty: Vec<char> = Vec::new();
    let pad = pad_right_chars(&empty, if repo.len() < 30 { 30 - repo.len() } else { 0 });
    assert(pad@ =~= spaces(if repo@.len() < 30 { (30 - repo@.len()) as nat } else { 0 }));
    push_span(&mut r, string_from(&pad), Style::Plain);
    push_gap(&mut r);
    let c = count_chars(g.note_count);
    push_span(&mut r, string_from(&pad_right_chars(&c, 10)), Style::Plain);
    push_gap(&mut r);
    let mut last = String::from_str("last: ");
    push_str(&mut last, g.last_activity.as_str());
    push_span(&mut r, last, Style::Dimmed);
    assert(span_views(r@) =~~= log_row((g.repo@, g.note_count as nat, g.last_activity@)));
    r
}

// ── The `show` output ────────────────────────────────────────────────────────

/// The first `n` characters (all of them when shorter).
pub open spec fn first_chars(s: Seq<char>, n: nat) -> Seq<char> {
    if s.len() <= n {
        s
    } else {
        s.take(n as int)
    }
}

pub open spec fn staged_header() -> Seq<char> {
    "── staged files ─────────────────────"@
}

pub open spec fn unstaged_header() -> Seq<char> {
    "── unstaged files ───────────────────"@
}

pub open spec fn untracked_header() -> Seq<char> {
    "── untracked files ──────────────────"@
}

/// A list of files under a header, or nothing when the list is empty.
pub open spec fn file_section(header: Seq<char>, files: Seq<Seq<char>>) -> Seq<SpanView> {
    if files.len() == 0 {
        seq![]
    } else {
        seq![(header + seq!['\n'], Style::Dimmed)] + files.map_values(|f: Seq<char>| (seq![' ', ' '] + f + seq!['\n'], Style::Dimmed))
    }
}

/// The context lines `show` prints after the body: the commit (short
/// form) when known, then the staged, unstaged and untracked files.
pub open spec fn context_sections(n: Note) -> Seq<SpanView> {
    let f = n.frontmatter;
    let commit = if f.commit_hash@ == "none"@ {
        seq![]
    } else {
        seq![("── commit "@ + first_chars(f.commit_hash@, 8) + seq!['\n'], Style::Dimmed)]
    };
    commit + file_section(staged_header(), string_views(f.changed_files@)) + file_section(
        unstaged_header(),
        string_views(f.unstaged_files@),
    ) + file_section(untracked_header(), string_views(f.untracked_files@))
}

/// What `show` prints: the body; then, when there is any context, a line
/// end, a blank line and the context lines.
pub open spec fn show_output(n: Note) -> Seq<SpanView> {
    let sections = context_sections(n);
    if sections.len() == 0 {
        seq![(n.body@, Style::Plain)]
    } else {
        seq![(n.body@ + seq!['\n', '\n'], Style::Plain)] + sections
    }
}

fn push_file_section(out: &mut Vec<Span>, header: &str, files: &Vec<String>)
    ensures
        span_views(final(out)@) == span_views(old(out)@) + file_section(header@, string_views(files@)),
{
    if files.len() == 0 {
        assert(span_views(out@) =~= span_views(out@) + seq![]);
        return;
    }
    let ghost start = span_views(out@);
    let mut h = String::new();
    push_str(&mut h, header);
    push_char(&mut h, '\n');
    push_span(out, h, Style::Dimmed);
    let ghost fs = string_views(files@);
    let ghost mapped = fs.map_values(|f: Seq<char>| (seq![' ', ' '] + f + seq!['\n'], Style::Dimmed));
    assert(span_views(out@) =~~= start + seq![(header@ + seq!['\n'], Style::Dimmed)] + mapped.take(0));
    for i in 0..files.len()
        invariant
            fs == string_views(files@),
            mapped == fs.map_values(|f: Seq<char>| (seq![' ', ' '] + f + seq!['\n'], Style::Dimmed)),
            span_views(out@) == start + seq![(header@ + seq!['\n'], Style::Dimmed)] + mapped.take(i as int),
    {
        let mut line = String::new();
        push_char(&mut line, ' ');
        push_char(&mut line, ' ');
        push_str(&mut line, files[i].as_str());
        push_char(&mut line, '\n');
        let ghost before = span_views(out@);
        push_span(out, line, Style::Dimmed);
        proof {
            assert(mapped.take(i + 1) =~~= mapped.take(i as int).push(mapped[i as int]));
            assert(mapped[i as int] =~~= (seq![' ', ' '] + files@[i as int]@ + seq!['\n'], Style::Dimmed));
            assert(span_views(out@) =~~= start + seq![(header@ + seq!['\n'], Style::Dimmed)] + mapped.take(i + 1));
        }
    }
    assert(mapped.take(files.len() as int) == mapped);
}

/// The spans `show` prints for a note.
pub fn show_spans(n: &Note) -> (r: Vec<Span>)
    ensures
        span_views(r@) == show_output(*n),
{
    let f = &n.frontmatter;
    let mut sections: Vec<Span> = Vec::new();
    let none = chars_of("none");
    let hash = chars_of(f.commit_hash.as_str());
    if !crate::text::chars_eq(&hash, &none) {
        let mut line = String::from_str("── commit ");
        let k = if hash.len() <= 8 { hash.len() } else { 8 };
        let short = slice_chars(&hash, 0, k);
        assert(short@ == first_chars(f.commit_hash@, 8));
        push_chars(&mut line, &short);
        push_char(&mut line, '\n');
        push_span(&mut sections, line, Style::Dimmed);
    }
    let ghost commit_part = span_views(sections@);
    push_file_section(&mut sections, "── staged files ─────────────────────", &f.changed_files);
    push_file_section(&mut sections, "── unstaged files ───────────────────", &f.unstaged_files);
    push_file_section(&mut sections, "── untracked files ──────────────────", &f.untracked_files);
    assert(span_views(sections@) =~~= context_sections(*n));
    let mut r: Vec<Span> = Vec::new();
    if sections.len() == 0 {
        let b = chars_of(n.body.as_str());
        push_span(&mut r, string_from(&b), Style::Plain);
        assert(span_views(r@) =~~= show_output(*n));
    } else {
        let mut b = String::new();
        push_str(&mut b, n.body.as_str());
        push_char(&mut b, '\n');
        push_char(&mut b, '\n');
        push_span(&mut r, b, Style::Plain);
        let ghost head = span_views(r@);
        let ghost sv = span_views(sections@);
        for i in 0..sections.len()
            invariant
                sv == span_views(sections@),
                span_views(r@) == head + sv.take(i as int),
        {
            let t = chars_of(sections[i].text.as_str());
            push_span(&mut r, string_from(&t), sections[i].style);
            assert(sv.take(i + 1) == sv.take(i as int).push(sv[i as int]));
        }
        assert(sv.take(sections.len() as int) == sv);
        assert(span_views(r@) =~~= show_output(*n));
    }
    r
}

// ── The `stats` output ───────────────────────────────────────────────────────

pub open spec fn stats_rule_top() -> Seq<char> {
    "── nota stats ──────────────────────"@
}

pub open spec fn stats_rule() -> Seq<char> {
    "────────────────────────────────────"@
}

/// A stats line: two spaces, the label padded to 18 characters, a space
/// and the value.
pub open spec fn stat_line(label: Seq<char>, value: Seq<char>, style: Style) -> Seq<SpanView> {
    seq![(seq![' ', ' '], Style::Plain), (pad_right(label, 18), Style::Dimmed), (seq![' '], Style::Plain), (value, style)]
}

/// The lines `stats` prints.
pub open spec fn stats_lines(st: NoteStats) -> Seq<Seq<SpanView>> {
    let active = match st.most_active_repo {
        Some(repo) => stat_line("Most active repo"@, repo@, Style::BlueBold) + seq![
            (seq![' '], Style::Plain),
            ("·"@, Style::Dimmed),
            (seq![' '], Style::Plain),
            (decimal(st.most_active_repo_count as nat) + " notes"@, Style::Dimmed),
        ],
        None => stat_line("Most active repo"@, "—"@, Style::Dimmed),
    };
    seq![
        seq![(stats_rule_top(), Style::Dimmed)],
        stat_line("Total notes"@, decimal(st.total as nat), Style::WhiteBold),
        stat_line("Today"@, decimal(st.today as nat), Style::White),
        stat_line("This week"@, decimal(st.this_week as nat), Style::White),
        stat_line("This month"@, decimal(st.this_month as nat), Style::White),
        seq![(stats_rule(), Style::Dimmed)],
        active,
    ]
}

fn stat_line_spans(label: &str, value: Vec<char>, style: Style) -> (r: Vec<Span>)
    ensures
        span_views(r@) == stat_line(label@, value@, style),
{
    let mut r: Vec<Span> = Vec::new();
    let mut sp = String::new();
    push_char(&mut sp, ' ');
    push_char(&mut sp, ' ');
    push_span(&mut r, sp, Style::Plain);
    let l = chars_of(label);
    push_span(&mut r, string_from(&pad_right_chars(&l, 18)), Style::Dimmed);
    let mut one = String::new();
    push_char(&mut one, ' ');
    push_span(&mut r, one, Style::Plain);
    push_span(&mut r, string_from(&value), style);
    assert(span_views(r@) =~~= stat_line(label@, value@, style));
    r
}

fn lit_line(text: &str, style: Style) -> (r: Vec<Span>)
    ensures
        span_views(r@) == seq![(text@, style)],
{
    let mut r: Vec<Span> = Vec::new();
    push_lit(&mut r, text, style);
    assert(span_views(r@) =~= seq![(text@, style)]);
    r
}

/// The lines `stats` prints for the given counts.
pub fn stats_spans(st: &NoteStats) -> (r: Vec<Vec<Span>>)
    ensures
        r@.len() == 7,
        forall|i: int| 0 <= i < 7 ==> span_views((#[trigger] r@[i])@) == stats_lines(*st)[i],
{
    let mut r: Vec<Vec<Span>> = Vec::new();
    r.push(lit_line("── nota stats ──────────────────────", Style::Dimmed));
    r.push(stat_line_spans("Total notes", decimal_chars(st.total as u64), Style::WhiteBold));
    r.push(stat_line_spans("Today", decimal_chars(st.today as u64), Style::White));
    r.push(stat_line_spans("This week", decimal_chars(st.this_week as u64), Style::White));
    r.push(stat_line_spans("This month", decimal_chars(st.this_month as u64), Style::White));
    r.push(lit_line("────────────────────────────────────", Style::Dimmed));
    let active = match &st.most_active_repo {
        Some(repo) => {
            let mut l = stat_line_spans("Most active repo", chars_of(repo.as_str()), Style::BlueBold);
            let ghost head = span_views(l@);
            let mut a = String::new();
            push_char(&mut a, ' ');
            push_span(&mut l, a, Style::Plain);
            push_lit(&mut l, "·", Style::Dimmed);
            let mut b = String::new();
            push_char(&mut b, ' ');
            push_span(&mut l, b, Style::Plain);
            let mut c = String::new();
            push_chars(&mut c, &decimal_chars(st.most_active_repo_count as u64));
            push_str(&mut c, " notes");
            push_span(&mut l, c, Style::Dimmed);
            assert(span_views(l@) =~~= stats_lines(*st)[6]);
            l
        },
        None => stat_line_spans("Most active repo", chars_of("—"), Style::Dimmed),
    };
    r.push(active);
    r
}

} // verus!
