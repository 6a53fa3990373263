//! The interactive browser's state and how each key press changes it. The
//! terminal itself (drawing, reading keys) is driven from outside.
use vstd::prelude::*;
use crate::note::Note;
use crate::search::{body_matches, matching};
use crate::display::{chars_span, span_views, Span, SpanView, Style};
use crate::tags::{comma_sep, join_comma};
use crate::text::join;
use crate::text::{
    byte_len, byte_prefix, byte_prefix_chars, chars_eq, chars_of,
    contains_chars, lines, lines_of, lowercase, lowercase_chars, push_char,
    push_chars, slice_chars, string_from, string_views, views, words, words_of,
};

verus! {

/// A key, as far as the browser tells keys apart.
#[derive(Debug, Clone, Copy)]
pub enum Key {
    Up,
    Down,
    Home,
    End,
    Enter,
    Esc,
    Backspace,
    Char(char),
    Other,
}

/// A key press: the key, and whether no modifier key was held.
#[derive(Debug, Clone, Copy)]
pub struct KeyInput {
    pub code: Key,
    pub plain: bool,
}

/// The browser state.
pub struct App {
    notes: Vec<Note>,
    selected: usize,
    search_query: String,
    search_mode: bool,
    tag_input_mode: bool,
    tag_input: String,
    filtered_indices: Vec<usize>,
    message: String,
    message_timeout: u16,
}

/// The browser state as plain values.
#[verifier::ext_equal]
pub ghost struct AppView {
    pub notes: Seq<Note>,
    pub selected: nat,
    pub query: Seq<char>,
    pub search_mode: bool,
    pub tag_mode: bool,
    pub tag_input: Seq<char>,
    pub filtered: Seq<usize>,
    pub message: Seq<char>,
    pub timeout: nat,
}

impl View for App {
    type V = AppView;

    closed spec fn view(&self) -> AppView {
        AppView {
            notes: self.notes@,
            selected: self.selected as nat,
            query: self.search_query@,
            search_mode: self.search_mode,
            tag_mode: self.tag_input_mode,
            tag_input: self.tag_input@,
            filtered: self.filtered_indices@,
            message: self.message@,
            timeout: self.message_timeout as nat,
        }
    }
}

/// The indices of the notes shown for a query: all of them for an empty
/// query, else those whose body contains it (case-insensitively).
pub open spec fn shown_indices(notes: Seq<Note>, query: Seq<char>) -> Seq<usize>
    decreases notes.len(),
{
    if notes.len() == 0 {
        seq![]
    } else {
        let rest = shown_indices(notes.drop_last(), query);
        if query.len() == 0 || body_matches(notes.last(), query) {
            rest.push((notes.len() - 1) as usize)
        } else {
            rest
        }
    }
}

/// The state's invariant: shown indices point at notes, and the selection
/// is inside the shown list (or zero when it is empty).
pub open spec fn wf_view(v: AppView) -> bool {
    &&& v.notes.len() <= usize::MAX
    &&& forall|k: int| 0 <= k < v.filtered.len() ==> (#[trigger] v.filtered[k]) < v.notes.len()
    &&& v.filtered.len() == 0 ==> v.selected == 0
    &&& v.filtered.len() > 0 ==> v.selected < v.filtered.len()
}

/// How long a message stays up, in ticks.
pub open spec fn message_ticks() -> nat {
    60
}

pub open spec fn tag_prompt() -> Seq<char> {
    "Enter tag (space-separated):"@
}

/// The state with a new selection.
pub open spec fn with_selected(v: AppView, s: nat) -> AppView {
    AppView { selected: s, ..v }
}

/// The state showing a message.
pub open spec fn with_message(v: AppView, msg: Seq<char>) -> AppView {
    AppView { message: msg, timeout: message_ticks(), ..v }
}

/// The state one frame later.
pub open spec fn ticked(v: AppView) -> AppView {
    AppView { timeout: if v.timeout > 0 { (v.timeout - 1) as nat } else { 0 }, ..v }
}

/// The state with the shown list recomputed for its query.
pub open spec fn refiltered(v: AppView) -> AppView {
    AppView { filtered: shown_indices(v.notes, v.query), selected: 0, ..v }
}

/// Tags after the browser adds the words typed: each word lowercased,
/// skipped when the list already holds it exactly.
pub open spec fn tui_add(tags: Seq<Seq<char>>, ws: Seq<Seq<char>>) -> Seq<Seq<char>>
    decreases ws.len(),
{
    if ws.len() == 0 {
        tags
    } else {
        let cur = tui_add(tags, ws.drop_last());
        let l = lowercase(ws.last());
        if cur.contains(l) {
            cur
        } else {
            cur.push(l)
        }
    }
}

/// Two notes differ at most in their tags.
pub open spec fn same_but_tags(a: Note, b: Note) -> bool {
    &&& a.body == b.body
    &&& a.file_path == b.file_path
    &&& a.frontmatter.id == b.frontmatter.id
    &&& a.frontmatter.timestamp == b.frontmatter.timestamp
    &&& a.frontmatter.directory == b.frontmatter.directory
    &&& a.frontmatter.git_repo == b.frontmatter.git_repo
    &&& a.frontmatter.git_branch == b.frontmatter.git_branch
    &&& a.frontmatter.commit_hash == b.frontmatter.commit_hash
    &&& a.frontmatter.changed_files == b.frontmatter.changed_files
    &&& a.frontmatter.unstaged_files == b.frontmatter.unstaged_files
    &&& a.frontmatter.untracked_files == b.frontmatter.untracked_files
}

/// A key in normal mode.
pub open spec fn normal_step(o: AppView, k: KeyInput, n: AppView, cont: bool) -> bool {
    let len = o.filtered.len();
    match k.code {
        Key::Up => cont && n == with_selected(o, if o.selected > 0 { (o.selected - 1) as nat } else { o.selected }),
        Key::Down => cont && n == with_selected(o, if o.selected + 1 < len { o.selected + 1 } else { o.selected }),
        Key::Home => cont && n == with_selected(o, 0),
        Key::End => cont && n == with_selected(o, if len > 0 { (len - 1) as nat } else { 0 }),
        Key::Esc => !cont && n == o,
        Key::Char(c) => {
            if c == 'k' && k.plain {
                cont && n == with_selected(o, if o.selected > 0 { (o.selected - 1) as nat } else { o.selected })
            } else if c == 'j' && k.plain {
                cont && n == with_selected(o, if o.selected + 1 < len { o.selected + 1 } else { o.selected })
            } else if c == '/' {
                cont && n == AppView { search_mode: true, query: seq![], ..o }
            } else if c == 't' {
                cont && if len > 0 {
                    n == AppView {
                        tag_mode: true,
                        tag_input: seq![],
                        message: tag_prompt(),
                        timeout: message_ticks(),
                        ..o
                    }
                } else {
                    n == o
                }
            } else if c == 'q' {
                !cont && n == o
            } else {
                cont && n == o
            }
        },
        _ => cont && n == o,
    }
}

/// A key while typing a search query.
pub open spec fn search_step(o: AppView, k: KeyInput, n: AppView, cont: bool) -> bool {
    cont && match k.code {
        Key::Enter => n == AppView { search_mode: false, ..o },
        Key::Esc => n == AppView {
            search_mode: false,
            query: seq![],
            filtered: shown_indices(o.notes, seq![]),
            selected: 0,
            ..o
        },
        Key::Backspace => {
            let q = if o.query.len() > 0 { o.query.drop_last() } else { o.query };
            n == AppView { query: q, filtered: shown_indices(o.notes, q), selected: 0, ..o }
        },
        Key::Char(c) => {
            let q = o.query.push(c);
            n == AppView { query: q, filtered: shown_indices(o.notes, q), selected: 0, ..o }
        },
        _ => n == o,
    }
}

/// A key while typing tags.
pub open spec fn tag_step(o: AppView, k: KeyInput, n: AppView, cont: bool) -> bool {
    cont && match k.code {
        Key::Enter => if o.tag_input.len() > 0 && o.filtered.len() > 0 {
            let idx = o.filtered[o.selected as int] as int;
            let note = o.notes[idx];
            &&& n.notes.len() == o.notes.len()
            &&& forall|i: int| 0 <= i < o.notes.len() && i != idx ==> n.notes[i] == o.notes[i]
            &&& same_but_tags(n.notes[idx], note)
            &&& string_views(n.notes[idx].frontmatter.tags@) == tui_add(
                string_views(note.frontmatter.tags@),
                words(o.tag_input),
            )
            &&& n == AppView {
                notes: n.notes,
                tag_mode: false,
                message: "Added tags to note "@ + note.frontmatter.id@,
                timeout: message_ticks(),
                ..o
            }
        } else {
            n == AppView { tag_mode: false, ..o }
        },
        Key::Esc => n == AppView { tag_mode: false, tag_input: seq![], message: seq![], ..o },
        Key::Backspace => n == AppView {
            tag_input: if o.tag_input.len() > 0 { o.tag_input.drop_last() } else { o.tag_input },
            ..o
        },
        Key::Char(c) => n == AppView { tag_input: o.tag_input.push(c), ..o },
        _ => n == o,
    }
}

/// How a key press changes the state, and whether the browser goes on.
pub open spec fn step(o: AppView, k: KeyInput, n: AppView, cont: bool) -> bool {
    if o.tag_mode {
        tag_step(o, k, n, cont)
    } else if o.search_mode {
        search_step(o, k, n, cont)
    } else {
        normal_step(o, k, n, cont)
    }
}

/// The notes at the given indices.
pub open spec fn pick(notes: Seq<Note>, idx: Seq<usize>) -> Seq<Note> {
    idx.map_values(|i: usize| notes[i as int])
}

/// The browser's list shows, for an empty query, every note in order, and
/// otherwise exactly the notes a search for the query returns, in order.
pub proof fn law_shown_is_search(notes: Seq<Note>, q: Seq<char>)
    requires
        notes.len() <= usize::MAX,
    ensures
        q.len() == 0 ==> pick(notes, shown_indices(notes, q)) == notes,
        q.len() > 0 ==> pick(notes, shown_indices(notes, q)) == matching(notes, q),
    decreases notes.len(),
{
    lemma_shown_bounds(notes, q);
    if notes.len() > 0 {
        let p = notes.drop_last();
        law_shown_is_search(p, q);
        lemma_shown_bounds(p, q);
        let sp = shown_indices(p, q);
        assert(pick(notes, sp) =~= pick(p, sp)) by {
            assert forall|k: int| 0 <= k < sp.len() implies pick(notes, sp)[k] == pick(p, sp)[k] by {
                assert(sp[k] < p.len());
                assert(notes[sp[k] as int] == p[sp[k] as int]);
            }
        }
        let last = (notes.len() - 1) as usize;
        assert(pick(notes, sp.push(last)) =~= pick(notes, sp).push(notes.last()));
        if q.len() == 0 {
            assert(notes =~= p.push(notes.last()));
        }
    } else {
        assert(pick(notes, shown_indices(notes, q)) =~= seq![]);
    }
}

/// Recomputing the list shows exactly the notes a search for the query
/// returns (every note for an empty query), in order, selects the first,
/// and leaves the notes, the query and the modes as they were.
pub proof fn law_refilter_is_search(v: AppView)
    requires
        v.notes.len() <= usize::MAX,
    ensures
        refiltered(v).selected == 0,
        refiltered(v).notes == v.notes,
        refiltered(v).query == v.query,
        refiltered(v).search_mode == v.search_mode,
        refiltered(v).tag_mode == v.tag_mode,
        v.query.len() == 0 ==> pick(v.notes, refiltered(v).filtered) == v.notes,
        v.query.len() > 0 ==> pick(v.notes, refiltered(v).filtered) == matching(v.notes, v.query),
{
    law_shown_is_search(v.notes, v.query);
}

/// Typing or deleting a character of the search query shows exactly the
/// notes a search for the new query returns (every note for an empty
/// query), in order, selects the first, and leaves the notes and the modes
/// as they were.
pub proof fn law_search_key_refilters(o: AppView, k: KeyInput, n: AppView, cont: bool)
    requires
        wf_view(o),
        o.search_mode,
        !o.tag_mode,
        step(o, k, n, cont),
        k.code is Char || k.code is Backspace,
    ensures
        cont,
        n.selected == 0,
        n.notes == o.notes,
        n.search_mode,
        !n.tag_mode,
        n.query.len() == 0 ==> pick(n.notes, n.filtered) == o.notes,
        n.query.len() > 0 ==> pick(n.notes, n.filtered) == matching(o.notes, n.query),
{
    law_shown_is_search(o.notes, n.query);
}

/// Removes the last character with `String::pop`. The claim: a non-empty
/// text loses its last character, an empty one stays empty.
#[verifier::external_body]
fn pop_char(s: &mut String)
    ensures
        final(s)@ == if old(s)@.len() > 0 {
            old(s)@.drop_last()
        } else {
            old(s)@
        },
{
    s.pop();
}

proof fn lemma_shown_bounds(notes: Seq<Note>, q: Seq<char>)
    ensures
        forall|k: int| 0 <= k < shown_indices(notes, q).len() ==> (#[trigger] shown_indices(notes, q)[k]) < notes.len(),
        shown_indices(notes, q).len() <= notes.len(),
    decreases notes.len(),
{
    if notes.len() > 0 {
        lemma_shown_bounds(notes.drop_last(), q);
    }
}

impl App {
    pub closed spec fn wf(&self) -> bool {
        wf_view(self@)
    }

    /// A browser over the notes, all shown, the first selected.
    pub fn new(notes: Vec<Note>) -> (r: Self)
        ensures
            r.wf(),
            r@.notes == notes@,
            r@.selected == 0,
            r@.query.len() == 0,
            !r@.search_mode,
            !r@.tag_mode,
            r@.tag_input.len() == 0,
            r@.filtered == shown_indices(notes@, seq![]),
            r@.message.len() == 0,
            r@.timeout == 0,
    {
        let mut filtered_indices: Vec<usize> = Vec::new();
        let ghost ns = notes@;
        for i in 0..notes.len()
            invariant
                ns == notes@,
                filtered_indices@ == shown_indices(ns.take(i as int), seq![]),
        {
            proof {
                assert(ns.take(i + 1).drop_last() == ns.take(i as int));
            }
            filtered_indices.push(i);
        }
        assert(ns.take(notes.len() as int) == ns);
        proof {
            lemma_shown_bounds(ns, seq![]);
        }
        App {
            notes,
            selected: 0,
            search_query: String::new(),
            search_mode: false,
            tag_input_mode: false,
            tag_input: String::new(),
            filtered_indices,
            message: String::new(),
            message_timeout: 0,
        }
    }

    fn set_message(&mut self, msg: String)
        ensures
            final(self)@ == with_message(old(self)@, msg@),
    {
        self.message = msg;
        self.message_timeout = 60;
    }

    /// One frame passes: a shown message counts down.
    pub fn tick(&mut self)
        ensures
            final(self)@ == ticked(old(self)@),
            old(self).wf() ==> final(self).wf(),
    {
        if self.message_timeout > 0 {
            self.message_timeout -= 1;
        }
    }

    /// The selected note, if any is shown.
    pub fn selected_note(&self) -> (r: Option<&Note>)
        requires
            self.wf(),
        ensures
            self@.filtered.len() == 0 ==> r is None,
            self@.filtered.len() > 0 ==> r == Some(&self@.notes[self@.filtered[self@.selected as int] as int]),
    {
        if self.filtered_indices.len() == 0 {
            return None;
        }
        let idx = self.filtered_indices[self.selected];
        Some(&self.notes[idx])
    }

    /// Recomputes the shown notes for the current query and selects the
    /// first.
    fn update_filter(&mut self)
        ensures
            final(self)@ == refiltered(old(self)@),
            wf_view(final(self)@) || old(self)@.notes.len() > usize::MAX,
    {
        let q = chars_of(self.search_query.as_str());
        let lq = lowercase_chars(&q);
        let mut filtered: Vec<usize> = Vec::new();
        let ghost ns = self.notes@;
        let mut i: usize = 0;
        while i < self.notes.len()
            invariant
                i <= self.notes.len(),
                ns == self.notes@,
                q@ == self.search_query@,
                lq@ == lowercase(q@),
                filtered@ == shown_indices(ns.take(i as int), q@),
            decreases self.notes.len() - i,
        {
            proof {
                assert(ns.take(i + 1).drop_last() == ns.take(i as int));
                assert(ns.take(i + 1).last() == ns[i as int]);
            }
            let keep = if q.len() == 0 {
                true
            } else {
                let b = chars_of(self.notes[i].body.as_str());
                let lb = lowercase_chars(&b);
                contains_chars(&lb, &lq)
            };
            if keep {
                filtered.push(i);
            }
            i += 1;
        }
        assert(ns.take(ns.len() as int) == ns);
        proof {
            lemma_shown_bounds(ns, q@);
        }
        self.filtered_indices = filtered;
        self.selected = 0;
    }

    /// Handles a key press; returns whether the browser goes on.
    pub fn handle_input(&mut self, key: KeyInput) -> (cont: bool)
        requires
            old(self).wf(),
        ensures
            step(old(self)@, key, final(self)@, cont),
            final(self).wf(),
    {
        if self.tag_input_mode {
            return self.handle_tag_input(key);
        }
        if self.search_mode {
            return self.handle_search_input(key);
        }
        let len = self.filtered_indices.len();
        match key.code {
            Key::Up => {
                if self.selected > 0 {
                    self.selected -= 1;
                }
            },
            Key::Down => {
                if self.selected < if len > 0 { len - 1 } else { 0 } {
                    self.selected += 1;
                }
            },
            Key::Home => self.selected = 0,
            Key::End => {
                self.selected = if len > 0 { len - 1 } else { 0 };
            },
            Key::Esc => return false,
            Key::Char(c) => {
                if c == 'k' && key.plain {
                    if self.selected > 0 {
                        self.selected -= 1;
                    }
                } else if c == 'j' && key.plain {
                    if self.selected < if len > 0 { len - 1 } else { 0 } {
                        self.selected += 1;
                    }
                } else if c == '/' {
                    self.search_mode = true;
                    self.search_query = String::new();
                } else if c == 't' {
                    if len > 0 {
                        self.tag_input_mode = true;
                        self.tag_input = String::new();
                        self.set_message(String::from_str("Enter tag (space-separated):"));
                    }
                } else if c == 'q' {
                    return false;
                }
            },
            _ => {},
        }
        assert(self@ =~= self@);
        true
    }

    fn handle_tag_input(&mut self, key: KeyInput) -> (cont: bool)
        requires
            old(self).wf(),
            old(self)@.tag_mode,
        ensures
            tag_step(old(self)@, key, final(self)@, cont),
            final(self).wf(),
    {
        match key.code {
            Key::Enter => {
                if !self.tag_input.as_str().is_empty() && self.filtered_indices.len() > 0 {
                    let note_idx = self.filtered_indices[self.selected];
                    let id = chars_of(self.notes[note_idx].frontmatter.id.as_str());
                    let mut note = self.notes.remove(note_idx);
                    let ghost before = note;
                    let input = chars_of(self.tag_input.as_str());
                    let ws = words_of(&input);
                    let ghost base = string_views(note.frontmatter.tags@);
                    assert(views(ws@).take(0) =~= seq![]);
                    for wi in 0..ws.len()
                        invariant
                            string_views(note.frontmatter.tags@) == tui_add(base, views(ws@).take(wi as int)),
                            same_but_tags(note, before),
                    {
                        proof {
                            assert(views(ws@).take(wi + 1).drop_last() == views(ws@).take(wi as int));
                            assert(views(ws@).take(wi + 1).last() == ws@[wi as int]@);
                        }
                        let l = lowercase_chars(&ws[wi]);
                        let mut present = false;
                        let mut t: usize = 0;
                        while t < note.frontmatter.tags.len()
                            invariant
                                t <= note.frontmatter.tags@.len(),
                                present == exists|m: int| 0 <= m < t && #[trigger] note.frontmatter.tags@[m]@ == l@,
                            decreases note.frontmatter.tags.len() - t,
                        {
                            let c = chars_of(note.frontmatter.tags[t].as_str());
                            if chars_eq(&c, &l) {
                                present = true;
                            }
                            t += 1;
                        }
                        proof {
                            let sv = string_views(note.frontmatter.tags@);
                            if present {
                                let m = choose|m: int| 0 <= m < t && #[trigger] note.frontmatter.tags@[m]@ == l@;
                                assert(sv[m] == l@);
                            } else {
                                assert forall|m: int| 0 <= m < sv.len() implies sv[m] != l@ by {
                                    assert(sv[m] == note.frontmatter.tags@[m]@);
                                }
                            }
                        }
                        if !present {
                            let ghost prev = note.frontmatter.tags@;
                            note.frontmatter.tags.push(string_from(&l));
                            assert(string_views(note.frontmatter.tags@) == string_views(prev).push(l@));
                        }
                    }
                    assert(views(ws@).take(ws.len() as int) == views(ws@));
                    let ghost mid = self.notes@;
                    self.notes.insert(note_idx, note);
                    proof {
                        assert(self.notes@ =~= old(self)@.notes.update(note_idx as int, self.notes@[note_idx as int]));
                    }
                    let mut msg = String::from_str("Added tags to note ");
                    push_chars(&mut msg, &id);
                    self.set_message(msg);
                }
                self.tag_input_mode = false;
            },
            Key::Esc => {
                self.tag_input_mode = false;
                self.tag_input = String::new();
                self.message = String::new();
            },
            Key::Backspace => {
                pop_char(&mut self.tag_input);
            },
            Key::Char(c) => {
                push_char(&mut self.tag_input, c);
            },
            _ => {},
        }
        true
    }

    fn handle_search_input(&mut self, key: KeyInput) -> (cont: bool)
        requires
            old(self).wf(),
            !old(self)@.tag_mode,
            old(self)@.search_mode,
        ensures
            search_step(old(self)@, key, final(self)@, cont),
            final(self).wf(),
    {
        match key.code {
            Key::Enter => {
                self.search_mode = false;
            },
            Key::Esc => {
                self.search_mode = false;
                self.search_query = String::new();
                self.update_filter();
            },
            Key::Backspace => {
                pop_char(&mut self.search_query);
                self.update_filter();
            },
            Key::Char(c) => {
                push_char(&mut self.search_query, c);
                self.update_filter();
            },
            _ => {},
        }
        true
    }

    /// The notes.
    pub fn notes(&self) -> (r: &Vec<Note>)
        ensures
            r@ == self@.notes,
    {
        &self.notes
    }

    /// The index of the selected entry in the shown list.
    pub fn selected(&self) -> (r: usize)
        ensures
            r == self@.selected,
    {
        self.selected
    }

    /// The shown notes, as indices into `notes()`.
    pub fn filtered_indices(&self) -> (r: &Vec<usize>)
        ensures
            r@ == self@.filtered,
    {
        &self.filtered_indices
    }

    /// Whether a search query is being typed.
    pub fn search_mode(&self) -> (r: bool)
        ensures
            r == self@.search_mode,
    {
        self.search_mode
    }

    /// Whether tags are being typed.
    pub fn tag_input_mode(&self) -> (r: bool)
        ensures
            r == self@.tag_mode,
    {
        self.tag_input_mode
    }

    /// The tags typed so far.
    pub fn tag_input(&self) -> (r: &String)
        ensures
            r@ == self@.tag_input,
    {
        &self.tag_input
    }

    /// The status message and how many ticks it stays up.
    pub fn message(&self) -> (r: (&String, u16))
        ensures
            r.0@ == self@.message,
            r.1 == self@.timeout,
    {
        (&self.message, self.message_timeout)
    }
}

// ── What the panes show ──────────────────────────────────────────────────────

/// The first line of the body, or `(empty)` when it has none.
pub open spec fn first_line_or_empty(body: Seq<char>) -> Seq<char> {
    if lines(body).len() > 0 {
        lines(body)[0]
    } else {
        "(empty)"@
    }
}

/// A list entry: the body's first line; when it is longer than 35 bytes,
/// its longest prefix of at most 35 bytes with `…` appended.
pub open spec fn list_label_spec(body: Seq<char>) -> Seq<char> {
    let first = first_line_or_empty(body);
    if byte_len(first) > 35 {
        byte_prefix(first, 35).push('…')
    } else {
        first
    }
}

/// The label of a note in the list: the first line, cut at the last
/// character boundary at or before byte 35 with `…` appended when longer.
pub fn list_label(body: &str) -> (r: String)
    ensures
        r@ == list_label_spec(body@),
{
    let v = chars_of(body);
    let ls = lines_of(&v);
    let first = if ls.len() > 0 {
        assert(views(ls@)[0] == ls@[0]@);
        slice_chars(&ls[0], 0, ls[0].len())
    } else {
        chars_of("(empty)")
    };
    assert(first@ == first_line_or_empty(body@));
    let (p, used) = byte_prefix_chars(&first, 35);
    if p.len() < first.len() {
        proof {
            lemma_prefix_shorter(first@, 35);
        }
        let mut r = string_from(&p);
        push_char(&mut r, '…');
        r
    } else {
        proof {
            lemma_prefix_whole(first@, 35);
        }
        string_from(&first)
    }
}

/// The commit shown in the preview: the hash cut at the last character
/// boundary at or before byte 8.
pub fn preview_commit(hash: &str) -> (r: String)
    ensures
        r@ == byte_prefix(hash@, 8),
{
    let v = chars_of(hash);
    let (p, _) = byte_prefix_chars(&v, 8);
    string_from(&p)
}

proof fn lemma_byte_prefix_is_prefix(s: Seq<char>, n: nat)
    ensures
        byte_prefix(s, n).len() <= s.len(),
        byte_prefix(s, n) == s.take(byte_prefix(s, n).len() as int),
        byte_len(byte_prefix(s, n)) <= n,
    decreases s.len(),
{
    if s.len() > 0 && crate::text::char_bytes(s[0]) <= n {
        let m = (n - crate::text::char_bytes(s[0])) as nat;
        lemma_byte_prefix_is_prefix(s.drop_first(), m);
        let t = byte_prefix(s.drop_first(), m);
        assert((seq![s[0]] + t).drop_first() == t);
        assert(seq![s[0]] + t =~= s.take(t.len() + 1 as int));
    } else {
        assert(byte_prefix(s, n) =~= seq![]);
        assert(s.take(0) =~= seq![]);
    }
}

/// When the prefix is all of the text, the text fits.
proof fn lemma_prefix_whole(s: Seq<char>, n: nat)
    requires
        byte_prefix(s, n).len() >= s.len(),
    ensures
        byte_prefix(s, n) == s,
        byte_len(s) <= n,
{
    lemma_byte_prefix_is_prefix(s, n);
    assert(s.take(s.len() as int) == s);
}

/// When the prefix is shorter than the text, the text does not fit.
proof fn lemma_prefix_shorter(s: Seq<char>, n: nat)
    requires
        byte_prefix(s, n).len() < s.len(),
    ensures
        byte_len(s) > n,
    decreases s.len(),
{
    if s.len() > 0 && crate::text::char_bytes(s[0]) <= n {
        let m = (n - crate::text::char_bytes(s[0])) as nat;
        assert((seq![s[0]] + byte_prefix(s.drop_first(), m)).len() == 1 + byte_prefix(s.drop_first(), m).len());
        lemma_prefix_shorter(s.drop_first(), m);
    } else {
        lemma_byte_len_pos(s);
    }
}

proof fn lemma_byte_len_pos(s: Seq<char>)
    requires
        s.len() > 0,
    ensures
        byte_len(s) >= crate::text::char_bytes(s[0]),
{
}


// ── The preview pane ─────────────────────────────────────────────────────────

/// Lines of spans as plain values.
pub open spec fn lines_view(ls: Seq<Vec<Span>>) -> Seq<Seq<SpanView>> {
    ls.map_values(|l: Vec<Span>| span_views(l@))
}

/// A line of unstyled text.
pub open spec fn plain_line(t: Seq<char>) -> Seq<SpanView> {
    seq![(t, Style::Plain)]
}

/// A labelled field: the label in its style, then the value.
pub open spec fn field_line(label: Seq<char>, style: Style, value: Seq<char>) -> Seq<SpanView> {
    seq![(label, style), (value, Style::Plain)]
}

/// Each line of the body, unstyled.
pub open spec fn body_view(body: Seq<char>) -> Seq<Seq<SpanView>> {
    lines(body).map_values(|l: Seq<char>| plain_line(l))
}

/// The commit line, shown only for a recorded commit.
pub open spec fn commit_part(n: Note) -> Seq<Seq<SpanView>> {
    if n.frontmatter.commit_hash@ != "none"@ {
        seq![field_line("Commit: "@, Style::Field, byte_prefix(n.frontmatter.commit_hash@, 8))]
    } else {
        seq![]
    }
}

/// The tags line, shown only when the note has tags.
pub open spec fn tags_part(n: Note) -> Seq<Seq<SpanView>> {
    if n.frontmatter.tags@.len() > 0 {
        seq![field_line("Tags: "@, Style::Field, join(string_views(n.frontmatter.tags@), comma_sep()))]
    } else {
        seq![]
    }
}

/// The preview of a note: its ID, timestamp and repository, the commit and
/// tags when there are any, a body header, and the body's lines.
pub open spec fn note_preview(n: Note) -> Seq<Seq<SpanView>> {
    seq![
        field_line("ID: "@, Style::Label, n.frontmatter.id@),
        seq![],
        field_line("Timestamp: "@, Style::Field, n.frontmatter.timestamp@),
        field_line("Repo: "@, Style::Field, n.frontmatter.git_repo@),
    ] + commit_part(n) + tags_part(n) + seq![seq![], seq![("─── Body ───"@, Style::Rule)], seq![]]
        + body_view(n.body@)
}

/// What the preview pane shows: the selected note, or `No notes` when
/// nothing is shown.
pub open spec fn preview_spec(v: AppView) -> Seq<Seq<SpanView>> {
    if v.filtered.len() > 0 {
        note_preview(v.notes[v.filtered[v.selected as int] as int])
    } else {
        seq![seq![("No notes"@, Style::Alert)]]
    }
}

/// The help for the current mode: tag mode over search mode over the key
/// list.
pub open spec fn mode_help(v: AppView) -> Seq<Seq<SpanView>> {
    if v.tag_mode {
        seq![seq![], plain_line("Tag mode: Type tags (space-separated), Enter to add, Esc to cancel"@)]
    } else if v.search_mode {
        seq![seq![], plain_line("Search mode: Type to filter, Enter/Esc to exit"@)]
    } else {
        seq![
            seq![],
            plain_line("─── Keybinds ───"@),
            plain_line("j/k, ↑/↓  Navigate"@),
            plain_line("/         Search"@),
            plain_line("t         Add tags"@),
            plain_line("q, Esc    Quit"@),
        ]
    }
}

/// The help block: a message first while it is up (non-empty, with time
/// left), the mode's help, and in tag mode a `> ` prompt with the input.
pub open spec fn help_spec(v: AppView) -> Seq<Seq<SpanView>> {
    let base = mode_help(v);
    let shown = if v.message.len() > 0 && v.timeout > 0 {
        seq![seq![(v.message, Style::Notice)], seq![]] + base
    } else {
        base
    };
    if v.tag_mode {
        shown.push(seq![("> "@, Style::Plain), (v.tag_input, Style::Input)])
    } else {
        shown
    }
}

fn push_line(out: &mut Vec<Vec<Span>>, l: Vec<Span>)
    ensures
        lines_view(final(out)@) == lines_view(old(out)@).push(span_views(l@)),
{
    let ghost before = out@;
    let ghost lv = span_views(l@);
    out.push(l);
    assert(lines_view(out@) =~= lines_view(before).push(lv));
}

fn text_line(t: &str, style: Style) -> (r: Vec<Span>)
    ensures
        span_views(r@) == seq![(t@, style)],
{
    let mut r: Vec<Span> = Vec::new();
    r.push(chars_span(&chars_of(t), style));
    assert(span_views(r@) =~= seq![(t@, style)]);
    r
}

fn empty_line() -> (r: Vec<Span>)
    ensures
        span_views(r@) == Seq::<SpanView>::empty(),
{
    let r: Vec<Span> = Vec::new();
    assert(span_views(r@) =~= Seq::<SpanView>::empty());
    r
}

fn field_line_of(label: &str, style: Style, value: &str) -> (r: Vec<Span>)
    ensures
        span_views(r@) == field_line(label@, style, value@),
{
    let mut r: Vec<Span> = Vec::new();
    r.push(chars_span(&chars_of(label), style));
    r.push(chars_span(&chars_of(value), Style::Plain));
    assert(span_views(r@) =~= field_line(label@, style, value@));
    r
}

fn note_preview_lines(n: &Note) -> (r: Vec<Vec<Span>>)
    ensures
        lines_view(r@) == note_preview(*n),
{
    let mut r: Vec<Vec<Span>> = Vec::new();
    push_line(&mut r, field_line_of("ID: ", Style::Label, n.frontmatter.id.as_str()));
    push_line(&mut r, empty_line());
    push_line(&mut r, field_line_of("Timestamp: ", Style::Field, n.frontmatter.timestamp.as_str()));
    push_line(&mut r, field_line_of("Repo: ", Style::Field, n.frontmatter.git_repo.as_str()));
    let ghost head = lines_view(r@);
    assert(head =~= seq![
        field_line("ID: "@, Style::Label, n.frontmatter.id@),
        seq![],
        field_line("Timestamp: "@, Style::Field, n.frontmatter.timestamp@),
        field_line("Repo: "@, Style::Field, n.frontmatter.git_repo@),
    ]);
    let hash = chars_of(n.frontmatter.commit_hash.as_str());
    let none = chars_of("none");
    if !chars_eq(&hash, &none) {
        let c = preview_commit(n.frontmatter.commit_hash.as_str());
        push_line(&mut r, field_line_of("Commit: ", Style::Field, c.as_str()));
    }
    assert(lines_view(r@) =~= head + commit_part(*n));
    let ghost with_commit = lines_view(r@);
    if n.frontmatter.tags.len() > 0 {
        let t = join_comma(&n.frontmatter.tags);
        push_line(&mut r, field_line_of("Tags: ", Style::Field, t.as_str()));
    }
    assert(lines_view(r@) =~= with_commit + tags_part(*n));
    push_line(&mut r, empty_line());
    push_line(&mut r, text_line("─── Body ───", Style::Rule));
    push_line(&mut r, empty_line());
    let ghost top = lines_view(r@);
    assert(top =~= head + commit_part(*n) + tags_part(*n) + seq![seq![], seq![("─── Body ───"@, Style::Rule)], seq![]]);
    let v = chars_of(n.body.as_str());
    let ls = lines_of(&v);
    let ghost bv = body_view(n.body@);
    for i in 0..ls.len()
        invariant
            views(ls@) == lines(n.body@),
            bv == body_view(n.body@),
            lines_view(r@) == top + bv.take(i as int),
    {
        let mut l: Vec<Span> = Vec::new();
        l.push(chars_span(&ls[i], Style::Plain));
        assert(span_views(l@) =~= plain_line(ls@[i as int]@));
        assert(views(ls@)[i as int] == ls@[i as int]@);
        push_line(&mut r, l);
        assert(bv.take(i + 1) =~= bv.take(i as int).push(bv[i as int]));
    }
    assert(bv.take(ls.len() as int) =~= bv);
    r
}

/// What the preview pane shows for the browser's state.
pub fn preview_lines(app: &App) -> (r: Vec<Vec<Span>>)
    requires
        app.wf(),
    ensures
        lines_view(r@) == preview_spec(app@),
{
    match app.selected_note() {
        Some(n) => note_preview_lines(n),
        None => {
            let mut r: Vec<Vec<Span>> = Vec::new();
            push_line(&mut r, text_line("No notes", Style::Alert));
            assert(lines_view(r@) =~= seq![seq![("No notes"@, Style::Alert)]]);
            r
        },
    }
}

/// What the help block under the preview shows for the browser's state.
pub fn help_lines(app: &App) -> (r: Vec<Vec<Span>>)
    ensures
        lines_view(r@) == help_spec(app@),
{
    let mut r: Vec<Vec<Span>> = Vec::new();
    let msg = chars_of(app.message.as_str());
    if msg.len() > 0 && app.message_timeout > 0 {
        let mut m: Vec<Span> = Vec::new();
        m.push(chars_span(&msg, Style::Notice));
        assert(span_views(m@) =~= seq![(app@.message, Style::Notice)]);
        push_line(&mut r, m);
        push_line(&mut r, empty_line());
    }
    let ghost pre = lines_view(r@);
    push_line(&mut r, empty_line());
    if app.tag_input_mode {
        push_line(&mut r, text_line("Tag mode: Type tags (space-separated), Enter to add, Esc to cancel", Style::Plain));
    } else if app.search_mode {
        push_line(&mut r, text_line("Search mode: Type to filter, Enter/Esc to exit", Style::Plain));
    } else {
        push_line(&mut r, text_line("─── Keybinds ───", Style::Plain));
        push_line(&mut r, text_line("j/k, ↑/↓  Navigate", Style::Plain));
        push_line(&mut r, text_line("/         Search", Style::Plain));
        push_line(&mut r, text_line("t         Add tags", Style::Plain));
        push_line(&mut r, text_line("q, Esc    Quit", Style::Plain));
    }
    assert(lines_view(r@) =~= pre + mode_help(app@));
    let ghost shown = lines_view(r@);
    if app.tag_input_mode {
        let mut p: Vec<Span> = Vec::new();
        p.push(chars_span(&chars_of("> "), Style::Plain));
        p.push(chars_span(&chars_of(app.tag_input.as_str()), Style::Input));
        assert(span_views(p@) =~= seq![("> "@, Style::Plain), (app@.tag_input, Style::Input)]);
        push_line(&mut r, p);
    }
    assert(lines_view(r@) =~= help_spec(app@));
    r
}


// ── Layout of the panes ──────────────────────────────────────────────────────

/// A row of the notes list: the note's label, and whether it is the
/// selected one.
pub struct ListRow {
    pub label: String,
    pub selected: bool,
}

/// The rows of the notes list: one per shown note, in order, labelled
/// with `list_label`, the selected one marked.
pub fn list_rows(app: &App) -> (r: Vec<ListRow>)
    requires
        app.wf(),
    ensures
        r@.len() == app@.filtered.len(),
        forall|i: int|
            0 <= i < r@.len() ==> (#[trigger] r@[i]).label@ == list_label_spec(
                app@.notes[app@.filtered[i] as int].body@,
            ) && r@[i].selected == (i == app@.selected),
{
    let mut r: Vec<ListRow> = Vec::new();
    for i in 0..app.filtered_indices.len()
        invariant
            app.wf(),
            r@.len() == i,
            forall|k: int|
                0 <= k < i ==> (#[trigger] r@[k]).label@ == list_label_spec(
                    app@.notes[app@.filtered[k] as int].body@,
                ) && r@[k].selected == (k == app@.selected),
    {
        let idx = app.filtered_indices[i];
        let label = list_label(app.notes[idx].body.as_str());
        r.push(ListRow { label, selected: i == app.selected });
    }
    r
}

/// The top row of the help block in a pane starting at row `y` with
/// `height` rows: flush to the bottom with one row left below, clamped
/// to the pane's top and to the last terminal row.
pub open spec fn help_top(y: u16, height: u16, lines: nat) -> nat {
    let off: nat = if height > lines + 1 { (height - (lines + 1)) as nat } else { 0 };
    if y + off > u16::MAX { u16::MAX as nat } else { (y + off) as nat }
}

/// The help block's height: one row per line, at most 10.
pub open spec fn help_height(lines: nat) -> nat {
    if lines < 10 { lines } else { 10 }
}

/// Where the help block goes in a pane at `(x, y)` of the given size:
/// `(x, top, width, height)`.
pub fn help_rect(x: u16, y: u16, width: u16, height: u16, lines: usize) -> (r: (u16, u16, u16, u16))
    ensures
        r.0 == x,
        r.1 == help_top(y, height, lines as nat),
        r.2 == width,
        r.3 == help_height(lines as nat),
{
    let h = height as usize;
    let off: u64 = if h > lines && h - lines > 1 { (h - lines - 1) as u64 } else { 0 };
    let top: u64 = y as u64 + off;
    let t: u16 = if top > 65535 { 65535 } else { top as u16 };
    let hh: u16 = if lines < 10 { lines as u16 } else { 10 };
    (x, t, width, hh)
}

} // verus!
