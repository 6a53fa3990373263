//! Character-level text model: whitespace, trimming, substring search,
//! line splitting and joining, all stated over `Seq<char>`.
use vstd::prelude::*;

verus! {

// ── Specifications ───────────────────────────────────────────────────────────

/// Unicode `White_Space`, the property behind `char::is_whitespace`.
pub open spec fn is_ws(c: char) -> bool {
    let n: u32 = c as u32;
    ||| 0x09 <= n <= 0x0D
    ||| n == 0x20
    ||| n == 0x85
    ||| n == 0xA0
    ||| n == 0x1680
    ||| 0x2000 <= n <= 0x200A
    ||| n == 0x2028
    ||| n == 0x2029
    ||| n == 0x202F
    ||| n == 0x205F
    ||| n == 0x3000
}

/// Number of leading whitespace characters.
pub open spec fn lead_ws(s: Seq<char>) -> nat
    decreases s.len(),
{
    if s.len() > 0 && is_ws(s[0]) {
        1 + lead_ws(s.drop_first())
    } else {
        0
    }
}

/// Number of trailing whitespace characters.
pub open spec fn trail_ws(s: Seq<char>) -> nat
    decreases s.len(),
{
    if s.len() > 0 && is_ws(s.last()) {
        1 + trail_ws(s.drop_last())
    } else {
        0
    }
}

pub open spec fn trim_start(s: Seq<char>) -> Seq<char> {
    s.skip(lead_ws(s) as int)
}

pub open spec fn trim_end(s: Seq<char>) -> Seq<char> {
    s.take(s.len() - trail_ws(s))
}

pub open spec fn trim(s: Seq<char>) -> Seq<char> {
    trim_end(trim_start(s))
}

/// Number of leading `c` characters.
pub open spec fn lead_char(s: Seq<char>, c: char) -> nat
    decreases s.len(),
{
    if s.len() > 0 && s[0] == c {
        1 + lead_char(s.drop_first(), c)
    } else {
        0
    }
}

/// `s` without its leading run of `c` (`trim_start_matches(c)`).
pub open spec fn strip_leading(s: Seq<char>, c: char) -> Seq<char> {
    s.skip(lead_char(s, c) as int)
}

/// Number of trailing `c` characters.
pub open spec fn trail_char(s: Seq<char>, c: char) -> nat
    decreases s.len(),
{
    if s.len() > 0 && s.last() == c {
        1 + trail_char(s.drop_last(), c)
    } else {
        0
    }
}

/// `s` without its trailing run of `c` (`trim_end_matches(c)`).
pub open spec fn strip_trailing(s: Seq<char>, c: char) -> Seq<char> {
    s.take(s.len() - trail_char(s, c))
}

pub open spec fn is_prefix(p: Seq<char>, t: Seq<char>) -> bool {
    p.len() <= t.len() && t.take(p.len() as int) == p
}

pub open spec fn is_suffix(p: Seq<char>, t: Seq<char>) -> bool {
    p.len() <= t.len() && t.skip(t.len() - p.len()) == p
}

/// `p` occurs in `t` starting at index `i`.
pub open spec fn match_at(t: Seq<char>, p: Seq<char>, i: int) -> bool {
    0 <= i && i + p.len() <= t.len() && t.subrange(i, i + p.len()) == p
}

/// `str::contains` with a string pattern.
pub open spec fn contains(t: Seq<char>, p: Seq<char>) -> bool {
    exists|i: int| match_at(t, p, i)
}

/// Index of the first `c` in `s`, or `s.len()` when there is none.
pub open spec fn index_of(s: Seq<char>, c: char) -> nat
    decreases s.len(),
{
    if s.len() == 0 {
        0
    } else if s[0] == c {
        0
    } else {
        1 + index_of(s.drop_first(), c)
    }
}

/// A line without its `\r` before the `\n` that ended it.
pub open spec fn strip_cr(s: Seq<char>) -> Seq<char> {
    if s.len() > 0 && s.last() == '\r' {
        s.drop_last()
    } else {
        s
    }
}

/// `str::lines`: split after each `\n`, drop the `\n` and a `\r` just before
/// it; a final line ending is optional and yields no empty line.
pub open spec fn lines(s: Seq<char>) -> Seq<Seq<char>>
    decreases s.len(),
{
    if s.len() == 0 {
        seq![]
    } else {
        let e = index_of(s, '\n');
        if e >= s.len() {
            seq![s]
        } else {
            seq![strip_cr(s.take(e as int))] + lines(s.skip((e + 1) as int))
        }
    }
}

/// `join(sep)` over a sequence of pieces.
pub open spec fn join(ls: Seq<Seq<char>>, sep: Seq<char>) -> Seq<char>
    decreases ls.len(),
{
    if ls.len() == 0 {
        seq![]
    } else if ls.len() == 1 {
        ls[0]
    } else {
        join(ls.drop_last(), sep) + sep + ls.last()
    }
}

/// What `str::to_lowercase` returns for a string (Unicode lowercase mapping,
/// with its context rules for final sigma).
pub uninterp spec fn lowercase(s: Seq<char>) -> Seq<char>;

/// Number of leading characters that are not whitespace.
pub open spec fn lead_word(s: Seq<char>) -> nat
    decreases s.len(),
{
    if s.len() > 0 && !is_ws(s[0]) {
        1 + lead_word(s.drop_first())
    } else {
        0
    }
}

/// `str::split_whitespace`: the maximal runs of non-whitespace characters.
pub open spec fn words(s: Seq<char>) -> Seq<Seq<char>>
    decreases s.len(),
{
    let t = trim_start(s);
    if t.len() == 0 {
        seq![]
    } else {
        let w = lead_word(t);
        if w == 0 || lead_ws(s) + w > s.len() {
            seq![]
        } else {
            seq![t.take(w as int)] + words(t.skip(w as int))
        }
    }
}

/// UTF-8 length of a character.
pub open spec fn char_bytes(c: char) -> nat {
    let n = c as u32;
    if n < 0x80 {
        1
    } else if n < 0x800 {
        2
    } else if n < 0x10000 {
        3
    } else {
        4
    }
}

/// UTF-8 length of a text (what `str::len` returns).
pub open spec fn byte_len(s: Seq<char>) -> nat
    decreases s.len(),
{
    if s.len() == 0 {
        0
    } else {
        char_bytes(s[0]) + byte_len(s.drop_first())
    }
}

/// The longest prefix whose UTF-8 encoding fits in `n` bytes.
pub open spec fn byte_prefix(s: Seq<char>, n: nat) -> Seq<char>
    decreases s.len(),
{
    if s.len() == 0 || char_bytes(s[0]) > n {
        seq![]
    } else {
        seq![s[0]] + byte_prefix(s.drop_first(), (n - char_bytes(s[0])) as nat)
    }
}

pub open spec fn views(v: Seq<Vec<char>>) -> Seq<Seq<char>> {
    v.map_values(|x: Vec<char>| x@)
}

pub open spec fn string_views(v: Seq<String>) -> Seq<Seq<char>> {
    v.map_values(|x: String| x@)
}

// ── Lemmas ───────────────────────────────────────────────────────────────────

pub proof fn lemma_lead_ws(s: Seq<char>, i: int)
    requires
        0 <= i <= s.len(),
        forall|k: int| 0 <= k < i ==> is_ws(#[trigger] s[k]),
        i == s.len() || !is_ws(s[i]),
    ensures
        lead_ws(s) == i,
    decreases i,
{
    if i > 0 {
        lemma_lead_ws(s.drop_first(), i - 1);
    }
}

pub proof fn lemma_trail_ws(s: Seq<char>, i: int)
    requires
        0 <= i <= s.len(),
        forall|k: int| s.len() - i <= k < s.len() ==> is_ws(#[trigger] s[k]),
        i == s.len() || !is_ws(s[s.len() - i - 1]),
    ensures
        trail_ws(s) == i,
    decreases i,
{
    if i > 0 {
        lemma_trail_ws(s.drop_last(), i - 1);
    }
}

pub proof fn lemma_lead_char(s: Seq<char>, c: char, i: int)
    requires
        0 <= i <= s.len(),
        forall|k: int| 0 <= k < i ==> #[trigger] s[k] == c,
        i == s.len() || s[i] != c,
    ensures
        lead_char(s, c) == i,
    decreases i,
{
    if i > 0 {
        lemma_lead_char(s.drop_first(), c, i - 1);
    }
}

pub proof fn lemma_trail_char(s: Seq<char>, c: char, i: int)
    requires
        0 <= i <= s.len(),
        forall|k: int| s.len() - i <= k < s.len() ==> #[trigger] s[k] == c,
        i == s.len() || s[s.len() - i - 1] != c,
    ensures
        trail_char(s, c) == i,
    decreases i,
{
    if i > 0 {
        lemma_trail_char(s.drop_last(), c, i - 1);
    }
}

pub proof fn lemma_index_of(s: Seq<char>, c: char, i: int)
    requires
        0 <= i <= s.len(),
        forall|k: int| 0 <= k < i ==> #[trigger] s[k] != c,
        i == s.len() || s[i] == c,
    ensures
        index_of(s, c) == i,
    decreases i,
{
    if i > 0 {
        lemma_index_of(s.drop_first(), c, i - 1);
    }
}

pub proof fn lemma_index_of_bound(s: Seq<char>, c: char)
    ensures
        index_of(s, c) <= s.len(),
        index_of(s, c) < s.len() ==> s[index_of(s, c) as int] == c,
        forall|k: int| 0 <= k < index_of(s, c) ==> s[k] != c,
    decreases s.len(),
{
    if s.len() > 0 && s[0] != c {
        lemma_index_of_bound(s.drop_first(), c);
        assert forall|k: int| 0 <= k < index_of(s, c) implies s[k] != c by {
            if k > 0 {
                assert(s[k] == s.drop_first()[k - 1]);
            }
        }
    }
}

pub proof fn lemma_join_push(ls: Seq<Seq<char>>, x: Seq<char>, sep: Seq<char>)
    ensures
        join(ls.push(x), sep) == if ls.len() == 0 {
            x
        } else {
            join(ls, sep) + sep + x
        },
{
    assert(ls.push(x).drop_last() == ls);
}

pub proof fn lemma_ws_bounds(s: Seq<char>)
    ensures
        lead_ws(s) <= s.len(),
        trail_ws(s) <= s.len(),
    decreases s.len(),
{
    if s.len() > 0 {
        lemma_ws_bounds(s.drop_first());
        lemma_ws_bounds(s.drop_last());
    }
}

pub proof fn lemma_lead_char_bound(s: Seq<char>, c: char)
    ensures
        lead_char(s, c) <= s.len(),
    decreases s.len(),
{
    if s.len() > 0 {
        lemma_lead_char_bound(s.drop_first(), c);
    }
}

/// Occurrence is transitive: what occurs in a part of a text occurs in the
/// text.
pub proof fn lemma_contains_trans(t: Seq<char>, s: Seq<char>, u: Seq<char>)
    requires
        contains(t, s),
        contains(s, u),
    ensures
        contains(t, u),
{
    let i = choose|i: int| match_at(t, s, i);
    let j = choose|j: int| match_at(s, u, j);
    assert(t.subrange(i + j, i + j + u.len()) =~= s.subrange(j, j + u.len()));
    assert(match_at(t, u, i + j));
}

/// Every word of a text occurs in it.
pub proof fn lemma_words_occur(s: Seq<char>)
    ensures
        forall|i: int| 0 <= i < words(s).len() ==> contains(s, #[trigger] words(s)[i]),
    decreases s.len(),
{
    let t = trim_start(s);
    lemma_ws_bounds(s);
    if t.len() > 0 {
        let w = lead_word(t);
        let l = lead_ws(s) as int;
        if !(w == 0 || l + w > s.len()) {
            let rest = t.skip(w as int);
            assert(rest =~= s.skip(l + w));
            lemma_words_occur(rest);
            let ws = words(s);
            assert(ws == seq![t.take(w as int)] + words(rest));
            assert forall|i: int| 0 <= i < ws.len() implies contains(s, #[trigger] ws[i]) by {
                if i == 0 {
                    assert(s.subrange(l, l + w) =~= t.take(w as int));
                    assert(match_at(s, ws[0], l));
                } else {
                    assert(ws[i] == words(rest)[i - 1]);
                    assert(contains(rest, words(rest)[i - 1]));
                    assert(s.subrange(l + w, s.len() as int) =~= rest);
                    assert(match_at(s, rest, l + w));
                    lemma_contains_trans(s, rest, ws[i]);
                }
            }
        }
    }
}

/// No carriage return in the text.
pub open spec fn no_cr(s: Seq<char>) -> bool {
    forall|i: int| 0 <= i < s.len() ==> s[i] != '\r'
}

proof fn lemma_index_of_concat(a: Seq<char>, b: Seq<char>, c: char)
    requires
        index_of(a, c) < a.len(),
    ensures
        index_of(a + b, c) == index_of(a, c),
    decreases a.len(),
{
    lemma_index_of_bound(a, c);
    let e = index_of(a, c) as int;
    assert forall|k: int| 0 <= k < e implies #[trigger] (a + b)[k] != c by {
        assert((a + b)[k] == a[k]);
    }
    assert((a + b)[e] == a[e]);
    lemma_index_of(a + b, c, e);
}

/// Splitting into lines distributes over a concatenation whose first part
/// ends a line.
pub proof fn lemma_lines_concat(a: Seq<char>, b: Seq<char>)
    requires
        a.len() > 0,
        a.last() == '\n',
    ensures
        lines(a + b) == lines(a) + lines(b),
    decreases a.len(),
{
    lemma_index_of_bound(a, '\n');
    if index_of(a, '\n') >= a.len() {
        assert(a[a.len() - 1] == '\n');
        assert(false);
    }
    let e = index_of(a, '\n') as int;
    lemma_index_of_concat(a, b, '\n');
    assert((a + b).take(e) == a.take(e));
    let rest = a.skip(e + 1);
    assert((a + b).skip(e + 1) == rest + b);
    if rest.len() == 0 {
        assert(rest + b == b);
        assert(lines(rest) =~= seq![]);
        assert(lines(a) == seq![strip_cr(a.take(e))] + lines(rest));
        assert(lines(a) + lines(b) =~= seq![strip_cr(a.take(e))] + lines(b));
    } else {
        assert(rest.last() == a.last());
        lemma_lines_concat(rest, b);
        assert(lines(a + b) == seq![strip_cr(a.take(e))] + lines(rest + b));
        assert(lines(a + b) =~= lines(a) + lines(b));
    }
}

/// Joining with a leading piece.
pub proof fn lemma_join_cons(x: Seq<char>, ls: Seq<Seq<char>>, sep: Seq<char>)
    requires
        ls.len() > 0,
    ensures
        join(seq![x] + ls, sep) == x + sep + join(ls, sep),
    decreases ls.len(),
{
    let l = seq![x] + ls;
    if ls.len() == 1 {
        assert(l.drop_last() =~= seq![x]);
        assert(l.last() == ls[0]);
        assert(join(seq![x], sep) == x);
        assert(join(l, sep) == join(l.drop_last(), sep) + sep + l.last());
        assert(join(ls, sep) == ls[0]);
    } else {
        assert(join(l, sep) == join(l.drop_last(), sep) + sep + l.last());
        assert(join(ls, sep) == join(ls.drop_last(), sep) + sep + ls.last());
        assert(l.drop_last() =~= seq![x] + ls.drop_last());
        lemma_join_cons(x, ls.drop_last(), sep);
        assert(l.last() == ls.last());
        assert(x + sep + join(ls.drop_last(), sep) + sep + ls.last() =~= x + sep + (join(ls.drop_last(), sep) + sep + ls.last()));
    }
}

/// A text that ends a line and has no carriage return is its lines joined
/// with newlines, plus the final newline.
pub proof fn lemma_join_lines(z: Seq<char>)
    requires
        z.len() > 0,
        z.last() == '\n',
        no_cr(z),
    ensures
        lines(z).len() > 0,
        join(lines(z), seq!['\n']) == z.drop_last(),
    decreases z.len(),
{
    lemma_index_of_bound(z, '\n');
    if index_of(z, '\n') >= z.len() {
        assert(z[z.len() - 1] == '\n');
        assert(false);
    }
    let e = index_of(z, '\n') as int;
    let a = z.take(e);
    let rest = z.skip(e + 1);
    if a.len() > 0 {
        assert(a.last() == z[e - 1]);
    }
    assert(strip_cr(a) == a);
    if rest.len() == 0 {
        assert(lines(rest) =~= seq![]);
        assert(lines(z) =~= seq![a]);
        assert(z.drop_last() =~= a);
    } else {
        assert(rest.last() == z.last());
        assert forall|i: int| 0 <= i < rest.len() implies rest[i] != '\r' by {
            assert(rest[i] == z[e + 1 + i]);
        }
        lemma_join_lines(rest);
        assert(lines(z) == seq![a] + lines(rest));
        lemma_join_cons(a, lines(rest), seq!['\n']);
        assert(z.drop_last() =~= a + seq!['\n'] + rest.drop_last());
    }
}

// ── Executable helpers ───────────────────────────────────────────────────────

/// `char::is_whitespace`.
pub fn is_whitespace(c: char) -> (b: bool)
    ensures
        b == is_ws(c),
{
    let n: u32 = c as u32;
    (0x09 <= n && n <= 0x0D) || n == 0x20 || n == 0x85 || n == 0xA0 || n == 0x1680 || (0x2000
        <= n && n <= 0x200A) || n == 0x2028 || n == 0x2029 || n == 0x202F || n == 0x205F || n
        == 0x3000
}

/// The characters of a string slice, in order.
pub fn chars_of(s: &str) -> (r: Vec<char>)
    ensures
        r@ == s@,
{
    let mut r: Vec<char> = Vec::new();
    for c in it: s.chars()
        invariant
            r@ == it.seq().take(it.index() as int),
    {
        r.push(c);
    }
    r
}

/// Appends one character with `String::push`. The claim: the text gains
/// exactly that character at its end.
#[verifier::external_body]
pub(crate) fn push_char(s: &mut String, c: char)
    ensures
        final(s)@ == old(s)@.push(c),
{
    s.push(c);
}

/// Appends characters to a string.
pub fn push_chars(s: &mut String, v: &Vec<char>)
    ensures
        final(s)@ == old(s)@ + v@,
{
    let ghost start = s@;
    for i in 0..v.len()
        invariant
            s@ == start + v@.take(i as int),
    {
        push_char(s, v[i]);
        assert(v@.take(i + 1) == v@.take(i as int).push(v@[i as int]));
    }
    assert(v@.take(v.len() as int) == v@);
}

/// Appends a string slice.
pub fn push_str(s: &mut String, t: &str)
    ensures
        final(s)@ == old(s)@ + t@,
{
    let v = chars_of(t);
    push_chars(s, &v);
}

/// A new `String` holding the given characters.
pub fn string_from(v: &Vec<char>) -> (r: String)
    ensures
        r@ == v@,
{
    let mut r = String::new();
    push_chars(&mut r, v);
    r
}

/// A copy of `v[lo..hi]`.
pub fn slice_chars(v: &Vec<char>, lo: usize, hi: usize) -> (r: Vec<char>)
    requires
        lo <= hi <= v.len(),
    ensures
        r@ == v@.subrange(lo as int, hi as int),
{
    let mut r: Vec<char> = Vec::new();
    let mut i: usize = lo;
    while i < hi
        invariant
            lo <= i <= hi <= v.len(),
            r@ == v@.subrange(lo as int, i as int),
        decreases hi - i,
    {
        r.push(v[i]);
        i += 1;
    }
    r
}

/// Character-wise equality.
pub fn chars_eq(a: &Vec<char>, b: &Vec<char>) -> (r: bool)
    ensures
        r == (a@ == b@),
{
    if a.len() != b.len() {
        return false;
    }
    let mut i: usize = 0;
    while i < a.len()
        invariant
            a.len() == b.len(),
            i <= a.len(),
            forall|k: int| 0 <= k < i ==> a@[k] == b@[k],
        decreases a.len() - i,
    {
        if a[i] != b[i] {
            return false;
        }
        i += 1;
    }
    assert(a@ =~= b@);
    true
}

/// Index just past the leading whitespace.
pub fn lead_ws_len(v: &Vec<char>) -> (i: usize)
    ensures
        i == lead_ws(v@),
        i <= v.len(),
{
    let mut i: usize = 0;
    while i < v.len() && is_whitespace(v[i])
        invariant
            i <= v.len(),
            forall|k: int| 0 <= k < i ==> is_ws(#[trigger] v@[k]),
        decreases v.len() - i,
    {
        i += 1;
    }
    proof {
        lemma_lead_ws(v@, i as int);
    }
    i
}

/// Number of trailing whitespace characters.
pub fn trail_ws_len(v: &Vec<char>) -> (i: usize)
    ensures
        i == trail_ws(v@),
        i <= v.len(),
{
    let mut i: usize = 0;
    while i < v.len() && is_whitespace(v[v.len() - i - 1])
        invariant
            i <= v.len(),
            forall|k: int| v.len() - i <= k < v.len() ==> is_ws(#[trigger] v@[k]),
        decreases v.len() - i,
    {
        i += 1;
    }
    proof {
        lemma_trail_ws(v@, i as int);
    }
    i
}

/// `str::trim_start`.
pub fn trim_start_chars(v: &Vec<char>) -> (r: Vec<char>)
    ensures
        r@ == trim_start(v@),
{
    let i: usize = lead_ws_len(v);
    slice_chars(v, i, v.len())
}

/// `str::trim_end`.
pub fn trim_end_chars(v: &Vec<char>) -> (r: Vec<char>)
    ensures
        r@ == trim_end(v@),
{
    let i: usize = trail_ws_len(v);
    slice_chars(v, 0, v.len() - i)
}

/// `str::trim`.
pub fn trim_chars(v: &Vec<char>) -> (r: Vec<char>)
    ensures
        r@ == trim(v@),
{
    let a = trim_start_chars(v);
    trim_end_chars(&a)
}

/// `str::trim_start_matches(c)` for a single character.
pub fn strip_leading_chars(v: &Vec<char>, c: char) -> (r: Vec<char>)
    ensures
        r@ == strip_leading(v@, c),
{
    let mut i: usize = 0;
    while i < v.len() && v[i] == c
        invariant
            i <= v.len(),
            forall|k: int| 0 <= k < i ==> #[trigger] v@[k] == c,
        decreases v.len() - i,
    {
        i += 1;
    }
    proof {
        lemma_lead_char(v@, c, i as int);
    }
    slice_chars(v, i, v.len())
}

/// `str::trim_end_matches(c)` for a single character.
pub fn strip_trailing_chars(v: &Vec<char>, c: char) -> (r: Vec<char>)
    ensures
        r@ == strip_trailing(v@, c),
{
    let mut i: usize = 0;
    while i < v.len() && v[v.len() - i - 1] == c
        invariant
            i <= v.len(),
            forall|k: int| v.len() - i <= k < v.len() ==> #[trigger] v@[k] == c,
        decreases v.len() - i,
    {
        i += 1;
    }
    proof {
        lemma_trail_char(v@, c, i as int);
    }
    slice_chars(v, 0, v.len() - i)
}

/// Whether `p` occurs in `t` at index `i`.
pub fn matches_at(t: &Vec<char>, p: &Vec<char>, i: usize) -> (r: bool)
    ensures
        r == match_at(t@, p@, i as int),
{
    if i > t.len() || p.len() > t.len() - i {
        return false;
    }
    let mut k: usize = 0;
    while k < p.len()
        invariant
            i + p.len() <= t.len(),
            k <= p.len(),
            forall|j: int| 0 <= j < k ==> t@[i + j] == p@[j],
        decreases p.len() - k,
    {
        if t[i + k] != p[k] {
            assert(t@.subrange(i as int, i + p.len())[k as int] != p@[k as int]);
            return false;
        }
        k += 1;
    }
    assert(t@.subrange(i as int, i + p.len()) =~= p@);
    true
}

/// The first occurrence of `p` in `t` at or after `from`.
pub fn find_from(t: &Vec<char>, p: &Vec<char>, from: usize) -> (r: Option<usize>)
    ensures
        r matches Some(i) ==> from <= i && match_at(t@, p@, i as int) && forall|k: int|
            from <= k < i ==> !match_at(t@, p@, k),
        r is None ==> forall|k: int| from <= k ==> !match_at(t@, p@, k),
{
    let mut i: usize = from;
    while i < t.len()
        invariant
            from <= i,
            forall|k: int| from <= k < i ==> !match_at(t@, p@, k),
        decreases t.len() - i,
    {
        if matches_at(t, p, i) {
            return Some(i);
        }
        i += 1;
    }
    if i == t.len() && matches_at(t, p, i) {
        return Some(i);
    }
    None
}

/// `str::contains` with a string pattern.
pub fn contains_chars(t: &Vec<char>, p: &Vec<char>) -> (r: bool)
    ensures
        r == contains(t@, p@),
{
    match find_from(t, p, 0) {
        Some(_) => true,
        None => {
            assert forall|i: int| !match_at(t@, p@, i) by {
                if i >= 0 {
                }
            }
            false
        },
    }
}

/// `str::starts_with` with a string pattern.
pub fn starts_with_chars(t: &Vec<char>, p: &Vec<char>) -> (r: bool)
    ensures
        r == is_prefix(p@, t@),
{
    let r = matches_at(t, p, 0);
    assert(t@.take(p@.len() as int) == t@.subrange(0, p@.len() as int));
    r
}

/// `str::ends_with` with a string pattern.
pub fn ends_with_chars(t: &Vec<char>, p: &Vec<char>) -> (r: bool)
    ensures
        r == is_suffix(p@, t@),
{
    if p.len() > t.len() {
        return false;
    }
    let r = matches_at(t, p, t.len() - p.len());
    assert(t@.skip(t@.len() - p@.len()) == t@.subrange(t@.len() - p@.len(), t@.len() as int));
    r
}

/// Index of the first `c` at or after `from`, or `v.len()`.
pub fn index_of_from(v: &Vec<char>, c: char, from: usize) -> (r: usize)
    requires
        from <= v.len(),
    ensures
        from + index_of(v@.skip(from as int), c) == r,
        r <= v.len(),
{
    let mut i: usize = from;
    while i < v.len() && v[i] != c
        invariant
            from <= i <= v.len(),
            forall|k: int| from <= k < i ==> v@[k] != c,
        decreases v.len() - i,
    {
        i += 1;
    }
    proof {
        let s = v@.skip(from as int);
        assert forall|k: int| 0 <= k < i - from implies #[trigger] s[k] != c by {
            assert(s[k] == v@[from + k]);
        }
        lemma_index_of(s, c, i - from);
    }
    i
}

/// `str::lines`, each line as characters.
pub fn lines_of(v: &Vec<char>) -> (r: Vec<Vec<char>>)
    ensures
        views(r@) == lines(v@),
{
    let mut r: Vec<Vec<char>> = Vec::new();
    let mut pos: usize = 0;
    assert(v@.skip(0) == v@);
    while pos < v.len()
        invariant
            pos <= v.len(),
            lines(v@) == views(r@) + lines(v@.skip(pos as int)),
        decreases v.len() - pos,
    {
        let ghost rest = v@.skip(pos as int);
        let e: usize = index_of_from(v, '\n', pos);
        let mut line = slice_chars(v, pos, e);
        assert(line@ == rest.take(e - pos));
        let ghost before = r@;
        if e < v.len() {
            if line.len() > 0 && line[line.len() - 1] == '\r' {
                line.pop();
            }
            r.push(line);
            assert(v@.skip(e + 1) == rest.skip(e - pos + 1));
            pos = e + 1;
        } else {
            r.push(line);
            assert(rest.take(e - pos) == rest);
            pos = v.len();
            assert(v@.skip(pos as int) =~= seq![]);
        }
        assert(views(r@) == views(before).push(views(r@).last()));
    }
    assert(v@.skip(pos as int) =~= seq![]);
    r
}

/// Joins `ls[lo..hi]` with a separator.
pub fn join_range(ls: &Vec<Vec<char>>, lo: usize, hi: usize, sep: &Vec<char>) -> (r: Vec<char>)
    requires
        lo <= hi <= ls.len(),
    ensures
        r@ == join(views(ls@.subrange(lo as int, hi as int)), sep@),
{
    let mut r: Vec<char> = Vec::new();
    let mut i: usize = lo;
    assert(views(ls@.subrange(lo as int, lo as int)) =~= seq![]);
    while i < hi
        invariant
            lo <= i <= hi <= ls.len(),
            r@ == join(views(ls@.subrange(lo as int, i as int)), sep@),
        decreases hi - i,
    {
        proof {
            assert(views(ls@.subrange(lo as int, i + 1)) == views(
                ls@.subrange(lo as int, i as int),
            ).push(ls@[i as int]@));
            lemma_join_push(views(ls@.subrange(lo as int, i as int)), ls@[i as int]@, sep@);
        }
        if i > lo {
            let mut k: usize = 0;
            while k < sep.len()
                invariant
                    k <= sep.len(),
                    r@ == join(views(ls@.subrange(lo as int, i as int)), sep@) + sep@.take(
                        k as int,
                    ),
                decreases sep.len() - k,
            {
                r.push(sep[k]);
                assert(sep@.take(k + 1) == sep@.take(k as int).push(sep@[k as int]));
                k += 1;
            }
            assert(sep@.take(sep.len() as int) == sep@);
        }
        let ghost mid = r@;
        let mut k: usize = 0;
        while k < ls[i].len()
            invariant
                i < ls.len(),
                k <= ls@[i as int].len(),
                r@ == mid + ls@[i as int]@.take(k as int),
            decreases ls@[i as int].len() - k,
        {
            r.push(ls[i][k]);
            assert(ls@[i as int]@.take(k + 1) == ls@[i as int]@.take(k as int).push(
                ls@[i as int]@[k as int],
            ));
            k += 1;
        }
        assert(ls@[i as int]@.take(ls@[i as int]@.len() as int) == ls@[i as int]@);
        i += 1;
    }
    r
}

fn char_bytes_exec(c: char) -> (r: usize)
    ensures
        r == char_bytes(c),
{
    let n: u32 = c as u32;
    if n < 0x80 {
        1
    } else if n < 0x800 {
        2
    } else if n < 0x10000 {
        3
    } else {
        4
    }
}

/// The longest prefix of `v` whose UTF-8 encoding fits in `n` bytes, and
/// its byte length.
pub fn byte_prefix_chars(v: &Vec<char>, n: usize) -> (r: (Vec<char>, usize))
    ensures
        r.0@ == byte_prefix(v@, n as nat),
        r.1 == byte_len(r.0@),
{
    let mut i: usize = 0;
    let mut used: usize = 0;
    let ghost mut acc: Seq<char> = seq![];
    assert(v@.skip(0) == v@);
    while i < v.len() && char_bytes_exec(v[i]) <= n - used
        invariant
            i <= v.len(),
            used <= n,
            acc == v@.take(i as int),
            byte_prefix(v@, n as nat) == acc + byte_prefix(v@.skip(i as int), (n - used) as nat),
            used == byte_len(acc),
        decreases v.len() - i,
    {
        proof {
            let rest = v@.skip(i as int);
            assert(rest.drop_first() == v@.skip(i + 1));
            assert(v@.take(i + 1) == acc.push(v@[i as int]));
            lemma_byte_len_push(acc, v@[i as int]);
            assert(acc + (seq![rest[0]] + byte_prefix(rest.drop_first(), (n - used - char_bytes(rest[0])) as nat)) == acc.push(v@[i as int]) + byte_prefix(v@.skip(i + 1), (n - used - char_bytes(rest[0])) as nat));
            acc = acc.push(v@[i as int]);
        }
        used = used + char_bytes_exec(v[i]);
        i += 1;
    }
    proof {
        assert(byte_prefix(v@.skip(i as int), (n - used) as nat) =~= seq![]);
    }
    (slice_chars(v, 0, i), used)
}

pub proof fn lemma_byte_len_push(s: Seq<char>, c: char)
    ensures
        byte_len(s.push(c)) == byte_len(s) + char_bytes(c),
    decreases s.len(),
{
    if s.len() > 0 {
        lemma_byte_len_push(s.drop_first(), c);
        assert(s.push(c).drop_first() == s.drop_first().push(c));
        assert(s.push(c)[0] == s[0]);
    } else {
        assert(s.push(c).drop_first() =~= seq![]);
        assert(s.push(c)[0] == c);
        assert(byte_len(seq![]) == 0);
    }
}

/// `str::split_whitespace`, each word as characters.
pub fn words_of(v: &Vec<char>) -> (r: Vec<Vec<char>>)
    ensures
        views(r@) == words(v@),
{
    let mut r: Vec<Vec<char>> = Vec::new();
    let mut pos: usize = 0;
    assert(v@.skip(0) == v@);
    while pos < v.len()
        invariant
            pos <= v.len(),
            words(v@) == views(r@) + words(v@.skip(pos as int)),
        decreases v.len() - pos,
    {
        let ghost rest = v@.skip(pos as int);
        let mut a: usize = pos;
        while a < v.len() && is_whitespace(v[a])
            invariant
                pos <= a <= v.len(),
                forall|k: int| pos <= k < a ==> is_ws(#[trigger] v@[k]),
            decreases v.len() - a,
        {
            a += 1;
        }
        proof {
            assert forall|k: int| 0 <= k < a - pos implies is_ws(#[trigger] rest[k]) by {
                assert(rest[k] == v@[pos + k]);
            }
            if a < v.len() {
                assert(rest[a - pos] == v@[a as int]);
            }
            lemma_lead_ws(rest, a - pos);
            assert(trim_start(rest) == v@.skip(a as int));
        }
        if a == v.len() {
            proof {
                assert(v@.skip(a as int) =~= seq![]);
                assert(words(rest) =~= seq![]);
            }
            pos = a;
            assert(v@.skip(pos as int) =~= seq![]);
        } else {
            let mut b: usize = a;
            while b < v.len() && !is_whitespace(v[b])
                invariant
                    a <= b <= v.len(),
                    forall|k: int| a <= k < b ==> !is_ws(#[trigger] v@[k]),
                decreases v.len() - b,
            {
                b += 1;
            }
            let ghost t = v@.skip(a as int);
            proof {
                assert forall|k: int| 0 <= k < b - a implies !is_ws(#[trigger] t[k]) by {
                    assert(t[k] == v@[a + k]);
                }
                if b < v.len() {
                    assert(t[b - a] == v@[b as int]);
                }
                lemma_lead_word(t, b - a);
                assert(t.take(b - a) == v@.subrange(a as int, b as int));
                assert(t.skip(b - a) == v@.skip(b as int));
                assert(lead_ws(rest) + (b - a) <= rest.len());
            }
            let w = slice_chars(v, a, b);
            let ghost before = r@;
            r.push(w);
            assert(views(r@) == views(before).push(w@));
            pos = b;
        }
    }
    proof {
        assert(v@.skip(pos as int) =~= seq![]);
        assert(words(v@.skip(pos as int)) =~= seq![]);
    }
    r
}

pub proof fn lemma_lead_word(s: Seq<char>, i: int)
    requires
        0 <= i <= s.len(),
        forall|k: int| 0 <= k < i ==> !is_ws(#[trigger] s[k]),
        i == s.len() || is_ws(s[i]),
    ensures
        lead_word(s) == i,
    decreases i,
{
    if i > 0 {
        lemma_lead_word(s.drop_first(), i - 1);
    }
}

/// Lowercases a text with `str::to_lowercase` (Unicode lowercase mapping,
/// which may change a text's length). The claim: the result is the named
/// lowercase of the argument, and the empty text lowercases to the empty
/// text (the mapping goes character by character); the mapping itself is
/// not restated.
#[verifier::external_body]
pub(crate) fn to_lowercase(s: &str) -> (r: String)
    ensures
        r@ == lowercase(s@),
        s@.len() == 0 ==> r@.len() == 0,
{
    s.to_lowercase()
}

/// Lowercase of a character sequence.
pub fn lowercase_chars(v: &Vec<char>) -> (r: Vec<char>)
    ensures
        r@ == lowercase(v@),
        v@.len() == 0 ==> r@.len() == 0,
{
    let s = string_from(v);
    let l = to_lowercase(s.as_str());
    chars_of(l.as_str())
}

} // verus!
