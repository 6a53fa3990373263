//! Adding and removing note tags. Tags are stored trimmed and lowercase and
//! are compared lowercased, so a tag is never stored twice.
use vstd::prelude::*;
use crate::text::{
    chars_eq, chars_of, join, lowercase, lowercase_chars, push_char, push_chars, push_str,
    string_from, string_views, trim, trim_chars,
};
use crate::time::{decimal, decimal_chars};

verus! {

/// Some tag in `cur` equals `t` once lowercased.
pub open spec fn has_lower(cur: Seq<Seq<char>>, t: Seq<char>) -> bool {
    exists|i: int| 0 <= i < cur.len() && lowercase(#[trigger] cur[i]) == t
}

/// The stored form of a requested tag.
pub open spec fn normalized(tag: Seq<char>) -> Seq<char> {
    lowercase(trim(tag))
}

/// Adds one requested tag: nothing when blank or already present.
pub open spec fn add_one(cur: Seq<Seq<char>>, tag: Seq<char>) -> Seq<Seq<char>> {
    let t = normalized(tag);
    if t.len() == 0 || has_lower(cur, t) {
        cur
    } else {
        cur.push(t)
    }
}

/// Adds the requested tags in order.
pub open spec fn add_all(cur: Seq<Seq<char>>, tags: Seq<Seq<char>>) -> Seq<Seq<char>>
    decreases tags.len(),
{
    if tags.len() == 0 {
        cur
    } else {
        add_one(add_all(cur, tags.drop_last()), tags.last())
    }
}

/// The tag is named for removal (compared lowercased).
pub open spec fn removed_by(t: Seq<char>, remove: Seq<Seq<char>>) -> bool {
    exists|j: int| 0 <= j < remove.len() && lowercase(#[trigger] remove[j]) == lowercase(t)
}

/// The tags left after removing those named in `remove`, in order.
pub open spec fn remove_all(cur: Seq<Seq<char>>, remove: Seq<Seq<char>>) -> Seq<Seq<char>>
    decreases cur.len(),
{
    if cur.len() == 0 {
        seq![]
    } else if removed_by(cur.last(), remove) {
        remove_all(cur.drop_last(), remove)
    } else {
        remove_all(cur.drop_last(), remove).push(cur.last())
    }
}

proof fn lemma_add_all_grows(cur: Seq<Seq<char>>, tags: Seq<Seq<char>>)
    ensures
        add_all(cur, tags).len() >= cur.len(),
        add_all(cur, tags).take(cur.len() as int) == cur,
    decreases tags.len(),
{
    if tags.len() > 0 {
        lemma_add_all_grows(cur, tags.drop_last());
        let p = add_all(cur, tags.drop_last());
        assert(p.push(normalized(tags.last())).take(cur.len() as int) == p.take(cur.len() as int));
    }
}

proof fn lemma_remove_all_len(cur: Seq<Seq<char>>, remove: Seq<Seq<char>>)
    ensures
        remove_all(cur, remove).len() <= cur.len(),
    decreases cur.len(),
{
    if cur.len() > 0 {
        lemma_remove_all_len(cur.drop_last(), remove);
    }
}

/// Adding tags keeps the existing tags first and in place; every tag it
/// appends is the stored form of a requested tag, is not blank, and does
/// not match (lowercased) any tag before it; every non-blank requested tag
/// ends up present, as stored or lowercased.
pub proof fn law_add_tags(cur: Seq<Seq<char>>, tags: Seq<Seq<char>>)
    ensures
        add_all(cur, tags).take(cur.len() as int) == cur,
        forall|i: int|
            cur.len() <= i < add_all(cur, tags).len() ==> {
                &&& exists|j: int| 0 <= j < tags.len() && (#[trigger] add_all(cur, tags)[i]) == normalized(tags[j])
                &&& add_all(cur, tags)[i].len() > 0
                &&& !has_lower(add_all(cur, tags).take(i), add_all(cur, tags)[i])
            },
        forall|j: int|
            0 <= j < tags.len() && normalized(#[trigger] tags[j]).len() > 0 ==> exists|i: int|
                0 <= i < add_all(cur, tags).len() && (add_all(cur, tags)[i] == normalized(tags[j])
                    || lowercase(add_all(cur, tags)[i]) == normalized(tags[j])),
    decreases tags.len(),
{
    lemma_add_all_grows(cur, tags);
    if tags.len() > 0 {
        let pt = tags.drop_last();
        law_add_tags(cur, pt);
        let p = add_all(cur, pt);
        let r = add_all(cur, tags);
        let t = normalized(tags.last());
        assert(r == add_one(p, tags.last()));
        assert forall|i: int| cur.len() <= i < r.len() implies {
            &&& exists|j: int| 0 <= j < tags.len() && (#[trigger] r[i]) == normalized(tags[j])
            &&& r[i].len() > 0
            &&& !has_lower(r.take(i), r[i])
        } by {
            if i < p.len() {
                assert(r[i] == p[i]);
                assert(r.take(i) == p.take(i));
                let j = choose|j: int| 0 <= j < pt.len() && (#[trigger] p[i]) == normalized(pt[j]);
                assert(tags[j] == pt[j]);
            } else {
                assert(r == p.push(t));
                assert(r[i] == t);
                assert(r.take(i) == p);
                assert(tags[tags.len() - 1] == tags.last());
            }
        }
        assert forall|j: int| 0 <= j < tags.len() && normalized(#[trigger] tags[j]).len() > 0 implies exists|i: int|
            0 <= i < r.len() && (r[i] == normalized(tags[j]) || lowercase(r[i]) == normalized(tags[j])) by {
            if j < pt.len() {
                assert(pt[j] == tags[j]);
                let i = choose|i: int| 0 <= i < p.len() && (p[i] == normalized(pt[j]) || lowercase(p[i]) == normalized(pt[j]));
                if r != p {
                    assert(r == p.push(t));
                }
                assert(r[i] == p[i]);
            } else {
                assert(tags[j] == tags.last());
                if has_lower(p, t) {
                    let i = choose|i: int| 0 <= i < p.len() && lowercase(#[trigger] p[i]) == t;
                    assert(r[i] == p[i]);
                } else {
                    assert(r[p.len() as int] == t);
                }
            }
        }
    }
}

/// Adding the same tags a second time changes nothing, for requested tags
/// whose stored (lowercased) form lowercases to itself.
pub proof fn law_add_tags_repeat(cur: Seq<Seq<char>>, tags: Seq<Seq<char>>)
    requires
        forall|j: int| 0 <= j < tags.len() ==> lowercase(normalized(#[trigger] tags[j])) == normalized(tags[j]),
    ensures
        add_all(add_all(cur, tags), tags) == add_all(cur, tags),
{
    law_add_tags(cur, tags);
    let x = add_all(cur, tags);
    assert forall|j: int| 0 <= j < tags.len() && normalized(#[trigger] tags[j]).len() > 0 implies has_lower(x, normalized(tags[j])) by {
        let t = normalized(tags[j]);
        let i = choose|i: int| 0 <= i < x.len() && (x[i] == t || lowercase(x[i]) == t);
        assert(lowercase(x[i]) == t);
    }
    lemma_add_all_present(x, tags, tags.len() as int);
    assert(tags.take(tags.len() as int) == tags);
}

/// Adding tags each already present (or blank) leaves the list as it is.
proof fn lemma_add_all_present(x: Seq<Seq<char>>, tags: Seq<Seq<char>>, k: int)
    requires
        0 <= k <= tags.len(),
        forall|j: int| 0 <= j < tags.len() && normalized(#[trigger] tags[j]).len() > 0 ==> has_lower(x, normalized(tags[j])),
    ensures
        add_all(x, tags.take(k)) == x,
    decreases k,
{
    if k > 0 {
        lemma_add_all_present(x, tags, k - 1);
        let tk = tags.take(k);
        assert(tk.drop_last() == tags.take(k - 1));
        assert(tk.last() == tags[k - 1]);
    } else {
        assert(tags.take(0).len() == 0);
    }
}

/// A tag remains after removal exactly when it was there and is not named
/// for removal (compared lowercased); removal never lengthens the list.
pub proof fn law_remove_tags(cur: Seq<Seq<char>>, remove: Seq<Seq<char>>)
    ensures
        forall|x: Seq<char>| remove_all(cur, remove).contains(x) <==> (cur.contains(x) && !removed_by(x, remove)),
        remove_all(cur, remove).len() <= cur.len(),
    decreases cur.len(),
{
    lemma_remove_all_len(cur, remove);
    if cur.len() > 0 {
        law_remove_tags(cur.drop_last(), remove);
        let p = remove_all(cur.drop_last(), remove);
        assert forall|x: Seq<char>| remove_all(cur, remove).contains(x) <==> (cur.contains(x) && !removed_by(x, remove)) by {
            if cur.contains(x) {
                let i = choose|i: int| 0 <= i < cur.len() && cur[i] == x;
                if i < cur.len() - 1 {
                    assert(cur.drop_last()[i] == x);
                }
            }
            if cur.drop_last().contains(x) {
                let i = choose|i: int| 0 <= i < cur.drop_last().len() && cur.drop_last()[i] == x;
                assert(cur[i] == x);
            }
            assert(cur[cur.len() - 1] == cur.last());
            if !removed_by(cur.last(), remove) {
                let q = p.push(cur.last());
                if q.contains(x) {
                    let i = choose|i: int| 0 <= i < q.len() && q[i] == x;
                    if i < p.len() {
                        assert(p[i] == x);
                    }
                }
                if p.contains(x) {
                    let i = choose|i: int| 0 <= i < p.len() && p[i] == x;
                    assert(q[i] == x);
                }
                assert(q[p.len() as int] == cur.last());
            }
        }
    }
}

/// The test that keeps a tag when removing `remove`.
pub open spec fn kept_after(remove: Seq<Seq<char>>) -> spec_fn(Seq<char>) -> bool {
    |x: Seq<char>| !removed_by(x, remove)
}

/// Removing tags keeps the others in their order: the result is the old
/// list filtered by "not named for removal", so removing nothing leaves the
/// list as it was.
pub proof fn law_remove_keeps_order(cur: Seq<Seq<char>>, remove: Seq<Seq<char>>)
    ensures
        remove_all(cur, remove) == cur.filter(kept_after(remove)),
        (forall|i: int| 0 <= i < cur.len() ==> !removed_by(#[trigger] cur[i], remove))
            ==> remove_all(cur, remove) == cur,
    decreases cur.len(),
{
    reveal(Seq::filter);
    if cur.len() > 0 {
        law_remove_keeps_order(cur.drop_last(), remove);
        if forall|i: int| 0 <= i < cur.len() ==> !removed_by(#[trigger] cur[i], remove) {
            assert forall|i: int| 0 <= i < cur.drop_last().len() implies !removed_by(#[trigger] cur.drop_last()[i], remove) by {
                assert(cur.drop_last()[i] == cur[i]);
            }
            assert(!removed_by(cur[cur.len() - 1], remove));
            assert(cur.drop_last().push(cur.last()) == cur);
        }
    }
}

fn has_lower_exec(cur: &Vec<String>, t: &Vec<char>) -> (r: bool)
    ensures
        r == has_lower(string_views(cur@), t@),
{
    let mut i: usize = 0;
    while i < cur.len()
        invariant
            i <= cur.len(),
            forall|k: int| 0 <= k < i ==> lowercase(#[trigger] string_views(cur@)[k]) != t@,
        decreases cur.len() - i,
    {
        let c = chars_of(cur[i].as_str());
        let l = lowercase_chars(&c);
        if chars_eq(&l, t) {
            assert(string_views(cur@)[i as int] == cur@[i as int]@);
            return true;
        }
        i += 1;
    }
    false
}

/// Adds tags to a note's tags: each is trimmed and lowercased; blank ones
/// and ones already present (compared lowercased) are skipped. Returns
/// whether anything was added.
pub fn add_tags(tags: &mut Vec<String>, new_tags: &Vec<String>) -> (changed: bool)
    ensures
        string_views(final(tags)@) == add_all(string_views(old(tags)@), string_views(new_tags@)),
        changed == (final(tags)@.len() != old(tags)@.len()),
{
    let ghost start = string_views(tags@);
    let mut changed = false;
    assert(string_views(new_tags@).take(0) =~= seq![]);
    for i in 0..new_tags.len()
        invariant
            string_views(tags@) == add_all(start, string_views(new_tags@).take(i as int)),
            changed == (tags@.len() != start.len()),
            start.len() <= tags@.len(),
    {
        proof {
            let nv = string_views(new_tags@);
            assert(nv.take(i + 1).drop_last() == nv.take(i as int));
            assert(nv.take(i + 1).last() == new_tags@[i as int]@);
        }
        let c = chars_of(new_tags[i].as_str());
        let t = trim_chars(&c);
        let t = lowercase_chars(&t);
        if t.len() != 0 && !has_lower_exec(tags, &t) {
            let ghost before = tags@;
            tags.push(string_from(&t));
            assert(string_views(tags@) == string_views(before).push(t@));
            changed = true;
        }
    }
    assert(string_views(new_tags@).take(new_tags.len() as int) == string_views(new_tags@));
    changed
}

fn removed_by_exec(t: &Vec<char>, lower_remove: &Vec<Vec<char>>, remove: Ghost<Seq<Seq<char>>>) -> (r: bool)
    requires
        lower_remove@.len() == remove@.len(),
        forall|j: int| 0 <= j < remove@.len() ==> (#[trigger] lower_remove@[j])@ == lowercase(remove@[j]),
    ensures
        r == removed_by(t@, remove@),
{
    let l = lowercase_chars(t);
    let mut j: usize = 0;
    while j < lower_remove.len()
        invariant
            j <= lower_remove@.len(),
            l@ == lowercase(t@),
            lower_remove@.len() == remove@.len(),
            forall|k: int| 0 <= k < remove@.len() ==> (#[trigger] lower_remove@[k])@ == lowercase(remove@[k]),
            forall|k: int| 0 <= k < j ==> lowercase(#[trigger] remove@[k]) != lowercase(t@),
        decreases lower_remove.len() - j,
    {
        if chars_eq(&lower_remove[j], &l) {
            assert(lower_remove@[j as int]@ == lowercase(remove@[j as int]));
            return true;
        }
        j += 1;
    }
    false
}

/// Removes the tags named in `remove` (compared lowercased), keeping the
/// others in order. Returns how many were removed.
pub fn remove_tags(tags: &mut Vec<String>, remove: &Vec<String>) -> (removed: usize)
    ensures
        string_views(final(tags)@) == remove_all(string_views(old(tags)@), string_views(remove@)),
        removed == old(tags)@.len() - final(tags)@.len(),
{
    let ghost rm = string_views(remove@);
    let mut lower: Vec<Vec<char>> = Vec::new();
    for j in 0..remove.len()
        invariant
            lower@.len() == j,
            rm == string_views(remove@),
            forall|k: int| 0 <= k < j ==> (#[trigger] lower@[k])@ == lowercase(rm[k]),
    {
        let c = chars_of(remove[j].as_str());
        lower.push(lowercase_chars(&c));
    }
    let mut taken: Vec<String> = Vec::new();
    std::mem::swap(&mut taken, tags);
    let before = taken.len();
    let ghost all = string_views(taken@);
    let ghost src = taken@;
    let ghost mut n: int = 0;
    assert(all.take(0) =~= seq![]);
    assert(string_views(tags@) =~= seq![]);
    for t in it: taken.into_iter()
        invariant
            n == it.index(),
            it.seq() == src,
            all == string_views(src),
            before == src.len(),
            lower@.len() == rm.len(),
            forall|k: int| 0 <= k < rm.len() ==> (#[trigger] lower@[k])@ == lowercase(rm[k]),
            string_views(tags@) == remove_all(all.take(n), rm),
    {
        proof {
            assert(all.take(n + 1).drop_last() == all.take(n));
            assert(all.take(n + 1).last() == t@);
        }
        let c = chars_of(t.as_str());
        if !removed_by_exec(&c, &lower, Ghost(rm)) {
            let ghost prev = tags@;
            tags.push(t);
            assert(string_views(tags@) == string_views(prev).push(c@));
        }
        proof {
            n = n + 1;
        }
    }
    proof {
        assert(all.take(n) == all);
        lemma_remove_all_len(all, rm);
    }
    before - tags.len()
}

pub open spec fn comma_sep() -> Seq<char> {
    seq![',', ' ']
}

/// Joins strings with `, `.
pub fn join_comma(items: &Vec<String>) -> (r: String)
    ensures
        r@ == join(string_views(items@), comma_sep()),
{
    let mut r = String::new();
    assert(string_views(items@).take(0) =~= seq![]);
    for i in 0..items.len()
        invariant
            r@ == join(string_views(items@).take(i as int), comma_sep()),
    {
        proof {
            let v = string_views(items@);
            assert(v.take(i + 1) == v.take(i as int).push(v[i as int]));
            crate::text::lemma_join_push(v.take(i as int), v[i as int], comma_sep());
        }
        if i > 0 {
            push_char(&mut r, ',');
            push_char(&mut r, ' ');
        }
        push_str(&mut r, items[i].as_str());
    }
    assert(string_views(items@).take(items.len() as int) == string_views(items@));
    r
}

/// The message after `nota tag add`.
pub open spec fn tag_add_message_spec(id: Seq<char>, tags: Seq<Seq<char>>, changed: bool) -> Seq<char> {
    if changed {
        "Tagged note "@ + id + " with: "@ + join(tags, comma_sep())
    } else {
        "No new tags added (already present)."@
    }
}

/// The message reported after adding tags.
pub fn tag_add_message(id: &str, tags: &Vec<String>, changed: bool) -> (r: String)
    ensures
        r@ == tag_add_message_spec(id@, string_views(tags@), changed),
{
    if changed {
        let mut r = String::from_str("Tagged note ");
        push_str(&mut r, id);
        push_str(&mut r, " with: ");
        let j = join_comma(tags);
        push_str(&mut r, j.as_str());
        r
    } else {
        String::from_str("No new tags added (already present).")
    }
}

/// The message after `nota tag rm`.
pub open spec fn tag_remove_message_spec(removed: nat, tags: Seq<Seq<char>>) -> Seq<char> {
    if removed > 0 {
        "Removed "@ + decimal(removed) + " tag(s). Remaining: "@ + if tags.len() == 0 {
            "none"@
        } else {
            join(tags, comma_sep())
        }
    } else {
        "No matching tags found."@
    }
}

/// The message reported after removing tags.
pub fn tag_remove_message(removed: usize, tags: &Vec<String>) -> (r: String)
    ensures
        r@ == tag_remove_message_spec(removed as nat, string_views(tags@)),
{
    if removed > 0 {
        let mut r = String::from_str("Removed ");
        let d = decimal_chars(removed as u64);
        push_chars(&mut r, &d);
        push_str(&mut r, " tag(s). Remaining: ");
        if tags.len() == 0 {
            push_str(&mut r, "none");
        } else {
            let j = join_comma(tags);
            push_str(&mut r, j.as_str());
        }
        r
    } else {
        String::from_str("No matching tags found.")
    }
}

} // verus!
