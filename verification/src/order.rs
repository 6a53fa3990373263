//! Lexicographic order on strings (by code point, which is also the byte
//! order of their UTF-8 encodings) and sorting by it.
use vstd::prelude::*;
use vstd::relations::{sorted_by, total_ordering};
use crate::text::{chars_of, string_views, views};

verus! {

/// `a <= b` in lexicographic code point order.
pub open spec fn seq_le(a: Seq<char>, b: Seq<char>) -> bool
    decreases a.len(),
{
    if a.len() == 0 {
        true
    } else if b.len() == 0 {
        false
    } else if a[0] < b[0] {
        true
    } else if a[0] > b[0] {
        false
    } else {
        seq_le(a.drop_first(), b.drop_first())
    }
}

pub open spec fn le_fn() -> spec_fn(Seq<char>, Seq<char>) -> bool {
    |a: Seq<char>, b: Seq<char>| seq_le(a, b)
}

/// The ascending sort of a sequence of strings.
pub open spec fn sorted_strings(s: Seq<Seq<char>>) -> Seq<Seq<char>> {
    s.sort_by(le_fn())
}

pub proof fn lemma_le_refl(a: Seq<char>)
    ensures
        seq_le(a, a),
    decreases a.len(),
{
    if a.len() > 0 {
        lemma_le_refl(a.drop_first());
    }
}

pub proof fn lemma_le_antisym(a: Seq<char>, b: Seq<char>)
    requires
        seq_le(a, b),
        seq_le(b, a),
    ensures
        a == b,
    decreases a.len(),
{
    if a.len() > 0 && b.len() > 0 {
        lemma_le_antisym(a.drop_first(), b.drop_first());
        assert(a[0] == b[0]);
        assert(a =~= seq![a[0]] + a.drop_first());
        assert(b =~= seq![b[0]] + b.drop_first());
    }
}

pub proof fn lemma_le_trans(a: Seq<char>, b: Seq<char>, c: Seq<char>)
    requires
        seq_le(a, b),
        seq_le(b, c),
    ensures
        seq_le(a, c),
    decreases a.len(),
{
    if a.len() > 0 && b.len() > 0 && c.len() > 0 {
        if a[0] == b[0] && b[0] == c[0] {
            lemma_le_trans(a.drop_first(), b.drop_first(), c.drop_first());
        }
    }
}

pub proof fn lemma_le_total(a: Seq<char>, b: Seq<char>)
    ensures
        seq_le(a, b) || seq_le(b, a),
    decreases a.len(),
{
    if a.len() > 0 && b.len() > 0 {
        lemma_le_total(a.drop_first(), b.drop_first());
    }
}

pub proof fn lemma_le_total_ordering()
    ensures
        total_ordering(le_fn()),
{
    assert forall|x: Seq<char>| #[trigger] le_fn()(x, x) by {
        lemma_le_refl(x);
    }
    assert forall|x: Seq<char>, y: Seq<char>| #[trigger] le_fn()(x, y) && #[trigger] le_fn()(
        y,
        x,
    ) implies x == y by {
        lemma_le_antisym(x, y);
    }
    assert forall|x: Seq<char>, y: Seq<char>, z: Seq<char>| #[trigger] le_fn()(x, y)
        && #[trigger] le_fn()(y, z) implies le_fn()(x, z) by {
        lemma_le_trans(x, y, z);
    }
    assert forall|x: Seq<char>, y: Seq<char>| #[trigger] le_fn()(x, y) || #[trigger] le_fn()(
        y,
        x,
    ) by {
        lemma_le_total(x, y);
    }
}

/// A sorted sequence with the same elements as `s` is its sort.
pub proof fn lemma_is_sorted_strings(s: Seq<Seq<char>>, t: Seq<Seq<char>>)
    requires
        sorted_by(t, le_fn()),
        t.to_multiset() == s.to_multiset(),
    ensures
        t == sorted_strings(s),
{
    lemma_le_total_ordering();
    s.lemma_sort_by_ensures(le_fn());
    vstd::seq_lib::lemma_sorted_unique(t, sorted_strings(s), le_fn());
}

/// Lexicographic comparison of two character sequences.
pub fn chars_le(a: &Vec<char>, b: &Vec<char>) -> (r: bool)
    ensures
        r == seq_le(a@, b@),
{
    let mut i: usize = 0;
    assert(a@.skip(0) == a@ && b@.skip(0) == b@);
    while i < a.len() && i < b.len() && a[i] == b[i]
        invariant
            i <= a.len(),
            i <= b.len(),
            seq_le(a@, b@) == seq_le(a@.skip(i as int), b@.skip(i as int)),
        decreases a.len() - i,
    {
        proof {
            let x = a@.skip(i as int);
            let y = b@.skip(i as int);
            assert(x.drop_first() == a@.skip(i + 1));
            assert(y.drop_first() == b@.skip(i + 1));
        }
        i += 1;
    }
    if i == a.len() {
        true
    } else if i == b.len() {
        false
    } else {
        a[i] < b[i]
    }
}

/// Sorts strings ascending by code point order.
pub fn sort_strings(v: Vec<String>) -> (r: Vec<String>)
    ensures
        string_views(r@) == sorted_strings(string_views(v@)),
        r@.len() == v@.len(),
{
    let ghost all = v@;
    let mut r: Vec<String> = Vec::new();
    let mut keys: Vec<Vec<char>> = Vec::new();
    let ghost mut n: int = 0;
    proof {
        lemma_le_total_ordering();
        assert(string_views(all.take(0)) =~= seq![]);
        assert(string_views(r@) =~= seq![]);
    }
    for s in it: v.into_iter()
        invariant
            n == it.index(),
            it.seq() == all,
            views(keys@) == string_views(r@),
            keys@.len() == r@.len(),
            sorted_by(string_views(r@), le_fn()),
            string_views(r@).to_multiset() == string_views(all.take(n)).to_multiset(),
            total_ordering(le_fn()),
    {
        let k = chars_of(s.as_str());
        let mut pos: usize = 0;
        while pos < keys.len() && chars_le(&keys[pos], &k)
            invariant
                pos <= keys.len(),
                forall|j: int| 0 <= j < pos ==> seq_le(#[trigger] views(keys@)[j], k@),
            decreases keys.len() - pos,
        {
            pos += 1;
        }
        let ghost old_views = string_views(r@);
        proof {
            assert forall|j: int| pos <= j < old_views.len() implies seq_le(
                k@,
                #[trigger] old_views[j],
            ) by {
                lemma_le_total(k@, old_views[pos as int]);
                if pos < old_views.len() {
                    assert(!seq_le(old_views[pos as int], k@));
                    assert(le_fn()(old_views[pos as int], old_views[j]));
                    lemma_le_trans(k@, old_views[pos as int], old_views[j]);
                }
            }
        }
        r.insert(pos, s);
        keys.insert(pos, k);
        proof {
            let nv = string_views(r@);
            assert(nv =~= old_views.insert(pos as int, k@));
            assert(views(keys@) =~= nv);
            vstd::seq_lib::to_multiset_insert(old_views, pos as int, k@);
            assert(string_views(all.take(n + 1)) =~= string_views(all.take(n)).push(k@));
            vstd::seq_lib::to_multiset_build(string_views(all.take(n)), k@);
            assert forall|i: int, j: int| 0 <= i < j < nv.len() implies #[trigger] le_fn()(
                nv[i],
                nv[j],
            ) by {
                if j < pos {
                    assert(le_fn()(old_views[i], old_views[j]));
                } else if j == pos {
                } else if i < pos {
                    assert(seq_le(old_views[i], k@));
                    assert(seq_le(k@, old_views[j - 1]));
                    lemma_le_trans(old_views[i], k@, old_views[j - 1]);
                } else if i == pos {
                } else {
                    assert(le_fn()(old_views[i - 1], old_views[j - 1]));
                }
            }
        }
        proof {
            n = n + 1;
        }
    }
    proof {
        assert(all.take(n) == all);
        lemma_is_sorted_strings(string_views(all), string_views(r@));
        vstd::seq_lib::to_multiset_len(string_views(all));
        vstd::seq_lib::to_multiset_len(string_views(r@));
    }
    r
}

} // verus!
