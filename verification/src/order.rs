//! Texts in order: character by character, as Unicode numbers them.

use vstd::prelude::*;
use vstd::relations::sorted_by;

use crate::text::{characters, texts};

verus! {

/// `a` stands no later than `b` in a dictionary that orders characters by their number.
pub open spec fn text_le(a: Seq<char>, b: Seq<char>) -> bool
    decreases a.len(),
{
    ||| a.len() == 0
    ||| b.len() > 0 && (a[0] < b[0] || (a[0] == b[0] && text_le(a.skip(1), b.skip(1))))
}

/// No text stands before one that it is later than.
pub open spec fn is_sorted(s: Seq<Seq<char>>) -> bool {
    forall|i: int, j: int| 0 <= i <= j < s.len() ==> text_le(#[trigger] s[i], #[trigger] s[j])
}

/// A text stands no later than itself.
pub proof fn text_le_itself(a: Seq<char>)
    ensures
        text_le(a, a),
    decreases a.len(),
{
    if a.len() > 0 {
        text_le_itself(a.skip(1));
    }
}

/// Of two texts, one stands no later than the other.
pub proof fn text_le_either(a: Seq<char>, b: Seq<char>)
    ensures
        text_le(a, b) || text_le(b, a),
    decreases a.len(),
{
    if a.len() > 0 && b.len() > 0 {
        text_le_either(a.skip(1), b.skip(1));
    }
}

/// The order goes on from text to text.
pub proof fn text_le_joins(a: Seq<char>, b: Seq<char>, c: Seq<char>)
    requires
        text_le(a, b),
        text_le(b, c),
    ensures
        text_le(a, c),
    decreases a.len(),
{
    if a.len() > 0 && a[0] == b[0] && b[0] == c[0] {
        text_le_joins(a.skip(1), b.skip(1), c.skip(1));
    }
}

/// Two texts of which neither stands later than the other are the same.
pub proof fn text_le_both_ways(a: Seq<char>, b: Seq<char>)
    requires
        text_le(a, b),
        text_le(b, a),
    ensures
        a == b,
    decreases a.len(),
{
    if a.len() > 0 {
        text_le_both_ways(a.skip(1), b.skip(1));
        assert(a =~= seq![a[0]] + a.skip(1));
        assert(b =~= seq![b[0]] + b.skip(1));
    } else {
        assert(a =~= b);
    }
}

/// Sorted lists that hold the same texts equally often are the same.
pub proof fn sorted_lists_agree(s: Seq<Seq<char>>, t: Seq<Seq<char>>)
    requires
        is_sorted(s),
        is_sorted(t),
        s.to_multiset() == t.to_multiset(),
    ensures
        s == t,
{
    let leq = |a: Seq<char>, b: Seq<char>| text_le(a, b);
    assert forall|a: Seq<char>| #[trigger] leq(a, a) by {
        text_le_itself(a);
    }
    assert forall|a: Seq<char>, b: Seq<char>| #[trigger] leq(a, b) && #[trigger] leq(
        b,
        a,
    ) implies a == b by {
        text_le_both_ways(a, b);
    }
    assert forall|a: Seq<char>, b: Seq<char>, c: Seq<char>| #[trigger] leq(a, b)
        && #[trigger] leq(b, c) implies leq(a, c) by {
        text_le_joins(a, b, c);
    }
    assert forall|a: Seq<char>, b: Seq<char>| #[trigger] leq(a, b) || #[trigger] leq(b, a) by {
        text_le_either(a, b);
    }
    assert(sorted_by(s, leq));
    assert(sorted_by(t, leq));
    vstd::seq_lib::lemma_sorted_unique(s, t, leq);
}

/// Whether `a` stands no later than `b`.
fn at_most(a: &Vec<char>, b: &Vec<char>) -> (r: bool)
    ensures
        r == text_le(a@, b@),
{
    let mut i: usize = 0;
    assert(a@.skip(0) =~= a@ && b@.skip(0) =~= b@);
    while i < a.len() && i < b.len() && a[i] == b[i]
        invariant
            i <= a@.len(),
            i <= b@.len(),
            text_le(a@, b@) == text_le(a@.skip(i as int), b@.skip(i as int)),
        decreases a@.len() - i,
    {
        assert(a@.skip(i as int).skip(1) =~= a@.skip(i + 1));
        assert(b@.skip(i as int).skip(1) =~= b@.skip(i + 1));
        i += 1;
    }
    i == a.len() || (i < b.len() && a[i] < b[i])
}

/// Adding a text adds it to the multiset, wherever it is put.
proof fn multiset_of_insert(s: Seq<Seq<char>>, i: int, x: Seq<char>)
    requires
        0 <= i <= s.len(),
    ensures
        s.insert(i, x).to_multiset() == s.to_multiset().insert(x),
{
    let more = s.insert(i, x);
    s.to_multiset_ensures();
    more.to_multiset_ensures();
    assert(more.remove(i) =~= s);
    assert(more[i] == x);
    assert(more.contains(x));
    assert(more.to_multiset().remove(x).insert(x) =~= more.to_multiset());
}

/// Where `key` belongs in sorted keys.
fn place_for(keys: &Vec<Vec<char>>, key: &Vec<char>, Ghost(s): Ghost<Seq<Seq<char>>>) -> (at: usize)
    requires
        is_sorted(s),
        s.len() == keys@.len(),
        forall|i: int| 0 <= i < keys@.len() ==> (#[trigger] keys@[i])@ == s[i],
    ensures
        at <= s.len(),
        forall|i: int| 0 <= i < at ==> text_le(#[trigger] s[i], key@),
        forall|i: int| at <= i < s.len() ==> text_le(key@, #[trigger] s[i]),
{
    let mut lo: usize = 0;
    let mut hi: usize = keys.len();
    while lo < hi
        invariant
            lo <= hi <= keys@.len(),
            is_sorted(s),
            s.len() == keys@.len(),
            forall|i: int| 0 <= i < keys@.len() ==> (#[trigger] keys@[i])@ == s[i],
            forall|i: int| 0 <= i < lo ==> text_le(#[trigger] s[i], key@),
            forall|i: int| hi <= i < s.len() ==> text_le(key@, #[trigger] s[i]),
        decreases hi - lo,
    {
        let mid = lo + (hi - lo) / 2;
        assert(keys@[mid as int]@ == s[mid as int]);
        if at_most(&keys[mid], key) {
            assert forall|i: int| 0 <= i < mid + 1 implies text_le(#[trigger] s[i], key@) by {
                text_le_joins(s[i], s[mid as int], key@);
            }
            lo = mid + 1;
        } else {
            assert forall|i: int| mid <= i < s.len() implies text_le(key@, #[trigger] s[i]) by {
                text_le_either(key@, s[mid as int]);
                text_le_joins(key@, s[mid as int], s[i]);
            }
            hi = mid;
        }
    }
    lo
}

/// The texts in order.
pub fn sort_texts(list: Vec<String>) -> (sorted: Vec<String>)
    ensures
        is_sorted(texts(sorted@)),
        texts(sorted@).to_multiset() == texts(list@).to_multiset(),
{
    let mut keys: Vec<Vec<char>> = Vec::new();
    let mut sorted: Vec<String> = Vec::new();
    let ghost all = texts(list@);
    let mut k: usize = 0;
    assert(texts(sorted@) =~= all.take(0));
    while k < list.len()
        invariant
            k <= list@.len(),
            all == texts(list@),
            keys@.len() == sorted@.len(),
            forall|i: int|
                0 <= i < keys@.len() ==> (#[trigger] keys@[i])@ == texts(sorted@)[i],
            is_sorted(texts(sorted@)),
            texts(sorted@).to_multiset() == all.take(k as int).to_multiset(),
        decreases list@.len() - k,
    {
        let ghost before = texts(sorted@);
        let key = characters(list[k].as_str());
        let ghost x = key@;
        let at = place_for(&keys, &key, Ghost(before));
        sorted.insert(at, list[k].clone());
        keys.insert(at, key);
        proof {
            let after = texts(sorted@);
            assert(after =~= before.insert(at as int, x));
            multiset_of_insert(before, at as int, x);
            all.take(k as int).to_multiset_ensures();
            assert(all.take(k + 1) =~= all.take(k as int).push(all[k as int]));
            assert(all[k as int] == x);
            assert forall|i: int, j: int| 0 <= i <= j < after.len() implies text_le(
                #[trigger] after[i],
                #[trigger] after[j],
            ) by {
                text_le_itself(x);
            }
        }
        k += 1;
    }
    assert(all.take(k as int) =~= all);
    sorted
}

/// Two lists with the same texts, equally often, contain the same texts, and repeat one or none
/// together.
pub(crate) proof fn same_texts(s: Seq<Seq<char>>, t: Seq<Seq<char>>)
    requires
        s.to_multiset() == t.to_multiset(),
        s.no_duplicates(),
    ensures
        t.no_duplicates(),
        t.len() == s.len(),
        forall|a: Seq<char>| #[trigger] t.contains(a) <==> s.contains(a),
{
    s.to_multiset_ensures();
    t.to_multiset_ensures();
    s.lemma_multiset_has_no_duplicates();
    t.lemma_multiset_has_no_duplicates_conv();
    assert forall|a: Seq<char>| #[trigger] t.contains(a) <==> s.contains(a) by {
        assert(s.contains(a) <==> s.to_multiset().count(a) > 0);
        assert(t.contains(a) <==> t.to_multiset().count(a) > 0);
    }
}

/// What two lists hold together, one of them holds.
pub(crate) proof fn joined_holds<T>(a: Seq<T>, b: Seq<T>, x: T)
    ensures
        (a + b).contains(x) <==> a.contains(x) || b.contains(x),
{
    if a.contains(x) {
        let i = a.index_of(x);
        assert((a + b)[i] == x);
    }
    if b.contains(x) {
        let i = b.index_of(x);
        assert((a + b)[a.len() + i] == x);
    }
}

/// The order is that of a dictionary: a text stands before every longer one that starts with it, and
/// where two texts part, the lesser character comes first, whatever follows it.
pub proof fn texts_stand_as_in_a_dictionary(
    start: Seq<char>,
    x: char,
    a: Seq<char>,
    y: char,
    b: Seq<char>,
)
    ensures
        text_le(start, start + a),
        a.len() > 0 ==> !text_le(start + a, start),
        x < y ==> text_le(start + seq![x] + a, start + seq![y] + b),
        x < y ==> !text_le(start + seq![y] + b, start + seq![x] + a),
    decreases start.len(),
{
    let p = start + seq![x] + a;
    let q = start + seq![y] + b;
    if start.len() == 0 {
        assert(p[0] == x && q[0] == y);
    } else {
        let rest = start.skip(1);
        assert((start + a).skip(1) =~= rest + a);
        assert((start + a)[0] == start[0]);
        assert(p.skip(1) =~= rest + seq![x] + a);
        assert(q.skip(1) =~= rest + seq![y] + b);
        assert(p[0] == start[0] && q[0] == start[0]);
        texts_stand_as_in_a_dictionary(rest, x, a, y, b);
    }
}

} // verus!
