//! Reachability over a finite set of directed links, and transitive reduction.
//!
//! A link `(u, v)` reads "u depends on v".

use vstd::prelude::*;

verus! {

/// Step `i` of `p` follows a link.
pub open spec fn step(links: Set<(int, int)>, p: Seq<int>, i: int) -> bool {
    links.contains((p[i], p[i + 1]))
}

/// `p` is a non-empty walk along the links.
pub open spec fn is_path(links: Set<(int, int)>, p: Seq<int>) -> bool {
    &&& p.len() > 0
    &&& forall|i: int| 0 <= i < p.len() - 1 ==> #[trigger] step(links, p, i)
}

/// There is a walk, possibly of no steps, from `u` to `v`.
pub open spec fn reaches(links: Set<(int, int)>, u: int, v: int) -> bool {
    exists|p: Seq<int>| #[trigger] is_path(links, p) && p[0] == u && p.last() == v
}

/// `x` reaches itself in one step or more.
pub open spec fn on_cycle(links: Set<(int, int)>, x: int) -> bool {
    exists|w: int| #[trigger] links.contains((x, w)) && reaches(links, w, x)
}

/// No node lies on a cycle.
pub open spec fn acyclic(links: Set<(int, int)>) -> bool {
    forall|x: int| !#[trigger] on_cycle(links, x)
}

/// Every link joins two of the nodes `0..n`.
pub open spec fn links_within(links: Set<(int, int)>, n: int) -> bool {
    forall|u: int, v: int| #[trigger] links.contains((u, v)) ==> 0 <= u < n && 0 <= v < n
}

/// `v` is reached from `u` through a first step that is not the link `(u, v)` itself.
pub open spec fn has_detour(links: Set<(int, int)>, u: int, v: int) -> bool {
    exists|w: int| w != v && #[trigger] links.contains((u, w)) && reaches(links, w, v)
}

/// The links that have no detour.
pub open spec fn reduced(links: Set<(int, int)>) -> Set<(int, int)> {
    links.filter(|l: (int, int)| !has_detour(links, l.0, l.1))
}

/// `order` lists the nodes `0..n` once each, the source of every link before its target.
pub open spec fn is_topological(links: Set<(int, int)>, n: int, order: Seq<int>) -> bool {
    &&& order.len() == n
    &&& order.no_duplicates()
    &&& forall|x: int| 0 <= x < n <==> #[trigger] order.contains(x)
    &&& forall|i: int, j: int|
        0 <= i < order.len() && 0 <= j < order.len() && #[trigger] links.contains(
            (order[i], order[j]),
        ) ==> i < j
}

pub(crate) proof fn reaches_self(links: Set<(int, int)>, u: int)
    ensures
        reaches(links, u, u),
{
    assert(is_path(links, seq![u]));
}

pub(crate) proof fn link_reaches(links: Set<(int, int)>, u: int, v: int)
    requires
        links.contains((u, v)),
    ensures
        reaches(links, u, v),
{
    let p = seq![u, v];
    assert(step(links, p, 0));
    assert(is_path(links, p));
}

pub(crate) proof fn reaches_join(links: Set<(int, int)>, u: int, v: int, w: int)
    requires
        reaches(links, u, v),
        reaches(links, v, w),
    ensures
        reaches(links, u, w),
{
    let p = choose|p: Seq<int>| #[trigger] is_path(links, p) && p[0] == u && p.last() == v;
    let q = choose|q: Seq<int>| #[trigger] is_path(links, q) && q[0] == v && q.last() == w;
    let r = p + q.skip(1);
    assert forall|i: int| 0 <= i < r.len() - 1 implies #[trigger] step(links, r, i) by {
        if i < p.len() - 1 {
            assert(step(links, p, i));
        } else {
            assert(step(links, q, i - (p.len() - 1)));
        }
    }
    assert(is_path(links, r));
    assert(r.last() == w);
}

/// A walk to another node has a first step.
pub(crate) proof fn first_step(links: Set<(int, int)>, u: int, v: int) -> (w: int)
    requires
        reaches(links, u, v),
        u != v,
    ensures
        links.contains((u, w)),
        reaches(links, w, v),
{
    let p = choose|p: Seq<int>| #[trigger] is_path(links, p) && p[0] == u && p.last() == v;
    assert(p.len() > 1);
    assert(step(links, p, 0));
    let q = p.skip(1);
    assert forall|i: int| 0 <= i < q.len() - 1 implies #[trigger] step(links, q, i) by {
        assert(step(links, p, i + 1));
    }
    assert(is_path(links, q));
    p[1]
}

/// A set of nodes that holds `u` and the target of every link from a member holds all that `u`
/// reaches.
pub(crate) proof fn closed_set_holds_reached(links: Set<(int, int)>, s: Set<int>, u: int, v: int)
    requires
        s.contains(u),
        reaches(links, u, v),
        forall|a: int, b: int| s.contains(a) && #[trigger] links.contains((a, b)) ==> s.contains(b),
    ensures
        s.contains(v),
{
    let p = choose|p: Seq<int>| #[trigger] is_path(links, p) && p[0] == u && p.last() == v;
    closed_set_holds_walk(links, s, p, p.len() - 1);
}

proof fn closed_set_holds_walk(links: Set<(int, int)>, s: Set<int>, p: Seq<int>, k: int)
    requires
        is_path(links, p),
        s.contains(p[0]),
        0 <= k < p.len(),
        forall|a: int, b: int| s.contains(a) && #[trigger] links.contains((a, b)) ==> s.contains(b),
    ensures
        s.contains(p[k]),
    decreases k,
{
    if k > 0 {
        closed_set_holds_walk(links, s, p, k - 1);
        assert(step(links, p, k - 1));
    }
}

/// The links turned round.
pub open spec fn turned(links: Set<(int, int)>) -> Set<(int, int)> {
    Set::new(|l: (int, int)| links.contains((l.1, l.0)))
}

/// Walks along the turned links are the walks backwards.
pub(crate) proof fn turned_reaches(links: Set<(int, int)>, u: int, v: int)
    requires
        reaches(links, u, v),
    ensures
        reaches(turned(links), v, u),
{
    let p = choose|p: Seq<int>| #[trigger] is_path(links, p) && p[0] == u && p.last() == v;
    let q = p.reverse();
    assert forall|i: int| 0 <= i < q.len() - 1 implies #[trigger] step(turned(links), q, i) by {
        assert(step(links, p, p.len() - 2 - i));
    }
    assert(is_path(turned(links), q));
}

/// Links that admit a topological order have no cycle.
pub proof fn topological_is_acyclic(links: Set<(int, int)>, n: int, order: Seq<int>)
    requires
        links_within(links, n),
        is_topological(links, n, order),
    ensures
        acyclic(links),
{
    assert forall|x: int| !#[trigger] on_cycle(links, x) by {
        if on_cycle(links, x) {
            let w = choose|w: int| #[trigger] links.contains((x, w)) && reaches(links, w, x);
            assert(order.contains(x) && order.contains(w));
            let i = order.index_of(x);
            let j = order.index_of(w);
            assert(links.contains((order[i], order[j])));
            topological_reaches_forward(links, n, order, j, i);
        }
    }
}

/// In a topological order a node stands no later than anything that it reaches.
pub(crate) proof fn topological_reaches_forward(
    links: Set<(int, int)>,
    n: int,
    order: Seq<int>,
    i: int,
    j: int,
)
    requires
        links_within(links, n),
        is_topological(links, n, order),
        0 <= i < n,
        0 <= j < n,
        reaches(links, order[i], order[j]),
    ensures
        i <= j,
{
    let s = Set::new(|x: int| exists|k: int| i <= k < n && #[trigger] order[k] == x);
    assert(s.contains(order[i]));
    assert forall|a: int, b: int| s.contains(a) && #[trigger] links.contains((a, b)) implies s.contains(
        b,
    ) by {
        let k = choose|k: int| i <= k < n && #[trigger] order[k] == a;
        assert(order.contains(b));
        let m = order.index_of(b);
        assert(links.contains((order[k], order[m])));
        assert(order[m] == b);
    }
    closed_set_holds_reached(links, s, order[i], order[j]);
    let k = choose|k: int| i <= k < n && #[trigger] order[k] == order[j];
    assert(k == j);
}

// ── Transitive reduction ─────────────────────────────────────────────────────

/// The nodes of `0..n` that `u` reaches.
spec fn reach_set(links: Set<(int, int)>, n: int, u: int) -> Set<int> {
    vstd::set_lib::set_int_range(0, n).filter(|x: int| reaches(links, u, x))
}

/// Along a link of an acyclic graph fewer nodes are reached.
proof fn reach_set_shrinks(links: Set<(int, int)>, n: int, u: int, v: int)
    requires
        links_within(links, n),
        acyclic(links),
        links.contains((u, v)),
    ensures
        reach_set(links, n, v).len() < reach_set(links, n, u).len(),
{
    let a = reach_set(links, n, u);
    let b = reach_set(links, n, v);
    vstd::set_lib::lemma_int_range(0, n);
    reaches_self(links, u);
    assert(!on_cycle(links, u));
    assert(a.contains(u) && !b.contains(u));
    assert(b.subset_of(a.remove(u))) by {
        assert forall|x: int| b.contains(x) implies a.remove(u).contains(x) by {
            link_reaches(links, u, v);
            reaches_join(links, u, v, x);
        }
    }
    vstd::set_lib::lemma_len_subset(b, a.remove(u));
}

/// A link of an acyclic graph is a walk along the reduced links.
proof fn reduced_covers_link(links: Set<(int, int)>, n: int, u: int, v: int)
    requires
        links_within(links, n),
        acyclic(links),
        links.contains((u, v)),
    ensures
        reaches(reduced(links), u, v),
    decreases reach_set(links, n, u).len() - reach_set(links, n, v).len(), 1nat,
{
    reach_set_shrinks(links, n, u, v);
    if has_detour(links, u, v) {
        let w = choose|w: int| w != v && #[trigger] links.contains((u, w)) && reaches(links, w, v);
        reach_set_shrinks(links, n, u, w);
        let x = first_step(links, w, v);
        reach_set_shrinks(links, n, w, x);
        reach_set_falls(links, n, x, v);
        reduced_covers_link(links, n, u, w);
        reduced_covers_walk(links, n, w, v);
        reaches_join(reduced(links), u, w, v);
    } else {
        assert(reduced(links).contains((u, v)));
        link_reaches(reduced(links), u, v);
    }
}

/// Along a walk no more nodes are reached.
proof fn reach_set_falls(links: Set<(int, int)>, n: int, u: int, v: int)
    requires
        links_within(links, n),
        0 <= u < n,
        reaches(links, u, v),
    ensures
        reach_set(links, n, v).len() <= reach_set(links, n, u).len(),
{
    let a = reach_set(links, n, u);
    let b = reach_set(links, n, v);
    vstd::set_lib::lemma_int_range(0, n);
    assert(b.subset_of(a)) by {
        assert forall|x: int| b.contains(x) implies a.contains(x) by {
            reaches_join(links, u, v, x);
        }
    }
    vstd::set_lib::lemma_len_subset(b, a);
}

/// A walk in an acyclic graph is a walk along the reduced links.
proof fn reduced_covers_walk(links: Set<(int, int)>, n: int, u: int, v: int)
    requires
        links_within(links, n),
        acyclic(links),
        0 <= u < n,
        reaches(links, u, v),
    ensures
        reaches(reduced(links), u, v),
    decreases reach_set(links, n, u).len() - reach_set(links, n, v).len(), 2nat,
{
    if u == v {
        reaches_self(reduced(links), u);
    } else {
        let w = first_step(links, u, v);
        reach_set_shrinks(links, n, u, w);
        reach_set_falls(links, n, w, v);
        if w == v {
            reduced_covers_link(links, n, u, v);
        } else {
            reduced_covers_walk(links, n, w, v);
            let x = first_step(links, w, v);
            reach_set_shrinks(links, n, w, x);
            reach_set_falls(links, n, x, v);
            reduced_covers_link(links, n, u, w);
            reaches_join(reduced(links), u, w, v);
        }
    }
}

/// Walks along some of the links are walks along all of them.
pub(crate) proof fn fewer_links_reach_no_more(few: Set<(int, int)>, links: Set<(int, int)>, u: int, v: int)
    requires
        few.subset_of(links),
        reaches(few, u, v),
    ensures
        reaches(links, u, v),
{
    let p = choose|p: Seq<int>| #[trigger] is_path(few, p) && p[0] == u && p.last() == v;
    assert forall|i: int| 0 <= i < p.len() - 1 implies #[trigger] step(links, p, i) by {
        assert(step(few, p, i));
    }
    assert(is_path(links, p));
}

/// Reducing the links of an acyclic graph leaves reachability as it was.
pub proof fn reduction_keeps_reachability(links: Set<(int, int)>, n: int, u: int, v: int)
    requires
        links_within(links, n),
        acyclic(links),
    ensures
        reaches(reduced(links), u, v) <==> reaches(links, u, v),
{
    if reaches(reduced(links), u, v) {
        fewer_links_reach_no_more(reduced(links), links, u, v);
    }
    if reaches(links, u, v) {
        if u == v {
            reaches_self(reduced(links), u);
        } else {
            let w = first_step(links, u, v);
            reduced_covers_walk(links, n, u, v);
        }
    }
}

/// The reduced links of an acyclic graph are acyclic and have no detour left, so a second
/// reduction removes nothing.
pub proof fn reduction_is_complete(links: Set<(int, int)>, n: int)
    requires
        links_within(links, n),
        acyclic(links),
    ensures
        acyclic(reduced(links)),
        forall|u: int, v: int|
            #[trigger] reduced(links).contains((u, v)) ==> !has_detour(reduced(links), u, v),
        reduced(reduced(links)) == reduced(links),
{
    let few = reduced(links);
    assert forall|x: int| !#[trigger] on_cycle(few, x) by {
        if on_cycle(few, x) {
            let w = choose|w: int| #[trigger] few.contains((x, w)) && reaches(few, w, x);
            assert(links.contains((x, w)));
            fewer_links_reach_no_more(few, links, w, x);
            assert(on_cycle(links, x));
        }
    }
    assert forall|u: int, v: int| #[trigger] few.contains((u, v)) implies !has_detour(few, u, v) by {
        if has_detour(few, u, v) {
            let w = choose|w: int| w != v && #[trigger] few.contains((u, w)) && reaches(few, w, v);
            assert(links.contains((u, w)));
            fewer_links_reach_no_more(few, links, w, v);
            assert(has_detour(links, u, v));
        }
    }
    assert forall|l: (int, int)| few.contains(l) implies reduced(few).contains(l) by {
        assert(few.contains((l.0, l.1)));
    }
    assert(reduced(few) =~= few);
}

/// No smaller set of links of an acyclic graph reaches the same: each reduced link is the only
/// walk between its ends.
pub proof fn reduction_is_minimal(links: Set<(int, int)>, n: int, u: int, v: int)
    requires
        links_within(links, n),
        acyclic(links),
        reduced(links).contains((u, v)),
    ensures
        !reaches(reduced(links).remove((u, v)), u, v),
{
    let few = reduced(links);
    let fewer = few.remove((u, v));
    if reaches(fewer, u, v) {
        if u == v {
            reaches_self(links, u);
            assert(on_cycle(links, u));
        } else {
            let w = first_step(fewer, u, v);
            fewer_links_reach_no_more(fewer, links, w, v);
            assert(links.contains((u, w)));
            assert(has_detour(links, u, v));
        }
    }
}

} // verus!
