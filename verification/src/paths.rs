//! The mathematical model of the network: paths, their durations, longest
//! paths, and topological position witnesses for acyclicity.

use vstd::prelude::*;
use vstd::seq_lib::*;
use vstd::set_lib::*;

verus! {

/// A sequence of pairwise-distinct integers drawn from `[0, k)` cannot be
/// longer than `k`.
pub proof fn lemma_injective_bound(s: Seq<int>, k: int)
    requires
        forall|i: int, j: int| 0 <= i < j < s.len() ==> s[i] != s[j],
        forall|i: int| 0 <= i < s.len() ==> 0 <= #[trigger] s[i] < k,
        0 <= k,
    ensures
        s.len() <= k,
{
    assert(s.no_duplicates());
    s.unique_seq_to_set();
    lemma_int_range(0, k);
    assert(s.to_set().subset_of(set_int_range(0, k)));
    lemma_len_subset(s.to_set(), set_int_range(0, k));
}

/// A sequence of `n` pairwise-distinct values drawn from `[0, n)` hits every
/// value of `[0, n)`.
pub proof fn lemma_perm_covers(order: Seq<usize>, n: int, v: int)
    requires
        order.len() == n,
        forall|i: int| 0 <= i < n ==> (#[trigger] order[i]) < n,
        forall|i: int, j: int| 0 <= i < j < n ==> order[i] != order[j],
        0 <= v < n,
    ensures
        exists|i: int| 0 <= i < n && (#[trigger] order[i]) == v,
{
    if forall|i: int| 0 <= i < n ==> (#[trigger] order[i]) != v {
        let t = Seq::new(
            n as nat,
            |i: int| if order[i] < v { order[i] as int } else { order[i] - 1 },
        );
        assert forall|i: int, j: int| 0 <= i < j < t.len() implies t[i] != t[j] by {
            assert(order[i] != order[j]);
        };
        lemma_injective_bound(t, n - 1);
    }
}

/// One dependency arc of the network: a task's endpoints and duration, as
/// plain indices into the node list.
#[derive(Clone, Copy)]
pub struct Edge {
    pub from: usize,
    pub to: usize,
    pub duration: u32,
}

/// Some task enters node `v`.
pub open spec fn has_incoming(es: Seq<Edge>, v: int) -> bool {
    exists|j: int| 0 <= j < es.len() && (#[trigger] es[j]).to == v
}

/// Some task leaves node `v`.
pub open spec fn has_outgoing(es: Seq<Edge>, v: int) -> bool {
    exists|j: int| 0 <= j < es.len() && (#[trigger] es[j]).from == v
}

/// `v` is the network's unique node without incoming tasks.
pub open spec fn is_start_node(es: Seq<Edge>, n: int, v: int) -> bool {
    &&& 0 <= v < n
    &&& !has_incoming(es, v)
    &&& forall|w: int| 0 <= w < n && w != v ==> has_incoming(es, w)
}

/// `v` is the network's unique node without outgoing tasks.
pub open spec fn is_end_node(es: Seq<Edge>, n: int, v: int) -> bool {
    &&& 0 <= v < n
    &&& !has_outgoing(es, v)
    &&& forall|w: int| 0 <= w < n && w != v ==> has_outgoing(es, w)
}

/// Every edge connects nodes that exist.
pub open spec fn edges_wf(es: Seq<Edge>, n: int) -> bool {
    forall|j: int| 0 <= j < es.len() ==> (#[trigger] es[j]).from < n && es[j].to < n
}

/// `p`, a sequence of edge indices, forms a path from node `a` to node `b`,
/// each edge leaving the node the previous one entered.
pub open spec fn is_path(es: Seq<Edge>, p: Seq<int>, a: int, b: int) -> bool
    decreases p.len(),
{
    if p.len() == 0 {
        a == b
    } else {
        &&& 0 <= p[0] < es.len()
        &&& es[p[0]].from == a
        &&& is_path(es, p.drop_first(), es[p[0]].to as int, b)
    }
}

/// The summed duration of the tasks along `p`.
pub open spec fn path_duration(es: Seq<Edge>, p: Seq<int>) -> int
    decreases p.len(),
{
    if p.len() == 0 {
        0
    } else {
        es[p[0]].duration + path_duration(es, p.drop_first())
    }
}

/// `t` is the duration of a longest path from `a` to `b`.
pub open spec fn is_longest(es: Seq<Edge>, a: int, b: int, t: int) -> bool {
    &&& exists|p: Seq<int>| #[trigger] is_path(es, p, a, b) && path_duration(es, p) == t
    &&& forall|p: Seq<int>| #[trigger] is_path(es, p, a, b) ==> path_duration(es, p) <= t
}

/// `t` is the latest-occurrence time of `v`: the minimum, over all paths from
/// `v` to `end`, of the project duration `total` less the path's duration.
pub open spec fn is_latest(es: Seq<Edge>, v: int, end: int, total: int, t: int) -> bool {
    &&& exists|p: Seq<int>| #[trigger] is_path(es, p, v, end) && t == total - path_duration(es, p)
    &&& forall|p: Seq<int>| #[trigger] is_path(es, p, v, end) ==> t <= total - path_duration(es, p)
}

/// `pos` witnesses acyclicity: along every edge the position strictly grows.
pub open spec fn valid_topo(es: Seq<Edge>, n: int, pos: Seq<usize>) -> bool {
    &&& pos.len() == n
    &&& forall|v: int| 0 <= v < n ==> (#[trigger] pos[v]) < n
    &&& forall|j: int|
        0 <= j < es.len() ==> pos[(#[trigger] es[j]).from as int] < pos[es[j].to as int]
}

/// The network has no directed cycle.
pub open spec fn acyclic(es: Seq<Edge>, n: int) -> bool {
    exists|pos: Seq<usize>| valid_topo(es, n, pos)
}

/// Edge `j` lies on at least one longest (critical) path from `s` to `e`.
pub open spec fn on_critical_path(es: Seq<Edge>, s: int, e: int, total: int, j: int) -> bool {
    exists|p: Seq<int>, k: int|
        #![trigger is_path(es, p, s, e), p[k]]
        {
            &&& is_path(es, p, s, e)
            &&& path_duration(es, p) == total
            &&& 0 <= k < p.len()
            &&& p[k] == j
        }
}

/// A path from `a` to `b` followed by one from `b` to `c` is a path from `a`
/// to `c`, and its duration is the sum of the two.
pub proof fn lemma_path_concat(es: Seq<Edge>, p1: Seq<int>, p2: Seq<int>, a: int, b: int, c: int)
    requires
        is_path(es, p1, a, b),
        is_path(es, p2, b, c),
    ensures
        is_path(es, p1 + p2, a, c),
        path_duration(es, p1 + p2) == path_duration(es, p1) + path_duration(es, p2),
    decreases p1.len(),
{
    if p1.len() == 0 {
        assert(p1 + p2 =~= p2);
    } else {
        lemma_path_concat(es, p1.drop_first(), p2, es[p1[0]].to as int, b, c);
        assert((p1 + p2).drop_first() =~= p1.drop_first() + p2);
        assert((p1 + p2)[0] == p1[0]);
    }
}

/// A path can be split at the edge standing in position `k`: the part before
/// it, the edge itself, and the part after it.
pub proof fn lemma_path_split(es: Seq<Edge>, p: Seq<int>, a: int, b: int, k: int)
    requires
        is_path(es, p, a, b),
        0 <= k < p.len(),
    ensures
        0 <= p[k] < es.len(),
        is_path(es, p.take(k), a, es[p[k]].from as int),
        is_path(es, p.skip(k + 1), es[p[k]].to as int, b),
        path_duration(es, p) == path_duration(es, p.take(k)) + es[p[k]].duration
            + path_duration(es, p.skip(k + 1)),
    decreases p.len(),
{
    if k == 0 {
        assert(p.take(0) =~= Seq::<int>::empty());
        assert(p.skip(1) =~= p.drop_first());
    } else {
        lemma_path_split(es, p.drop_first(), es[p[0]].to as int, b, k - 1);
        assert(p.drop_first()[k - 1] == p[k]);
        assert(p.take(k)[0] == p[0]);
        assert(p.take(k).drop_first() =~= p.drop_first().take(k - 1));
        assert(p.skip(k + 1) =~= p.drop_first().skip(k));
    }
}

/// Along a nonempty path the topological position strictly grows, by at least
/// one per edge; so a path's length never exceeds the position gap.
pub proof fn lemma_path_pos(es: Seq<Edge>, n: int, pos: Seq<usize>, p: Seq<int>, a: int, b: int)
    requires
        valid_topo(es, n, pos),
        edges_wf(es, n),
        is_path(es, p, a, b),
        p.len() > 0,
    ensures
        0 <= b < n,
        pos[a] + p.len() <= pos[b],
    decreases p.len(),
{
    let mid = es[p[0]].to as int;
    assert(is_path(es, p.drop_first(), mid, b));
    if p.len() == 1 {
        assert(p.drop_first().len() == 0);
        assert(b == mid);
    } else {
        lemma_path_pos(es, n, pos, p.drop_first(), mid, b);
    }
}

/// A path's duration is nonnegative and at most its length times the largest
/// possible task duration.
pub proof fn lemma_path_duration_le(es: Seq<Edge>, p: Seq<int>, a: int, b: int)
    requires
        is_path(es, p, a, b),
    ensures
        0 <= path_duration(es, p) <= p.len() * 0xFFFF_FFFF,
    decreases p.len(),
{
    if p.len() == 0 {
    } else {
        lemma_path_duration_le(es, p.drop_first(), es[p[0]].to as int, b);
    }
}

/// In an acyclic network the only path from a node to itself is the empty
/// one, so the longest such path has duration zero.
pub proof fn lemma_longest_self(es: Seq<Edge>, n: int, pos: Seq<usize>, v: int)
    requires
        valid_topo(es, n, pos),
        edges_wf(es, n),
        0 <= v < n,
    ensures
        is_longest(es, v, v, 0),
{
    assert(is_path(es, Seq::<int>::empty(), v, v));
    assert(path_duration(es, Seq::<int>::empty()) == 0);
    assert forall|p: Seq<int>| is_path(es, p, v, v) implies path_duration(es, p) <= 0 by {
        if p.len() > 0 {
            lemma_path_pos(es, n, pos, p, v, v);
        }
    };
}

/// Two longest-path durations between the same nodes agree.
pub proof fn lemma_longest_unique(es: Seq<Edge>, a: int, b: int, t1: int, t2: int)
    requires
        is_longest(es, a, b, t1),
        is_longest(es, a, b, t2),
    ensures
        t1 == t2,
{
}

/// Composing longest paths `a..b` and `b..c` bounds them by any upper bound
/// on the durations of paths `a..c`.
pub proof fn lemma_longest_compose(es: Seq<Edge>, a: int, b: int, c: int, t1: int, t2: int, t3: int)
    requires
        is_longest(es, a, b, t1),
        is_longest(es, b, c, t2),
        forall|p: Seq<int>| #[trigger] is_path(es, p, a, c) ==> path_duration(es, p) <= t3,
    ensures
        t1 + t2 <= t3,
{
    let p1 = choose|p: Seq<int>| #[trigger] is_path(es, p, a, b) && path_duration(es, p) == t1;
    let p2 = choose|p: Seq<int>| #[trigger] is_path(es, p, b, c) && path_duration(es, p) == t2;
    lemma_path_concat(es, p1, p2, a, b, c);
}

/// A single edge is a path from its source to its target.
pub proof fn lemma_edge_path(es: Seq<Edge>, j: int)
    requires
        0 <= j < es.len(),
    ensures
        is_path(es, seq![j], es[j].from as int, es[j].to as int),
        path_duration(es, seq![j]) == es[j].duration,
{
    let p = seq![j];
    assert(p.len() == 1 && p[0] == j);
    assert(p.drop_first() =~= Seq::<int>::empty());
    assert(is_path(es, p.drop_first(), es[j].to as int, es[j].to as int));
    assert(path_duration(es, p.drop_first()) == 0);
    assert(is_path(es, p, es[j].from as int, es[j].to as int));
    assert(path_duration(es, p) == es[j].duration);
}

/// Composing a longest path `s..from`, the edge `j` itself, and a longest
/// path `to..e` bounds their total by any upper bound on paths `s..e`.
pub proof fn lemma_edge_between(es: Seq<Edge>, s: int, e: int, j: int, tf: int, tt: int, te: int)
    requires
        0 <= j < es.len(),
        is_longest(es, s, es[j].from as int, tf),
        is_longest(es, es[j].to as int, e, tt),
        forall|p: Seq<int>| #[trigger] is_path(es, p, s, e) ==> path_duration(es, p) <= te,
    ensures
        tf + es[j].duration + tt <= te,
{
    let p1 = choose|p: Seq<int>|
        #[trigger] is_path(es, p, s, es[j].from as int) && path_duration(es, p) == tf;
    let p2 = choose|p: Seq<int>|
        #[trigger] is_path(es, p, es[j].to as int, e) && path_duration(es, p) == tt;
    lemma_edge_path(es, j);
    lemma_path_concat(es, p1, seq![j], s, es[j].from as int, es[j].to as int);
    lemma_path_concat(es, p1 + seq![j], p2, s, es[j].to as int, e);
}

/// The latest-occurrence time of `v` is the project duration less the
/// duration of a longest path from `v` to the end node.
pub proof fn lemma_latest_from_longest(es: Seq<Edge>, v: int, e: int, total: int, ms: int)
    requires
        is_longest(es, v, e, ms),
    ensures
        is_latest(es, v, e, total, total - ms),
{
}

/// A latest-occurrence time names the longest remaining duration: the
/// project duration less the time is the duration of a longest path to the
/// end node.
pub proof fn lemma_longest_from_latest(es: Seq<Edge>, v: int, e: int, total: int, t: int)
    requires
        is_latest(es, v, e, total, t),
    ensures
        is_longest(es, v, e, total - t),
{
}


/// An edge lies on a longest path from `s` to `e` exactly when a longest
/// path to its source, the edge itself, and a longest path from its target
/// together meet the overall longest duration.
pub proof fn lemma_critical_edge(
    es: Seq<Edge>,
    s: int,
    e: int,
    j: int,
    fb_u: int,
    ms_v: int,
    total: int,
)
    requires
        0 <= j < es.len(),
        is_longest(es, s, es[j].from as int, fb_u),
        is_longest(es, es[j].to as int, e, ms_v),
        is_longest(es, s, e, total),
    ensures
        (fb_u + es[j].duration + ms_v == total) <==> on_critical_path(es, s, e, total, j),
{
    let u = es[j].from as int;
    let v = es[j].to as int;
    let d = es[j].duration as int;
    assert forall|p: Seq<int>| #[trigger] is_path(es, p, s, e) implies path_duration(es, p)
        <= total by {}
    lemma_edge_between(es, s, e, j, fb_u, ms_v, total);
    if fb_u + d + ms_v == total {
        let p1 = choose|p: Seq<int>| #[trigger] is_path(es, p, s, u) && path_duration(es, p)
            == fb_u;
        let p2 = choose|p: Seq<int>| #[trigger] is_path(es, p, v, e) && path_duration(es, p)
            == ms_v;
        lemma_edge_path(es, j);
        lemma_path_concat(es, p1, seq![j], s, u, v);
        lemma_path_concat(es, p1 + seq![j], p2, s, v, e);
        let p = (p1 + seq![j]) + p2;
        let k = p1.len() as int;
        assert(p[k] == j);
        assert(is_path(es, p, s, e) && path_duration(es, p) == total && 0 <= k < p.len());
        assert(on_critical_path(es, s, e, total, j));
    }
    if on_critical_path(es, s, e, total, j) {
        let (p, k) = choose|p: Seq<int>, k: int|
            #![trigger is_path(es, p, s, e), p[k]]
            {
                &&& is_path(es, p, s, e)
                &&& path_duration(es, p) == total
                &&& 0 <= k < p.len()
                &&& p[k] == j
            };
        lemma_path_split(es, p, s, e, k);
        assert(path_duration(es, p.take(k)) <= fb_u);
        assert(path_duration(es, p.skip(k + 1)) <= ms_v);
        assert(fb_u + d + ms_v == total);
    }
}

/// If every unplaced node keeps an incoming edge from an unplaced node, then
/// `pos` cannot witness acyclicity: positions would descend forever.
proof fn lemma_stuck_descend(
    es: Seq<Edge>,
    n: int,
    pos: Seq<usize>,
    placed: Seq<bool>,
    v: int,
)
    requires
        edges_wf(es, n),
        pos.len() == n,
        placed.len() == n,
        forall|w: int|
            0 <= w < n && !placed[w] ==> exists|j: int|
                0 <= j < es.len() && (#[trigger] es[j]).to == w && !placed[es[j].from as int],
        0 <= v < n,
        !placed[v],
    ensures
        !valid_topo(es, n, pos),
    decreases pos[v],
{
    if valid_topo(es, n, pos) {
        let j = choose|j: int|
            0 <= j < es.len() && (#[trigger] es[j]).to == v && !placed[es[j].from as int];
        lemma_stuck_descend(es, n, pos, placed, es[j].from as int);
    }
}

/// If every unplaced node keeps an incoming edge from an unplaced node, the
/// network cannot be acyclic.
pub proof fn lemma_stuck_not_acyclic(es: Seq<Edge>, n: int, placed: Seq<bool>, v: int)
    requires
        edges_wf(es, n),
        placed.len() == n,
        forall|w: int|
            0 <= w < n && !placed[w] ==> exists|j: int|
                0 <= j < es.len() && (#[trigger] es[j]).to == w && !placed[es[j].from as int],
        0 <= v < n,
        !placed[v],
    ensures
        !acyclic(es, n),
{
    assert forall|pos: Seq<usize>| !(#[trigger] valid_topo(es, n, pos)) by {
        if pos.len() == n {
            lemma_stuck_descend(es, n, pos, placed, v);
        }
    };
}

} // verus!
