//! The scheduling computation: topological ordering, the forward and
//! backward passes over all paths, and the per-task float values.

use vstd::prelude::*;

use crate::paths::{
    acyclic, edges_wf, has_incoming, has_outgoing, is_end_node, is_latest, is_longest,
    is_path, is_start_node, lemma_edge_path, lemma_injective_bound, lemma_latest_from_longest,
    lemma_longest_compose, lemma_longest_self, lemma_path_concat, lemma_path_duration_le,
    lemma_path_pos, lemma_path_split, lemma_perm_covers, lemma_stuck_not_acyclic, path_duration,
    valid_topo, Edge,
};
use crate::pert::PertError;

verus! {

/// A vector holding `n` copies of `x`.
fn filled<T: Copy>(n: usize, x: T) -> (v: Vec<T>)
    ensures
        v@.len() == n,
        forall|i: int| 0 <= i < n ==> v@[i] == x,
{
    let mut v: Vec<T> = Vec::new();
    while v.len() < n
        invariant
            v@.len() <= n,
            forall|i: int| 0 <= i < v@.len() ==> v@[i] == x,
        decreases n - v@.len(),
    {
        v.push(x);
    }
    v
}

/// Orders the nodes so that every task runs from an earlier to a later
/// position, or reports that the network is cyclic.
///
/// On success returns `(order, pos)`: `order[k]` is the node placed at
/// position `k`, and `pos` is its inverse.
pub fn topo_order(edges: &Vec<Edge>, n: usize) -> (r: Result<(Vec<usize>, Vec<usize>), PertError>)
    requires
        edges_wf(edges@, n as int),
    ensures
        match r {
            Ok(op) => {
                &&& op.0@.len() == n
                &&& op.1@.len() == n
                &&& valid_topo(edges@, n as int, op.1@)
                &&& forall|k: int| 0 <= k < n ==> (#[trigger] op.0@[k]) < n
                &&& forall|k: int| 0 <= k < n ==> op.1@[(#[trigger] op.0@[k]) as int] == k
                &&& forall|v: int| 0 <= v < n ==> op.0@[(#[trigger] op.1@[v]) as int] == v
            },
            Err(e) => e == PertError::CyclicNetworkError && !acyclic(edges@, n as int),
        },
{
    let m = edges.len();
    let mut placed = filled(n, false);
    let mut pos = filled(n, 0usize);
    let mut order: Vec<usize> = Vec::new();
    let mut k: usize = 0;
    while k < n
        invariant
            n == placed@.len(),
            n == pos@.len(),
            m == edges@.len(),
            edges_wf(edges@, n as int),
            k <= n,
            order@.len() == k,
            forall|i: int| 0 <= i < k ==> (#[trigger] order@[i]) < n,
            forall|i: int| 0 <= i < k ==> placed@[(#[trigger] order@[i]) as int],
            forall|i: int| 0 <= i < k ==> pos@[(#[trigger] order@[i]) as int] == i,
            forall|v: int| 0 <= v < n ==> (#[trigger] pos@[v]) < n,
            forall|v: int|
                0 <= v < n && placed@[v] ==> (#[trigger] pos@[v]) < k && order@[pos@[v] as int]
                    == v,
            forall|j: int|
                0 <= j < m && placed@[(#[trigger] edges@[j]).to as int]
                    ==> placed@[edges@[j].from as int]
                        && pos@[edges@[j].from as int] < pos@[edges@[j].to as int],
        decreases n - k,
    {
        let mut choice: usize = 0;
        let mut have_choice = false;
        let mut v: usize = 0;
        while v < n && !have_choice
            invariant
                n == placed@.len(),
                m == edges@.len(),
                edges_wf(edges@, n as int),
                v <= n,
                !have_choice ==> forall|w: int|
                    0 <= w < v ==> placed@[w] || (exists|j: int|
                        0 <= j < m && (#[trigger] edges@[j]).to == w
                            && !placed@[edges@[j].from as int]),
                have_choice ==> choice < n && !placed@[choice as int] && (forall|j: int|
                    0 <= j < m && (#[trigger] edges@[j]).to == choice
                        ==> placed@[edges@[j].from as int]),
            decreases n - v,
        {
            if !placed[v] {
                let mut ok = true;
                let mut j: usize = 0;
                while j < m
                    invariant
                        j <= m,
                        m == edges@.len(),
                        n == placed@.len(),
                        v < n,
                        edges_wf(edges@, n as int),
                        ok ==> forall|jj: int|
                            0 <= jj < j && (#[trigger] edges@[jj]).to == v
                                ==> placed@[edges@[jj].from as int],
                        !ok ==> exists|jj: int|
                            0 <= jj < m && (#[trigger] edges@[jj]).to == v
                                && !placed@[edges@[jj].from as int],
                    decreases m - j,
                {
                    let e = edges[j];
                    if e.to == v && !placed[e.from] {
                        ok = false;
                    }
                    j += 1;
                }
                if ok {
                    choice = v;
                    have_choice = true;
                }
            }
            v += 1;
        }
        if have_choice {
            let c = choice;
            placed.set(c, true);
            pos.set(c, k);
            order.push(c);
            k += 1;
        } else {
            proof {
                if forall|w: int| 0 <= w < n ==> placed@[w] {
                    let s = Seq::new(n as nat, |w: int| pos@[w] as int);
                    assert forall|i: int, j2: int| 0 <= i < j2 < s.len() implies s[i] != s[j2] by {
                        assert(placed@[i] && placed@[j2]);
                        assert(order@[pos@[i] as int] == i);
                        assert(order@[pos@[j2] as int] == j2);
                    };
                    assert forall|i: int| 0 <= i < s.len() implies 0 <= #[trigger] s[i] < k as int by {
                        assert(placed@[i]);
                    };
                    lemma_injective_bound(s, k as int);
                }
                let wv = choose|w: int| 0 <= w < n && !placed@[w];
                lemma_stuck_not_acyclic(edges@, n as int, placed@, wv);
            }
            return Err(PertError::CyclicNetworkError);
        }
    }
    proof {
        assert forall|i: int, j2: int| 0 <= i < j2 < n implies order@[i] != order@[j2] by {
            assert(pos@[order@[i] as int] == i);
            assert(pos@[order@[j2] as int] == j2);
        };
        assert forall|v: int| 0 <= v < n implies placed@[v] by {
            lemma_perm_covers(order@, n as int, v);
            let i = choose|i: int| 0 <= i < n && (#[trigger] order@[i]) == v;
            assert(placed@[order@[i] as int]);
        };
    }
    Ok((order, pos))
}

/// The forward pass: for every node, the earliest-occurrence time — the
/// maximum, over all paths from the start node, of the summed durations.
///
/// Nodes are visited in topological order, so each node's time is the
/// maximum of `time[from] + duration` over its incoming tasks.
pub fn compute_fastest_begin(
    edges: &Vec<Edge>,
    n: usize,
    order: &Vec<usize>,
    pos: &Vec<usize>,
    start: usize,
) -> (fb: Vec<u64>)
    requires
        edges_wf(edges@, n as int),
        valid_topo(edges@, n as int, pos@),
        order@.len() == n,
        forall|k: int| 0 <= k < n ==> (#[trigger] order@[k]) < n,
        forall|k: int| 0 <= k < n ==> pos@[(#[trigger] order@[k]) as int] == k,
        forall|v: int| 0 <= v < n ==> order@[(#[trigger] pos@[v]) as int] == v,
        is_start_node(edges@, n as int, start as int),
        n <= 0x1_0000_0000,
    ensures
        fb@.len() == n,
        forall|v: int|
            0 <= v < n ==> is_longest(edges@, start as int, v, (#[trigger] fb@[v]) as int),
{
    let m = edges.len();
    let mut fb = filled(n, 0u64);
    let mut k: usize = 0;
    while k < n
        invariant
            n == fb@.len(),
            n == pos@.len(),
            n == order@.len(),
            m == edges@.len(),
            edges_wf(edges@, n as int),
            valid_topo(edges@, n as int, pos@),
            forall|k2: int| 0 <= k2 < n ==> (#[trigger] order@[k2]) < n,
            forall|k2: int| 0 <= k2 < n ==> pos@[(#[trigger] order@[k2]) as int] == k2,
            forall|v: int| 0 <= v < n ==> order@[(#[trigger] pos@[v]) as int] == v,
            is_start_node(edges@, n as int, start as int),
            n <= 0x1_0000_0000,
            k <= n,
            forall|v: int|
                0 <= v < n && pos@[v] < k ==> is_longest(
                    edges@,
                    start as int,
                    v,
                    (#[trigger] fb@[v]) as int,
                ),
            forall|v: int| 0 <= v < n && pos@[v] >= k ==> (#[trigger] fb@[v]) == 0,
        decreases n - k,
    {
        let v = order[k];
        proof {
            assert(pos@[v as int] == k);
        }
        if v == start {
            proof {
                lemma_longest_self(edges@, n as int, pos@, start as int);
            }
        } else {
            let mut best: u64 = 0;
            let mut found = false;
            let mut j: usize = 0;
            while j < m
                invariant
                    n == fb@.len(),
                    n == pos@.len(),
                    m == edges@.len(),
                    edges_wf(edges@, n as int),
                    valid_topo(edges@, n as int, pos@),
                    is_start_node(edges@, n as int, start as int),
                    n <= 0x1_0000_0000,
                    j <= m,
                    k < n,
                    v == order@[k as int],
                    v < n,
                    v != start,
                    pos@[v as int] == k,
                    forall|w: int|
                        0 <= w < n && pos@[w] < k ==> is_longest(
                            edges@,
                            start as int,
                            w,
                            (#[trigger] fb@[w]) as int,
                        ),
                    found ==> exists|p: Seq<int>|
                        #[trigger] is_path(edges@, p, start as int, v as int) && path_duration(
                            edges@,
                            p,
                        ) == best as int,
                    !found ==> best == 0 && forall|jj: int|
                        0 <= jj < j ==> (#[trigger] edges@[jj]).to != v,
                    forall|jj: int|
                        0 <= jj < j && (#[trigger] edges@[jj]).to == v
                            ==> fb@[edges@[jj].from as int] + edges@[jj].duration <= best as int,
                decreases m - j,
            {
                let e = edges[j];
                if e.to == v {
                    proof {
                        assert(pos@[e.from as int] < pos@[v as int]);
                        assert(is_longest(edges@, start as int, e.from as int, fb@[e.from as int] as int));
                        let p = choose|p: Seq<int>|
                            #[trigger] is_path(edges@, p, start as int, e.from as int)
                                && path_duration(edges@, p) == fb@[e.from as int] as int;
                        if p.len() > 0 {
                            lemma_path_pos(edges@, n as int, pos@, p, start as int, e.from as int);
                        }
                        lemma_path_duration_le(edges@, p, start as int, e.from as int);
                        assert(p.len() <= n - 1);
                        assert(fb@[e.from as int] as int <= (n - 1) * 0xFFFF_FFFF) by (nonlinear_arith)
                            requires
                                fb@[e.from as int] as int <= p.len() * 0xFFFF_FFFF,
                                p.len() <= n - 1,
                        ;
                        assert((n - 1) * 0xFFFF_FFFF + 0xFFFF_FFFF == n as int * 0xFFFF_FFFF) by (nonlinear_arith);
                        assert(n as int * 0xFFFF_FFFF <= 0x1_0000_0000 * 0xFFFF_FFFF) by (nonlinear_arith)
                            requires
                                n <= 0x1_0000_0000,
                        ;
                    }
                    let cand = fb[e.from] + (e.duration as u64);
                    if !found || cand > best {
                        proof {
                            let p = choose|p: Seq<int>|
                                #[trigger] is_path(edges@, p, start as int, e.from as int)
                                    && path_duration(edges@, p) == fb@[e.from as int] as int;
                            lemma_edge_path(edges@, j as int);
                            lemma_path_concat(
                                edges@,
                                p,
                                seq![j as int],
                                start as int,
                                e.from as int,
                                e.to as int,
                            );
                        }
                        best = cand;
                        found = true;
                    }
                }
                j += 1;
            }
            proof {
                assert(has_incoming(edges@, v as int));
                assert(found);
                assert forall|p: Seq<int>| is_path(
                    edges@,
                    p,
                    start as int,
                    v as int,
                ) implies path_duration(edges@, p) <= best as int by {
                    if p.len() == 0 {
                    } else {
                        lemma_path_split(edges@, p, start as int, v as int, p.len() - 1);
                        let jj = p[p.len() - 1];
                        assert(p.skip(p.len() - 1 + 1) =~= Seq::<int>::empty());
                        assert(edges@[jj].to == v);
                        assert(path_duration(edges@, p.take(p.len() - 1)) <= fb@[edges@[jj].from as int] as int);
                    }
                };
                assert(is_longest(edges@, start as int, v as int, best as int));
            }
            fb.set(v, best);
        }
        k += 1;
    }
    fb
}

/// The backward pass: for every node, the latest-occurrence time — the
/// minimum, over all paths from the node to the end node, of the project
/// duration less the path's summed durations.
///
/// Nodes are visited in reverse topological order; each node's longest
/// remaining duration is the maximum of `duration + remaining[to]` over its
/// outgoing tasks, and its latest time is the project duration less that.
pub fn compute_latest_finish(
    edges: &Vec<Edge>,
    n: usize,
    order: &Vec<usize>,
    pos: &Vec<usize>,
    start: usize,
    end: usize,
    fb: &Vec<u64>,
) -> (lf: Vec<u64>)
    requires
        edges_wf(edges@, n as int),
        valid_topo(edges@, n as int, pos@),
        order@.len() == n,
        forall|k: int| 0 <= k < n ==> (#[trigger] order@[k]) < n,
        forall|k: int| 0 <= k < n ==> pos@[(#[trigger] order@[k]) as int] == k,
        forall|v: int| 0 <= v < n ==> order@[(#[trigger] pos@[v]) as int] == v,
        is_start_node(edges@, n as int, start as int),
        is_end_node(edges@, n as int, end as int),
        n <= 0x1_0000_0000,
        fb@.len() == n,
        forall|v: int|
            0 <= v < n ==> is_longest(edges@, start as int, v, (#[trigger] fb@[v]) as int),
    ensures
        lf@.len() == n,
        forall|v: int|
            0 <= v < n ==> is_latest(
                edges@,
                v,
                end as int,
                fb@[end as int] as int,
                (#[trigger] lf@[v]) as int,
            ),
        forall|v: int|
            0 <= v < n ==> is_longest(
                edges@,
                v,
                end as int,
                fb@[end as int] - (#[trigger] lf@[v]) as int,
            ),
{
    let m = edges.len();
    let total = fb[end];
    let mut mse = filled(n, 0u64);
    let mut k: usize = n;
    while k > 0
        invariant
            n == mse@.len(),
            n == pos@.len(),
            n == order@.len(),
            m == edges@.len(),
            edges_wf(edges@, n as int),
            valid_topo(edges@, n as int, pos@),
            forall|k2: int| 0 <= k2 < n ==> (#[trigger] order@[k2]) < n,
            forall|k2: int| 0 <= k2 < n ==> pos@[(#[trigger] order@[k2]) as int] == k2,
            forall|v: int| 0 <= v < n ==> order@[(#[trigger] pos@[v]) as int] == v,
            is_end_node(edges@, n as int, end as int),
            n <= 0x1_0000_0000,
            k <= n,
            forall|v: int|
                0 <= v < n && pos@[v] >= k ==> is_longest(
                    edges@,
                    v,
                    end as int,
                    (#[trigger] mse@[v]) as int,
                ),
        decreases k,
    {
        k -= 1;
        let v = order[k];
        proof {
            assert(pos@[v as int] == k);
        }
        if v == end {
            proof {
                lemma_longest_self(edges@, n as int, pos@, end as int);
            }
            mse.set(v, 0);
        } else {
            let mut best: u64 = 0;
            let mut found = false;
            let mut j: usize = 0;
            while j < m
                invariant
                    n == mse@.len(),
                    n == pos@.len(),
                    m == edges@.len(),
                    edges_wf(edges@, n as int),
                    valid_topo(edges@, n as int, pos@),
                    is_end_node(edges@, n as int, end as int),
                    n <= 0x1_0000_0000,
                    j <= m,
                    k < n,
                    v == order@[k as int],
                    v < n,
                    v != end,
                    pos@[v as int] == k,
                    forall|w: int|
                        0 <= w < n && pos@[w] > k ==> is_longest(
                            edges@,
                            w,
                            end as int,
                            (#[trigger] mse@[w]) as int,
                        ),
                    found ==> exists|p: Seq<int>|
                        #[trigger] is_path(edges@, p, v as int, end as int) && path_duration(
                            edges@,
                            p,
                        ) == best as int,
                    !found ==> best == 0 && forall|jj: int|
                        0 <= jj < j ==> (#[trigger] edges@[jj]).from != v,
                    forall|jj: int|
                        0 <= jj < j && (#[trigger] edges@[jj]).from == v
                            ==> edges@[jj].duration + mse@[edges@[jj].to as int] <= best as int,
                decreases m - j,
            {
                let e = edges[j];
                if e.from == v {
                    proof {
                        assert(pos@[e.to as int] > pos@[v as int]);
                        assert(is_longest(edges@, e.to as int, end as int, mse@[e.to as int] as int));
                        let p = choose|p: Seq<int>|
                            #[trigger] is_path(edges@, p, e.to as int, end as int)
                                && path_duration(edges@, p) == mse@[e.to as int] as int;
                        if p.len() > 0 {
                            lemma_path_pos(edges@, n as int, pos@, p, e.to as int, end as int);
                        }
                        lemma_path_duration_le(edges@, p, e.to as int, end as int);
                        assert(p.len() <= n - 1);
                        assert(mse@[e.to as int] as int <= (n - 1) * 0xFFFF_FFFF) by (nonlinear_arith)
                            requires
                                mse@[e.to as int] as int <= p.len() * 0xFFFF_FFFF,
                                p.len() <= n - 1,
                        ;
                        assert((n - 1) * 0xFFFF_FFFF + 0xFFFF_FFFF == n as int * 0xFFFF_FFFF) by (nonlinear_arith);
                        assert(n as int * 0xFFFF_FFFF <= 0x1_0000_0000 * 0xFFFF_FFFF) by (nonlinear_arith)
                            requires
                                n <= 0x1_0000_0000,
                        ;
                    }
                    let cand = (e.duration as u64) + mse[e.to];
                    if !found || cand > best {
                        proof {
                            let p = choose|p: Seq<int>|
                                #[trigger] is_path(edges@, p, e.to as int, end as int)
                                    && path_duration(edges@, p) == mse@[e.to as int] as int;
                            lemma_edge_path(edges@, j as int);
                            lemma_path_concat(
                                edges@,
                                seq![j as int],
                                p,
                                e.from as int,
                                e.to as int,
                                end as int,
                            );
                        }
                        best = cand;
                        found = true;
                    }
                }
                j += 1;
            }
            proof {
                assert(has_outgoing(edges@, v as int));
                assert(found);
                assert forall|p: Seq<int>| is_path(
                    edges@,
                    p,
                    v as int,
                    end as int,
                ) implies path_duration(edges@, p) <= best as int by {
                    if p.len() == 0 {
                    } else {
                        let jj = p[0];
                        assert(edges@[jj].from == v);
                        assert(is_path(edges@, p.drop_first(), edges@[jj].to as int, end as int));
                        assert(path_duration(edges@, p.drop_first()) <= mse@[edges@[jj].to as int] as int);
                    }
                };
                assert(is_longest(edges@, v as int, end as int, best as int));
            }
            mse.set(v, best);
        }
    }
    let mut lf = filled(n, 0u64);
    let mut i: usize = 0;
    while i < n
        invariant
            n == lf@.len(),
            n == mse@.len(),
            n == fb@.len(),
            edges_wf(edges@, n as int),
            end < n,
            start < n,
            total == fb@[end as int],
            i <= n,
            forall|v: int|
                0 <= v < n ==> is_longest(edges@, v, end as int, (#[trigger] mse@[v]) as int),
            forall|v: int|
                0 <= v < n ==> is_longest(edges@, start as int, v, (#[trigger] fb@[v]) as int),
            forall|v: int| 0 <= v < i ==> (#[trigger] lf@[v]) as int == total - mse@[v],
        decreases n - i,
    {
        proof {
            assert forall|p: Seq<int>| is_path(
                edges@,
                p,
                start as int,
                end as int,
            ) implies path_duration(edges@, p) <= total as int by {
                assert(is_longest(edges@, start as int, end as int, fb@[end as int] as int));
            };
            lemma_longest_compose(
                edges@,
                start as int,
                i as int,
                end as int,
                fb@[i as int] as int,
                mse@[i as int] as int,
                total as int,
            );
        }
        lf.set(i, total - mse[i]);
        i += 1;
    }
    proof {
        assert forall|v: int| 0 <= v < n implies is_latest(
            edges@,
            v,
            end as int,
            fb@[end as int] as int,
            lf@[v] as int,
        ) by {
            lemma_latest_from_longest(edges@, v, end as int, total as int, mse@[v] as int);
        };
    }
    lf
}

/// The float values of one task.
pub struct Floats {
    pub total_float: u64,
    pub free_float: u64,
}

/// The float values of the task `e`, from the already-computed occurrence
/// times: the total float is the target's latest time less the earliest
/// completion, the free float the target's earliest time less the same.
pub fn compute_floats(e: Edge, fb: &Vec<u64>, lf: &Vec<u64>) -> (f: Floats)
    requires
        e.from < fb@.len(),
        e.to < fb@.len(),
        fb@.len() == lf@.len(),
        fb@[e.from as int] + e.duration <= fb@[e.to as int],
        fb@[e.from as int] + e.duration <= lf@[e.to as int],
    ensures
        f.total_float as int == lf@[e.to as int] - (fb@[e.from as int] + e.duration),
        f.free_float as int == fb@[e.to as int] - (fb@[e.from as int] + e.duration),
{
    let begin_after = fb[e.from] + (e.duration as u64);
    Floats { total_float: lf[e.to] - begin_after, free_float: fb[e.to] - begin_after }
}

} // verus!
