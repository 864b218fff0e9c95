//! Events, tasks, and the scheduling pipeline.

use vstd::prelude::*;

use crate::graph::{
    get_event, get_task, graph_events, graph_tasks, set_event_times, set_task_floats,
    task_count, task_endpoints, event_count, PertGraph, TaskRec,
};
use crate::paths::{
    acyclic, edges_wf, has_incoming, has_outgoing, is_end_node, is_latest, is_longest,
    is_path, is_start_node, lemma_edge_between, lemma_edge_path, lemma_injective_bound,
    lemma_path_concat, path_duration, Edge,
};
use crate::schedule::{compute_fastest_begin, compute_latest_finish, compute_floats, topo_order};

verus! {

/// The error kinds surfaced by the scheduling pipeline.
#[derive(Clone, Copy, PartialEq, Eq, Structural, Debug)]
pub enum PertError {
    /// A row does not decode to the four required fields.
    MalformedRowError,
    /// No node is without incoming tasks.
    NoStartNodeError,
    /// More than one node is without incoming tasks.
    DuplicateStartNodeError,
    /// No node is without outgoing tasks.
    NoEndNodeError,
    /// More than one node is without outgoing tasks.
    DuplicateEndNodeError,
    /// The network holds a directed cycle, so no schedule exists.
    CyclicNetworkError,
}

impl PertError {
    /// The wording of each error.
    pub open spec fn message_spec(self) -> Seq<char> {
        match self {
            PertError::MalformedRowError => "Row is malformed"@,
            PertError::NoStartNodeError => "Start node is not exist"@,
            PertError::DuplicateStartNodeError => "Start node is duplicated"@,
            PertError::NoEndNodeError => "End node is not exist"@,
            PertError::DuplicateEndNodeError => "End node is duplicated"@,
            PertError::CyclicNetworkError => "Network is cyclic"@,
        }
    }

    /// A short description of the error.
    pub fn message(&self) -> (s: &'static str)
        ensures
            s@ == self.message_spec(),
    {
        match self {
            PertError::MalformedRowError => "Row is malformed",
            PertError::NoStartNodeError => "Start node is not exist",
            PertError::DuplicateStartNodeError => "Start node is duplicated",
            PertError::NoEndNodeError => "End node is not exist",
            PertError::DuplicateEndNodeError => "End node is duplicated",
            PertError::CyclicNetworkError => "Network is cyclic",
        }
    }
}

/// A timed activity (graph edge) connecting two events.
#[derive(Debug)]
pub struct Task {
    pub name: String,
    pub duration: u32,
    pub total_float: u64,
    pub free_float: u64,
}

impl Task {
    /// A fresh task with both float values still at zero.
    pub fn new(name: &str, duration: u32) -> (t: Task)
        ensures
            t.name@ == name@,
            t.duration == duration,
            t.total_float == 0,
            t.free_float == 0,
    {
        Task { name: name.to_owned(), total_float: 0, free_float: 0, duration }
    }

    /// A task lies on a critical path exactly when its total float is zero.
    pub fn is_critical_path(&self) -> (r: bool)
        ensures
            r == (self.total_float == 0),
    {
        self.total_float == 0
    }

    /// A task is a zero-time ("dummy") dependency exactly when its duration is zero.
    pub fn is_dummy_path(&self) -> (r: bool)
        ensures
            r == (self.duration == 0),
    {
        self.duration == 0
    }
}

/// A milestone (graph node); marks a point in time.
#[derive(Clone, Copy, Debug)]
pub struct Event {
    pub label: u32,
    pub fastest_begin: u64,
    pub latest_finish: u64,
}

impl Event {
    /// A fresh event with both occurrence times still at zero.
    pub fn new(label: &u32) -> (e: Event)
        ensures
            e.label == label,
            e.fastest_begin == 0,
            e.latest_finish == 0,
    {
        Event { label: *label, fastest_begin: 0, latest_finish: 0 }
    }
}

/// The plain arcs of the stored task records.
pub open spec fn arcs_of(ts: Seq<TaskRec>) -> Seq<Edge> {
    ts.map_values(|t: TaskRec| Edge { from: t.0 as usize, to: t.1 as usize, duration: t.3 })
}

/// A well-formed stored network: every task connects stored events, and the
/// events carry pairwise-distinct labels (so there are at most as many nodes
/// as there are distinct labels).
pub open spec fn network_wf(g: PertGraph) -> bool {
    &&& forall|j: int|
        0 <= j < graph_tasks(g).len() ==> ({
            let t = #[trigger] graph_tasks(g)[j];
            0 <= t.0 < graph_events(g).len() && 0 <= t.1 < graph_events(g).len()
        })
    &&& forall|v: int, w: int|
        0 <= v < w < graph_events(g).len() ==> graph_events(g)[v].0 != graph_events(g)[w].0
}

/// Everything the pipeline establishes about a finished network with start
/// node `s` and end node `e`: single start, single end, no cycle; every
/// event's `fastest_begin` is the duration of a longest path from the start
/// and its `latest_finish` the minimum over paths to the end of the project
/// duration less the path's duration; and every task carries the two float
/// values derived from the adjacent times and its own duration.
pub open spec fn scheduled(g: PertGraph, s: int, e: int) -> bool {
    let es = arcs_of(graph_tasks(g));
    let n = graph_events(g).len() as int;
    let total = graph_events(g)[e].1 as int;
    &&& n <= usize::MAX
    &&& edges_wf(es, n)
    &&& forall|j: int|
        0 <= j < graph_tasks(g).len() ==> ({
            let t = #[trigger] graph_tasks(g)[j];
            0 <= t.0 < n && 0 <= t.1 < n
        })
    &&& is_start_node(es, n, s)
    &&& is_end_node(es, n, e)
    &&& acyclic(es, n)
    &&& forall|v: int|
        0 <= v < n ==> is_longest(es, s, v, (#[trigger] graph_events(g)[v]).1 as int)
    &&& forall|v: int|
        0 <= v < n ==> is_latest(es, v, e, total, (#[trigger] graph_events(g)[v]).2 as int)
    &&& forall|j: int|
        0 <= j < graph_tasks(g).len() ==> ({
            let t = #[trigger] graph_tasks(g)[j];
            &&& t.4 as int == graph_events(g)[t.1].2 - (graph_events(g)[t.0].1 + t.3)
            &&& t.5 as int == graph_events(g)[t.1].1 - (graph_events(g)[t.0].1 + t.3)
        })
}

/// Finds the node with no incoming task: the network's start event.
pub fn start_node(graph: &PertGraph) -> (r: Result<usize, PertError>)
    ensures
        ({
            let es = arcs_of(graph_tasks(*graph));
            let n = graph_events(*graph).len() as int;
            match r {
                Ok(i) => is_start_node(es, n, i as int),
                Err(err) => (err == PertError::NoStartNodeError && (forall|v: int|
                    0 <= v < n ==> has_incoming(es, v))) || (err
                    == PertError::DuplicateStartNodeError && (exists|v: int, w: int|
                    0 <= v < w < n && !has_incoming(es, v) && !has_incoming(es, w))),
            }
        }),
{
    let ghost es = arcs_of(graph_tasks(*graph));
    let n = event_count(graph);
    let m = task_count(graph);
    let mut first: usize = 0;
    let mut count: usize = 0;
    let mut v: usize = 0;
    while v < n
        invariant
            v <= n,
            n as int == graph_events(*graph).len(),
            m as int == graph_tasks(*graph).len(),
            es == arcs_of(graph_tasks(*graph)),
            count <= 1,
            count == 0 ==> forall|w: int| 0 <= w < v ==> has_incoming(es, w),
            count == 1 ==> first < v && !has_incoming(es, first as int) && (forall|w: int|
                0 <= w < v && w != first ==> has_incoming(es, w)),
        decreases n - v,
    {
        let mut inc = false;
        let mut j: usize = 0;
        while j < m
            invariant
                j <= m,
                v < n,
                m as int == graph_tasks(*graph).len(),
                es == arcs_of(graph_tasks(*graph)),
                inc ==> has_incoming(es, v as int),
                !inc ==> forall|jj: int| 0 <= jj < j ==> (#[trigger] es[jj]).to != v,
            decreases m - j,
        {
            let p = task_endpoints(graph, j);
            if p.1 == v {
                proof {
                    assert(es[j as int].to == v);
                }
                inc = true;
            }
            j += 1;
        }
        if !inc {
            proof {
                assert(!has_incoming(es, v as int));
            }
            if count == 0 {
                first = v;
                count = 1;
            } else {
                proof {
                    assert(!has_incoming(es, first as int) && !has_incoming(es, v as int));
                }
                return Err(PertError::DuplicateStartNodeError);
            }
        }
        v += 1;
    }
    if count == 0 {
        Err(PertError::NoStartNodeError)
    } else {
        Ok(first)
    }
}

/// Finds the node with no outgoing task: the network's end event.
pub fn end_node(graph: &PertGraph) -> (r: Result<usize, PertError>)
    ensures
        ({
            let es = arcs_of(graph_tasks(*graph));
            let n = graph_events(*graph).len() as int;
            match r {
                Ok(i) => is_end_node(es, n, i as int),
                Err(err) => (err == PertError::NoEndNodeError && (forall|v: int|
                    0 <= v < n ==> has_outgoing(es, v))) || (err
                    == PertError::DuplicateEndNodeError && (exists|v: int, w: int|
                    0 <= v < w < n && !has_outgoing(es, v) && !has_outgoing(es, w))),
            }
        }),
{
    let ghost es = arcs_of(graph_tasks(*graph));
    let n = event_count(graph);
    let m = task_count(graph);
    let mut first: usize = 0;
    let mut count: usize = 0;
    let mut v: usize = 0;
    while v < n
        invariant
            v <= n,
            n as int == graph_events(*graph).len(),
            m as int == graph_tasks(*graph).len(),
            es == arcs_of(graph_tasks(*graph)),
            count <= 1,
            count == 0 ==> forall|w: int| 0 <= w < v ==> has_outgoing(es, w),
            count == 1 ==> first < v && !has_outgoing(es, first as int) && (forall|w: int|
                0 <= w < v && w != first ==> has_outgoing(es, w)),
        decreases n - v,
    {
        let mut out = false;
        let mut j: usize = 0;
        while j < m
            invariant
                j <= m,
                v < n,
                m as int == graph_tasks(*graph).len(),
                es == arcs_of(graph_tasks(*graph)),
                out ==> has_outgoing(es, v as int),
                !out ==> forall|jj: int| 0 <= jj < j ==> (#[trigger] es[jj]).from != v,
            decreases m - j,
        {
            let p = task_endpoints(graph, j);
            if p.0 == v {
                proof {
                    assert(es[j as int].from == v);
                }
                out = true;
            }
            j += 1;
        }
        if !out {
            proof {
                assert(!has_outgoing(es, v as int));
            }
            if count == 0 {
                first = v;
                count = 1;
            } else {
                proof {
                    assert(!has_outgoing(es, first as int) && !has_outgoing(es, v as int));
                }
                return Err(PertError::DuplicateEndNodeError);
            }
        }
        v += 1;
    }
    if count == 0 {
        Err(PertError::NoEndNodeError)
    } else {
        Ok(first)
    }
}

/// Reads the stored tasks out into plain arcs.
fn extract_edges(graph: &PertGraph) -> (v: Vec<Edge>)
    ensures
        v@ == arcs_of(graph_tasks(*graph)),
{
    let m = task_count(graph);
    let mut out: Vec<Edge> = Vec::new();
    let mut j: usize = 0;
    while j < m
        invariant
            j <= m,
            m as int == graph_tasks(*graph).len(),
            out@.len() == j,
            forall|i: int| 0 <= i < j ==> out@[i] == arcs_of(graph_tasks(*graph))[i],
        decreases m - j,
    {
        let p = task_endpoints(graph, j);
        let t = get_task(graph, j);
        out.push(Edge { from: p.0, to: p.1, duration: t.duration });
        j += 1;
    }
    proof {
        assert(out@ =~= arcs_of(graph_tasks(*graph)));
    }
    out
}

/// The finished network, frozen after the three scheduling passes.
pub struct Pert(pub PertGraph);

impl Pert {
    /// The number of events in the network.
    pub fn event_count(&self) -> (n: usize)
        ensures
            n as int == graph_events(self.0).len(),
    {
        event_count(&self.0)
    }

    /// The number of tasks in the network.
    pub fn task_count(&self) -> (m: usize)
        ensures
            m as int == graph_tasks(self.0).len(),
    {
        task_count(&self.0)
    }

    /// The event stored at node index `i`.
    pub fn event(&self, i: usize) -> (e: Event)
        requires
            i < graph_events(self.0).len(),
        ensures
            crate::graph::event_rec(e) == graph_events(self.0)[i as int],
    {
        get_event(&self.0, i)
    }

    /// The task stored at edge index `j`.
    pub fn task(&self, j: usize) -> (t: Task)
        requires
            j < graph_tasks(self.0).len(),
        ensures
            ({
                let r = graph_tasks(self.0)[j as int];
                t.name@ == r.2 && t.duration == r.3 && t.total_float == r.4 && t.free_float == r.5
            }),
    {
        get_task(&self.0, j)
    }

    /// The source and target node indices of the task at edge index `j`.
    pub fn task_endpoints(&self, j: usize) -> (p: (usize, usize))
        requires
            j < graph_tasks(self.0).len(),
        ensures
            p.0 as int == graph_tasks(self.0)[j as int].0,
            p.1 as int == graph_tasks(self.0)[j as int].1,
    {
        task_endpoints(&self.0, j)
    }

    /// Builds the finished network from a raw one: locates the single start
    /// and end nodes, orders the network (rejecting cycles), computes every
    /// event's earliest and latest occurrence time, and derives every task's
    /// float values.
    pub(crate) fn new(graph: PertGraph) -> (r: Result<Pert, PertError>)
        requires
            network_wf(graph),
        ensures
            ({
                let es = arcs_of(graph_tasks(graph));
                let n = graph_events(graph).len() as int;
                match r {
                    Ok(p) => {
                        &&& graph_events(p.0).len() == n
                        &&& graph_tasks(p.0).len() == graph_tasks(graph).len()
                        &&& forall|v: int|
                            0 <= v < n ==> (#[trigger] graph_events(p.0)[v]).0 == graph_events(
                                graph,
                            )[v].0
                        &&& forall|j: int|
                            0 <= j < graph_tasks(graph).len() ==> ({
                                let t0 = graph_tasks(graph)[j];
                                let t1 = #[trigger] graph_tasks(p.0)[j];
                                t1.0 == t0.0 && t1.1 == t0.1 && t1.2 == t0.2 && t1.3 == t0.3
                            })
                        &&& forall|s: int, e: int|
                            is_start_node(es, n, s) && is_end_node(es, n, e) ==> #[trigger] scheduled(
                                p.0,
                                s,
                                e,
                            )
                        &&& exists|s: int, e: int| #[trigger] scheduled(p.0, s, e)
                    },
                    Err(err) => {
                        ||| (err == PertError::NoStartNodeError && (forall|v: int|
                            0 <= v < n ==> has_incoming(es, v)))
                        ||| (err == PertError::DuplicateStartNodeError && (exists|v: int, w: int|
                            0 <= v < w < n && !has_incoming(es, v) && !has_incoming(es, w)))
                        ||| (err == PertError::NoEndNodeError && (exists|s: int|
                            is_start_node(es, n, s)) && (forall|v: int|
                            0 <= v < n ==> has_outgoing(es, v)))
                        ||| (err == PertError::DuplicateEndNodeError && (exists|s: int|
                            is_start_node(es, n, s)) && (exists|v: int, w: int|
                            0 <= v < w < n && !has_outgoing(es, v) && !has_outgoing(es, w)))
                        ||| (err == PertError::CyclicNetworkError && (exists|s: int|
                            is_start_node(es, n, s)) && (exists|e: int|
                            is_end_node(es, n, e)) && !acyclic(es, n))
                    },
                }
            }),
    {
        let ghost ts0 = graph_tasks(graph);
        let ghost ev0 = graph_events(graph);
        let ghost es = arcs_of(ts0);
        let start = match start_node(&graph) {
            Ok(s) => s,
            Err(e) => {
                return Err(e);
            },
        };
        let end = match end_node(&graph) {
            Ok(s) => s,
            Err(e) => {
                return Err(e);
            },
        };
        let n = event_count(&graph);
        let edges = extract_edges(&graph);
        proof {
            assert forall|j2: int| 0 <= j2 < es.len() implies (#[trigger] es[j2]).from < n
                && es[j2].to < n by {
                assert(0 <= ts0[j2].0 < n as int && 0 <= ts0[j2].1 < n as int);
            };
            assert(edges_wf(es, n as int));
        }
        let op = match topo_order(&edges, n) {
            Ok(op) => op,
            Err(e) => {
                return Err(e);
            },
        };
        let (order, pos) = op;
        proof {
            let labels = Seq::new(n as nat, |v: int| ev0[v].0 as int);
            assert forall|i: int, j2: int| 0 <= i < j2 < labels.len() implies labels[i]
                != labels[j2] by {
                assert(ev0[i].0 != ev0[j2].0);
            };
            lemma_injective_bound(labels, 0x1_0000_0000);
        }
        let fb = compute_fastest_begin(&edges, n, &order, &pos, start);
        let lf = compute_latest_finish(&edges, n, &order, &pos, start, end, &fb);
        let mut g = graph;
        let mut v: usize = 0;
        while v < n
            invariant
                v <= n,
                n as int == ev0.len(),
                graph_tasks(g) == ts0,
                graph_events(g).len() == ev0.len(),
                fb@.len() == n,
                lf@.len() == n,
                forall|i: int|
                    0 <= i < v ==> (#[trigger] graph_events(g)[i]) == (ev0[i].0, fb@[i], lf@[i]),
                forall|i: int| v <= i < n ==> (#[trigger] graph_events(g)[i]) == ev0[i],
            decreases n - v,
        {
            set_event_times(&mut g, v, fb[v], lf[v]);
            v += 1;
        }
        let ghost ev1 = graph_events(g);
        let m = task_count(&g);
        let mut j: usize = 0;
        while j < m
            invariant
                j <= m,
                m as int == ts0.len(),
                n as int == ev0.len(),
                graph_events(g) == ev1,
                graph_tasks(g).len() == ts0.len(),
                edges@ == es,
                es == arcs_of(ts0),
                edges_wf(es, n as int),
                fb@.len() == n,
                lf@.len() == n,
                start < n,
                end < n,
                forall|w: int|
                    0 <= w < n ==> is_longest(es, start as int, w, (#[trigger] fb@[w]) as int),
                forall|w: int|
                    0 <= w < n ==> is_longest(
                        es,
                        w,
                        end as int,
                        fb@[end as int] - (#[trigger] lf@[w]) as int,
                    ),
                forall|i: int|
                    0 <= i < m ==> ({
                        let t = #[trigger] ts0[i];
                        0 <= t.0 < n as int && 0 <= t.1 < n as int
                    }),
                forall|i: int|
                    0 <= i < j ==> ({
                        let t = #[trigger] graph_tasks(g)[i];
                        &&& t.0 == ts0[i].0
                        &&& t.1 == ts0[i].1
                        &&& t.2 == ts0[i].2
                        &&& t.3 == ts0[i].3
                        &&& t.4 as int == lf@[t.1] - (fb@[t.0] + t.3)
                        &&& t.5 as int == fb@[t.1] - (fb@[t.0] + t.3)
                    }),
                forall|i: int| j <= i < m ==> (#[trigger] graph_tasks(g)[i]) == ts0[i],
            decreases m - j,
        {
            let e = edges[j];
            proof {
                assert(es[j as int] == e);
                assert(e.from < n && e.to < n);
                let tf = fb@[e.from as int] as int;
                let p = choose|p: Seq<int>|
                    #[trigger] is_path(es, p, start as int, e.from as int) && path_duration(es, p)
                        == tf;
                lemma_edge_path(es, j as int);
                lemma_path_concat(es, p, seq![j as int], start as int, e.from as int, e.to as int);
                assert(is_longest(es, start as int, e.to as int, fb@[e.to as int] as int));
                assert(fb@[e.from as int] + e.duration <= fb@[e.to as int]);
                let tt = fb@[end as int] - lf@[e.to as int] as int;
                assert(is_longest(es, e.to as int, end as int, tt));
                assert forall|p2: Seq<int>| #[trigger] is_path(
                    es,
                    p2,
                    start as int,
                    end as int,
                ) implies path_duration(es, p2) <= fb@[end as int] as int by {
                    assert(is_longest(es, start as int, end as int, fb@[end as int] as int));
                };
                lemma_edge_between(
                    es,
                    start as int,
                    end as int,
                    j as int,
                    tf,
                    tt,
                    fb@[end as int] as int,
                );
                assert(fb@[e.from as int] + e.duration <= lf@[e.to as int]);
            }
            proof {
                assert(ts0[j as int].0 == e.from as int && ts0[j as int].1 == e.to as int);
            }
            let f = compute_floats(e, &fb, &lf);
            set_task_floats(&mut g, j, f.total_float, f.free_float);
            j += 1;
        }
        proof {
            assert(arcs_of(graph_tasks(g)) =~= es);
            assert(is_start_node(es, n as int, start as int));
            assert(is_end_node(es, n as int, end as int));
            assert(graph_events(g)[end as int].1 == fb@[end as int]);
            assert forall|w: int| 0 <= w < n implies is_longest(
                es,
                start as int,
                w,
                (#[trigger] graph_events(g)[w]).1 as int,
            ) by {
                assert(graph_events(g)[w] == (ev0[w].0, fb@[w], lf@[w]));
            };
            assert forall|w: int| 0 <= w < n implies is_latest(
                es,
                w,
                end as int,
                graph_events(g)[end as int].1 as int,
                (#[trigger] graph_events(g)[w]).2 as int,
            ) by {
                assert(graph_events(g)[w] == (ev0[w].0, fb@[w], lf@[w]));
            };
            assert(scheduled(g, start as int, end as int));
            assert forall|s: int, e2: int|
                is_start_node(es, n as int, s) && is_end_node(es, n as int, e2) implies #[trigger] scheduled(
                g,
                s,
                e2,
            ) by {
                assert(s == start as int);
                assert(e2 == end as int);
            };
        }
        Ok(Pert(g))
    }
}

} // verus!
