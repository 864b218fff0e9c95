//! Trusted boundary around the petgraph graph that stores the network.
//!
//! The graph itself is an outside structure; everything the rest of the
//! library knows about it goes through the two content functions
//! `graph_events` and `graph_tasks` and the small wrappers below, whose
//! contracts mirror what petgraph's source shows.

use vstd::prelude::*;

use crate::pert::{Event, Task};

verus! {

#[verifier::external_type_specification]
#[verifier::external_body]
pub struct ExDirected(petgraph::Directed);

#[verifier::external_type_specification]
#[verifier::external_body]
#[verifier::reject_recursive_types(N)]
#[verifier::reject_recursive_types(E)]
#[verifier::reject_recursive_types(Ty)]
#[verifier::reject_recursive_types(Ix)]
pub struct ExGraph<N, E, Ty, Ix>(petgraph::graph::Graph<N, E, Ty, Ix>);

/// The event/task network: a petgraph directed graph with `usize` indices.
pub type PertGraph = petgraph::graph::Graph<Event, Task, petgraph::Directed, usize>;

/// What an event record stored in the graph holds:
/// `(label, fastest_begin, latest_finish)`.
pub type EventRec = (u32, u64, u64);

/// What a task record stored in the graph holds:
/// `(from, to, name, duration, total_float, free_float)`.
pub type TaskRec = (int, int, Seq<char>, u32, u64, u64);

/// The events held by the graph, one record per node, in insertion order.
pub uninterp spec fn graph_events(g: PertGraph) -> Seq<EventRec>;

/// The tasks held by the graph, one record per edge, in insertion order.
pub uninterp spec fn graph_tasks(g: PertGraph) -> Seq<TaskRec>;

/// The record of one event value.
pub open spec fn event_rec(e: Event) -> EventRec {
    (e.label, e.fastest_begin, e.latest_finish)
}

/// The record of one task value hung between two node indices.
pub open spec fn task_rec(from: int, to: int, t: Task) -> TaskRec {
    (from, to, t.name@, t.duration, t.total_float, t.free_float)
}

/// Relies on petgraph's `Graph::with_capacity`: a graph with no nodes and no
/// edges.
#[verifier::external_body]
pub(crate) fn graph_new() -> (g: PertGraph)
    ensures
        graph_events(g) == Seq::<EventRec>::empty(),
        graph_tasks(g) == Seq::<TaskRec>::empty(),
{
    PertGraph::with_capacity(0, 0)
}

/// Relies on petgraph's `Graph::add_node`: appends one node and returns its
/// index, the old node count. With a `usize` index type the index limit is
/// never reached, so the call cannot fail.
#[verifier::external_body]
pub(crate) fn add_event(g: &mut PertGraph, e: Event) -> (i: usize)
    ensures
        graph_events(*final(g)) == graph_events(*old(g)).push(event_rec(e)),
        graph_tasks(*final(g)) == graph_tasks(*old(g)),
        i as int == graph_events(*old(g)).len(),
{
    g.add_node(e).index()
}

/// Relies on petgraph's `Graph::add_edge` on in-bounds endpoints: appends one
/// edge from `a` to `b` and returns its index, the old edge count. With a
/// `usize` index type the index limit is never reached.
#[verifier::external_body]
pub(crate) fn add_task(g: &mut PertGraph, a: usize, b: usize, t: Task) -> (i: usize)
    requires
        a < graph_events(*old(g)).len(),
        b < graph_events(*old(g)).len(),
    ensures
        graph_tasks(*final(g)) == graph_tasks(*old(g)).push(task_rec(a as int, b as int, t)),
        graph_events(*final(g)) == graph_events(*old(g)),
        i as int == graph_tasks(*old(g)).len(),
{
    g.add_edge(
        petgraph::graph::NodeIndex::new(a),
        petgraph::graph::NodeIndex::new(b),
        t,
    ).index()
}

/// Relies on petgraph's `Graph::node_count`: the number of nodes.
#[verifier::external_body]
pub(crate) fn event_count(g: &PertGraph) -> (n: usize)
    ensures
        n as int == graph_events(*g).len(),
{
    g.node_count()
}

/// Relies on petgraph's `Graph::edge_count`: the number of edges.
#[verifier::external_body]
pub(crate) fn task_count(g: &PertGraph) -> (n: usize)
    ensures
        n as int == graph_tasks(*g).len(),
{
    g.edge_count()
}

/// Relies on petgraph's `Graph::node_weight` on an in-bounds index: the event
/// stored at slot `i`.
#[verifier::external_body]
pub(crate) fn get_event(g: &PertGraph, i: usize) -> (e: Event)
    requires
        i < graph_events(*g).len(),
    ensures
        event_rec(e) == graph_events(*g)[i as int],
{
    *g.node_weight(petgraph::graph::NodeIndex::new(i)).unwrap()
}

/// Relies on petgraph's `Graph::edge_weight` on an in-bounds index: the task
/// stored at slot `i`.
#[verifier::external_body]
pub(crate) fn get_task(g: &PertGraph, i: usize) -> (t: Task)
    requires
        i < graph_tasks(*g).len(),
    ensures
        ({
            let r = graph_tasks(*g)[i as int];
            t.name@ == r.2 && t.duration == r.3 && t.total_float == r.4 && t.free_float == r.5
        }),
{
    let t = g.edge_weight(petgraph::graph::EdgeIndex::new(i)).unwrap();
    Task { name: t.name.clone(), duration: t.duration, total_float: t.total_float, free_float: t.free_float }
}

/// Relies on petgraph's `Graph::edge_endpoints` on an in-bounds index: the
/// source and target node indices of edge `i`.
#[verifier::external_body]
pub(crate) fn task_endpoints(g: &PertGraph, i: usize) -> (p: (usize, usize))
    requires
        i < graph_tasks(*g).len(),
    ensures
        p.0 as int == graph_tasks(*g)[i as int].0,
        p.1 as int == graph_tasks(*g)[i as int].1,
{
    let (a, b) = g.edge_endpoints(petgraph::graph::EdgeIndex::new(i)).unwrap();
    (a.index(), b.index())
}

/// Relies on petgraph's `Graph::node_weight_mut` on an in-bounds index:
/// overwrites the occurrence times of the event stored at slot `i`.
#[verifier::external_body]
pub(crate) fn set_event_times(g: &mut PertGraph, i: usize, fb: u64, lf: u64)
    requires
        i < graph_events(*old(g)).len(),
    ensures
        graph_events(*final(g)) == graph_events(*old(g)).update(
            i as int,
            (graph_events(*old(g))[i as int].0, fb, lf),
        ),
        graph_tasks(*final(g)) == graph_tasks(*old(g)),
{
    let w = g.node_weight_mut(petgraph::graph::NodeIndex::new(i)).unwrap();
    w.fastest_begin = fb;
    w.latest_finish = lf;
}

/// Relies on petgraph's `Graph::edge_weight_mut` on an in-bounds index:
/// overwrites the float values of the task stored at slot `i`.
#[verifier::external_body]
pub(crate) fn set_task_floats(g: &mut PertGraph, i: usize, total: u64, free: u64)
    requires
        i < graph_tasks(*old(g)).len(),
    ensures
        graph_tasks(*final(g)) == graph_tasks(*old(g)).update(
            i as int,
            ({
                let r = graph_tasks(*old(g))[i as int];
                (r.0, r.1, r.2, r.3, total, free)
            }),
        ),
        graph_events(*final(g)) == graph_events(*old(g)),
{
    let w = g.edge_weight_mut(petgraph::graph::EdgeIndex::new(i)).unwrap();
    w.total_float = total;
    w.free_float = free;
}

} // verus!
